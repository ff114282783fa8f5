//! One check of a document: which chunks have to go to the checker, and
//! what becomes of its answers.
//!
//! The checker itself is not called from here. A pass tells its caller
//! which text to check next, the caller has it checked, and hands the
//! answer back.

use vstd::prelude::*;
use crate::cache::{Cache, Held, Key};
use crate::collector::{collected, FileCollector};
use crate::diagnostic::{clone_suggestions, diagnostic_views, suggestion_views, Diagnostic,
    DiagnosticView, Suggestion, SuggestionView};
use crate::layout::PieceView;
use crate::mapping::{long_code, long_language_of, Mapping};
use crate::source::{Source, World};
use crate::syntax::FileId;
use crate::table::Table;
use crate::words::WordSet;

verus! {

/// The language code to check a chunk in: the one that `overrides` gives
/// for the short code of the chunk, else the usual long code.
pub open spec fn resolved_code(short: Seq<char>, overrides: Map<Seq<char>, String>) -> Seq<char> {
    if overrides.contains_key(short) {
        overrides[short]@
    } else {
        long_code(short)
    }
}

/// The language code to check the chunk of `mapping` in.
pub fn resolve_language(mapping: &Mapping, overrides: &Table<String>) -> (code: String)
    ensures
        code@ == resolved_code(mapping.language@, overrides@),
{
    match overrides.get(mapping.short_language()) {
        Some(code) => code.clone(),
        None => long_language_of(mapping.short_language()),
    }
}

/// What the outcome of a check depends on besides the chunks: the
/// sources of the document, the file that is asked for, and the
/// functions to ignore.
pub ghost struct Context {
    pub sources: Seq<Source>,
    pub file: Option<FileId>,
    pub ignore: Set<Seq<char>>,
}

/// What the cache knows a chunk by: its text and the language to check
/// it in.
pub open spec fn key_of(piece: PieceView) -> Key {
    (piece.text, piece.language)
}

/// The state of a pass: the cache of the check before as the pass was
/// given it, what is left of that cache, the cache that is being built,
/// the diagnostics so far, the number of chunks that are dealt with, and
/// the number of them that the checker had to look at.
pub ghost struct PassView {
    pub given: Held,
    pub old: Held,
    pub fresh: Held,
    pub found: Seq<DiagnosticView>,
    pub index: nat,
    pub calls: nat,
}

impl PassView {
    /// The state before the first chunk.
    pub open spec fn begin(cache: Held) -> PassView {
        PassView {
            given: cache,
            old: cache,
            fresh: Map::empty(),
            found: Seq::empty(),
            index: 0,
            calls: 0,
        }
    }

    /// Whether the cache of the check before answers for `piece`: it
    /// holds the same text, checked in the same language.
    pub open spec fn hits(self, piece: PieceView) -> bool {
        self.old.contains_key(key_of(piece))
    }

    /// The state after `piece` was dealt with. If the cache answers for
    /// it, the checker is not asked, and the answer leaves the old cache;
    /// else `answer` is what the checker said. Either way the answer
    /// enters the new cache.
    pub open spec fn step(self, piece: PieceView, answer: Seq<SuggestionView>, ctx: Context) -> PassView {
        let suggestions = if self.hits(piece) {
            self.old[key_of(piece)]
        } else {
            answer
        };
        PassView {
            given: self.given,
            old: self.old.remove(key_of(piece)),
            fresh: self.fresh.insert(key_of(piece), suggestions),
            found: self.found + collected(
                suggestions,
                suggestions.len() as int,
                piece.entries,
                ctx.sources,
                ctx.file,
                ctx.ignore,
            ),
            index: self.index + 1,
            calls: if self.hits(piece) {
                self.calls
            } else {
                self.calls + 1
            },
        }
    }

    /// The state after the chunks from the current one up to `to` were
    /// dealt with, where `answers` holds for each chunk what the checker
    /// says of it.
    pub open spec fn run(
        self,
        pieces: Seq<PieceView>,
        answers: Seq<Seq<SuggestionView>>,
        to: int,
        ctx: Context,
    ) -> PassView
        decreases to,
    {
        if self.index < to <= pieces.len() && to <= answers.len() {
            self.run(pieces, answers, to - 1, ctx).step(pieces[to - 1], answers[to - 1], ctx)
        } else {
            self
        }
    }

    /// The state after all chunks that the cache answers for, up to the
    /// first that it does not answer for, were dealt with.
    pub open spec fn settled(self, pieces: Seq<PieceView>, ctx: Context) -> PassView
        decreases pieces.len() - self.index,
    {
        if self.index < pieces.len() {
            let piece = pieces[self.index as int];
            if self.hits(piece) {
                self.step(piece, Seq::empty(), ctx).settled(pieces, ctx)
            } else {
                self
            }
        } else {
            self
        }
    }
}

/// A text for the checker, and the language to check it in.
#[derive(Clone, Debug, PartialEq, Eq)]
pub struct Request {
    pub language: String,
    pub text: String,
}

/// A chunk with the language to check it in.
struct Job {
    text: String,
    mapping: Mapping,
    language: String,
}

/// An answer that a pass took out of the cache of the check before.
struct Taken {
    text: String,
    language: String,
    suggestions: Vec<Suggestion>,
}

/// What the cache knew `taken` by.
spec fn taken_key(taken: Taken) -> Key {
    (taken.text@, taken.language@)
}

/// Whether `given` is `cache` with the answers of `taken` put back:
/// every answer that was taken is one that `given` holds, and what
/// `given` holds is still in `cache` or was taken.
spec fn restores(cache: Held, taken: Seq<Taken>, given: Held) -> bool {
    &&& forall|key: Key| #[trigger]
        cache.contains_key(key) ==> given.contains_key(key) && cache[key] == given[key]
    &&& forall|key: Key| #[trigger]
        given.contains_key(key) ==> cache.contains_key(key) || taken_from(taken, 0, key)
    &&& forall|j: int|
        0 <= j < taken.len() ==> given.contains_key(taken_key(#[trigger] taken[j]))
            && given[taken_key(taken[j])] == suggestion_views(taken[j].suggestions@)
}

/// Whether one of `taken`, from index `from` on, was known by `key`.
spec fn taken_from(taken: Seq<Taken>, from: int, key: Key) -> bool {
    exists|j: int| from <= j < taken.len() && taken_key(#[trigger] taken[j]) == key
}

/// Takes what `cache` holds for `text` in `language` out of it, and
/// keeps a copy in `taken`.
fn look_up(
    cache: &mut Cache,
    taken: &mut Vec<Taken>,
    text: &str,
    language: &str,
    Ghost(given): Ghost<Held>,
) -> (found: Option<Vec<Suggestion>>)
    requires
        restores(old(cache)@, old(taken)@, given),
    ensures
        found is Some <==> old(cache)@.contains_key((text@, language@)),
        found is Some ==> suggestion_views(found->0@) == old(cache)@[(text@, language@)],
        final(cache)@ == old(cache)@.remove((text@, language@)),
        restores(final(cache)@, final(taken)@, given),
{
    let found = cache.get(text, language);
    match &found {
        Some(suggestions) => {
            let copy = Taken {
                text: text.to_owned(),
                language: language.to_owned(),
                suggestions: clone_suggestions(suggestions),
            };
            taken.push(copy);
            proof {
                let n = old(taken)@.len() as int;
                assert(taken_key(taken@[n]) == (text@, language@));
                assert forall|key: Key| #[trigger]
                    given.contains_key(key) implies cache@.contains_key(key) || taken_from(
                    taken@,
                    0,
                    key,
                ) by {
                    if key == (text@, language@) {
                        assert(taken_key(taken@[n]) == key);
                    } else if !old(cache)@.contains_key(key) {
                        assert(taken_from(old(taken)@, 0, key));
                        let j = choose|j: int|
                            0 <= j < old(taken)@.len() && taken_key(#[trigger] old(taken)@[j])
                                == key;
                        assert(taken@[j] == old(taken)@[j]);
                    }
                }
                assert forall|j: int| 0 <= j < taken@.len() implies given.contains_key(
                    taken_key(#[trigger] taken@[j]),
                ) && given[taken_key(taken@[j])] == suggestion_views(taken@[j].suggestions@) by {
                    if j < n {
                        assert(taken@[j] == old(taken)@[j]);
                    }
                }
            }
        },
        None => {},
    }
    found
}

/// The cache of the check before: what it held when the pass was given
/// it, what is left of it, and what the pass took out of it.
struct Previous {
    given: Ghost<Held>,
    cache: Cache,
    taken: Vec<Taken>,
}

impl Previous {
    /// What was taken out of the cache can be put back.
    #[verifier::type_invariant]
    spec fn restorable(self) -> bool {
        restores(self.cache@, self.taken@, self.given@)
    }

    /// The cache as a pass is given it.
    fn new(cache: Cache) -> (previous: Previous)
        ensures
            previous.given@ == cache@,
            previous.cache@ == cache@,
    {
        Previous { given: Ghost(cache@), cache, taken: Vec::new() }
    }

    /// Takes what the cache holds for `text` in `language` out of it.
    fn look_up(self, text: &str, language: &str) -> (result: (Option<Vec<Suggestion>>, Previous))
        ensures
            result.0 is Some <==> self.cache@.contains_key((text@, language@)),
            result.0 is Some ==> suggestion_views(result.0->0@) == self.cache@[(text@, language@)],
            result.1.cache@ == self.cache@.remove((text@, language@)),
            result.1.given@ == self.given@,
    {
        proof {
            use_type_invariant(&self);
        }
        let ghost given = self.given@;
        let mut cache = self.cache;
        let mut taken = self.taken;
        let found = look_up(&mut cache, &mut taken, text, language, Ghost(given));
        (found, Previous { given: Ghost(given), cache, taken })
    }

    /// The cache as the pass was given it.
    fn restore(self) -> (cache: Cache)
        ensures
            cache@ == self.given@,
    {
        proof {
            use_type_invariant(&self);
        }
        let ghost given = self.given@;
        let taken = self.taken;
        let mut cache = self.cache;
        let mut i: usize = 0;
        while i < taken.len()
            invariant
                0 <= i <= taken@.len(),
                forall|key: Key| #[trigger]
                    cache@.contains_key(key) ==> given.contains_key(key) && cache@[key]
                        == given[key],
                forall|key: Key| #[trigger]
                    given.contains_key(key) ==> cache@.contains_key(key) || taken_from(
                        taken@,
                        i as int,
                        key,
                    ),
                forall|j: int|
                    0 <= j < taken@.len() ==> given.contains_key(taken_key(#[trigger] taken@[j]))
                        && given[taken_key(taken@[j])] == suggestion_views(
                        taken@[j].suggestions@,
                    ),
            decreases taken@.len() - i,
        {
            let ghost before = cache@;
            let answer = &taken[i];
            cache.insert(
                answer.text.clone(),
                answer.language.clone(),
                clone_suggestions(&answer.suggestions),
            );
            proof {
                assert(cache@ == before.insert(
                    taken_key(taken@[i as int]),
                    suggestion_views(taken@[i as int].suggestions@),
                ));
                assert forall|key: Key| #[trigger]
                    given.contains_key(key) implies cache@.contains_key(key) || taken_from(
                    taken@,
                    i + 1,
                    key,
                ) by {
                    if !before.contains_key(key) {
                        let j = choose|j: int|
                            i <= j < taken@.len() && taken_key(#[trigger] taken@[j]) == key;
                        if j > i {
                            assert(i + 1 <= j < taken@.len() && taken_key(taken@[j]) == key);
                        }
                    }
                }
            }
            i += 1;
        }
        assert(cache@ =~= given) by {
            assert forall|key: Key| given.contains_key(key) implies cache@.contains_key(
                key,
            ) by {
                if !cache@.contains_key(key) {
                    assert(taken_from(taken@, i as int, key));
                }
            }
        }
        cache
    }
}

/// One check of a document.
pub struct CheckPass {
    jobs: Vec<Job>,
    index: usize,
    calls: Ghost<nat>,
    previous: Previous,
    fresh: Cache,
    collector: FileCollector,
}

impl CheckPass {
    /// The state of the pass.
    pub closed spec fn view(&self) -> PassView {
        PassView {
            given: self.previous.given@,
            old: self.previous.cache@,
            fresh: self.fresh@,
            found: self.collector@,
            index: self.index as nat,
            calls: self.calls@,
        }
    }

    /// The chunks of the pass, each with the language to check it in.
    pub closed spec fn pieces(&self) -> Seq<PieceView> {
        Seq::new(
            self.jobs@.len(),
            |i: int|
                PieceView {
                    text: self.jobs@[i].text@,
                    entries: self.jobs@[i].mapping.chars@,
                    language: self.jobs@[i].language@,
                },
        )
    }

    /// The file that diagnostics are collected for, if it is one alone.
    pub closed spec fn file(&self) -> Option<FileId> {
        self.collector.file()
    }

    /// The context of a step of the pass.
    pub open spec fn context(&self, world: &World, ignore: &WordSet) -> Context {
        Context { sources: world.sources@, file: self.file(), ignore: ignore@ }
    }

    /// A pass over `chunks` with the cache of the check before. Each chunk
    /// is checked in the language that `languages` gives for its short
    /// code, else in the usual long code.
    pub fn new(
        chunks: Vec<(String, Mapping)>,
        languages: &Table<String>,
        cache: Cache,
        file_id: Option<FileId>,
    ) -> (pass: CheckPass)
        ensures
            pass@ == PassView::begin(cache@),
            pass.file() == file_id,
            pass.pieces().len() == chunks@.len(),
            forall|i: int|
                0 <= i < chunks@.len() ==> #[trigger] pass.pieces()[i] == (PieceView {
                    text: chunks@[i].0@,
                    entries: chunks@[i].1.chars@,
                    language: resolved_code(chunks@[i].1.language@, languages@),
                }),
    {
        let mut chunks = chunks;
        let ghost all = chunks@;
        let mut reversed: Vec<Job> = Vec::new();
        while chunks.len() > 0
            invariant
                chunks@ == all.take(chunks@.len() as int),
                reversed@.len() == all.len() - chunks@.len(),
                forall|k: int|
                    0 <= k < reversed@.len() ==> {
                        let i = all.len() - 1 - k;
                        &&& (#[trigger] reversed@[k]).text@ == all[i].0@
                        &&& reversed@[k].mapping.chars@ == all[i].1.chars@
                        &&& reversed@[k].language@ == resolved_code(all[i].1.language@, languages@)
                    },
            decreases chunks@.len(),
        {
            let (text, mapping) = chunks.pop().unwrap();
            let language = resolve_language(&mapping, languages);
            reversed.push(Job { text, mapping, language });
        }
        let mut jobs: Vec<Job> = Vec::new();
        while reversed.len() > 0
            invariant
                jobs@.len() + reversed@.len() == all.len(),
                forall|k: int|
                    0 <= k < reversed@.len() ==> {
                        let i = all.len() - 1 - k;
                        &&& (#[trigger] reversed@[k]).text@ == all[i].0@
                        &&& reversed@[k].mapping.chars@ == all[i].1.chars@
                        &&& reversed@[k].language@ == resolved_code(all[i].1.language@, languages@)
                    },
                forall|i: int|
                    0 <= i < jobs@.len() ==> {
                        &&& (#[trigger] jobs@[i]).text@ == all[i].0@
                        &&& jobs@[i].mapping.chars@ == all[i].1.chars@
                        &&& jobs@[i].language@ == resolved_code(all[i].1.language@, languages@)
                    },
            decreases reversed@.len(),
        {
            let job = reversed.pop().unwrap();
            jobs.push(job);
        }
        CheckPass {
            jobs,
            index: 0,
            calls: Ghost(0),
            previous: Previous::new(cache),
            fresh: Cache::new(),
            collector: FileCollector::new(file_id),
        }
    }

    /// Takes what the cache of the check before holds for the chunk in
    /// turn out of it.
    fn cached(&mut self) -> (found: Option<Vec<Suggestion>>)
        requires
            old(self).index < old(self).jobs@.len(),
        ensures
            final(self).jobs == old(self).jobs,
            final(self).index == old(self).index,
            final(self).calls == old(self).calls,
            final(self).fresh == old(self).fresh,
            final(self).collector == old(self).collector,
            final(self).previous.given@ == old(self).previous.given@,
            final(self).previous.cache@ == old(self).previous.cache@.remove(
                key_of(old(self).pieces()[old(self).index as int]),
            ),
            found is Some <==> old(self)@.hits(old(self).pieces()[old(self).index as int]),
            found is Some ==> suggestion_views(found->0@) == old(self).previous.cache@[key_of(
                old(self).pieces()[old(self).index as int],
            )],
    {
        let mut previous = Previous::new(Cache::new());
        core::mem::swap(&mut self.previous, &mut previous);
        let job = &self.jobs[self.index];
        let (found, previous) = previous.look_up(job.text.as_str(), job.language.as_str());
        self.previous = previous;
        found
    }

    /// Deals with the chunk in turn: `suggestions` are what goes into the
    /// diagnostics and into the new cache.
    fn take(&mut self, suggestions: Vec<Suggestion>, world: &World, ignore: &WordSet)
        requires
            old(self).index < old(self).jobs@.len(),
        ensures
            final(self).jobs == old(self).jobs,
            final(self).calls == old(self).calls,
            final(self).previous == old(self).previous,
            final(self).file() == old(self).file(),
            final(self).index == old(self).index + 1,
            final(self).fresh@ == old(self).fresh@.insert(
                key_of(old(self).pieces()[old(self).index as int]),
                suggestion_views(suggestions@),
            ),
            final(self).collector@ == old(self).collector@ + collected(
                suggestion_views(suggestions@),
                suggestions@.len() as int,
                old(self).pieces()[old(self).index as int].entries,
                world.sources@,
                old(self).file(),
                ignore@,
            ),
    {
        let job = &self.jobs[self.index];
        self.collector.add(world, &suggestions, &job.mapping, ignore);
        self.fresh.insert(job.text.clone(), job.language.clone(), suggestions);
        let count = self.jobs.len();
        assert(self.index < count);
        self.index = self.index + 1;
    }

    /// Deals with all chunks that the cache answers for, up to the first
    /// that it does not answer for. Gives that chunk as a request for the
    /// checker, or `None` when no chunk is left.
    pub fn next(&mut self, world: &World, ignore: &WordSet) -> (request: Option<Request>)
        ensures
            final(self).pieces() == old(self).pieces(),
            final(self).file() == old(self).file(),
            final(self)@ == old(self)@.settled(old(self).pieces(), old(self).context(world, ignore)),
            request is None <==> final(self)@.index >= final(self).pieces().len(),
            request is Some ==> ({
                let piece = final(self).pieces()[final(self)@.index as int];
                request->0.text@ == piece.text && request->0.language@ == piece.language
            }),
    {
        let ghost pieces = self.pieces();
        let ghost ctx = self.context(world, ignore);
        while self.index < self.jobs.len()
            invariant
                pieces == old(self).pieces(),
                ctx == old(self).context(world, ignore),
                self.pieces() == pieces,
                self.context(world, ignore) == ctx,
                self.file() == old(self).file(),
                self@.settled(pieces, ctx) == old(self)@.settled(pieces, ctx),
            decreases self.jobs@.len() - self.index,
        {
            let ghost before = self@;
            let ghost piece = pieces[self.index as int];
            match self.cached() {
                Some(suggestions) => {
                    self.take(suggestions, world, ignore);
                    assert(self@ == before.step(piece, Seq::empty(), ctx));
                },
                None => {
                    let job = &self.jobs[self.index];
                    let request = Request {
                        language: job.language.clone(),
                        text: job.text.clone(),
                    };
                    assert(self.previous.cache@ =~= before.old);
                    assert(self@ == before.settled(pieces, ctx));
                    return Some(request);
                },
            }
        }
        None
    }

    /// Hands the pass what the checker said of the chunk in turn. If the
    /// cache answers for that chunk, the cache is followed instead; if no
    /// chunk is left, nothing changes.
    pub fn supply(&mut self, suggestions: Vec<Suggestion>, world: &World, ignore: &WordSet)
        ensures
            final(self).pieces() == old(self).pieces(),
            final(self).file() == old(self).file(),
            final(self)@ == if old(self)@.index < old(self).pieces().len() {
                old(self)@.step(
                    old(self).pieces()[old(self)@.index as int],
                    suggestion_views(suggestions@),
                    old(self).context(world, ignore),
                )
            } else {
                old(self)@
            },
    {
        if self.index >= self.jobs.len() {
            return ;
        }
        match self.cached() {
            Some(cached) => {
                self.take(cached, world, ignore);
            },
            None => {
                assert(self.previous.cache@ =~= old(self).previous.cache@);
                self.calls = Ghost((self.calls@ + 1) as nat);
                self.take(suggestions, world, ignore);
            },
        }
    }

    /// Ends the pass: gives the diagnostics, and the cache for the next
    /// check in place of the old one.
    pub fn finish(self) -> (result: (Vec<Diagnostic>, Cache))
        ensures
            diagnostic_views(result.0@) == self@.found,
            result.1@ == self@.fresh,
    {
        (self.collector.finish(), self.fresh)
    }

    /// Gives the pass up, as when the checker fails: gives the
    /// diagnostics of the chunks that were dealt with, and the cache of
    /// the check before as the pass was given it.
    pub fn abandon(self) -> (result: (Vec<Diagnostic>, Cache))
        ensures
            diagnostic_views(result.0@) == self@.found,
            result.1@ == self@.given,
    {
        (self.collector.finish(), self.previous.restore())
    }
}

} // verus!

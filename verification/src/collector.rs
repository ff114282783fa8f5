//! Turns what a checker reports of the chunks of a document into
//! diagnostics that are placed in the sources.

use vstd::prelude::*;
use crate::diagnostic::{
    diagnostic_views, suggestion_views, texts, Diagnostic, DiagnosticView, Location, Suggestion,
    SuggestionView,
};
use crate::mapping::{locations, selected, MapEntry, Mapping};
use crate::source::{source_of, Source, World};
use crate::syntax::FileId;
use crate::text::{blank, is_blank};
use crate::words::WordSet;

verus! {

/// Those of the first `count` of `replacements` that are not blank.
pub open spec fn presentable(replacements: Seq<Seq<char>>, count: int) -> Seq<Seq<char>>
    decreases count,
{
    if 0 < count <= replacements.len() {
        let before = presentable(replacements, count - 1);
        if blank(replacements[count - 1]) {
            before
        } else {
            before.push(replacements[count - 1])
        }
    } else {
        Seq::empty()
    }
}

/// The places that a suggestion is about, looked for in `file` alone if
/// one is given. Where `file` is given and the document has no source for
/// it, there is no place.
pub open spec fn located(
    suggestion: SuggestionView,
    entries: Seq<MapEntry>,
    sources: Seq<Source>,
    file: Option<FileId>,
    ignore: Set<Seq<char>>,
) -> Seq<Location> {
    let picked = selected(entries, suggestion.start as int, suggestion.end as int);
    match file {
        None => locations(picked, sources, None, ignore),
        Some(id) => match source_of(sources, id) {
            Some(source) => locations(picked, sources, Some(source), ignore),
            None => Seq::empty(),
        },
    }
}

/// The diagnostic for a suggestion with the places `locations`.
pub open spec fn diagnosed(suggestion: SuggestionView, locations: Seq<Location>) -> DiagnosticView {
    DiagnosticView {
        locations,
        message: suggestion.message,
        replacements: presentable(suggestion.replacements, suggestion.replacements.len() as int),
        rule_description: suggestion.rule_description,
        rule_id: suggestion.rule_id,
    }
}

/// The diagnostics for the first `count` of `suggestions`, in order. A
/// suggestion without a place gives none.
pub open spec fn collected(
    suggestions: Seq<SuggestionView>,
    count: int,
    entries: Seq<MapEntry>,
    sources: Seq<Source>,
    file: Option<FileId>,
    ignore: Set<Seq<char>>,
) -> Seq<DiagnosticView>
    decreases count,
{
    if 0 < count <= suggestions.len() {
        let before = collected(suggestions, count - 1, entries, sources, file, ignore);
        let places = located(suggestions[count - 1], entries, sources, file, ignore);
        if places.len() == 0 {
            before
        } else {
            before.push(diagnosed(suggestions[count - 1], places))
        }
    } else {
        Seq::empty()
    }
}

/// Those of `replacements` that are not blank.
pub fn presentable_replacements(replacements: &Vec<String>) -> (kept: Vec<String>)
    ensures
        texts(kept@) == presentable(texts(replacements@), replacements@.len() as int),
{
    let mut kept: Vec<String> = Vec::new();
    let mut i: usize = 0;
    assert(texts(kept@) =~= Seq::empty());
    while i < replacements.len()
        invariant
            0 <= i <= replacements@.len(),
            texts(kept@) == presentable(texts(replacements@), i as int),
        decreases replacements@.len() - i,
    {
        let ghost before = kept@;
        if !is_blank(replacements[i].as_str()) {
            kept.push(replacements[i].clone());
            assert(texts(kept@) =~= texts(before).push(replacements@[i as int]@));
        }
        i += 1;
    }
    kept
}

/// Collects the diagnostics of one check of a document.
#[derive(Debug)]
pub struct FileCollector {
    file: Option<FileId>,
    diagnostics: Vec<Diagnostic>,
}

impl FileCollector {
    /// The file that diagnostics are collected for, if it is one alone.
    pub closed spec fn file(&self) -> Option<FileId> {
        self.file
    }

    /// The diagnostics collected so far.
    pub closed spec fn view(&self) -> Seq<DiagnosticView> {
        diagnostic_views(self.diagnostics@)
    }

    /// A collector for the diagnostics of `file_id`, or of all files if
    /// none is given.
    pub fn new(file_id: Option<FileId>) -> (collector: FileCollector)
        ensures
            collector.file() == file_id,
            collector@ == Seq::<DiagnosticView>::empty(),
    {
        let collector = FileCollector { file: file_id, diagnostics: Vec::new() };
        assert(collector@ =~= Seq::<DiagnosticView>::empty());
        collector
    }

    /// Adds the diagnostics for what a checker reported of one chunk.
    /// Suggestions without a place in the sources are dropped.
    pub fn add(
        &mut self,
        world: &World,
        suggestions: &Vec<Suggestion>,
        mapping: &Mapping,
        ignore_functions: &WordSet,
    )
        ensures
            final(self).file() == old(self).file(),
            final(self)@ == old(self)@ + collected(
                suggestion_views(suggestions@),
                suggestions@.len() as int,
                mapping.chars@,
                world.sources@,
                old(self).file(),
                ignore_functions@,
            ),
    {
        let ghost views = suggestion_views(suggestions@);
        let source: Option<&Source> = match self.file {
            Some(id) => match world.source(id) {
                Some(source) => Some(source),
                None => {
                    proof {
                        lemma_nothing_collected(
                            views,
                            views.len() as int,
                            mapping.chars@,
                            world.sources@,
                            id,
                            ignore_functions@,
                        );
                        assert(self@ + Seq::<DiagnosticView>::empty() =~= self@);
                    }
                    return ;
                },
            },
            None => None,
        };
        let mut i: usize = 0;
        assert(self@ + Seq::<DiagnosticView>::empty() =~= self@);
        while i < suggestions.len()
            invariant
                0 <= i <= suggestions@.len(),
                views == suggestion_views(suggestions@),
                self.file == old(self).file,
                match self.file {
                    Some(id) => source is Some && source_of(world.sources@, id) == Some(
                        *source->0,
                    ),
                    None => source is None,
                },
                self@ == old(self)@ + collected(
                    views,
                    i as int,
                    mapping.chars@,
                    world.sources@,
                    self.file,
                    ignore_functions@,
                ),
            decreases suggestions@.len() - i,
        {
            let suggestion = &suggestions[i];
            let ghost before = self.diagnostics@;
            assert(views[i as int] == suggestion@);
            let places = mapping.location(suggestion, world, source, ignore_functions);
            assert(places@ == located(
                suggestion@,
                mapping.chars@,
                world.sources@,
                self.file,
                ignore_functions@,
            ));
            if places.len() > 0 {
                let diagnostic = Diagnostic {
                    locations: places,
                    message: suggestion.message.clone(),
                    replacements: presentable_replacements(&suggestion.replacements),
                    rule_description: suggestion.rule_description.clone(),
                    rule_id: suggestion.rule_id.clone(),
                };
                assert(diagnostic@ == diagnosed(suggestion@, places@));
                self.diagnostics.push(diagnostic);
                assert(diagnostic_views(self.diagnostics@) =~= diagnostic_views(before).push(
                    diagnostic@,
                ));
            }
            i += 1;
            assert(self@ =~= old(self)@ + collected(
                views,
                i as int,
                mapping.chars@,
                world.sources@,
                self.file,
                ignore_functions@,
            ));
        }
    }

    /// The diagnostics that were collected, in the order of the chunks and
    /// of the suggestions for each chunk.
    pub fn finish(self) -> (diagnostics: Vec<Diagnostic>)
        ensures
            diagnostic_views(diagnostics@) == self@,
    {
        self.diagnostics
    }
}

/// Where the file that is asked for has no source, nothing is collected.
pub proof fn lemma_nothing_collected(
    suggestions: Seq<SuggestionView>,
    count: int,
    entries: Seq<MapEntry>,
    sources: Seq<Source>,
    file: FileId,
    ignore: Set<Seq<char>>,
)
    requires
        source_of(sources, file) is None,
    ensures
        collected(suggestions, count, entries, sources, Some(file), ignore).len() == 0,
    decreases count,
{
    if 0 < count <= suggestions.len() {
        lemma_nothing_collected(suggestions, count - 1, entries, sources, file, ignore);
    }
}

} // verus!

//! Remembers what a checker said of a text in a language, so that text
//! which has not changed is not checked again.

use vstd::prelude::*;
use vstd::hash_map::StringHashMap;
use crate::diagnostic::{clone_suggestions, suggestion_views, Suggestion, SuggestionView};
use crate::table::{lookup_from, table_from, Table};
use crate::text::str_eq;

verus! {

/// What an entry of the cache is found by: a text, and the language that
/// it was checked in.
pub type Key = (Seq<char>, Seq<char>);

/// What a cache holds: for a text in a language, what the checker
/// reported of it.
pub type Held = Map<Key, Seq<SuggestionView>>;

/// What `answers` holds for `language`, if anything.
pub open spec fn answer_in(answers: Map<Seq<char>, Vec<Suggestion>>, language: Seq<char>) -> Option<
    Seq<SuggestionView>,
> {
    if answers.contains_key(language) {
        Some(suggestion_views(answers[language]@))
    } else {
        None
    }
}

/// A copy of `answers` that holds nothing for `language`.
fn without(answers: &Table<Vec<Suggestion>>, language: &str) -> (rest: Table<Vec<Suggestion>>)
    ensures
        forall|code: Seq<char>|
            #[trigger] answer_in(rest@, code) == if code == language@ {
                None
            } else {
                answer_in(answers@, code)
            },
{
    let mut rest: Table<Vec<Suggestion>> = Table::new();
    let mut i: usize = answers.entries.len();
    while i > 0
        invariant
            i <= answers.entries@.len(),
            forall|code: Seq<char>|
                #[trigger] answer_in(rest@, code) == if code == language@ {
                    None
                } else {
                    answer_in(table_from(answers.entries@, i as int), code)
                },
        decreases i,
    {
        i -= 1;
        let ghost before = rest@;
        let entry = &answers.entries[i];
        let kept = !str_eq(entry.0.as_str(), language);
        if kept {
            rest.insert(entry.0.clone(), clone_suggestions(&entry.1));
        }
        assert forall|code: Seq<char>|
            #[trigger] answer_in(rest@, code) == if code == language@ {
                None
            } else {
                answer_in(table_from(answers.entries@, i as int), code)
            } by {
            assert(answer_in(before, code) == if code == language@ {
                None
            } else {
                answer_in(table_from(answers.entries@, i + 1), code)
            });
            assert(lookup_from(answers.entries@, i as int, code) == if entry.0@ == code {
                Some(entry.1)
            } else {
                lookup_from(answers.entries@, i + 1, code)
            });
        }
    }
    rest
}

/// The results of one check of a document, by the text of each chunk
/// and the language that it was checked in.
pub struct Cache {
    cache: StringHashMap<Table<Vec<Suggestion>>>,
}

impl Cache {
    /// What the cache holds.
    pub closed spec fn view(&self) -> Held {
        Map::new(
            |key: Key| self.cache@.contains_key(key.0) && self.cache@[key.0]@.contains_key(key.1),
            |key: Key| suggestion_views(self.cache@[key.0]@[key.1]@),
        )
    }

    /// An empty cache.
    pub fn new() -> (cache: Cache)
        ensures
            cache@ == Held::empty(),
    {
        let cache = Cache { cache: StringHashMap::new() };
        assert(cache@ =~= Held::empty());
        cache
    }

    /// Takes what the checker reported of `text` in `lang` out of the
    /// cache. What the cache holds for other texts, and for the same text
    /// in other languages, stays.
    pub fn get(&mut self, text: &str, lang: &str) -> (found: Option<Vec<Suggestion>>)
        ensures
            found is Some <==> old(self)@.contains_key((text@, lang@)),
            found is Some ==> suggestion_views(found->0@) == old(self)@[(text@, lang@)],
            final(self)@ == old(self)@.remove((text@, lang@)),
    {
        let (found, rest) = match self.cache.get(text) {
            Some(answers) => match answers.get(lang) {
                Some(suggestions) => (
                    Some(clone_suggestions(suggestions)),
                    Some(without(answers, lang)),
                ),
                None => (None, None),
            },
            None => (None, None),
        };
        match rest {
            Some(rest) => {
                self.cache.insert(text.to_owned(), rest);
                assert forall|key: Key| #[trigger]
                    self@.contains_key(key) == old(self)@.remove((text@, lang@)).contains_key(
                        key,
                    ) && (self@.contains_key(key) ==> self@[key] == old(self)@[key]) by {
                    if key.0 == text@ {
                        assert(answer_in(rest@, key.1) == if key.1 == lang@ {
                            None
                        } else {
                            answer_in(old(self).cache@[text@]@, key.1)
                        });
                    }
                }
            },
            None => {},
        }
        assert(self@ =~= old(self)@.remove((text@, lang@)));
        found
    }

    /// Remembers that the checker reported `suggestions` of `text` in
    /// `lang`, in place of what the cache held for that text in that
    /// language.
    pub fn insert(&mut self, text: String, lang: String, suggestions: Vec<Suggestion>)
        ensures
            final(self)@ == old(self)@.insert((text@, lang@), suggestion_views(suggestions@)),
    {
        let mut answers = match self.cache.get(text.as_str()) {
            Some(answers) => without(answers, lang.as_str()),
            None => Table::new(),
        };
        let ghost rest = answers@;
        answers.insert(lang, suggestions);
        self.cache.insert(text, answers);
        assert forall|key: Key| #[trigger]
            self@.contains_key(key) == old(self)@.insert(
                (text@, lang@),
                suggestion_views(suggestions@),
            ).contains_key(key) && (self@.contains_key(key) ==> self@[key] == old(self)@.insert(
                (text@, lang@),
                suggestion_views(suggestions@),
            )[key]) by {
            if key.0 == text@ && key.1 != lang@ {
                if old(self).cache@.contains_key(text@) {
                    assert(answer_in(rest, key.1) == answer_in(old(self).cache@[text@]@, key.1));
                } else {
                    assert(answer_in(rest, key.1) is None);
                }
            }
        }
        assert(self@ =~= old(self)@.insert((text@, lang@), suggestion_views(suggestions@)));
    }
}

} // verus!

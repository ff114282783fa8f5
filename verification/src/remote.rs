//! What a checker that runs as a server is sent and what it sends back:
//! the converted text with the way back to the source, and the matches
//! that become suggestions.

use vstd::prelude::*;
use vstd::string::StringExecFns;
use crate::diagnostic::{texts, Suggestion, SuggestionView};
use crate::mapping::{add_capped, capped_sum};
use crate::words::WordSet;

verus! {

/// The state of a [`TextBuilderRemote`]: the text for the checker, for
/// each of its characters the character of the source that it stands for,
/// and the number of characters of the source that were taken in.
pub ghost struct RemoteView {
    pub converted: Seq<char>,
    pub map: Seq<usize>,
    pub position: usize,
}

impl RemoteView {
    /// The state after text was added that the checker reads as it is.
    pub open spec fn add_text(self, text: Seq<char>) -> RemoteView {
        RemoteView {
            converted: self.converted + text,
            map: self.map + Seq::new(text.len(), |i: int| capped_sum(self.position as int, i)),
            position: capped_sum(self.position as int, text.len() as int),
        }
    }

    /// The state after syntax was added that the checker does not see.
    pub open spec fn add_markup(self, markup: Seq<char>) -> RemoteView {
        RemoteView { position: capped_sum(self.position as int, markup.len() as int), ..self }
    }

    /// The state after syntax was added with `text` in its place.
    pub open spec fn add_encoded(self, markup: Seq<char>, text: Seq<char>) -> RemoteView {
        RemoteView {
            converted: self.converted + text,
            map: self.map + Seq::new(text.len(), |i: int| self.position),
            position: capped_sum(self.position as int, markup.len() as int),
        }
    }
}

/// Builds the text for a checker that takes plain text, and keeps for
/// every character of it the place in the source.
#[derive(Debug)]
pub struct TextBuilderRemote {
    converted: String,
    map: Vec<usize>,
    position: usize,
}

impl TextBuilderRemote {
    /// What has been added so far.
    pub closed spec fn view(&self) -> RemoteView {
        RemoteView { converted: self.converted@, map: self.map@, position: self.position }
    }

    /// A builder that holds nothing yet.
    pub fn new() -> (builder: TextBuilderRemote)
        ensures
            builder@ == (RemoteView { converted: Seq::empty(), map: Seq::empty(), position: 0 }),
    {
        let builder = TextBuilderRemote { converted: String::new(), map: Vec::new(), position: 0 };
        assert(builder@.map =~= Seq::empty());
        builder
    }

    /// Adds text that the checker reads as it is.
    pub fn add_text(&mut self, text: &str)
        ensures
            final(self)@ == old(self)@.add_text(text@),
    {
        let count = text.unicode_len();
        self.converted.append(text);
        let ghost before = self.map@;
        let ghost start = self.position;
        let mut i: usize = 0;
        assert(self.map@ =~= before + Seq::new(0, |k: int| capped_sum(start as int, k)));
        while i < count
            invariant
                0 <= i <= count,
                count == text@.len(),
                self.converted@ == old(self).converted@ + text@,
                before == old(self).map@,
                start == old(self).position,
                self.position == capped_sum(start as int, i as int),
                self.map@ == before + Seq::new(i as nat, |k: int| capped_sum(start as int, k)),
            decreases count - i,
        {
            self.map.push(self.position);
            self.position = add_capped(self.position, 1);
            assert(self.map@ =~= before + Seq::new(
                (i + 1) as nat,
                |k: int| capped_sum(start as int, k),
            ));
            i += 1;
        }
    }

    /// Adds syntax that the checker is not to see: the text for the
    /// checker and the places of its characters stay as they are.
    pub fn add_markup(&mut self, markup: &str)
        ensures
            final(self)@ == old(self)@.add_markup(markup@),
            final(self)@.converted == old(self)@.converted,
            final(self)@.map == old(self)@.map,
    {
        self.position = add_capped(self.position, markup.unicode_len());
    }

    /// Adds syntax, and `text` for the checker to read in its place.
    pub fn add_encoded(&mut self, markup: &str, text: &str)
        ensures
            final(self)@ == old(self)@.add_encoded(markup@, text@),
    {
        let count = text.unicode_len();
        self.converted.append(text);
        let ghost before = self.map@;
        let mut i: usize = 0;
        assert(self.map@ =~= before + Seq::new(0, |k: int| self.position));
        while i < count
            invariant
                0 <= i <= count,
                count == text@.len(),
                self.converted@ == old(self).converted@ + text@,
                before == old(self).map@,
                self.position == old(self).position,
                self.map@ == before + Seq::new(i as nat, |k: int| self.position),
            decreases count - i,
        {
            self.map.push(self.position);
            assert(self.map@ =~= before + Seq::new((i + 1) as nat, |k: int| self.position));
            i += 1;
        }
        self.position = add_capped(self.position, markup.unicode_len());
    }

    /// The text for the checker.
    pub fn converted(&self) -> (text: &str)
        ensures
            text@ == self@.converted,
    {
        self.converted.as_str()
    }

    /// The character of the source that the character `offset` of the
    /// text stands for, if the text has that many characters.
    pub fn source_position(&self, offset: usize) -> (position: Option<usize>)
        ensures
            position is Some <==> offset < self@.map.len(),
            position is Some ==> position->0 == self@.map[offset as int],
    {
        if offset < self.map.len() {
            Some(self.map[offset])
        } else {
            None
        }
    }
}

/// What a checker says of one place in the text that it was sent.
#[derive(Clone, Debug, PartialEq, Eq)]
pub struct Match {
    pub offset: usize,
    pub length: usize,
    pub message: String,
    pub rule_id: String,
    pub rule_description: String,
    pub replacements: Vec<String>,
    pub context_text: String,
    pub context_offset: usize,
    pub context_length: usize,
}

/// Whether a match is about a word that is accepted: the `length`
/// characters from character `offset` of `context` on, followed by at
/// least one more character, are one of `allowed`.
pub open spec fn accepted(context: Seq<char>, offset: int, length: int, allowed: Set<Seq<char>>) -> bool {
    &&& length > 0
    &&& offset + length < context.len()
    &&& allowed.contains(context.subrange(offset, offset + length))
}

/// Whether the match with the given context is about an accepted word.
pub fn filter_match(context: &str, offset: usize, length: usize, allowed: &WordSet) -> (skip: bool)
    ensures
        skip == accepted(context@, offset as int, length as int, allowed@),
{
    if length == 0 {
        return false;
    }
    let count = context.unicode_len();
    if offset >= count || length >= count - offset {
        return false;
    }
    let word = context.substring_char(offset, offset + length);
    allowed.contains(word)
}

/// The suggestion that a match stands for.
pub open spec fn suggested(found: Match) -> SuggestionView {
    SuggestionView {
        start: found.offset as nat,
        end: capped_sum(found.offset as int, found.length as int) as nat,
        message: found.message@,
        replacements: texts(found.replacements@),
        rule_description: found.rule_description@,
        rule_id: found.rule_id@,
    }
}

/// Whether a match is left out because it is about an accepted word.
pub open spec fn left_out(found: Match, allowed: Option<Set<Seq<char>>>) -> bool {
    allowed is Some && accepted(
        found.context_text@,
        found.context_offset as int,
        found.context_length as int,
        allowed->0,
    )
}

/// The suggestions for the first `count` of `matches`, without those
/// about accepted words.
pub open spec fn suggestions_of(matches: Seq<Match>, count: int, allowed: Option<Set<Seq<char>>>) -> Seq<
    SuggestionView,
>
    decreases count,
{
    if 0 < count <= matches.len() {
        let before = suggestions_of(matches, count - 1, allowed);
        if left_out(matches[count - 1], allowed) {
            before
        } else {
            before.push(suggested(matches[count - 1]))
        }
    } else {
        Seq::empty()
    }
}

/// Turns the matches of a checker into suggestions, leaving out those
/// about a word of `allowed`.
pub fn suggestions_from(matches: Vec<Match>, allowed: Option<&WordSet>) -> (suggestions: Vec<
    Suggestion,
>)
    ensures
        crate::diagnostic::suggestion_views(suggestions@) == suggestions_of(
            matches@,
            matches@.len() as int,
            match allowed {
                Some(words) => Some(words@),
                None => None,
            },
        ),
{
    let ghost words: Option<Set<Seq<char>>> = match allowed {
        Some(words) => Some(words@),
        None => None,
    };
    let mut suggestions: Vec<Suggestion> = Vec::new();
    let mut i: usize = 0;
    assert(crate::diagnostic::suggestion_views(suggestions@) =~= Seq::empty());
    while i < matches.len()
        invariant
            0 <= i <= matches@.len(),
            words == match allowed {
                Some(w) => Some(w@),
                None => None,
            },
            crate::diagnostic::suggestion_views(suggestions@) == suggestions_of(
                matches@,
                i as int,
                words,
            ),
        decreases matches@.len() - i,
    {
        let found = &matches[i];
        let skip = match allowed {
            Some(words) => filter_match(
                found.context_text.as_str(),
                found.context_offset,
                found.context_length,
                words,
            ),
            None => false,
        };
        if !skip {
            let ghost before = suggestions@;
            let suggestion = Suggestion {
                start: found.offset,
                end: add_capped(found.offset, found.length),
                message: found.message.clone(),
                replacements: crate::diagnostic::clone_strings(&found.replacements),
                rule_description: found.rule_description.clone(),
                rule_id: found.rule_id.clone(),
            };
            suggestions.push(suggestion);
            assert(crate::diagnostic::suggestion_views(suggestions@)
                =~= crate::diagnostic::suggestion_views(before).push(suggested(*found)));
        }
        i += 1;
    }
    suggestions
}

} // verus!

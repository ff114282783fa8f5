//! What a prose checker reports, and what the library makes of it.

use vstd::prelude::*;
use crate::syntax::FileId;

verus! {

/// An issue that a checker found in the text it was given: the half-open
/// range of characters it concerns, what is wrong, which rule says so, and
/// what could stand there instead.
#[derive(Clone, Debug, PartialEq, Eq)]
pub struct Suggestion {
    pub start: usize,
    pub end: usize,
    pub message: String,
    pub replacements: Vec<String>,
    pub rule_description: String,
    pub rule_id: String,
}

/// A range of bytes in one source file.
#[derive(Clone, Copy, Debug, PartialEq, Eq, Structural)]
pub struct Location {
    pub file: FileId,
    pub start: usize,
    pub end: usize,
}

/// An issue placed in the sources of the document.
#[derive(Clone, Debug, PartialEq, Eq)]
pub struct Diagnostic {
    pub locations: Vec<Location>,
    pub message: String,
    pub replacements: Vec<String>,
    pub rule_description: String,
    pub rule_id: String,
}

/// The characters of each of `strings`.
pub open spec fn texts(strings: Seq<String>) -> Seq<Seq<char>> {
    strings.map_values(|s: String| s@)
}

/// Mathematical counterpart of [`Suggestion`].
pub ghost struct SuggestionView {
    pub start: nat,
    pub end: nat,
    pub message: Seq<char>,
    pub replacements: Seq<Seq<char>>,
    pub rule_description: Seq<char>,
    pub rule_id: Seq<char>,
}

impl View for Suggestion {
    type V = SuggestionView;

    open spec fn view(&self) -> SuggestionView {
        SuggestionView {
            start: self.start as nat,
            end: self.end as nat,
            message: self.message@,
            replacements: texts(self.replacements@),
            rule_description: self.rule_description@,
            rule_id: self.rule_id@,
        }
    }
}

/// Mathematical counterpart of [`Diagnostic`].
pub ghost struct DiagnosticView {
    pub locations: Seq<Location>,
    pub message: Seq<char>,
    pub replacements: Seq<Seq<char>>,
    pub rule_description: Seq<char>,
    pub rule_id: Seq<char>,
}

impl View for Diagnostic {
    type V = DiagnosticView;

    open spec fn view(&self) -> DiagnosticView {
        DiagnosticView {
            locations: self.locations@,
            message: self.message@,
            replacements: texts(self.replacements@),
            rule_description: self.rule_description@,
            rule_id: self.rule_id@,
        }
    }
}

/// The views of the elements of `suggestions`.
pub open spec fn suggestion_views(suggestions: Seq<Suggestion>) -> Seq<SuggestionView> {
    suggestions.map_values(|s: Suggestion| s@)
}

/// The views of the elements of `diagnostics`.
pub open spec fn diagnostic_views(diagnostics: Seq<Diagnostic>) -> Seq<DiagnosticView> {
    diagnostics.map_values(|d: Diagnostic| d@)
}

/// A copy of `strings`.
pub fn clone_strings(strings: &Vec<String>) -> (copy: Vec<String>)
    ensures
        texts(copy@) == texts(strings@),
{
    let mut copy: Vec<String> = Vec::new();
    let mut i: usize = 0;
    while i < strings.len()
        invariant
            0 <= i <= strings@.len(),
            copy@.len() == i,
            forall|j: int| 0 <= j < i ==> copy@[j]@ == strings@[j]@,
        decreases strings@.len() - i,
    {
        copy.push(strings[i].clone());
        i += 1;
    }
    assert(texts(copy@) =~= texts(strings@));
    copy
}

impl Suggestion {
    /// A copy of this suggestion.
    pub fn duplicate(&self) -> (copy: Suggestion)
        ensures
            copy@ == self@,
    {
        Suggestion {
            start: self.start,
            end: self.end,
            message: self.message.clone(),
            replacements: clone_strings(&self.replacements),
            rule_description: self.rule_description.clone(),
            rule_id: self.rule_id.clone(),
        }
    }
}

/// A copy of `suggestions`.
pub fn clone_suggestions(suggestions: &Vec<Suggestion>) -> (copy: Vec<Suggestion>)
    ensures
        suggestion_views(copy@) == suggestion_views(suggestions@),
{
    let mut copy: Vec<Suggestion> = Vec::new();
    let mut i: usize = 0;
    while i < suggestions.len()
        invariant
            0 <= i <= suggestions@.len(),
            copy@.len() == i,
            forall|j: int| 0 <= j < i ==> copy@[j]@ == suggestions@[j]@,
        decreases suggestions@.len() - i,
    {
        copy.push(suggestions[i].duplicate());
        i += 1;
    }
    assert(suggestion_views(copy@) =~= suggestion_views(suggestions@));
    copy
}

} // verus!

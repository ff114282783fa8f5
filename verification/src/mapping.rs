//! The position map of a chunk, and the way back from a range of the
//! checked text to places in the sources.

use vstd::prelude::*;
use crate::diagnostic::{Location, Suggestion};
use crate::source::{source_of, Found, FoundView, Source, World};
use crate::syntax::{Span, SyntaxKind};
use crate::words::WordSet;

verus! {

/// Where one character of the checked text comes from: the node that it
/// belongs to and the bytes that it takes up there, counted from the start
/// of the node. A character without a source carries a detached span.
#[derive(Clone, Copy, Debug, PartialEq, Eq, Structural)]
pub struct MapEntry {
    pub span: Span,
    pub start: usize,
    pub end: usize,
}

impl MapEntry {
    /// The entry of a character that has no source.
    pub fn synthetic() -> (entry: MapEntry)
        ensures
            entry == synthetic_entry(),
    {
        MapEntry { span: Span::detached(), start: 0, end: 0 }
    }
}

/// The entry of a character that has no source.
pub open spec fn synthetic_entry() -> MapEntry {
    MapEntry { span: Span { file: None, number: 0 }, start: 0, end: 0 }
}

/// The position map of one chunk: an entry for every character of its
/// text, and the language that the text is written in.
#[derive(Debug)]
pub struct Mapping {
    pub chars: Vec<MapEntry>,
    pub language: String,
}

/// What one character contributes to the place of a suggestion.
pub ghost enum Resolved {
    /// Nothing: the character has no source, its source is not looked for,
    /// its node cannot be found or is to be ignored.
    Nothing,
    /// The bytes of the character itself, inside a node of plain text.
    Exact(Location),
    /// The whole node that the character stands for.
    Whole(Location),
}

/// `a + b`, or the largest machine integer if the sum exceeds it.
pub open spec fn capped_sum(a: int, b: int) -> usize {
    if a + b <= usize::MAX {
        (a + b) as usize
    } else {
        usize::MAX
    }
}

/// The source in which `entry` is looked up: `only`, if one is given and
/// it is the file of the entry, else the source of that file in `sources`.
pub open spec fn source_for(entry: MapEntry, sources: Seq<Source>, only: Option<Source>) -> Option<
    Source,
> {
    match entry.span.file {
        None => None,
        Some(file) => match only {
            Some(source) => if source.file() == file {
                Some(source)
            } else {
                None
            },
            None => source_of(sources, file),
        },
    }
}

/// What a node that was found for `entry` contributes.
pub open spec fn resolve_found(entry: MapEntry, found: FoundView, ignore: Set<Seq<char>>) -> Resolved {
    let file = entry.span.file->0;
    if found.kind == SyntaxKind::Text {
        Resolved::Exact(
            Location {
                file,
                start: capped_sum(found.start, entry.start as int),
                end: capped_sum(found.start, entry.end as int),
            },
        )
    } else if found.kind == SyntaxKind::FuncCall && found.name is Some && ignore.contains(
        found.name->0,
    ) {
        Resolved::Nothing
    } else {
        Resolved::Whole(Location { file, start: found.start as usize, end: found.end as usize })
    }
}

/// What `entry` contributes.
pub open spec fn resolve(
    entry: MapEntry,
    sources: Seq<Source>,
    only: Option<Source>,
    ignore: Set<Seq<char>>,
) -> Resolved {
    match source_for(entry, sources, only) {
        None => Resolved::Nothing,
        Some(source) => match source.lookup(entry.span) {
            None => Resolved::Nothing,
            Some(found) => resolve_found(entry, found, ignore),
        },
    }
}

/// Adds a contribution to the locations collected so far. Bytes of plain
/// text extend the last location if they follow it directly; a whole node
/// is not repeated.
pub open spec fn merged(so_far: Seq<Location>, next: Resolved) -> Seq<Location> {
    match next {
        Resolved::Nothing => so_far,
        Resolved::Exact(loc) => if so_far.len() > 0 && so_far.last().file == loc.file
            && so_far.last().end == loc.start {
            so_far.drop_last().push(Location { end: loc.end, ..so_far.last() })
        } else {
            so_far.push(loc)
        },
        Resolved::Whole(loc) => if so_far.len() > 0 && so_far.last() == loc {
            so_far
        } else {
            so_far.push(loc)
        },
    }
}

/// The locations that the characters `entries` stand for, in order.
pub open spec fn locations(
    entries: Seq<MapEntry>,
    sources: Seq<Source>,
    only: Option<Source>,
    ignore: Set<Seq<char>>,
) -> Seq<Location>
    decreases entries.len(),
{
    if entries.len() == 0 {
        Seq::empty()
    } else {
        merged(
            locations(entries.drop_last(), sources, only, ignore),
            resolve(entries.last(), sources, only, ignore),
        )
    }
}

/// The part of `entries` that the characters from `start` up to `end`
/// select. Positions beyond the text select nothing.
pub open spec fn selected(entries: Seq<MapEntry>, start: int, end: int) -> Seq<MapEntry> {
    let hi = if end <= entries.len() {
        end
    } else {
        entries.len() as int
    };
    if 0 <= start <= hi {
        entries.subrange(start, hi)
    } else {
        Seq::empty()
    }
}

/// The language code that a checker expects for the short code `short`:
/// for the common languages the code with a region, else `short` itself.
pub open spec fn long_code(short: Seq<char>) -> Seq<char> {
    if short == "fr"@ {
        "fr-FR"@
    } else if short == "sv"@ {
        "sv-SE"@
    } else if short == "it"@ {
        "it-IT"@
    } else if short == "es"@ {
        "es-ES"@
    } else if short == "nl"@ {
        "nl-NL"@
    } else if short == "zh"@ {
        "zh-CN"@
    } else if short == "uk"@ {
        "uk-UA"@
    } else if short == "sl"@ {
        "sl-SI"@
    } else if short == "ru"@ {
        "ru-RU"@
    } else if short == "ro"@ {
        "ro-RO"@
    } else if short == "pl"@ {
        "pl-PL"@
    } else if short == "ja"@ {
        "ja-JP"@
    } else if short == "el"@ {
        "el-GR"@
    } else if short == "da"@ {
        "da-DK"@
    } else if short == "ca"@ {
        "ca-ES"@
    } else if short == "pt"@ {
        "pt-PT"@
    } else if short == "en"@ {
        "en-GB"@
    } else if short == "de"@ {
        "de-DE"@
    } else {
        short
    }
}

/// `a + b`, or the largest machine integer if the sum exceeds it.
pub fn add_capped(a: usize, b: usize) -> (sum: usize)
    ensures
        sum == capped_sum(a as int, b as int),
{
    match a.checked_add(b) {
        Some(sum) => sum,
        None => usize::MAX,
    }
}

impl Mapping {
    /// An empty map for text in `language`.
    pub fn new(language: &str) -> (mapping: Mapping)
        ensures
            mapping.chars@.len() == 0,
            mapping.language@ == language@,
    {
        Mapping { chars: Vec::new(), language: language.to_owned() }
    }

    /// The places in the sources that `suggestion` is about.
    ///
    /// Goes through the characters that the suggestion covers. A character
    /// of a plain text node gives its own bytes, joined to the location
    /// before it where the two touch. A character that stands for other
    /// syntax gives the whole node, once. Characters without a source,
    /// from another file than `source` (if one is given), from a file that
    /// `world` does not have, and those of a call of a function named in
    /// `ignore_functions` give nothing.
    pub fn location(
        &self,
        suggestion: &Suggestion,
        world: &World,
        source: Option<&Source>,
        ignore_functions: &WordSet,
    ) -> (found: Vec<Location>)
        ensures
            found@ == locations(
                selected(self.chars@, suggestion.start as int, suggestion.end as int),
                world.sources@,
                match source {
                    Some(s) => Some(*s),
                    None => None,
                },
                ignore_functions@,
            ),
    {
        let ghost only: Option<Source> = match source {
            Some(s) => Some(*s),
            None => None,
        };
        let hi = if suggestion.end <= self.chars.len() {
            suggestion.end
        } else {
            self.chars.len()
        };
        let mut found: Vec<Location> = Vec::new();
        if suggestion.start > hi {
            return found;
        }
        let lo = suggestion.start;
        let ghost picked = self.chars@.subrange(lo as int, hi as int);
        let mut i: usize = lo;
        assert(picked.take(0) =~= Seq::<MapEntry>::empty());
        while i < hi
            invariant
                lo <= i <= hi <= self.chars@.len(),
                picked == self.chars@.subrange(lo as int, hi as int),
                only == match source {
                    Some(s) => Some(*s),
                    None => None,
                },
                found@ == locations(
                    picked.take(i - lo),
                    world.sources@,
                    only,
                    ignore_functions@,
                ),
            decreases hi - i,
        {
            let entry = self.chars[i];
            proof {
                assert(picked.take(i - lo + 1).drop_last() =~= picked.take(i - lo));
                assert(picked.take(i - lo + 1).last() == entry);
            }
            let ghost before = found@;
            let ghost step = resolve(entry, world.sources@, only, ignore_functions@);
            i += 1;
            let file = match entry.span.id() {
                Some(file) => file,
                None => {
                    continue ;
                },
            };
            let origin: &Source = match source {
                Some(s) => {
                    if !(s.id() == file) {
                        continue ;
                    }
                    s
                },
                None => match world.source(file) {
                    Some(s) => s,
                    None => {
                        continue ;
                    },
                },
            };
            let node: Found = match origin.find(entry.span) {
                Some(node) => node,
                None => {
                    continue ;
                },
            };
            assert(step == resolve_found(entry, node@, ignore_functions@));
            match node.kind {
                SyntaxKind::Text => {
                    let start = add_capped(node.start, entry.start);
                    let end = add_capped(node.start, entry.end);
                    let n = found.len();
                    if n > 0 && found[n - 1].file == file && found[n - 1].end == start {
                        let last = found[n - 1];
                        found.set(n - 1, Location { file: last.file, start: last.start, end });
                        assert(found@ =~= merged(before, step));
                    } else {
                        found.push(Location { file, start, end });
                    }
                },
                SyntaxKind::FuncCall => {
                    let ignored = match &node.name {
                        Some(name) => ignore_functions.contains(name.as_str()),
                        None => false,
                    };
                    if !ignored {
                        let whole = Location { file, start: node.start, end: node.end };
                        let n = found.len();
                        if !(n > 0 && found[n - 1] == whole) {
                            found.push(whole);
                        }
                    }
                },
                _ => {
                    let whole = Location { file, start: node.start, end: node.end };
                    let n = found.len();
                    if !(n > 0 && found[n - 1] == whole) {
                        found.push(whole);
                    }
                },
            }
        }
        assert(picked.take(hi - lo) =~= picked);
        found
    }

    /// The language of the text as the document gives it.
    pub fn short_language(&self) -> (code: &str)
        ensures
            code@ == self.language@,
    {
        self.language.as_str()
    }

    /// The language of the text as a checker expects it.
    pub fn long_language(&self) -> (code: String)
        ensures
            code@ == long_code(self.language@),
    {
        long_language_of(self.language.as_str())
    }
}

/// The language code that a checker expects for the short code `short`.
pub fn long_language_of(short: &str) -> (code: String)
    ensures
        code@ == long_code(short@),
{
    let long: &str = if crate::text::str_eq(short, "fr") {
        "fr-FR"
    } else if crate::text::str_eq(short, "sv") {
        "sv-SE"
    } else if crate::text::str_eq(short, "it") {
        "it-IT"
    } else if crate::text::str_eq(short, "es") {
        "es-ES"
    } else if crate::text::str_eq(short, "nl") {
        "nl-NL"
    } else if crate::text::str_eq(short, "zh") {
        "zh-CN"
    } else if crate::text::str_eq(short, "uk") {
        "uk-UA"
    } else if crate::text::str_eq(short, "sl") {
        "sl-SI"
    } else if crate::text::str_eq(short, "ru") {
        "ru-RU"
    } else if crate::text::str_eq(short, "ro") {
        "ro-RO"
    } else if crate::text::str_eq(short, "pl") {
        "pl-PL"
    } else if crate::text::str_eq(short, "ja") {
        "ja-JP"
    } else if crate::text::str_eq(short, "el") {
        "el-GR"
    } else if crate::text::str_eq(short, "da") {
        "da-DK"
    } else if crate::text::str_eq(short, "ca") {
        "ca-ES"
    } else if crate::text::str_eq(short, "pt") {
        "pt-PT"
    } else if crate::text::str_eq(short, "en") {
        "en-GB"
    } else if crate::text::str_eq(short, "de") {
        "de-DE"
    } else {
        short
    };
    long.to_owned()
}

} // verus!

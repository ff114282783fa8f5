//! Extracts the text of a laid-out document: the runs of text on each
//! page, put together again from their positions into words, lines and
//! paragraphs, and cut into chunks of one language.

use vstd::prelude::*;
use vstd::string::StringExecFns;
use crate::laws::{lemma_pieces_aligned, piece_aligned};
use crate::mapping::{synthetic_entry, MapEntry, Mapping};
use crate::syntax::{FileId, Span};
use crate::text::str_eq;

verus! {

/// One shaped glyph of a run of text: the node it comes from, where in the
/// node it starts, how many bytes of the run it takes up, and how many
/// characters of the run it stands for.
#[derive(Clone, Copy, Debug)]
pub struct Glyph {
    pub span: Span,
    pub offset: u16,
    pub len: u16,
    pub chars: usize,
}

/// A run of text at a place on a page. Lengths are whole numbers of a
/// unit that the document fixes; `line_height` is the distance up to which
/// another run counts as standing on the same line, and a negative one
/// counts as zero.
#[derive(Debug)]
pub struct TextItem {
    pub text: String,
    pub lang: String,
    pub x: i64,
    pub y: i64,
    pub width: i64,
    pub line_height: i64,
    pub glyphs: Vec<Glyph>,
}

/// The runs of text of one page, in reading order.
#[derive(Debug)]
pub struct Page {
    pub items: Vec<TextItem>,
}

/// A laid-out document. Two lengths that differ by no more than
/// `tolerance` count as equal; a negative tolerance counts as zero.
#[derive(Debug)]
pub struct PagedDocument {
    pub pages: Vec<Page>,
    pub tolerance: i64,
}

/// Whether `a` and `b` differ by no more than `within`, or are equal
/// where `within` is negative.
pub open spec fn near(a: int, b: int, within: int) -> bool {
    if within < 0 {
        a == b
    } else {
        -within <= a - b <= within
    }
}

/// The entry that each character of `glyph` maps to.
pub open spec fn glyph_entry(glyph: Glyph) -> MapEntry {
    MapEntry {
        span: glyph.span,
        start: glyph.offset as usize,
        end: (glyph.offset + glyph.len) as usize,
    }
}

/// The entries of the characters that the first `count` glyphs stand
/// for, no more than `limit` of them.
pub open spec fn glyph_entries(glyphs: Seq<Glyph>, count: int, limit: nat) -> Seq<MapEntry>
    decreases count,
{
    if 0 < count <= glyphs.len() {
        let before = glyph_entries(glyphs, count - 1, limit);
        let room = limit - before.len();
        let glyph = glyphs[count - 1];
        let take = if glyph.chars <= room {
            glyph.chars as nat
        } else {
            room as nat
        };
        before + Seq::new(take, |i: int| glyph_entry(glyph))
    } else {
        Seq::empty()
    }
}

/// One entry for each of the `len` characters of a run: those of its
/// glyphs in order, and entries without a source for characters that no
/// glyph stands for.
pub open spec fn item_entries(glyphs: Seq<Glyph>, len: nat) -> Seq<MapEntry> {
    let found = glyph_entries(glyphs, glyphs.len() as int, len);
    found + Seq::new((len - found.len()) as nat, |i: int| synthetic_entry())
}

/// The glyphs never give more entries than the limit.
pub proof fn lemma_glyph_entries_len(glyphs: Seq<Glyph>, count: int, limit: nat)
    ensures
        glyph_entries(glyphs, count, limit).len() <= limit,
    decreases count,
{
    if 0 < count <= glyphs.len() {
        lemma_glyph_entries_len(glyphs, count - 1, limit);
    }
}

/// The last entry with a source among `entries`, as the place where the
/// text of its node ends; `otherwise` if there is none.
pub open spec fn last_place(entries: Seq<MapEntry>, otherwise: (Span, usize)) -> (Span, usize)
    decreases entries.len(),
{
    if entries.len() == 0 {
        otherwise
    } else if entries.last().span.file is Some {
        (entries.last().span, entries.last().end)
    } else {
        last_place(entries.drop_last(), otherwise)
    }
}

/// Whether one of `entries` belongs to `file`, or to any file if none is
/// asked for.
pub open spec fn touches(entries: Seq<MapEntry>, file: Option<FileId>) -> bool {
    exists|i: int|
        0 <= i < entries.len() && (#[trigger] entries[i]).span.file is Some && (file is None
            || entries[i].span.file == file)
}

/// A finished chunk: its text, its entries and its language.
pub ghost struct PieceView {
    pub text: Seq<char>,
    pub entries: Seq<MapEntry>,
    pub language: Seq<char>,
}

/// The state of the extraction within a page.
pub ghost struct LayoutView {
    pub done: Seq<PieceView>,
    pub text: Seq<char>,
    pub entries: Seq<MapEntry>,
    pub language: Seq<char>,
    pub x: int,
    pub y: int,
    pub place: (Span, usize),
    pub contains_file: bool,
}

/// The place of text without a source.
pub open spec fn nowhere() -> (Span, usize) {
    (Span { file: None, number: 0 }, 0)
}

impl LayoutView {
    /// The state at the top of a page, after the chunks `done`.
    pub open spec fn start(done: Seq<PieceView>, language: Seq<char>) -> LayoutView {
        LayoutView {
            done,
            text: Seq::empty(),
            entries: Seq::empty(),
            language,
            x: 0,
            y: 0,
            place: nowhere(),
            contains_file: false,
        }
    }

    /// The chunk that is being filled.
    pub open spec fn piece(self) -> PieceView {
        PieceView { text: self.text, entries: self.entries, language: self.language }
    }

    /// The state after the chunk was finished. A chunk without a character
    /// of the file that is asked for is dropped.
    pub open spec fn separated(self) -> LayoutView {
        LayoutView::start(
            if self.contains_file {
                self.done.push(self.piece())
            } else {
                self.done
            },
            self.language,
        )
    }

    /// The state after a space without a source was added.
    pub open spec fn spaced(self) -> LayoutView {
        LayoutView {
            text: self.text.push(' '),
            entries: self.entries.push(synthetic_entry()),
            ..self
        }
    }

    /// The state after a paragraph ended: the chunk is finished if it holds
    /// more than `max` characters, else two line feeds are added.
    pub open spec fn broken(self, max: nat) -> LayoutView {
        if self.entries.len() > max {
            self.separated()
        } else {
            LayoutView {
                text: self.text + seq!['\n', '\n'],
                entries: self.entries + seq![synthetic_entry(), synthetic_entry()],
                ..self
            }
        }
    }

    /// The state after what stands between the text so far and `item` was
    /// added: nothing if the run starts where the last one ended, or goes
    /// on in the node and at the byte where the last one stopped; a space
    /// if it stands on the same line; else a paragraph break.
    pub open spec fn gapped(self, item: TextItem, max: nat, tolerance: int) -> LayoutView {
        let first = if item.glyphs@.len() > 0 {
            (item.glyphs@[0].span, item.glyphs@[0].offset as usize)
        } else {
            nowhere()
        };
        if near(self.x, item.x as int, tolerance) {
            self
        } else if first == self.place {
            self
        } else if near(self.y, item.y as int, item.line_height as int) {
            self.spaced()
        } else {
            self.broken(max)
        }
    }

    /// The state after the run `item` was taken in. A run in another
    /// language than the chunk finishes the chunk first.
    pub open spec fn placed(self, item: TextItem, file: Option<FileId>, max: nat, tolerance: int) -> LayoutView {
        let turned = if self.language == item.lang@ {
            self
        } else {
            LayoutView { language: item.lang@, ..self.separated() }
        };
        let gapped = turned.gapped(item, max, tolerance);
        let entries = item_entries(item.glyphs@, item.text@.len());
        LayoutView {
            text: gapped.text + item.text@,
            entries: gapped.entries + entries,
            x: item.x + item.width,
            y: item.y as int,
            place: last_place(entries, gapped.place),
            contains_file: gapped.contains_file || touches(entries, file),
            ..gapped
        }
    }

    /// The state after the first `count` runs of `items`.
    pub open spec fn filled(
        self,
        items: Seq<TextItem>,
        count: int,
        file: Option<FileId>,
        max: nat,
        tolerance: int,
    ) -> LayoutView
        decreases count,
    {
        if 0 < count <= items.len() {
            self.filled(items, count - 1, file, max, tolerance).placed(
                items[count - 1],
                file,
                max,
                tolerance,
            )
        } else {
            self
        }
    }
}

/// The chunks of the first `count` pages. Every page starts a chunk in
/// English.
pub open spec fn pieces(
    pages: Seq<Page>,
    count: int,
    file: Option<FileId>,
    max: nat,
    tolerance: int,
) -> Seq<PieceView>
    decreases count,
{
    if 0 < count <= pages.len() {
        let items = pages[count - 1].items@;
        LayoutView::start(pieces(pages, count - 1, file, max, tolerance), "en"@).filled(
            items,
            items.len() as int,
            file,
            max,
            tolerance,
        ).separated().done
    } else {
        Seq::empty()
    }
}

/// The views of the elements of `chunks`.
pub open spec fn piece_views(chunks: Seq<(String, Mapping)>) -> Seq<PieceView> {
    chunks.map_values(
        |c: (String, Mapping)|
            PieceView { text: c.0@, entries: c.1.chars@, language: c.1.language@ },
    )
}

/// Whether `a` and `b` differ by no more than `within`, or are equal
/// where `within` is negative.
fn is_near(a: i128, b: i64, within: i64) -> (r: bool)
    requires
        2 * i64::MIN <= a <= 2 * i64::MAX,
    ensures
        r == near(a as int, b as int, within as int),
{
    let d: i128 = a - b as i128;
    let w: i128 = if within < 0 {
        0
    } else {
        within as i128
    };
    -w <= d && d <= w
}

/// One entry for each of the `len` characters of a run.
fn entries_of_item(glyphs: &Vec<Glyph>, len: usize) -> (entries: Vec<MapEntry>)
    ensures
        entries@ == item_entries(glyphs@, len as nat),
{
    let mut entries: Vec<MapEntry> = Vec::new();
    let mut i: usize = 0;
    while i < glyphs.len()
        invariant
            0 <= i <= glyphs@.len(),
            entries@ == glyph_entries(glyphs@, i as int, len as nat),
            entries@.len() <= len,
        decreases glyphs@.len() - i,
    {
        let glyph = glyphs[i];
        let room = len - entries.len();
        let take = if glyph.chars <= room {
            glyph.chars
        } else {
            room
        };
        let entry = MapEntry {
            span: glyph.span,
            start: glyph.offset as usize,
            end: glyph.offset as usize + glyph.len as usize,
        };
        let ghost before = entries@;
        let mut k: usize = 0;
        while k < take
            invariant
                0 <= k <= take,
                before.len() + take <= len,
                entry == glyph_entry(glyph),
                entries@ == before + Seq::new(k as nat, |j: int| glyph_entry(glyph)),
            decreases take - k,
        {
            entries.push(entry);
            assert(entries@ =~= before + Seq::new((k + 1) as nat, |j: int| glyph_entry(glyph)));
            k += 1;
        }
        i += 1;
    }
    let ghost found = entries@;
    while entries.len() < len
        invariant
            found.len() <= entries@.len() <= len,
            entries@ == found + Seq::new(
                (entries@.len() - found.len()) as nat,
                |j: int| synthetic_entry(),
            ),
        decreases len - entries@.len(),
    {
        let ghost n = entries@.len();
        entries.push(MapEntry::synthetic());
        assert(entries@ =~= found + Seq::new((n + 1 - found.len()) as nat, |j: int| synthetic_entry()));
    }
    entries
}

/// The place where the last of `entries` with a source ends.
fn place_after(entries: &Vec<MapEntry>, otherwise: (Span, usize)) -> (place: (Span, usize))
    ensures
        place == last_place(entries@, otherwise),
{
    let mut i: usize = entries.len();
    assert(entries@.take(i as int) =~= entries@);
    while i > 0
        invariant
            0 <= i <= entries@.len(),
            last_place(entries@, otherwise) == last_place(entries@.take(i as int), otherwise),
        decreases i,
    {
        proof {
            assert(entries@.take(i as int).drop_last() =~= entries@.take(i - 1));
        }
        i -= 1;
        if entries[i].span.file.is_some() {
            return (entries[i].span, entries[i].end);
        }
    }
    otherwise
}

/// Whether one of `entries` belongs to `file`, or to any file if none is
/// asked for.
fn any_of_file(entries: &Vec<MapEntry>, file: Option<FileId>) -> (found: bool)
    ensures
        found == touches(entries@, file),
{
    let mut i: usize = 0;
    while i < entries.len()
        invariant
            0 <= i <= entries@.len(),
            forall|j: int|
                0 <= j < i ==> !((#[trigger] entries@[j]).span.file is Some && (file is None
                    || entries@[j].span.file == file)),
        decreases entries@.len() - i,
    {
        match entries[i].span.file {
            Some(own) => {
                match file {
                    None => {
                        return true;
                    },
                    Some(wanted) => {
                        if own == wanted {
                            return true;
                        }
                    },
                }
            },
            None => {},
        }
        i += 1;
    }
    false
}

/// Puts the text of a page together, run by run.
pub struct Converter {
    done: Vec<(String, Mapping)>,
    text: String,
    mapping: Mapping,
    x: i64,
    width: i64,
    y: i64,
    place: (Span, usize),
    chunk_size: usize,
    contains_file: bool,
}

impl Converter {
    /// The state of the extraction.
    pub closed spec fn view(&self) -> LayoutView {
        LayoutView {
            done: piece_views(self.done@),
            text: self.text@,
            entries: self.mapping.chars@,
            language: self.mapping.language@,
            x: self.x + self.width,
            y: self.y as int,
            place: self.place,
            contains_file: self.contains_file,
        }
    }

    /// The number of characters above which a chunk is finished at the
    /// end of a paragraph.
    pub closed spec fn limit(&self) -> nat {
        self.chunk_size as nat
    }

    /// A converter at the top of a page, after the chunks `done`.
    pub fn new(done: Vec<(String, Mapping)>, chunk_size: usize, language: &str) -> (converter:
        Converter)
        ensures
            converter@ == LayoutView::start(piece_views(done@), language@),
            converter.limit() == chunk_size,
    {
        let converter = Converter {
            done,
            text: String::new(),
            mapping: Mapping::new(language),
            x: 0,
            width: 0,
            y: 0,
            place: (Span::detached(), 0),
            chunk_size,
            contains_file: false,
        };
        assert(converter@.entries =~= Seq::empty());
        converter
    }

    /// Adds a space without a source.
    pub fn insert_space(&mut self)
        ensures
            final(self)@ == old(self)@.spaced(),
            final(self).limit() == old(self).limit(),
    {
        proof {
            reveal_strlit(" ");
        }
        self.text.append(" ");
        self.mapping.chars.push(MapEntry::synthetic());
        assert(self.text@ =~= old(self).text@.push(' '));
    }

    /// Finishes the chunk and starts the next one. A chunk without a
    /// character of the file that is asked for is dropped.
    pub fn seperate(&mut self)
        ensures
            final(self)@ == old(self)@.separated(),
            final(self).limit() == old(self).limit(),
    {
        let mut text = String::new();
        let mut mapping = Mapping::new(self.mapping.language.as_str());
        std::mem::swap(&mut text, &mut self.text);
        std::mem::swap(&mut mapping, &mut self.mapping);
        if self.contains_file {
            self.done.push((text, mapping));
            assert(piece_views(self.done@) =~= piece_views(old(self).done@).push(
                old(self)@.piece(),
            ));
        }
        self.x = 0;
        self.width = 0;
        self.y = 0;
        self.place = (Span::detached(), 0);
        self.contains_file = false;
        assert(self@.entries =~= Seq::empty());
    }

    /// Ends a paragraph: finishes the chunk if it holds more characters
    /// than the limit, else adds two line feeds without a source.
    pub fn insert_parbreak(&mut self)
        ensures
            final(self)@ == old(self)@.broken(old(self).limit()),
            final(self).limit() == old(self).limit(),
    {
        if self.mapping.chars.len() > self.chunk_size {
            self.seperate();
            return ;
        }
        proof {
            reveal_strlit("\n\n");
        }
        self.text.append("\n\n");
        self.mapping.chars.push(MapEntry::synthetic());
        self.mapping.chars.push(MapEntry::synthetic());
        assert(self.text@ =~= old(self).text@ + seq!['\n', '\n']);
        assert(self.mapping.chars@ =~= old(self).mapping.chars@ + seq![
            synthetic_entry(),
            synthetic_entry(),
        ]);
    }

    /// Adds what stands between the text so far and `item`: nothing, a
    /// space, or a paragraph break.
    pub fn whitespace(&mut self, item: &TextItem, tolerance: i64)
        ensures
            final(self)@ == old(self)@.gapped(*item, old(self).limit(), tolerance as int),
            final(self).limit() == old(self).limit(),
    {
        if is_near(self.x as i128 + self.width as i128, item.x, tolerance) {
            return ;
        }
        let first: (Span, usize) = if item.glyphs.len() > 0 {
            (item.glyphs[0].span, item.glyphs[0].offset as usize)
        } else {
            (Span::detached(), 0)
        };
        if first.0 == self.place.0 && first.1 == self.place.1 {
            return ;
        }
        if is_near(self.y as i128, item.y, item.line_height) {
            self.insert_space();
        } else {
            self.insert_parbreak();
        }
    }

    /// Takes in the run `item`, with what stands between the text so far
    /// and the run. A run in another language than the chunk finishes the
    /// chunk first.
    pub fn item(&mut self, item: &TextItem, file: Option<FileId>, tolerance: i64)
        ensures
            final(self)@ == old(self)@.placed(*item, file, old(self).limit(), tolerance as int),
            final(self).limit() == old(self).limit(),
    {
        if !str_eq(self.mapping.language.as_str(), item.lang.as_str()) {
            self.seperate();
            self.mapping.language = item.lang.clone();
        }
        self.whitespace(item, tolerance);
        let ghost gapped = self@;
        self.x = item.x;
        self.width = item.width;
        self.y = item.y;
        self.text.append(item.text.as_str());
        let mut entries = entries_of_item(&item.glyphs, item.text.as_str().unicode_len());
        self.place = place_after(&entries, self.place);
        if any_of_file(&entries, file) {
            self.contains_file = true;
        }
        self.mapping.chars.append(&mut entries);
        assert(self@.text == gapped.text + item.text@);
        assert(self@.entries == gapped.entries + item_entries(
            item.glyphs@,
            item.text@.len(),
        ));
    }

    /// Finishes the chunk and hands out all chunks.
    pub fn finish(self) -> (chunks: Vec<(String, Mapping)>)
        ensures
            piece_views(chunks@) == self@.separated().done,
    {
        let mut converter = self;
        converter.seperate();
        converter.done
    }
}

/// The text of a laid-out document in chunks, each with its position map.
///
/// On each page the runs of text are put together in reading order, with
/// a space between runs on one line and a paragraph break between runs
/// further apart. A chunk ends where a page ends, where the language
/// changes, and at a paragraph break once it holds more than `chunk_size`
/// characters. Chunks without a character of `file_id` are left out. The
/// position map of every chunk has one entry for each character of its
/// text.
pub fn document(doc: &PagedDocument, chunk_size: usize, file_id: Option<FileId>) -> (chunks: Vec<
    (String, Mapping),
>)
    ensures
        piece_views(chunks@) == pieces(
            doc.pages@,
            doc.pages@.len() as int,
            file_id,
            chunk_size as nat,
            doc.tolerance as int,
        ),
        forall|c: int|
            0 <= c < chunks@.len() ==> (#[trigger] chunks@[c]).1.chars@.len()
                == chunks@[c].0@.len(),
{
    let mut res: Vec<(String, Mapping)> = Vec::new();
    let mut p: usize = 0;
    assert(piece_views(res@) =~= Seq::empty());
    while p < doc.pages.len()
        invariant
            0 <= p <= doc.pages@.len(),
            piece_views(res@) == pieces(
                doc.pages@,
                p as int,
                file_id,
                chunk_size as nat,
                doc.tolerance as int,
            ),
        decreases doc.pages@.len() - p,
    {
        let page = &doc.pages[p];
        let mut converter = Converter::new(res, chunk_size, "en");
        let ghost start = converter@;
        let mut i: usize = 0;
        while i < page.items.len()
            invariant
                0 <= i <= page.items@.len(),
                converter.limit() == chunk_size,
                converter@ == start.filled(
                    page.items@,
                    i as int,
                    file_id,
                    chunk_size as nat,
                    doc.tolerance as int,
                ),
            decreases page.items@.len() - i,
        {
            converter.item(&page.items[i], file_id, doc.tolerance);
            i += 1;
        }
        res = converter.finish();
        p += 1;
    }
    proof {
        lemma_pieces_aligned(
            doc.pages@,
            doc.pages@.len() as int,
            file_id,
            chunk_size as nat,
            doc.tolerance as int,
        );
        assert forall|c: int| 0 <= c < res@.len() implies (#[trigger] res@[c]).1.chars@.len()
            == res@[c].0@.len() by {
            assert(piece_aligned(piece_views(res@)[c]));
        }
    }
    res
}

} // verus!

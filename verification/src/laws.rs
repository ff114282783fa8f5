//! What holds of the extraction as a whole.

use vstd::prelude::*;
use crate::chunker::{lemma_run_push, ChunkerView, Event};
use crate::layout::{
    item_entries, lemma_glyph_entries_len, near, nowhere, pieces, LayoutView, Page, PieceView,
    TextItem,
};
use crate::mapping::synthetic_entry;
use crate::rules::RulesView;
use crate::syntax::{FileId, SyntaxNode};
use crate::text_builder::{lemma_add_keeps_aligned, stream_of, tidy, ChunkView};
use crate::walker::{converted, hidden, hidden_row, node_events, Mode};

verus! {

/// Whether every step of `events` is syntax that the checker does not
/// see.
pub open spec fn only_markup(events: Seq<Event>) -> bool {
    forall|k: int| 0 <= k < events.len() ==> #[trigger] events[k] is Markup
}

/// Steps that are all syntax which the checker does not see add nothing
/// to the text for the checker: the text, its entries and the finished
/// chunks stay as they are.
pub proof fn lemma_markup_is_invisible(state: ChunkerView, events: Seq<Event>)
    requires
        only_markup(events),
    ensures
        state.run(events).current.text == state.current.text,
        state.run(events).current.entries == state.current.entries,
        state.run(events).done == state.done,
    decreases events.len(),
{
    if events.len() > 0 {
        assert(events.last() is Markup);
        assert forall|k: int| 0 <= k < events.drop_last().len() implies #[trigger] events.drop_last()[k] is Markup by {
            assert(events.drop_last()[k] == events[k]);
        }
        lemma_markup_is_invisible(state, events.drop_last());
    }
}

/// A document of nothing but hidden syntax gives no chunk at all.
pub proof fn lemma_markup_gives_no_chunk(max: nat, language: Seq<char>, events: Seq<Event>)
    requires
        only_markup(events),
    ensures
        ChunkerView::start(max, language).run(events).current.text.len() == 0,
        ChunkerView::start(max, language).run(events).result().len() == 0,
{
    lemma_markup_is_invisible(ChunkerView::start(max, language), events);
}

/// What is hidden from the checker is all syntax that it does not see.
pub proof fn lemma_hidden_is_markup(node: SyntaxNode)
    ensures
        only_markup(hidden(node)),
    decreases node, 1int,
{
    if node.children@.len() > 0 {
        lemma_hidden_row_is_markup(node, node.children@.len() as int);
    }
}

/// [`lemma_hidden_is_markup`] for the first `count` children of `node`.
pub proof fn lemma_hidden_row_is_markup(node: SyntaxNode, count: int)
    ensures
        only_markup(hidden_row(node.children@, count)),
    decreases node, 0int, count,
{
    if 0 < count <= node.children@.len() {
        lemma_hidden_row_is_markup(node, count - 1);
        lemma_hidden_is_markup(node.children@[count - 1]);
    }
}

/// A chunk is finished only where a paragraph ends: a step that is not
/// the end of a paragraph leaves the finished chunks as they are, and
/// what the chunk in hand holds stays at its start.
pub proof fn lemma_chunks_end_at_paragraph_ends(state: ChunkerView, events: Seq<Event>, k: int)
    requires
        0 <= k < events.len(),
        !(events[k] is Break),
    ensures
        state.run(events.take(k + 1)).done == state.run(events.take(k)).done,
        state.run(events.take(k)).current.text.is_prefix_of(
            state.run(events.take(k + 1)).current.text,
        ),
        state.run(events.take(k)).current.entries.is_prefix_of(
            state.run(events.take(k + 1)).current.entries,
        ),
{
    assert(events.take(k + 1) =~= events.take(k).push(events[k]));
    lemma_run_push(state, events.take(k), events[k]);
}

/// In a laid-out page a chunk is finished only where the language
/// changes or a paragraph ends: a run of text in the language of the
/// chunk that starts where the last one ended, goes on in its node, or
/// stands on the same line, leaves the finished chunks as they are.
pub proof fn lemma_layout_chunks_end_between_paragraphs(
    state: LayoutView,
    item: TextItem,
    file: Option<FileId>,
    max: nat,
    tolerance: int,
)
    requires
        state.language == item.lang@,
        near(state.x, item.x as int, tolerance) || near(
            state.y,
            item.y as int,
            item.line_height as int,
        ) || (item.glyphs@.len() > 0 && (item.glyphs@[0].span, item.glyphs@[0].offset as usize)
            == state.place) || (item.glyphs@.len() == 0 && state.place == nowhere()),
    ensures
        state.placed(item, file, max, tolerance).done == state.done,
        state.text.is_prefix_of(state.placed(item, file, max, tolerance).text),
{
}

/// Two runs on one line with a gap between them are parted by one space
/// without a source: where a run does not start where the last one ended,
/// does not go on in the node of the last one, and stands on the same
/// line, one space with an entry without a source is added, and nothing
/// else changes.
pub proof fn lemma_gap_on_a_line_is_one_space(
    state: LayoutView,
    item: TextItem,
    max: nat,
    tolerance: int,
)
    requires
        !near(state.x, item.x as int, tolerance),
        near(state.y, item.y as int, item.line_height as int),
        item.glyphs@.len() > 0,
        (item.glyphs@[0].span, item.glyphs@[0].offset as usize) != state.place,
    ensures
        state.gapped(item, max, tolerance) == state.spaced(),
        state.gapped(item, max, tolerance).text == state.text + seq![' '],
        state.gapped(item, max, tolerance).entries == state.entries + seq![synthetic_entry()],
        state.gapped(item, max, tolerance).done == state.done,
{
    assert(state.text.push(' ') =~= state.text + seq![' ']);
    assert(state.entries.push(synthetic_entry()) =~= state.entries + seq![synthetic_entry()]);
}

/// At the end of a paragraph of a laid-out page, a chunk that holds more
/// than `max` characters is finished whole: it joins the finished chunks
/// if it holds a character of the file that is asked for, and nothing of
/// it is carried over. A chunk that holds no more goes on with two line
/// feeds without a source.
pub proof fn lemma_layout_paragraph_end(state: LayoutView, max: nat)
    ensures
        state.entries.len() > max && state.contains_file ==> state.broken(max).done
            == state.done.push(state.piece()),
        state.entries.len() > max && !state.contains_file ==> state.broken(max).done
            == state.done,
        state.entries.len() > max ==> state.broken(max).text.len() == 0 && state.broken(
            max,
        ).entries.len() == 0 && state.broken(max).language == state.language,
        state.entries.len() <= max ==> state.broken(max).done == state.done && state.broken(
            max,
        ).text == state.text + seq!['\n', '\n'] && state.broken(max).entries == state.entries
            + seq![synthetic_entry(), synthetic_entry()],
{
}

/// Whether a chunk is in step with itself: its text is what the checker
/// reads of its segments, every character of the text has an entry, no
/// segment is blank and no two neighbours are of one kind.
pub open spec fn chunk_aligned(chunk: ChunkView) -> bool {
    &&& chunk.text == stream_of(chunk.segments)
    &&& chunk.entries.len() == chunk.text.len()
    &&& tidy(chunk.segments)
}

/// Whether the chunk in hand and all finished chunks are in step.
pub open spec fn state_aligned(state: ChunkerView) -> bool {
    &&& state.current.aligned()
    &&& forall|c: int| 0 <= c < state.done.len() ==> chunk_aligned(#[trigger] state.done[c])
}

/// Whatever is added, the chunks stay in step.
pub proof fn lemma_run_aligned(state: ChunkerView, events: Seq<Event>)
    requires
        state_aligned(state),
    ensures
        state_aligned(state.run(events)),
        state_aligned(state.run(events).flushed()),
    decreases events.len(),
{
    if events.len() > 0 {
        lemma_run_aligned(state, events.drop_last());
        let before = state.run(events.drop_last());
        let empty = Seq::<char>::empty();
        match events.last() {
            Event::Text(text, span) => {
                lemma_add_keeps_aligned(before.current, empty, text, span);
            },
            Event::Markup(markup) => {
                lemma_add_keeps_aligned(before.current, markup, empty, crate::walker::no_span());
            },
            Event::Encoded(markup, text, span) => {
                lemma_add_keeps_aligned(before.current, markup, text, span);
            },
            Event::Break => {},
        }
    }
    let after = state.run(events);
    assert forall|c: int| 0 <= c < after.flushed().done.len() implies chunk_aligned(
        #[trigger] after.flushed().done[c],
    ) by {
        if c < after.done.len() {
            assert(after.flushed().done[c] == after.done[c]);
        }
    }
}

/// Every chunk of a document has one entry for each character of its
/// text, and its text is what the checker reads of its segments.
pub proof fn lemma_converted_aligned(root: SyntaxNode, rules: RulesView, max: nat)
    ensures
        forall|c: int|
            0 <= c < converted(root, rules, max).len() ==> chunk_aligned(
                #[trigger] converted(root, rules, max)[c],
            ),
{
    let start = ChunkerView::start(max, "en"@);
    assert(start.current.text =~= stream_of(start.current.segments));
    lemma_run_aligned(start, node_events(root, Mode::Text, Seq::empty(), rules));
}

/// Whether a chunk of a laid-out document has one entry for each
/// character of its text.
pub open spec fn piece_aligned(piece: PieceView) -> bool {
    piece.entries.len() == piece.text.len()
}

/// Whether the chunk in hand and all finished chunks have one entry for
/// each character.
pub open spec fn layout_aligned(state: LayoutView) -> bool {
    &&& state.entries.len() == state.text.len()
    &&& forall|c: int| 0 <= c < state.done.len() ==> piece_aligned(#[trigger] state.done[c])
}

/// Finishing a chunk keeps the chunks of a page in step.
pub proof fn lemma_separated_aligned(state: LayoutView)
    requires
        layout_aligned(state),
    ensures
        layout_aligned(state.separated()),
{
    let after = state.separated();
    assert forall|c: int| 0 <= c < after.done.len() implies piece_aligned(
        #[trigger] after.done[c],
    ) by {
        if c < state.done.len() {
            assert(after.done[c] == state.done[c]);
        }
    }
}

/// Taking in a run of text keeps the chunks of a page in step.
pub proof fn lemma_placed_aligned(
    state: LayoutView,
    item: TextItem,
    file: Option<FileId>,
    max: nat,
    tolerance: int,
)
    requires
        layout_aligned(state),
    ensures
        layout_aligned(state.placed(item, file, max, tolerance)),
{
    lemma_separated_aligned(state);
    let turned = if state.language == item.lang@ {
        state
    } else {
        LayoutView { language: item.lang@, ..state.separated() }
    };
    assert(layout_aligned(turned));
    lemma_separated_aligned(turned);
    let gapped = turned.gapped(item, max, tolerance);
    assert(layout_aligned(gapped));
    lemma_glyph_entries_len(item.glyphs@, item.glyphs@.len() as int, item.text@.len());
    assert(item_entries(item.glyphs@, item.text@.len()).len() == item.text@.len());
}

/// Taking in the runs of a page keeps the chunks in step.
pub proof fn lemma_filled_aligned(
    state: LayoutView,
    items: Seq<TextItem>,
    count: int,
    file: Option<FileId>,
    max: nat,
    tolerance: int,
)
    requires
        layout_aligned(state),
    ensures
        layout_aligned(state.filled(items, count, file, max, tolerance)),
    decreases count,
{
    if 0 < count <= items.len() {
        lemma_filled_aligned(state, items, count - 1, file, max, tolerance);
        lemma_placed_aligned(
            state.filled(items, count - 1, file, max, tolerance),
            items[count - 1],
            file,
            max,
            tolerance,
        );
    }
}

/// Every chunk of a laid-out document has one entry for each character
/// of its text.
pub proof fn lemma_pieces_aligned(
    pages: Seq<Page>,
    count: int,
    file: Option<FileId>,
    max: nat,
    tolerance: int,
)
    ensures
        forall|c: int|
            0 <= c < pieces(pages, count, file, max, tolerance).len() ==> piece_aligned(
                #[trigger] pieces(pages, count, file, max, tolerance)[c],
            ),
    decreases count,
{
    if 0 < count <= pages.len() {
        lemma_pieces_aligned(pages, count - 1, file, max, tolerance);
        let items = pages[count - 1].items@;
        let start = LayoutView::start(pieces(pages, count - 1, file, max, tolerance), "en"@);
        assert(layout_aligned(start));
        lemma_filled_aligned(start, items, items.len() as int, file, max, tolerance);
        lemma_separated_aligned(start.filled(items, items.len() as int, file, max, tolerance));
    }
}

} // verus!

//! The entries of a chunk follow the document: an entry never stands
//! before one of an earlier node, and the entries of one node stand in
//! the order of its bytes.
//!
//! The spans of a source are numbered along a walk that visits a parent
//! before its children and the children from left to right, so the
//! number of a span tells where its node stands in the document.

use vstd::prelude::*;
use crate::chunker::{ChunkerView, Event};
use crate::laws::{lemma_hidden_is_markup, only_markup};
use crate::mapping::MapEntry;
use crate::round_trip::{
    lemma_node_events_anchored, lemma_node_fits, step_anchored, steps_anchored,
};
use crate::rules::RulesView;
use crate::source::{
    lemma_numbered_all_bounds, lemma_numbered_bounds, numbered, numbered_all, Source,
};
use crate::syntax::{has_node, lemma_has_among_from, node_len, FileId, Span, SyntaxKind, SyntaxNode};
use crate::text::{lemma_utf8_len_prefix, utf8_len};
use crate::text_builder::{cover_entries, text_entries};
use crate::walker::{
    argument_rule, call_rule, converted, heading_events, hidden, leading, no_span, node_events,
    row_events, separator, Mode,
};

verus! {

/// The span that a step carries, or the span without a file.
pub open spec fn span_of(event: Event) -> Span {
    match event {
        Event::Text(_, span) => span,
        Event::Encoded(_, _, span) => span,
        _ => no_span(),
    }
}

/// Whether no step of `events` carries a span with a file.
pub open spec fn plain(events: Seq<Event>) -> bool {
    forall|k: int| 0 <= k < events.len() ==> span_of(#[trigger] events[k]).file is None
}

/// Whether the spans with a file that `events` carry have growing
/// numbers.
pub open spec fn rising(events: Seq<Event>) -> bool {
    forall|a: int, b: int|
        0 <= a < b < events.len() && span_of(#[trigger] events[a]).file is Some && span_of(
            #[trigger] events[b],
        ).file is Some ==> span_of(events[a]).number < span_of(events[b]).number
}

/// Whether every span with a file that `events` carry is the span of a
/// node below `node`.
pub open spec fn within(node: SyntaxNode, events: Seq<Event>) -> bool {
    forall|k: int|
        0 <= k < events.len() && span_of(#[trigger] events[k]).file is Some ==> exists|
            t: SyntaxNode,
        |
            #[trigger] has_node(node, t) && t.span == span_of(events[k])
}

/// Whether every span with a file that `events` carry is the span of a
/// node below one of the first `count` nodes of `nodes`.
pub open spec fn within_row(nodes: Seq<SyntaxNode>, count: int, events: Seq<Event>) -> bool {
    forall|k: int|
        0 <= k < events.len() && span_of(#[trigger] events[k]).file is Some ==> exists|
            j: int,
            t: SyntaxNode,
        |
            0 <= j < count && j < nodes.len() && #[trigger] has_node(nodes[j], t) && t.span
                == span_of(events[k])
}

/// The number after which the numbering of node `k` of `nodes` starts,
/// where that of node `from` starts after `after`.
pub open spec fn numbered_before(
    nodes: Seq<SyntaxNode>,
    from: int,
    file: FileId,
    after: int,
    k: int,
) -> int
    decreases k - from,
{
    if from < k && 0 <= from < nodes.len() && numbered(nodes[from], file, after) is Some {
        numbered_before(nodes, from + 1, file, numbered(nodes[from], file, after)->0, k)
    } else {
        after
    }
}

/// Each node of a numbered row is numbered.
pub proof fn lemma_numbered_each(
    nodes: Seq<SyntaxNode>,
    from: int,
    file: FileId,
    after: int,
    k: int,
)
    requires
        numbered_all(nodes, from, file, after) is Some,
        0 <= from <= k < nodes.len(),
    ensures
        numbered(nodes[k], file, numbered_before(nodes, from, file, after, k)) is Some,
    decreases k - from,
{
    if from < k {
        lemma_numbered_each(nodes, from + 1, file, numbered(nodes[from], file, after)->0, k);
    }
}

/// In a numbered row, what is below a node has smaller numbers than what
/// is below a node further on.
pub proof fn lemma_siblings_in_order(
    nodes: Seq<SyntaxNode>,
    from: int,
    file: FileId,
    after: int,
    j: int,
    k: int,
    x: SyntaxNode,
    y: SyntaxNode,
)
    requires
        numbered_all(nodes, from, file, after) is Some,
        0 <= from <= j < k < nodes.len(),
        has_node(nodes[j], x),
        has_node(nodes[k], y),
    ensures
        x.span.number < y.span.number,
    decreases j - from,
{
    let last = numbered(nodes[from], file, after)->0;
    if from == j {
        lemma_numbered_bounds(nodes[j], file, after, x);
        lemma_has_among_from(nodes, j + 1, k, y);
        lemma_numbered_all_bounds(nodes, j + 1, file, last, y);
    } else {
        lemma_siblings_in_order(nodes, from + 1, file, last, j, k, x, y);
    }
}

/// Steps that are anchored below a node carry spans of nodes below it.
proof fn lemma_anchored_within(node: SyntaxNode, events: Seq<Event>)
    requires
        steps_anchored(node, events),
    ensures
        within(node, events),
{
    assert forall|k: int|
        0 <= k < events.len() && span_of(#[trigger] events[k]).file is Some implies exists|
        t: SyntaxNode,
    |
        #[trigger] has_node(node, t) && t.span == span_of(events[k]) by {
        assert(step_anchored(node, events[k]));
        match events[k] {
            Event::Text(text, span) => {
                let t = choose|t: SyntaxNode|
                    #[trigger] has_node(node, t) && t.span == span && node_len(t) == utf8_len(
                        text,
                    );
                assert(has_node(node, t) && t.span == span_of(events[k]));
            },
            Event::Encoded(_, _, span) => {
                let t = choose|t: SyntaxNode|
                    #[trigger] has_node(node, t) && t.span == span && t.kind
                        != SyntaxKind::Text;
                assert(has_node(node, t) && t.span == span_of(events[k]));
            },
            _ => {},
        }
    }
}

/// Steps without a span of a file may stand before and behind rising
/// steps.
proof fn lemma_rising_padded(before: Seq<Event>, events: Seq<Event>, after: Seq<Event>)
    requires
        plain(before),
        rising(events),
        plain(after),
    ensures
        rising(before + events + after),
{
    let all = before + events + after;
    assert forall|a: int, b: int|
        0 <= a < b < all.len() && span_of(#[trigger] all[a]).file is Some && span_of(
            #[trigger] all[b],
        ).file is Some implies span_of(all[a]).number < span_of(all[b]).number by {
        if a < before.len() {
            assert(all[a] == before[a]);
        } else if a < before.len() + events.len() {
            assert(all[a] == events[a - before.len()]);
            if b < before.len() + events.len() {
                assert(all[b] == events[b - before.len()]);
            } else {
                assert(all[b] == after[b - before.len() - events.len()]);
            }
        } else {
            assert(all[a] == after[a - before.len() - events.len()]);
        }
    }
}

/// Syntax that the checker does not see carries no span.
proof fn lemma_markup_is_plain(events: Seq<Event>)
    requires
        only_markup(events),
    ensures
        plain(events),
{
    assert forall|k: int| 0 <= k < events.len() implies span_of(#[trigger] events[k]).file
        is None by {
        assert(events[k] is Markup);
    }
}

/// Rising steps below the nodes of a row, followed by rising steps below
/// the next node of the row, are rising.
proof fn lemma_rising_row(
    nodes: Seq<SyntaxNode>,
    file: FileId,
    after: int,
    count: int,
    first: Seq<Event>,
    second: Seq<Event>,
)
    requires
        numbered_all(nodes, 0, file, after) is Some,
        0 < count <= nodes.len(),
        rising(first),
        within_row(nodes, count - 1, first),
        rising(second),
        within(nodes[count - 1], second),
    ensures
        rising(first + second),
        within_row(nodes, count, first + second),
{
    let all = first + second;
    assert forall|k: int|
        0 <= k < all.len() && span_of(#[trigger] all[k]).file is Some implies exists|
        j: int,
        t: SyntaxNode,
    |
        0 <= j < count && j < nodes.len() && #[trigger] has_node(nodes[j], t) && t.span
            == span_of(all[k]) by {
        if k < first.len() {
            assert(all[k] == first[k]);
            let (j, t) = choose|j: int, t: SyntaxNode|
                0 <= j < count - 1 && j < nodes.len() && #[trigger] has_node(nodes[j], t)
                    && t.span == span_of(first[k]);
            assert(0 <= j < count && has_node(nodes[j], t) && t.span == span_of(all[k]));
        } else {
            assert(all[k] == second[k - first.len()]);
            let t = choose|t: SyntaxNode|
                #[trigger] has_node(nodes[count - 1], t) && t.span == span_of(
                    second[k - first.len()],
                );
            assert(has_node(nodes[count - 1], t) && t.span == span_of(all[k]));
        }
    }
    assert forall|a: int, b: int|
        0 <= a < b < all.len() && span_of(#[trigger] all[a]).file is Some && span_of(
            #[trigger] all[b],
        ).file is Some implies span_of(all[a]).number < span_of(all[b]).number by {
        if b < first.len() {
            assert(all[a] == first[a]);
            assert(all[b] == first[b]);
        } else if a >= first.len() {
            assert(all[a] == second[a - first.len()]);
            assert(all[b] == second[b - first.len()]);
        } else {
            assert(all[a] == first[a]);
            assert(all[b] == second[b - first.len()]);
            let (j, x) = choose|j: int, x: SyntaxNode|
                0 <= j < count - 1 && j < nodes.len() && #[trigger] has_node(nodes[j], x)
                    && x.span == span_of(first[a]);
            let y = choose|y: SyntaxNode|
                #[trigger] has_node(nodes[count - 1], y) && y.span == span_of(
                    second[b - first.len()],
                );
            lemma_siblings_in_order(nodes, 0, file, after, j, count - 1, x, y);
        }
    }
}

/// The steps that a numbered node gives rise to carry spans with growing
/// numbers.
pub proof fn lemma_node_events_rising(
    node: SyntaxNode,
    file: FileId,
    after: int,
    mode: Mode,
    after_argument: Seq<char>,
    rules: RulesView,
)
    requires
        numbered(node, file, after) is Some,
    ensures
        rising(node_events(node, mode, after_argument, rules)),
    decreases node, 1int,
{
    let leaf = node.children@.len() == 0;
    let count = node.children@.len() as int;
    let prose = leaf && mode == Mode::Text;
    let none = Seq::<Event>::empty();
    if prose && (node.kind == SyntaxKind::Text || node.kind == SyntaxKind::SmartQuote
        || node.kind == SyntaxKind::Space || node.kind == SyntaxKind::Shorthand || node.kind
        == SyntaxKind::ListMarker) {
    } else if leaf && node.kind == SyntaxKind::Parbreak {
    } else if node.kind == SyntaxKind::Equation || node.kind == SyntaxKind::Ref {
        let first = if node.kind == SyntaxKind::Equation {
            seq![Event::Encoded(Seq::empty(), "0"@, node.span)]
        } else {
            seq![Event::Encoded(Seq::empty(), "X"@, node.span)]
        };
        lemma_hidden_is_markup(node);
        lemma_markup_is_plain(hidden(node));
        lemma_rising_padded(none, first, hidden(node));
        assert(none + first =~= first);
    } else if leaf {
    } else if node.kind == SyntaxKind::Heading {
        let row = heading_events(node.children@, count, mode, after_argument, rules);
        lemma_heading_events_rising(node, file, after, count, mode, after_argument, rules);
        lemma_rising_padded(separator("\n\n"@), row, separator("\n\n"@));
    } else if node.kind == SyntaxKind::ListItem {
        let row = row_events(node.children@, count, mode, after_argument, rules);
        lemma_row_events_rising(node, file, after, count, mode, after_argument, rules);
        lemma_rising_padded(separator("\n\n"@), row, separator("\n\n"@));
    } else if node.kind == SyntaxKind::FuncCall {
        let rule = call_rule(rules, crate::syntax::leftmost_text(node));
        let row = row_events(node.children@, count, Mode::Markup, rule.2, rules);
        lemma_row_events_rising(node, file, after, count, Mode::Markup, rule.2, rules);
        lemma_rising_padded(separator(rule.0), row, separator(rule.1));
    } else if node.kind == SyntaxKind::Named {
        let rule = argument_rule(rules, crate::syntax::leftmost_text(node));
        let row = row_events(node.children@, count, mode, after_argument, rules);
        lemma_row_events_rising(node, file, after, count, mode, after_argument, rules);
        lemma_rising_padded(separator(rule.0), row, separator(rule.1));
    } else if node.kind == SyntaxKind::ContentBlock {
        let row = row_events(node.children@, count, Mode::Text, Seq::empty(), rules);
        lemma_row_events_rising(node, file, after, count, Mode::Text, Seq::empty(), rules);
        lemma_rising_padded(none, row, separator(after_argument));
        assert(none + row =~= row);
    } else {
        lemma_row_events_rising(node, file, after, count, mode, after_argument, rules);
    }
}

/// [`lemma_node_events_rising`] for the first `count` children of `node`.
pub proof fn lemma_row_events_rising(
    node: SyntaxNode,
    file: FileId,
    after: int,
    count: int,
    mode: Mode,
    after_argument: Seq<char>,
    rules: RulesView,
)
    requires
        numbered(node, file, after) is Some,
        0 <= count <= node.children@.len(),
    ensures
        rising(row_events(node.children@, count, mode, after_argument, rules)),
        within_row(
            node.children@,
            count,
            row_events(node.children@, count, mode, after_argument, rules),
        ),
    decreases node, 0int, count,
{
    if count > 0 {
        let nodes = node.children@;
        let own = node.span.number as int;
        let child = nodes[count - 1];
        let first = row_events(nodes, count - 1, mode, after_argument, rules);
        let second = node_events(child, mode, after_argument, rules);
        lemma_row_events_rising(node, file, after, count - 1, mode, after_argument, rules);
        lemma_numbered_each(nodes, 0, file, own, count - 1);
        lemma_node_events_rising(
            child,
            file,
            numbered_before(nodes, 0, file, own, count - 1),
            mode,
            after_argument,
            rules,
        );
        lemma_node_events_anchored(child, mode, after_argument, rules);
        lemma_anchored_within(child, second);
        lemma_rising_row(nodes, file, own, count, first, second);
    }
}

/// [`lemma_node_events_rising`] for the first `count` children of a
/// heading.
pub proof fn lemma_heading_events_rising(
    node: SyntaxNode,
    file: FileId,
    after: int,
    count: int,
    mode: Mode,
    after_argument: Seq<char>,
    rules: RulesView,
)
    requires
        numbered(node, file, after) is Some,
        0 <= count <= node.children@.len(),
    ensures
        rising(heading_events(node.children@, count, mode, after_argument, rules)),
        within_row(
            node.children@,
            count,
            heading_events(node.children@, count, mode, after_argument, rules),
        ),
    decreases node, 0int, count,
{
    if count > 0 {
        let nodes = node.children@;
        let own = node.span.number as int;
        let child = nodes[count - 1];
        let first = heading_events(nodes, count - 1, mode, after_argument, rules);
        lemma_heading_events_rising(node, file, after, count - 1, mode, after_argument, rules);
        if leading(nodes, count) {
            let second = hidden(child);
            lemma_hidden_is_markup(child);
            lemma_markup_is_plain(second);
            lemma_rising_row(nodes, file, own, count, first, second);
        } else {
            let second = node_events(child, mode, after_argument, rules);
            lemma_numbered_each(nodes, 0, file, own, count - 1);
            lemma_node_events_rising(
                child,
                file,
                numbered_before(nodes, 0, file, own, count - 1),
                mode,
                after_argument,
                rules,
            );
            lemma_node_events_anchored(child, mode, after_argument, rules);
            lemma_anchored_within(child, second);
            lemma_rising_row(nodes, file, own, count, first, second);
        }
    }
}

/// Whether `later` may stand behind `earlier` in a chunk: it belongs to
/// a node further on in the document, or to the same node and does not
/// start before it.
pub open spec fn follows(earlier: MapEntry, later: MapEntry) -> bool {
    earlier.span.number < later.span.number || (earlier.span == later.span && earlier.start
        <= later.start)
}

/// Whether the entries with a source stand in the order of the document,
/// none of them with a number above `top`.
pub open spec fn in_order(entries: Seq<MapEntry>, top: int) -> bool {
    &&& forall|i: int, j: int|
        0 <= i < j < entries.len() && (#[trigger] entries[i]).span.file is Some
            && (#[trigger] entries[j]).span.file is Some ==> follows(entries[i], entries[j])
    &&& forall|i: int|
        0 <= i < entries.len() && (#[trigger] entries[i]).span.file is Some
            ==> entries[i].span.number <= top
}

/// Whether the entries of the chunk in hand and of every finished chunk
/// stand in the order of the document, none of them with a number above
/// `top`.
pub open spec fn state_ordered(state: ChunkerView, top: int) -> bool {
    &&& in_order(state.current.entries, top)
    &&& forall|c: int| 0 <= c < state.done.len() ==> in_order((#[trigger] state.done[c]).entries, top)
}

/// Entries in order, followed by entries of one node that is further on
/// and that stand in the order of its bytes, are in order.
proof fn lemma_in_order_grows(entries: Seq<MapEntry>, added: Seq<MapEntry>, span: Span, top: int)
    requires
        in_order(entries, top),
        span.file is Some ==> top < span.number,
        forall|i: int| 0 <= i < added.len() ==> (#[trigger] added[i]).span == span,
        forall|i: int, j: int|
            0 <= i < j < added.len() ==> (#[trigger] added[i]).start <= (#[trigger] added[j]).start,
    ensures
        in_order(entries + added, if span.file is Some {
            span.number as int
        } else {
            top
        }),
{
    let all = entries + added;
    let high = if span.file is Some {
        span.number as int
    } else {
        top
    };
    assert forall|i: int, j: int|
        0 <= i < j < all.len() && (#[trigger] all[i]).span.file is Some && (#[trigger] all[j]).span.file
            is Some implies follows(all[i], all[j]) by {
        if j < entries.len() {
            assert(all[i] == entries[i]);
            assert(all[j] == entries[j]);
        } else if i >= entries.len() {
            assert(all[i] == added[i - entries.len()]);
            assert(all[j] == added[j - entries.len()]);
        } else {
            assert(all[i] == entries[i]);
            assert(all[j] == added[j - entries.len()]);
        }
    }
    assert forall|i: int|
        0 <= i < all.len() && (#[trigger] all[i]).span.file is Some implies all[i].span.number
        <= high by {
        if i < entries.len() {
            assert(all[i] == entries[i]);
        } else {
            assert(all[i] == added[i - entries.len()]);
        }
    }
}

/// A higher bound holds as well.
proof fn lemma_state_ordered_up(state: ChunkerView, low: int, high: int)
    requires
        state_ordered(state, low),
        low <= high,
    ensures
        state_ordered(state, high),
{
    assert forall|c: int| 0 <= c < state.done.len() implies in_order(
        (#[trigger] state.done[c]).entries,
        high,
    ) by {
        assert(in_order(state.done[c].entries, low));
    }
}

/// Finishing a chunk keeps the order.
proof fn lemma_flushed_ordered(state: ChunkerView, top: int)
    requires
        state_ordered(state, top),
    ensures
        state_ordered(state.flushed(), top),
{
    let after = state.flushed();
    assert forall|c: int| 0 <= c < after.done.len() implies in_order(
        (#[trigger] after.done[c]).entries,
        top,
    ) by {
        if c < state.done.len() {
            assert(after.done[c] == state.done[c]);
        }
    }
}

/// Rising steps, with numbers above those of the entries so far, keep
/// the entries in order.
pub proof fn lemma_run_ordered(
    root: SyntaxNode,
    state: ChunkerView,
    events: Seq<Event>,
    low: int,
    high: int,
)
    requires
        state_ordered(state, low),
        low <= high,
        rising(events),
        steps_anchored(root, events),
        node_len(root) <= usize::MAX,
        forall|k: int|
            0 <= k < events.len() && span_of(#[trigger] events[k]).file is Some ==> low < span_of(
                events[k],
            ).number <= high,
    ensures
        state_ordered(state.run(events), high),
    decreases events.len(),
{
    if events.len() == 0 {
        lemma_state_ordered_up(state, low, high);
    } else {
        let rest = events.drop_last();
        let event = events.last();
        let span = span_of(event);
        let own = span.file is Some;
        let top = if own {
            span.number as int - 1
        } else {
            high
        };
        assert(event == events[events.len() - 1]);
        assert forall|k: int| 0 <= k < rest.len() implies rest[k] == events[k] by {}
        assert(rising(rest)) by {
            assert forall|a: int, b: int|
                0 <= a < b < rest.len() && span_of(#[trigger] rest[a]).file is Some && span_of(
                    #[trigger] rest[b],
                ).file is Some implies span_of(rest[a]).number < span_of(rest[b]).number by {
                assert(rest[a] == events[a] && rest[b] == events[b]);
            }
        }
        assert(steps_anchored(root, rest)) by {
            assert forall|k: int| 0 <= k < rest.len() implies step_anchored(
                root,
                #[trigger] rest[k],
            ) by {
                assert(rest[k] == events[k]);
            }
        }
        assert forall|k: int|
            0 <= k < rest.len() && span_of(#[trigger] rest[k]).file is Some implies low
            < span_of(rest[k]).number <= top by {
            assert(rest[k] == events[k]);
        }
        lemma_run_ordered(root, state, rest, low, top);
        let before = state.run(rest);
        let after = before.emit(event);
        assert(step_anchored(root, event));
        match event {
            Event::Text(text, span) => {
                let added = text_entries(text, span);
                if own {
                    let node = choose|node: SyntaxNode|
                        #[trigger] has_node(root, node) && node.span == span && node_len(node)
                            == utf8_len(text);
                    lemma_node_fits(root, node);
                    assert forall|i: int, j: int| 0 <= i < j < added.len() implies (
                    #[trigger] added[i]).start <= (#[trigger] added[j]).start by {
                        lemma_utf8_len_prefix(text, j);
                        lemma_utf8_len_prefix(text.take(j), i);
                        assert(text.take(j).take(i) =~= text.take(i));
                    }
                    lemma_in_order_grows(before.current.entries, added, span, top);
                    lemma_state_ordered_up(before, top, high);
                } else {
                    assert(in_order(after.current.entries, high)) by {
                        assert forall|i: int|
                            0 <= i < after.current.entries.len() && (
                            #[trigger] after.current.entries[i]).span.file is Some implies i
                            < before.current.entries.len() && after.current.entries[i]
                            == before.current.entries[i] by {
                            if i >= before.current.entries.len() {
                                assert(after.current.entries[i] == added[i
                                    - before.current.entries.len()]);
                            }
                        }
                    }
                }
            },
            Event::Encoded(markup, text, span) => {
                let added = cover_entries(text.len(), span, utf8_len(markup));
                if own {
                    lemma_in_order_grows(before.current.entries, added, span, top);
                    lemma_state_ordered_up(before, top, high);
                } else {
                    assert(in_order(after.current.entries, high)) by {
                        assert forall|i: int|
                            0 <= i < after.current.entries.len() && (
                            #[trigger] after.current.entries[i]).span.file is Some implies i
                            < before.current.entries.len() && after.current.entries[i]
                            == before.current.entries[i] by {
                            if i >= before.current.entries.len() {
                                assert(after.current.entries[i] == added[i
                                    - before.current.entries.len()]);
                            }
                        }
                    }
                }
            },
            Event::Markup(_) => {},
            Event::Break => {
                lemma_flushed_ordered(before, high);
            },
        }
    }
}

/// The entries of a chunk follow the document.
///
/// Take any chunk of a source, and two of its characters that have a
/// source, one behind the other. The second belongs to a node that
/// stands further on in the document than the node of the first, or to
/// the same node, and then it does not start before the first.
pub proof fn lemma_entries_follow_the_document(
    source: Source,
    rules: RulesView,
    max: nat,
    chunk: int,
    i: int,
    j: int,
)
    requires
        source.wf(),
        0 <= chunk < converted(source.tree(), rules, max).len(),
        0 <= i <= j < converted(source.tree(), rules, max)[chunk].entries.len(),
        converted(source.tree(), rules, max)[chunk].entries[i].span.file is Some,
        converted(source.tree(), rules, max)[chunk].entries[j].span.file is Some,
    ensures
        follows(
            converted(source.tree(), rules, max)[chunk].entries[i],
            converted(source.tree(), rules, max)[chunk].entries[j],
        ),
{
    let root = source.tree();
    let file = source.file();
    let last = numbered(root, file, 0)->0;
    let start = ChunkerView::start(max, "en"@);
    let events = node_events(root, Mode::Text, Seq::empty(), rules);
    lemma_node_events_rising(root, file, 0, Mode::Text, Seq::empty(), rules);
    lemma_node_events_anchored(root, Mode::Text, Seq::empty(), rules);
    lemma_anchored_within(root, events);
    assert forall|k: int|
        0 <= k < events.len() && span_of(#[trigger] events[k]).file is Some implies 0 < span_of(
        events[k],
    ).number <= last by {
        let t = choose|t: SyntaxNode| #[trigger] has_node(root, t) && t.span == span_of(events[k]);
        lemma_numbered_bounds(root, file, 0, t);
    }
    lemma_numbered_bounds(root, file, 0, root);
    lemma_run_ordered(root, start, events, 0, last);
    lemma_flushed_ordered(start.run(events), last);
    let entries = converted(root, rules, max)[chunk].entries;
    assert(in_order(entries, last));
}

} // verus!

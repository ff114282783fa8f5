//! The way from a character of the checked text back to its source never
//! leaves the node that the character comes from.

use vstd::prelude::*;
use crate::chunker::{ChunkerView, Event};
use crate::diagnostic::Location;
use crate::mapping::{locations, resolve, selected, MapEntry};
use crate::rules::RulesView;
use crate::source::{lemma_find_own_span, lemma_numbered_bounds, Source};
use crate::syntax::{
    has_among, has_node, lemma_has_node_child, node_len, nodes_len, SyntaxKind, SyntaxNode,
};
use crate::text::{lemma_utf8_len_prefix, lemma_utf8_len_take, utf8_len};
use crate::text_builder::{cover_entries, text_entries};
use crate::walker::{
    argument_rule, call_rule, converted, heading_events, hidden, leading, node_events, row_events,
    separator, Mode,
};
use crate::laws::{lemma_hidden_is_markup, only_markup};

verus! {

/// Whether `entry` has no source, or has the span of a node below `root`
/// and, if that is a node of plain text, lies within it.
pub open spec fn anchored(root: SyntaxNode, entry: MapEntry) -> bool {
    entry.span.file is None || exists|node: SyntaxNode|
        #[trigger] has_node(root, node) && node.span == entry.span && (node.kind
            == SyntaxKind::Text ==> entry.start <= entry.end <= node_len(node))
}

/// Whether all of `entries` are anchored below `root`.
pub open spec fn all_anchored(root: SyntaxNode, entries: Seq<MapEntry>) -> bool {
    forall|i: int| 0 <= i < entries.len() ==> anchored(root, #[trigger] entries[i])
}

/// Whether a step has no source, or comes from a node below `root`: text
/// from a leaf of that length, anything else from a node that is not
/// plain text.
pub open spec fn step_anchored(root: SyntaxNode, event: Event) -> bool {
    match event {
        Event::Text(text, span) => span.file is None || exists|node: SyntaxNode|
            #[trigger] has_node(root, node) && node.span == span && node_len(node) == utf8_len(
                text,
            ),
        Event::Encoded(_, _, span) => span.file is None || exists|node: SyntaxNode|
            #[trigger] has_node(root, node) && node.span == span && node.kind
                != SyntaxKind::Text,
        _ => true,
    }
}

/// Whether all of `events` are anchored below `root`.
pub open spec fn steps_anchored(root: SyntaxNode, events: Seq<Event>) -> bool {
    forall|k: int| 0 <= k < events.len() ==> step_anchored(root, #[trigger] events[k])
}

/// What is anchored below a child is anchored below its parent.
proof fn lemma_steps_lift(parent: SyntaxNode, i: int, events: Seq<Event>)
    requires
        0 <= i < parent.children@.len(),
        steps_anchored(parent.children@[i], events),
    ensures
        steps_anchored(parent, events),
{
    let child = parent.children@[i];
    assert forall|k: int| 0 <= k < events.len() implies step_anchored(
        parent,
        #[trigger] events[k],
    ) by {
        assert(step_anchored(child, events[k]));
        match events[k] {
            Event::Text(text, span) => {
                if span.file is Some {
                    let node = choose|node: SyntaxNode|
                        #[trigger] has_node(child, node) && node.span == span && node_len(node)
                            == utf8_len(text);
                    lemma_has_node_child(parent, i, node);
                }
            },
            Event::Encoded(_, _, span) => {
                if span.file is Some {
                    let node = choose|node: SyntaxNode|
                        #[trigger] has_node(child, node) && node.span == span && node.kind
                            != SyntaxKind::Text;
                    lemma_has_node_child(parent, i, node);
                }
            },
            _ => {},
        }
    }
}

/// Steps that are anchored stay so when they are put in a row.
proof fn lemma_steps_join(root: SyntaxNode, first: Seq<Event>, second: Seq<Event>)
    requires
        steps_anchored(root, first),
        steps_anchored(root, second),
    ensures
        steps_anchored(root, first + second),
{
    assert forall|k: int| 0 <= k < (first + second).len() implies step_anchored(
        root,
        #[trigger] (first + second)[k],
    ) by {
        if k < first.len() {
            assert((first + second)[k] == first[k]);
        } else {
            assert((first + second)[k] == second[k - first.len()]);
        }
    }
}

/// Syntax that the checker does not see is anchored anywhere.
proof fn lemma_markup_anchored(root: SyntaxNode, events: Seq<Event>)
    requires
        only_markup(events),
    ensures
        steps_anchored(root, events),
{
    assert forall|k: int| 0 <= k < events.len() implies step_anchored(
        root,
        #[trigger] events[k],
    ) by {
        assert(events[k] is Markup);
    }
}

/// A separator is anchored anywhere: it has no source.
proof fn lemma_separator_anchored(root: SyntaxNode, text: Seq<char>)
    ensures
        steps_anchored(root, separator(text)),
{
}

/// The steps that a node gives rise to are anchored below it.
pub proof fn lemma_node_events_anchored(
    node: SyntaxNode,
    mode: Mode,
    after_argument: Seq<char>,
    rules: RulesView,
)
    ensures
        steps_anchored(node, node_events(node, mode, after_argument, rules)),
    decreases node, 1int,
{
    let events = node_events(node, mode, after_argument, rules);
    let leaf = node.children@.len() == 0;
    let count = node.children@.len() as int;
    let prose = leaf && mode == Mode::Text;
    assert(has_node(node, node));
    if prose && (node.kind == SyntaxKind::Text || node.kind == SyntaxKind::SmartQuote
        || node.kind == SyntaxKind::Space || node.kind == SyntaxKind::Shorthand || node.kind
        == SyntaxKind::ListMarker) {
        assert forall|k: int| 0 <= k < events.len() implies step_anchored(
            node,
            #[trigger] events[k],
        ) by {
            assert(has_node(node, node));
        }
    } else if leaf && node.kind == SyntaxKind::Parbreak {
        assert forall|k: int| 0 <= k < events.len() implies step_anchored(
            node,
            #[trigger] events[k],
        ) by {
            assert(has_node(node, node));
        }
    } else if node.kind == SyntaxKind::Equation || node.kind == SyntaxKind::Ref {
        let first = if node.kind == SyntaxKind::Equation {
            seq![Event::Encoded(Seq::empty(), "0"@, node.span)]
        } else {
            seq![Event::Encoded(Seq::empty(), "X"@, node.span)]
        };
        assert forall|k: int| 0 <= k < first.len() implies step_anchored(
            node,
            #[trigger] first[k],
        ) by {
            assert(has_node(node, node));
        }
        lemma_hidden_is_markup(node);
        lemma_markup_anchored(node, hidden(node));
        lemma_steps_join(node, first, hidden(node));
    } else if leaf {
    } else if node.kind == SyntaxKind::Heading {
        let row = heading_events(node.children@, count, mode, after_argument, rules);
        lemma_heading_events_anchored(node, count, mode, after_argument, rules);
        lemma_steps_join(node, separator("\n\n"@), row);
        lemma_steps_join(node, separator("\n\n"@) + row, separator("\n\n"@));
    } else if node.kind == SyntaxKind::ListItem {
        let row = row_events(node.children@, count, mode, after_argument, rules);
        lemma_row_events_anchored(node, count, mode, after_argument, rules);
        lemma_steps_join(node, separator("\n\n"@), row);
        lemma_steps_join(node, separator("\n\n"@) + row, separator("\n\n"@));
    } else if node.kind == SyntaxKind::FuncCall {
        let rule = call_rule(rules, crate::syntax::leftmost_text(node));
        let row = row_events(node.children@, count, Mode::Markup, rule.2, rules);
        lemma_row_events_anchored(node, count, Mode::Markup, rule.2, rules);
        lemma_steps_join(node, separator(rule.0), row);
        lemma_steps_join(node, separator(rule.0) + row, separator(rule.1));
    } else if node.kind == SyntaxKind::Named {
        let rule = argument_rule(rules, crate::syntax::leftmost_text(node));
        let row = row_events(node.children@, count, mode, after_argument, rules);
        lemma_row_events_anchored(node, count, mode, after_argument, rules);
        lemma_steps_join(node, separator(rule.0), row);
        lemma_steps_join(node, separator(rule.0) + row, separator(rule.1));
    } else if node.kind == SyntaxKind::ContentBlock {
        let row = row_events(node.children@, count, Mode::Text, Seq::empty(), rules);
        lemma_row_events_anchored(node, count, Mode::Text, Seq::empty(), rules);
        lemma_steps_join(node, row, separator(after_argument));
    } else {
        lemma_row_events_anchored(node, count, mode, after_argument, rules);
    }
}

/// [`lemma_node_events_anchored`] for the first `count` children of
/// `node`.
pub proof fn lemma_row_events_anchored(
    node: SyntaxNode,
    count: int,
    mode: Mode,
    after_argument: Seq<char>,
    rules: RulesView,
)
    ensures
        steps_anchored(node, row_events(node.children@, count, mode, after_argument, rules)),
    decreases node, 0int, count,
{
    if 0 < count <= node.children@.len() {
        let child = node.children@[count - 1];
        lemma_row_events_anchored(node, count - 1, mode, after_argument, rules);
        lemma_node_events_anchored(child, mode, after_argument, rules);
        lemma_steps_lift(node, count - 1, node_events(child, mode, after_argument, rules));
        lemma_steps_join(
            node,
            row_events(node.children@, count - 1, mode, after_argument, rules),
            node_events(child, mode, after_argument, rules),
        );
    }
}

/// [`lemma_node_events_anchored`] for the first `count` children of a
/// heading.
pub proof fn lemma_heading_events_anchored(
    node: SyntaxNode,
    count: int,
    mode: Mode,
    after_argument: Seq<char>,
    rules: RulesView,
)
    ensures
        steps_anchored(node, heading_events(node.children@, count, mode, after_argument, rules)),
    decreases node, 0int, count,
{
    if 0 < count <= node.children@.len() {
        let child = node.children@[count - 1];
        let before = heading_events(node.children@, count - 1, mode, after_argument, rules);
        lemma_heading_events_anchored(node, count - 1, mode, after_argument, rules);
        if leading(node.children@, count) {
            lemma_hidden_is_markup(child);
            lemma_markup_anchored(node, hidden(child));
            lemma_steps_join(node, before, hidden(child));
        } else {
            lemma_node_events_anchored(child, mode, after_argument, rules);
            lemma_steps_lift(node, count - 1, node_events(child, mode, after_argument, rules));
            lemma_steps_join(node, before, node_events(child, mode, after_argument, rules));
        }
    }
}

/// Whether all entries of a state, in the finished chunks and in the one
/// in hand, are anchored below `root`.
pub open spec fn state_anchored(root: SyntaxNode, state: ChunkerView) -> bool {
    &&& all_anchored(root, state.current.entries)
    &&& forall|c: int|
        0 <= c < state.done.len() ==> all_anchored(root, (#[trigger] state.done[c]).entries)
}

/// A node below a tree is no longer than the tree.
pub proof fn lemma_node_fits(root: SyntaxNode, node: SyntaxNode)
    requires
        has_node(root, node),
    ensures
        node_len(node) <= node_len(root),
    decreases root, 1int,
{
    if root != node {
        lemma_node_fits_among(root.children@, 0, node);
    }
}

/// [`lemma_node_fits`] for a node below a row of nodes.
pub proof fn lemma_node_fits_among(nodes: Seq<SyntaxNode>, from: int, node: SyntaxNode)
    requires
        has_among(nodes, from, node),
    ensures
        node_len(node) <= nodes_len(nodes, nodes.len() as int),
        nodes.len() > 0,
    decreases nodes, nodes.len() - from, 0int,
{
    if has_node(nodes[from], node) {
        lemma_node_fits(nodes[from], node);
        crate::syntax::lemma_nodes_len_monotonic(nodes, from + 1, nodes.len() as int);
    } else {
        lemma_node_fits_among(nodes, from + 1, node);
    }
}

/// Anchored steps lead from an anchored state to an anchored state.
pub proof fn lemma_run_anchored(root: SyntaxNode, state: ChunkerView, events: Seq<Event>)
    requires
        state_anchored(root, state),
        steps_anchored(root, events),
        node_len(root) <= usize::MAX,
    ensures
        state_anchored(root, state.run(events)),
    decreases events.len(),
{
    if events.len() > 0 {
        let before = state.run(events.drop_last());
        let event = events.last();
        assert forall|k: int| 0 <= k < events.drop_last().len() implies step_anchored(
            root,
            #[trigger] events.drop_last()[k],
        ) by {
            assert(events.drop_last()[k] == events[k]);
        }
        lemma_run_anchored(root, state, events.drop_last());
        assert(step_anchored(root, event));
        let after = before.emit(event);
        match event {
            Event::Text(text, span) => {
                let added = text_entries(text, span);
                assert forall|i: int| 0 <= i < after.current.entries.len() implies anchored(
                    root,
                    #[trigger] after.current.entries[i],
                ) by {
                    if i < before.current.entries.len() {
                        assert(after.current.entries[i] == before.current.entries[i]);
                    } else {
                        let j = i - before.current.entries.len();
                        assert(after.current.entries[i] == added[j]);
                        if span.file is Some {
                            let node = choose|node: SyntaxNode|
                                #[trigger] has_node(root, node) && node.span == span
                                    && node_len(node) == utf8_len(text);
                            lemma_node_fits(root, node);
                            lemma_utf8_len_take(text, j);
                            lemma_utf8_len_prefix(text, j);
                        }
                    }
                }
            },
            Event::Encoded(markup, text, span) => {
                let added = cover_entries(text.len(), span, utf8_len(markup));
                assert forall|i: int| 0 <= i < after.current.entries.len() implies anchored(
                    root,
                    #[trigger] after.current.entries[i],
                ) by {
                    if i < before.current.entries.len() {
                        assert(after.current.entries[i] == before.current.entries[i]);
                    } else {
                        let j = i - before.current.entries.len();
                        assert(after.current.entries[i] == added[j]);
                        if span.file is Some {
                            let node = choose|node: SyntaxNode|
                                #[trigger] has_node(root, node) && node.span == span && node.kind
                                    != SyntaxKind::Text;
                            assert(has_node(root, node));
                        }
                    }
                }
            },
            Event::Markup(_) => {},
            Event::Break => {
                lemma_flushed_anchored(root, before);
            },
        }
    }
}

/// Finishing a chunk keeps a state anchored.
pub proof fn lemma_flushed_anchored(root: SyntaxNode, state: ChunkerView)
    requires
        state_anchored(root, state),
    ensures
        state_anchored(root, state.flushed()),
{
    let after = state.flushed();
    assert forall|c: int| 0 <= c < after.done.len() implies all_anchored(
        root,
        (#[trigger] after.done[c]).entries,
    ) by {
        if c < state.done.len() {
            assert(after.done[c] == state.done[c]);
        }
    }
}

/// Every entry of every chunk of a document is anchored below its root.
pub proof fn lemma_converted_anchored(root: SyntaxNode, rules: RulesView, max: nat)
    requires
        node_len(root) <= usize::MAX,
    ensures
        forall|c: int|
            0 <= c < converted(root, rules, max).len() ==> all_anchored(
                root,
                (#[trigger] converted(root, rules, max)[c]).entries,
            ),
{
    let start = ChunkerView::start(max, "en"@);
    let events = node_events(root, Mode::Text, Seq::empty(), rules);
    lemma_node_events_anchored(root, Mode::Text, Seq::empty(), rules);
    lemma_run_anchored(root, start, events);
    lemma_flushed_anchored(root, start.run(events));
}

/// The way back from one character stays within its node.
///
/// Take any chunk of a document, and any character of it that has a
/// source. The places that the character alone resolves to, looked for in
/// the source of the document, all lie in the file of that source and
/// within the byte range of the node that the span of the character
/// identifies.
pub proof fn lemma_round_trip(
    source: Source,
    rules: RulesView,
    max: nat,
    chunk: int,
    index: int,
    sources: Seq<Source>,
    ignore: Set<Seq<char>>,
)
    requires
        source.wf(),
        0 <= chunk < converted(source.tree(), rules, max).len(),
        0 <= index < converted(source.tree(), rules, max)[chunk].entries.len(),
        converted(source.tree(), rules, max)[chunk].entries[index].span.file is Some,
    ensures
        ({
            let entries = converted(source.tree(), rules, max)[chunk].entries;
            let places = locations(
                selected(entries, index, index + 1),
                sources,
                Some(source),
                ignore,
            );
            let found = source.lookup(entries[index].span);
            &&& found is Some
            &&& places.len() <= 1
            &&& forall|j: int|
                0 <= j < places.len() ==> (#[trigger] places[j]).file == source.file()
                    && found->0.start <= places[j].start <= places[j].end <= found->0.end
        }),
{
    let root = source.tree();
    let entries = converted(root, rules, max)[chunk].entries;
    let entry = entries[index];
    lemma_converted_anchored(root, rules, max);
    assert(all_anchored(root, entries));
    assert(anchored(root, entry));
    let node = choose|node: SyntaxNode|
        #[trigger] has_node(root, node) && node.span == entry.span && (node.kind
            == SyntaxKind::Text ==> entry.start <= entry.end <= node_len(node));
    lemma_numbered_bounds(root, source.file(), 0, node);
    lemma_find_own_span(root, source.file(), node);
    let picked = selected(entries, index, index + 1);
    assert(picked =~= seq![entry]);
    assert(picked.drop_last() =~= Seq::<MapEntry>::empty());
    assert(picked.last() == entry);
    let step = resolve(entry, sources, Some(source), ignore);
    assert(locations(picked.drop_last(), sources, Some(source), ignore) =~= Seq::<
        Location,
    >::empty());
}

} // verus!

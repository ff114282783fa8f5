//! Walks a syntax tree and turns it into annotated text, chunk by chunk.

use vstd::prelude::*;
use crate::laws::{chunk_aligned, lemma_converted_aligned};
use crate::chunker::{
    chunk_views, lemma_run_concat, lemma_run_one, lemma_run_push, Chunker, ChunkerView, Event,
};
use crate::rules::{Rules, RulesView};
use crate::syntax::{leftmost_text, Span, SyntaxKind, SyntaxNode};
use crate::text::{breaks_before_end, has_inner_break, str_eq};
use crate::text_builder::{Chunk, ChunkView};

verus! {

/// What a node is taken for unless a rule says otherwise.
#[derive(Clone, Copy, Debug, PartialEq, Eq, Structural)]
pub enum Mode {
    /// Prose: text is for the checker to read.
    Text,
    /// Syntax: text is hidden from the checker.
    Markup,
}

/// The span of text without a source.
pub open spec fn no_span() -> Span {
    Span { file: None, number: 0 }
}

/// The step that puts `text` into the checked text without a source.
pub open spec fn separator(text: Seq<char>) -> Seq<Event> {
    seq![Event::Encoded(Seq::empty(), text, no_span())]
}

/// The steps that hide `node` and all that is below it from the checker.
pub open spec fn hidden(node: SyntaxNode) -> Seq<Event>
    decreases node,
{
    if node.children@.len() == 0 {
        seq![Event::Markup(node.text@)]
    } else {
        hidden_row(node.children@, node.children@.len() as int)
    }
}

/// [`hidden`] for the first `count` nodes of `nodes`.
pub open spec fn hidden_row(nodes: Seq<SyntaxNode>, count: int) -> Seq<Event>
    decreases nodes, count,
{
    if 0 < count <= nodes.len() {
        hidden_row(nodes, count - 1) + hidden(nodes[count - 1])
    } else {
        Seq::empty()
    }
}

/// What is put before and after a call of the function `name`, and behind
/// each of its block arguments.
pub open spec fn call_rule(rules: RulesView, name: Option<Seq<char>>) -> (
    Seq<char>,
    Seq<char>,
    Seq<char>,
) {
    if name is Some && rules.functions.contains_key(name->0) {
        let rule = rules.functions[name->0];
        (rule.before, rule.after, rule.after_argument)
    } else {
        (Seq::empty(), Seq::empty(), Seq::empty())
    }
}

/// What is put before and after an argument with the name `name`.
pub open spec fn argument_rule(rules: RulesView, name: Option<Seq<char>>) -> (
    Seq<char>,
    Seq<char>,
) {
    if name is Some && rules.arguments.contains_key(name->0) {
        let rule = rules.arguments[name->0];
        (rule.before, rule.after)
    } else {
        (Seq::empty(), Seq::empty())
    }
}

/// Whether `node` is a leaf of white space or of syntax without a rule of
/// its own, as the marker of a heading and the space behind it are.
pub open spec fn is_lead(node: SyntaxNode) -> bool {
    node.children@.len() == 0 && (node.kind == SyntaxKind::Space || node.kind
        == SyntaxKind::Other)
}

/// Whether each of the first `count` nodes of `nodes` is such a leaf:
/// whether they all stand before the text of a heading.
pub open spec fn leading(nodes: Seq<SyntaxNode>, count: int) -> bool
    decreases count,
{
    if 0 < count <= nodes.len() {
        leading(nodes, count - 1) && is_lead(nodes[count - 1])
    } else {
        count <= 0
    }
}

/// The steps that the first `count` of the children `nodes` of a heading
/// give rise to: what stands before the text of the heading, its marker
/// and the space behind it, is hidden, and the rest is walked.
pub open spec fn heading_events(
    nodes: Seq<SyntaxNode>,
    count: int,
    mode: Mode,
    after_argument: Seq<char>,
    rules: RulesView,
) -> Seq<Event>
    decreases nodes, count,
{
    if 0 < count <= nodes.len() {
        heading_events(nodes, count - 1, mode, after_argument, rules) + if leading(
            nodes,
            count,
        ) {
            hidden(nodes[count - 1])
        } else {
            node_events(nodes[count - 1], mode, after_argument, rules)
        }
    } else {
        Seq::empty()
    }
}

/// The steps that `node` gives rise to.
///
/// In prose, text, quotation marks and whitespace are read as they stand,
/// but whitespace that goes on after a line feed is read as one line feed,
/// and a tilde as a space. A formula is read as `0` and a reference as `X`,
/// with all that is below them hidden. Headings and list items are set
/// apart as paragraphs; the marker of a heading and the space behind it
/// are hidden, and a list marker is read as a dash. A paragraph break
/// is read as two line feeds and ends the paragraph. A function call is
/// syntax, with the separators of its rule around it; a block argument is
/// prose again, followed by the separator that the call's rule asks for; a
/// named argument has the separators of its rule around it. Any other leaf
/// is hidden, and the children of any other node are walked in turn.
pub open spec fn node_events(
    node: SyntaxNode,
    mode: Mode,
    after_argument: Seq<char>,
    rules: RulesView,
) -> Seq<Event>
    decreases node,
{
    let leaf = node.children@.len() == 0;
    let count = node.children@.len() as int;
    let prose = leaf && mode == Mode::Text;
    if prose && (node.kind == SyntaxKind::Text || node.kind == SyntaxKind::SmartQuote) {
        seq![Event::Text(node.text@, node.span)]
    } else if prose && node.kind == SyntaxKind::Space {
        if breaks_before_end(node.text@) {
            seq![Event::Encoded(node.text@, "\n"@, node.span)]
        } else {
            seq![Event::Text(node.text@, node.span)]
        }
    } else if prose && node.kind == SyntaxKind::Shorthand {
        if node.text@ == "~"@ {
            seq![Event::Encoded(node.text@, " "@, node.span)]
        } else {
            seq![Event::Text(node.text@, node.span)]
        }
    } else if prose && node.kind == SyntaxKind::ListMarker {
        seq![Event::Encoded(node.text@, "-"@, node.span)]
    } else if leaf && node.kind == SyntaxKind::Parbreak {
        seq![Event::Encoded(node.text@, "\n\n"@, node.span), Event::Break]
    } else if node.kind == SyntaxKind::Equation {
        seq![Event::Encoded(Seq::empty(), "0"@, node.span)] + hidden(node)
    } else if node.kind == SyntaxKind::Ref {
        seq![Event::Encoded(Seq::empty(), "X"@, node.span)] + hidden(node)
    } else if leaf {
        seq![Event::Markup(node.text@)]
    } else if node.kind == SyntaxKind::Heading {
        separator("\n\n"@) + heading_events(node.children@, count, mode, after_argument, rules)
            + separator("\n\n"@)
    } else if node.kind == SyntaxKind::ListItem {
        separator("\n\n"@) + row_events(node.children@, count, mode, after_argument, rules)
            + separator("\n\n"@)
    } else if node.kind == SyntaxKind::FuncCall {
        let rule = call_rule(rules, leftmost_text(node));
        separator(rule.0) + row_events(node.children@, count, Mode::Markup, rule.2, rules)
            + separator(rule.1)
    } else if node.kind == SyntaxKind::Named {
        let rule = argument_rule(rules, leftmost_text(node));
        separator(rule.0) + row_events(node.children@, count, mode, after_argument, rules)
            + separator(rule.1)
    } else if node.kind == SyntaxKind::ContentBlock {
        row_events(node.children@, count, Mode::Text, Seq::empty(), rules) + separator(
            after_argument,
        )
    } else {
        row_events(node.children@, count, mode, after_argument, rules)
    }
}

/// [`node_events`] for the first `count` nodes of `nodes`.
pub open spec fn row_events(
    nodes: Seq<SyntaxNode>,
    count: int,
    mode: Mode,
    after_argument: Seq<char>,
    rules: RulesView,
) -> Seq<Event>
    decreases nodes, count,
{
    if 0 < count <= nodes.len() {
        row_events(nodes, count - 1, mode, after_argument, rules) + node_events(
            nodes[count - 1],
            mode,
            after_argument,
            rules,
        )
    } else {
        Seq::empty()
    }
}

/// The chunks of the document below `root`, finished at the end of a
/// paragraph whenever they hold more than `max` characters.
pub open spec fn converted(root: SyntaxNode, rules: RulesView, max: nat) -> Seq<ChunkView> {
    ChunkerView::start(max, "en"@).run(
        node_events(root, Mode::Text, Seq::empty(), rules),
    ).result()
}

/// Puts `text` into the checked text without a source.
fn separate(chunker: &mut Chunker, text: &str)
    ensures
        final(chunker)@ == old(chunker)@.run(separator(text@)),
{
    proof {
        reveal_strlit("");
        assert(""@ =~= Seq::<char>::empty());
        lemma_run_one(chunker@, Event::Encoded(Seq::empty(), text@, no_span()));
    }
    chunker.encoded("", text, Span::detached());
}

/// Hides `node` and all that is below it from the checker.
fn conceal(chunker: &mut Chunker, node: &SyntaxNode)
    ensures
        final(chunker)@ == old(chunker)@.run(hidden(*node)),
    decreases *node,
{
    if node.children.len() == 0 {
        proof {
            lemma_run_one(chunker@, Event::Markup(node.text@));
        }
        chunker.markup(node.text.as_str());
        return ;
    }
    let mut i: usize = 0;
    while i < node.children.len()
        invariant
            0 <= i <= node.children@.len(),
            chunker@ == old(chunker)@.run(hidden_row(node.children@, i as int)),
        decreases node.children@.len() - i,
    {
        proof {
            lemma_run_concat(
                old(chunker)@,
                hidden_row(node.children@, i as int),
                hidden(node.children@[i as int]),
            );
        }
        conceal(chunker, &node.children[i]);
        i += 1;
    }
}

/// Walks the children of `node` in turn.
fn walk_row(
    chunker: &mut Chunker,
    node: &SyntaxNode,
    mode: Mode,
    after_argument: &str,
    rules: &Rules,
)
    ensures
        final(chunker)@ == old(chunker)@.run(
            row_events(
                node.children@,
                node.children@.len() as int,
                mode,
                after_argument@,
                rules@,
            ),
        ),
    decreases *node, 0int,
{
    let mut i: usize = 0;
    while i < node.children.len()
        invariant
            0 <= i <= node.children@.len(),
            chunker@ == old(chunker)@.run(
                row_events(node.children@, i as int, mode, after_argument@, rules@),
            ),
        decreases node.children@.len() - i,
    {
        proof {
            lemma_run_concat(
                old(chunker)@,
                row_events(node.children@, i as int, mode, after_argument@, rules@),
                node_events(node.children@[i as int], mode, after_argument@, rules@),
            );
        }
        walk(chunker, &node.children[i], mode, after_argument, rules);
        i += 1;
    }
}

/// Walks the children of `node` with `before` put in front of them and
/// `after` behind them.
fn walk_between(
    chunker: &mut Chunker,
    node: &SyntaxNode,
    before: &str,
    after: &str,
    mode: Mode,
    after_argument: &str,
    rules: &Rules,
)
    ensures
        final(chunker)@ == old(chunker)@.run(
            separator(before@) + row_events(
                node.children@,
                node.children@.len() as int,
                mode,
                after_argument@,
                rules@,
            ) + separator(after@),
        ),
    decreases *node, 1int,
{
    let ghost row = row_events(
        node.children@,
        node.children@.len() as int,
        mode,
        after_argument@,
        rules@,
    );
    proof {
        lemma_run_concat(chunker@, separator(before@), row);
        lemma_run_concat(chunker@, separator(before@) + row, separator(after@));
    }
    separate(chunker, before);
    walk_row(chunker, node, mode, after_argument, rules);
    separate(chunker, after);
}

/// Walks the children of the heading `node`, set apart as a paragraph:
/// what stands before the text of the heading is hidden.
fn walk_heading(
    chunker: &mut Chunker,
    node: &SyntaxNode,
    mode: Mode,
    after_argument: &str,
    rules: &Rules,
)
    ensures
        final(chunker)@ == old(chunker)@.run(
            separator("\n\n"@) + heading_events(
                node.children@,
                node.children@.len() as int,
                mode,
                after_argument@,
                rules@,
            ) + separator("\n\n"@),
        ),
    decreases *node, 1int,
{
    let ghost row = heading_events(
        node.children@,
        node.children@.len() as int,
        mode,
        after_argument@,
        rules@,
    );
    proof {
        lemma_run_concat(chunker@, separator("\n\n"@), row);
        lemma_run_concat(chunker@, separator("\n\n"@) + row, separator("\n\n"@));
    }
    separate(chunker, "\n\n");
    let ghost start = chunker@;
    let mut lead = true;
    let mut i: usize = 0;
    while i < node.children.len()
        invariant
            0 <= i <= node.children@.len(),
            lead == leading(node.children@, i as int),
            chunker@ == start.run(
                heading_events(node.children@, i as int, mode, after_argument@, rules@),
            ),
        decreases node.children@.len() - i,
    {
        let child = &node.children[i];
        let plain = match child.kind {
            SyntaxKind::Space | SyntaxKind::Other => true,
            _ => false,
        };
        lead = lead && plain && child.children.len() == 0;
        proof {
            lemma_run_concat(
                start,
                heading_events(node.children@, i as int, mode, after_argument@, rules@),
                if lead {
                    hidden(*child)
                } else {
                    node_events(*child, mode, after_argument@, rules@)
                },
            );
        }
        if lead {
            conceal(chunker, child);
        } else {
            walk(chunker, child, mode, after_argument, rules);
        }
        i += 1;
    }
    separate(chunker, "\n\n");
}

/// Walks `node`.
fn walk(chunker: &mut Chunker, node: &SyntaxNode, mode: Mode, after_argument: &str, rules: &Rules)
    ensures
        final(chunker)@ == old(chunker)@.run(node_events(*node, mode, after_argument@, rules@)),
    decreases *node, 2int,
{
    let leaf = node.children.len() == 0;
    let prose = leaf && mode == Mode::Text;
    let text = node.text.as_str();
    let ghost start = chunker@;
    let ghost events = node_events(*node, mode, after_argument@, rules@);
    match node.kind {
        SyntaxKind::Text | SyntaxKind::SmartQuote => {
            if prose {
                proof {
                    lemma_run_one(start, Event::Text(node.text@, node.span));
                }
                chunker.text(text, node.span);
                return ;
            }
        },
        SyntaxKind::Space => {
            if prose {
                if has_inner_break(text) {
                    proof {
                        lemma_run_one(start, Event::Encoded(node.text@, "\n"@, node.span));
                    }
                    chunker.encoded(text, "\n", node.span);
                } else {
                    proof {
                        lemma_run_one(start, Event::Text(node.text@, node.span));
                    }
                    chunker.text(text, node.span);
                }
                return ;
            }
        },
        SyntaxKind::Shorthand => {
            if prose {
                if str_eq(text, "~") {
                    proof {
                        lemma_run_one(start, Event::Encoded(node.text@, " "@, node.span));
                    }
                    chunker.encoded(text, " ", node.span);
                } else {
                    proof {
                        lemma_run_one(start, Event::Text(node.text@, node.span));
                    }
                    chunker.text(text, node.span);
                }
                return ;
            }
        },
        SyntaxKind::ListMarker => {
            if prose {
                proof {
                    lemma_run_one(start, Event::Encoded(node.text@, "-"@, node.span));
                }
                chunker.encoded(text, "-", node.span);
                return ;
            }
        },
        SyntaxKind::Parbreak => {
            if leaf {
                proof {
                    let first = Event::Encoded(node.text@, "\n\n"@, node.span);
                    lemma_run_one(start, first);
                    lemma_run_push(start, seq![first], Event::Break);
                    assert(seq![first].push(Event::Break) =~= seq![first, Event::Break]);
                }
                chunker.encoded(text, "\n\n", node.span);
                chunker.paragraph_end();
                return ;
            }
        },
        SyntaxKind::Equation => {
            proof {
                reveal_strlit("");
                assert(""@ =~= Seq::<char>::empty());
                let first = Event::Encoded(Seq::empty(), "0"@, node.span);
                lemma_run_one(start, first);
                lemma_run_concat(start, seq![first], hidden(*node));
            }
            chunker.encoded("", "0", node.span);
            conceal(chunker, node);
            return ;
        },
        SyntaxKind::Ref => {
            proof {
                reveal_strlit("");
                assert(""@ =~= Seq::<char>::empty());
                let first = Event::Encoded(Seq::empty(), "X"@, node.span);
                lemma_run_one(start, first);
                lemma_run_concat(start, seq![first], hidden(*node));
            }
            chunker.encoded("", "X", node.span);
            conceal(chunker, node);
            return ;
        },
        _ => {},
    }
    if leaf {
        proof {
            lemma_run_one(start, Event::Markup(node.text@));
        }
        chunker.markup(text);
        return ;
    }
    match node.kind {
        SyntaxKind::Heading => {
            walk_heading(chunker, node, mode, after_argument, rules);
        },
        SyntaxKind::ListItem => {
            walk_between(chunker, node, "\n\n", "\n\n", mode, after_argument, rules);
        },
        SyntaxKind::FuncCall => {
            let rule = match node.leftmost_leaf_text() {
                Some(name) => rules.function(name),
                None => None,
            };
            match rule {
                Some(rule) => {
                    walk_between(
                        chunker,
                        node,
                        rule.before.as_str(),
                        rule.after.as_str(),
                        Mode::Markup,
                        rule.after_argument.as_str(),
                        rules,
                    );
                },
                None => {
                    proof {
                        reveal_strlit("");
                        assert(""@ =~= Seq::<char>::empty());
                    }
                    walk_between(chunker, node, "", "", Mode::Markup, "", rules);
                },
            }
        },
        SyntaxKind::Named => {
            let rule = match node.leftmost_leaf_text() {
                Some(name) => rules.argument(name),
                None => None,
            };
            match rule {
                Some(rule) => {
                    walk_between(
                        chunker,
                        node,
                        rule.before.as_str(),
                        rule.after.as_str(),
                        mode,
                        after_argument,
                        rules,
                    );
                },
                None => {
                    proof {
                        reveal_strlit("");
                        assert(""@ =~= Seq::<char>::empty());
                    }
                    walk_between(chunker, node, "", "", mode, after_argument, rules);
                },
            }
        },
        SyntaxKind::ContentBlock => {
            proof {
                reveal_strlit("");
                assert(""@ =~= Seq::<char>::empty());
                lemma_run_concat(
                    start,
                    row_events(
                        node.children@,
                        node.children@.len() as int,
                        Mode::Text,
                        Seq::empty(),
                        rules@,
                    ),
                    separator(after_argument@),
                );
            }
            walk_row(chunker, node, Mode::Text, "", rules);
            separate(chunker, after_argument);
        },
        _ => {
            walk_row(chunker, node, mode, after_argument, rules);
        },
    }
}

/// Turns the document below `root` into chunks of annotated text.
///
/// A chunk is finished at the end of a paragraph once it holds more than
/// `max_chunk_chars` characters, and nowhere else. A chunk in which no
/// character has a source is left out. The text of every chunk is what
/// the checker reads of its segments, and its position map has one entry
/// for each character of the text.
pub fn convert(root: &SyntaxNode, rules: &Rules, max_chunk_chars: usize) -> (chunks: Vec<Chunk>)
    ensures
        chunk_views(chunks@) == converted(*root, rules@, max_chunk_chars as nat),
        forall|c: int| 0 <= c < chunks@.len() ==> chunk_aligned((#[trigger] chunks@[c])@),
{
    proof {
        reveal_strlit("");
        assert(""@ =~= Seq::<char>::empty());
    }
    let mut chunker = Chunker::new(max_chunk_chars, "en");
    walk(&mut chunker, root, Mode::Text, "", rules);
    let chunks = chunker.finish();
    proof {
        lemma_converted_aligned(*root, rules@, max_chunk_chars as nat);
        assert forall|c: int| 0 <= c < chunks@.len() implies chunk_aligned(
            (#[trigger] chunks@[c])@,
        ) by {
            let all = converted(*root, rules@, max_chunk_chars as nat);
            assert(chunk_views(chunks@).len() == chunks@.len());
            assert(chunk_aligned(all[c]));
            assert(all[c] == chunks@[c]@);
        }
    }
    chunks
}

} // verus!

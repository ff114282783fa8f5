//! The document model that the extraction works on: files, spans, syntax
//! trees and sources.
//!
//! A document compiler owns the real tree. The library reads a plain copy
//! of it: every node carries its kind, its text (for a leaf), its children
//! (for an inner node) and the span that identifies it. Byte ranges are not
//! stored; they follow from the lengths of the leaves.

use vstd::prelude::*;
use vstd::string::StringExecFns;
use crate::text::{byte_len, utf8_len};

verus! {

/// Identifies one source file of a document.
#[derive(Clone, Copy, Debug, PartialEq, Eq, Structural)]
pub struct FileId(pub u16);

/// Identity of a syntax node: the file it belongs to and a number that is
/// unique within that file. A span without a file is detached and stands
/// for text that has no place in any source.
#[derive(Clone, Copy, Debug, PartialEq, Eq, Structural)]
pub struct Span {
    pub file: Option<FileId>,
    pub number: u64,
}

impl Span {
    /// The span of text without a source.
    pub fn detached() -> (s: Span)
        ensures
            s == (Span { file: None, number: 0 }),
    {
        Span { file: None, number: 0 }
    }

    /// The span with the given number in `file`.
    pub fn new(file: FileId, number: u64) -> (s: Span)
        ensures
            s == (Span { file: Some(file), number }),
    {
        Span { file: Some(file), number }
    }

    /// The file this span belongs to, if any.
    pub fn id(&self) -> (f: Option<FileId>)
        ensures
            f == self.file,
    {
        self.file
    }

    /// Whether this span belongs to no file.
    pub fn is_detached(&self) -> (d: bool)
        ensures
            d == (self.file is None),
    {
        self.file.is_none()
    }
}

/// The kinds of syntax node that the extraction tells apart.
#[derive(Clone, Copy, Debug, PartialEq, Eq, Structural)]
pub enum SyntaxKind {
    /// Plain prose.
    Text,
    /// Whitespace between words or lines.
    Space,
    /// A section heading.
    Heading,
    /// A mathematical formula.
    Equation,
    /// A call of a named function.
    FuncCall,
    /// A reference to a label.
    Ref,
    /// A paragraph break.
    Parbreak,
    /// The marker of a list item.
    ListMarker,
    /// An item of a list.
    ListItem,
    /// Markup passed to a function in brackets.
    ContentBlock,
    /// A named argument of a function call.
    Named,
    /// A quotation mark.
    SmartQuote,
    /// A shorthand for a special character.
    Shorthand,
    /// A comment.
    Comment,
    /// Text that is no valid syntax.
    Error,
    /// Any other syntax.
    Other,
}

/// A node of a syntax tree. A node without children is a leaf and stands
/// for its `text`; the text of a node with children is not part of the
/// document.
#[derive(Debug)]
pub struct SyntaxNode {
    pub kind: SyntaxKind,
    pub text: String,
    pub span: Span,
    pub children: Vec<SyntaxNode>,
}

/// Number of bytes of source that `node` covers.
pub open spec fn node_len(node: SyntaxNode) -> nat
    decreases node,
{
    if node.children@.len() == 0 {
        utf8_len(node.text@)
    } else {
        nodes_len(node.children@, node.children@.len() as int)
    }
}

/// Number of bytes of source that the first `count` nodes of `nodes` cover.
pub open spec fn nodes_len(nodes: Seq<SyntaxNode>, count: int) -> nat
    decreases nodes, count,
{
    if 0 < count <= nodes.len() {
        nodes_len(nodes, count - 1) + node_len(nodes[count - 1])
    } else {
        0
    }
}

/// Whether `node` is a token: a leaf that holds text and is neither white
/// space, a paragraph break, a comment nor an error.
pub open spec fn is_token(node: SyntaxNode) -> bool {
    &&& node.children@.len() == 0
    &&& node.text@.len() > 0
    &&& node.kind != SyntaxKind::Space
    &&& node.kind != SyntaxKind::Parbreak
    &&& node.kind != SyntaxKind::Comment
    &&& node.kind != SyntaxKind::Error
}

/// Text of the first token below `node`, `node` included, if there is
/// one.
pub open spec fn leftmost_text(node: SyntaxNode) -> Option<Seq<char>>
    decreases node,
{
    if is_token(node) {
        Some(node.text@)
    } else {
        leftmost_among(node.children@, 0)
    }
}

/// Text of the first token below the nodes of `nodes` from index `from`
/// on, if there is one.
pub open spec fn leftmost_among(nodes: Seq<SyntaxNode>, from: int) -> Option<Seq<char>>
    decreases nodes, nodes.len() - from,
{
    if 0 <= from < nodes.len() {
        match leftmost_text(nodes[from]) {
            Some(text) => Some(text),
            None => leftmost_among(nodes, from + 1),
        }
    } else {
        None
    }
}

/// Whether `target` occurs in the tree below `node`, `node` included.
pub open spec fn has_node(node: SyntaxNode, target: SyntaxNode) -> bool
    decreases node,
{
    node == target || has_among(node.children@, 0, target)
}

/// Whether `target` occurs in the tree below one of `nodes`, from index
/// `from` on.
pub open spec fn has_among(nodes: Seq<SyntaxNode>, from: int, target: SyntaxNode) -> bool
    decreases nodes, nodes.len() - from,
{
    0 <= from < nodes.len() && (has_node(nodes[from], target) || has_among(
        nodes,
        from + 1,
        target,
    ))
}

/// A node that occurs below one of a row of nodes occurs below the row.
pub proof fn lemma_has_among_from(nodes: Seq<SyntaxNode>, from: int, i: int, target: SyntaxNode)
    requires
        0 <= from <= i < nodes.len(),
        has_node(nodes[i], target),
    ensures
        has_among(nodes, from, target),
    decreases i - from,
{
    if from < i {
        lemma_has_among_from(nodes, from + 1, i, target);
    }
}

/// What occurs below a child occurs below its parent.
pub proof fn lemma_has_node_child(node: SyntaxNode, i: int, target: SyntaxNode)
    requires
        0 <= i < node.children@.len(),
        has_node(node.children@[i], target),
    ensures
        has_node(node, target),
{
    lemma_has_among_from(node.children@, 0, i, target);
}

/// The first `count` nodes cover no more than all of them.
pub proof fn lemma_nodes_len_monotonic(nodes: Seq<SyntaxNode>, a: int, b: int)
    requires
        0 <= a <= b <= nodes.len(),
    ensures
        nodes_len(nodes, a) <= nodes_len(nodes, b),
    decreases b - a,
{
    if a < b {
        lemma_nodes_len_monotonic(nodes, a, b - 1);
    }
}

/// A child together with the siblings before it fits into its parent.
pub proof fn lemma_child_fits(node: SyntaxNode, i: int)
    requires
        0 <= i < node.children@.len(),
    ensures
        nodes_len(node.children@, i) + node_len(node.children@[i]) <= node_len(node),
{
    lemma_nodes_len_monotonic(node.children@, i + 1, node.children@.len() as int);
}

impl SyntaxNode {
    /// A leaf that stands for `text`.
    pub fn leaf(kind: SyntaxKind, text: &str, span: Span) -> (node: SyntaxNode)
        ensures
            node.kind == kind,
            node.text@ == text@,
            node.span == span,
            node.children@.len() == 0,
    {
        SyntaxNode { kind, text: text.to_owned(), span, children: Vec::new() }
    }

    /// An inner node with the given children.
    pub fn inner(kind: SyntaxKind, children: Vec<SyntaxNode>, span: Span) -> (node: SyntaxNode)
        ensures
            node.kind == kind,
            node.text@.len() == 0,
            node.span == span,
            node.children == children,
    {
        SyntaxNode { kind, text: String::new(), span, children }
    }

    /// Whether this node has no children.
    pub fn is_leaf(&self) -> (l: bool)
        ensures
            l == (self.children@.len() == 0),
    {
        self.children.len() == 0
    }

    /// Number of bytes of source that this node covers, unless that number
    /// does not fit the machine's address range.
    pub fn len(&self) -> (n: Option<usize>)
        ensures
            n is Some <==> node_len(*self) <= usize::MAX,
            n is Some ==> n->0 == node_len(*self),
        decreases *self,
    {
        if self.children.len() == 0 {
            return Some(byte_len(self.text.as_str()));
        }
        let mut total: usize = 0;
        let mut i: usize = 0;
        while i < self.children.len()
            invariant
                0 <= i <= self.children@.len(),
                total == nodes_len(self.children@, i as int),
            decreases self.children@.len() - i,
        {
            proof {
                lemma_child_fits(*self, i as int);
            }
            match self.children[i].len() {
                None => {
                    return None;
                },
                Some(n) => match total.checked_add(n) {
                    None => {
                        return None;
                    },
                    Some(sum) => {
                        total = sum;
                    },
                },
            }
            i += 1;
        }
        Some(total)
    }

    /// Text of the first token below this node, the node included, if
    /// there is one.
    pub fn leftmost_leaf_text(&self) -> (text: Option<&str>)
        ensures
            text is Some <==> leftmost_text(*self) is Some,
            text is Some ==> text->0@ == leftmost_text(*self)->0,
        decreases *self,
    {
        if self.children.len() == 0 {
            let trivia = match self.kind {
                SyntaxKind::Space | SyntaxKind::Parbreak | SyntaxKind::Comment
                | SyntaxKind::Error => true,
                _ => false,
            };
            if !trivia && self.text.as_str().unicode_len() > 0 {
                return Some(self.text.as_str());
            }
            return None;
        }
        let mut i: usize = 0;
        while i < self.children.len()
            invariant
                0 <= i <= self.children@.len(),
                self.children@.len() > 0,
                leftmost_text(*self) == leftmost_among(self.children@, i as int),
            decreases self.children@.len() - i,
        {
            match self.children[i].leftmost_leaf_text() {
                Some(text) => {
                    return Some(text);
                },
                None => {},
            }
            i += 1;
        }
        None
    }
}

} // verus!

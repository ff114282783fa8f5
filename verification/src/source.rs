//! Sources: numbered syntax trees that can be searched by span, and the
//! set of sources that make up a document.

use vstd::prelude::*;
use crate::syntax::{
    has_among, has_node, leftmost_text, lemma_child_fits, lemma_nodes_len_monotonic, node_len,
    nodes_len, FileId, Span, SyntaxKind, SyntaxNode,
};

verus! {

/// What a lookup by span reports of the node it found: its kind, the byte
/// range it covers in its file, and the text of its first token, if it
/// has one.
#[derive(Clone, Debug, PartialEq, Eq)]
pub struct Found {
    pub kind: SyntaxKind,
    pub start: usize,
    pub end: usize,
    pub name: Option<String>,
}

/// Mathematical counterpart of [`Found`].
pub ghost struct FoundView {
    pub kind: SyntaxKind,
    pub start: int,
    pub end: int,
    pub name: Option<Seq<char>>,
}

impl View for Found {
    type V = FoundView;

    open spec fn view(&self) -> FoundView {
        FoundView {
            kind: self.kind,
            start: self.start as int,
            end: self.end as int,
            name: match self.name {
                Some(name) => Some(name@),
                None => None,
            },
        }
    }
}

/// The first node with the given span in a walk of `node` that visits a
/// parent before its children and the children from left to right, with
/// `node` starting at byte `offset`.
pub open spec fn find_node(node: SyntaxNode, offset: int, span: Span) -> Option<FoundView>
    decreases node,
{
    if node.span == span {
        Some(
            FoundView {
                kind: node.kind,
                start: offset,
                end: offset + node_len(node),
                name: leftmost_text(node),
            },
        )
    } else {
        find_among(node.children@, 0, offset, span)
    }
}

/// The first node with the given span below the nodes from index `from` on,
/// where the first node of `nodes` starts at byte `base`.
pub open spec fn find_among(nodes: Seq<SyntaxNode>, from: int, base: int, span: Span) -> Option<
    FoundView,
>
    decreases nodes, nodes.len() - from,
{
    if 0 <= from < nodes.len() {
        match find_node(nodes[from], base + nodes_len(nodes, from), span) {
            Some(found) => Some(found),
            None => find_among(nodes, from + 1, base, span),
        }
    } else {
        None
    }
}

/// Whether the spans of `node` and all nodes below it belong to `file` and
/// carry numbers that grow strictly along a walk that visits a parent
/// before its children, all of them above `after`. Gives the last number.
pub open spec fn numbered(node: SyntaxNode, file: FileId, after: int) -> Option<int>
    decreases node,
{
    if node.span.file == Some(file) && node.span.number > after {
        numbered_all(node.children@, 0, file, node.span.number as int)
    } else {
        None
    }
}

/// [`numbered`] for the nodes from index `from` on, one after the other.
pub open spec fn numbered_all(nodes: Seq<SyntaxNode>, from: int, file: FileId, after: int) -> Option<
    int,
>
    decreases nodes, nodes.len() - from,
{
    if 0 <= from < nodes.len() {
        match numbered(nodes[from], file, after) {
            Some(last) => numbered_all(nodes, from + 1, file, last),
            None => None,
        }
    } else {
        Some(after)
    }
}

/// In a numbered tree every span lies between the bounds of the numbering.
pub proof fn lemma_numbered_bounds(
    node: SyntaxNode,
    file: FileId,
    after: int,
    target: SyntaxNode,
)
    requires
        numbered(node, file, after) is Some,
        has_node(node, target),
    ensures
        after < target.span.number <= numbered(node, file, after)->0,
        after < node.span.number <= numbered(node, file, after)->0,
        target.span.file == Some(file),
    decreases node, 1int,
{
    lemma_numbered_all_grows(node.children@, 0, file, node.span.number as int);
    if node != target {
        lemma_numbered_all_bounds(node.children@, 0, file, node.span.number as int, target);
    }
}

/// The numbering never goes down.
pub proof fn lemma_numbered_all_grows(nodes: Seq<SyntaxNode>, from: int, file: FileId, after: int)
    requires
        numbered_all(nodes, from, file, after) is Some,
    ensures
        after <= numbered_all(nodes, from, file, after)->0,
    decreases nodes, nodes.len() - from, 0int,
{
    if 0 <= from < nodes.len() {
        let last = numbered(nodes[from], file, after)->0;
        lemma_numbered_bounds(nodes[from], file, after, nodes[from]);
        lemma_numbered_all_grows(nodes, from + 1, file, last);
    }
}

/// [`lemma_numbered_bounds`] for a node below a row of nodes.
pub proof fn lemma_numbered_all_bounds(
    nodes: Seq<SyntaxNode>,
    from: int,
    file: FileId,
    after: int,
    target: SyntaxNode,
)
    requires
        numbered_all(nodes, from, file, after) is Some,
        has_among(nodes, from, target),
    ensures
        after < target.span.number <= numbered_all(nodes, from, file, after)->0,
        target.span.file == Some(file),
    decreases nodes, nodes.len() - from, 1int,
{
    let last = numbered(nodes[from], file, after)->0;
    lemma_numbered_bounds(nodes[from], file, after, nodes[from]);
    lemma_numbered_all_grows(nodes, from + 1, file, last);
    if has_node(nodes[from], target) {
        lemma_numbered_bounds(nodes[from], file, after, target);
    } else {
        lemma_numbered_all_bounds(nodes, from + 1, file, last, target);
    }
}

/// In a numbered tree no two nodes share a span.
pub proof fn lemma_numbered_unique(
    node: SyntaxNode,
    file: FileId,
    after: int,
    a: SyntaxNode,
    b: SyntaxNode,
)
    requires
        numbered(node, file, after) is Some,
        has_node(node, a),
        has_node(node, b),
        a.span == b.span,
    ensures
        a == b,
    decreases node, 1int,
{
    let own = node.span.number as int;
    if node == a && node == b {
    } else if node == a {
        lemma_numbered_all_bounds(node.children@, 0, file, own, b);
    } else if node == b {
        lemma_numbered_all_bounds(node.children@, 0, file, own, a);
    } else {
        lemma_numbered_all_unique(node.children@, 0, file, own, a, b);
    }
}

/// [`lemma_numbered_unique`] for nodes below a row of nodes.
pub proof fn lemma_numbered_all_unique(
    nodes: Seq<SyntaxNode>,
    from: int,
    file: FileId,
    after: int,
    a: SyntaxNode,
    b: SyntaxNode,
)
    requires
        numbered_all(nodes, from, file, after) is Some,
        has_among(nodes, from, a),
        has_among(nodes, from, b),
        a.span == b.span,
    ensures
        a == b,
    decreases nodes, nodes.len() - from, 0int,
{
    let last = numbered(nodes[from], file, after)->0;
    let here_a = has_node(nodes[from], a);
    let here_b = has_node(nodes[from], b);
    if here_a && here_b {
        lemma_numbered_unique(nodes[from], file, after, a, b);
    } else if here_a {
        lemma_numbered_bounds(nodes[from], file, after, a);
        lemma_numbered_all_bounds(nodes, from + 1, file, last, b);
    } else if here_b {
        lemma_numbered_bounds(nodes[from], file, after, b);
        lemma_numbered_all_bounds(nodes, from + 1, file, last, a);
    } else {
        lemma_numbered_all_unique(nodes, from + 1, file, last, a, b);
    }
}

/// Whether `found` describes `node`.
pub open spec fn describes(found: FoundView, node: SyntaxNode) -> bool {
    &&& found.kind == node.kind
    &&& found.end - found.start == node_len(node)
    &&& found.name == leftmost_text(node)
}

/// A lookup that succeeds reports a node of the tree that carries the span
/// and lies within the tree's byte range.
pub proof fn lemma_find_sound(node: SyntaxNode, offset: int, span: Span) -> (target: SyntaxNode)
    requires
        find_node(node, offset, span) is Some,
    ensures
        has_node(node, target),
        target.span == span,
        describes(find_node(node, offset, span)->0, target),
        offset <= find_node(node, offset, span)->0.start,
        find_node(node, offset, span)->0.end <= offset + node_len(node),
    decreases node, 1int,
{
    if node.span == span {
        node
    } else {
        lemma_find_among_sound(node.children@, 0, offset, span)
    }
}

/// [`lemma_find_sound`] for a lookup in a row of nodes.
pub proof fn lemma_find_among_sound(nodes: Seq<SyntaxNode>, from: int, base: int, span: Span) -> (target:
    SyntaxNode)
    requires
        find_among(nodes, from, base, span) is Some,
    ensures
        has_among(nodes, from, target),
        target.span == span,
        describes(find_among(nodes, from, base, span)->0, target),
        base <= find_among(nodes, from, base, span)->0.start,
        find_among(nodes, from, base, span)->0.end <= base + nodes_len(nodes, nodes.len() as int),
    decreases nodes, nodes.len() - from, 0int,
{
    lemma_nodes_len_monotonic(nodes, from + 1, nodes.len() as int);
    if find_node(nodes[from], base + nodes_len(nodes, from), span) is Some {
        lemma_find_sound(nodes[from], base + nodes_len(nodes, from), span)
    } else {
        lemma_find_among_sound(nodes, from + 1, base, span)
    }
}

/// A lookup for the span of a node of the tree succeeds.
pub proof fn lemma_find_complete(node: SyntaxNode, offset: int, target: SyntaxNode)
    requires
        has_node(node, target),
    ensures
        find_node(node, offset, target.span) is Some,
    decreases node, 1int,
{
    if node.span != target.span {
        lemma_find_among_complete(node.children@, 0, offset, target);
    }
}

/// [`lemma_find_complete`] for a lookup in a row of nodes.
pub proof fn lemma_find_among_complete(
    nodes: Seq<SyntaxNode>,
    from: int,
    base: int,
    target: SyntaxNode,
)
    requires
        has_among(nodes, from, target),
    ensures
        find_among(nodes, from, base, target.span) is Some,
    decreases nodes, nodes.len() - from, 0int,
{
    if find_node(nodes[from], base + nodes_len(nodes, from), target.span) is None {
        if has_node(nodes[from], target) {
            lemma_find_complete(nodes[from], base + nodes_len(nodes, from), target);
        } else {
            lemma_find_among_complete(nodes, from + 1, base, target);
        }
    }
}

/// In a numbered tree, looking up the span of one of its nodes finds that
/// node.
pub proof fn lemma_find_own_span(root: SyntaxNode, file: FileId, target: SyntaxNode)
    requires
        numbered(root, file, 0) is Some,
        has_node(root, target),
    ensures
        find_node(root, 0, target.span) is Some,
        describes(find_node(root, 0, target.span)->0, target),
        0 <= find_node(root, 0, target.span)->0.start,
        find_node(root, 0, target.span)->0.end <= node_len(root),
{
    lemma_find_complete(root, 0, target);
    let other = lemma_find_sound(root, 0, target.span);
    lemma_numbered_unique(root, file, 0, other, target);
}

/// Searches `node`, which starts at byte `offset`, for the first node with
/// the given span. Reports the length of `node` if there is none.
fn find_walk(node: &SyntaxNode, offset: usize, span: Span) -> (r: Result<Found, usize>)
    requires
        offset + node_len(*node) <= usize::MAX,
    ensures
        match r {
            Ok(found) => find_node(*node, offset as int, span) == Some(found@),
            Err(len) => find_node(*node, offset as int, span) is None && len == node_len(*node),
        },
    decreases *node,
{
    if node.span == span {
        let len = match node.len() {
            Some(len) => len,
            None => 0,
        };
        let name = match node.leftmost_leaf_text() {
            Some(name) => Some(name.to_owned()),
            None => None,
        };
        return Ok(Found { kind: node.kind, start: offset, end: offset + len, name });
    }
    if node.children.len() == 0 {
        return Err(crate::text::byte_len(node.text.as_str()));
    }
    let mut total: usize = 0;
    let mut i: usize = 0;
    while i < node.children.len()
        invariant
            0 <= i <= node.children@.len(),
            total == nodes_len(node.children@, i as int),
            offset + node_len(*node) <= usize::MAX,
            node.span != span,
            find_among(node.children@, 0, offset as int, span) == find_among(
                node.children@,
                i as int,
                offset as int,
                span,
            ),
        decreases node.children@.len() - i,
    {
        proof {
            lemma_child_fits(*node, i as int);
        }
        match find_walk(&node.children[i], offset + total, span) {
            Ok(found) => {
                assert(find_among(node.children@, i as int, offset as int, span) == Some(
                    found@,
                ));
                return Ok(found);
            },
            Err(len) => {
                assert(find_among(node.children@, i as int, offset as int, span)
                    == find_among(node.children@, i + 1, offset as int, span));
                total = total + len;
            },
        }
        i += 1;
    }
    Err(total)
}

/// Checks that the spans of `node` and of all nodes below it belong to
/// `file` and are numbered in growing order above `after`.
fn check_numbering(node: &SyntaxNode, file: FileId, after: u64) -> (last: Option<u64>)
    ensures
        last is Some <==> numbered(*node, file, after as int) is Some,
        last is Some ==> last->0 == numbered(*node, file, after as int)->0,
    decreases *node,
{
    match node.span.file {
        Some(f) => {
            if !(f == file) {
                return None;
            }
        },
        None => {
            return None;
        },
    }
    if node.span.number <= after {
        return None;
    }
    let mut last: u64 = node.span.number;
    let mut i: usize = 0;
    while i < node.children.len()
        invariant
            0 <= i <= node.children@.len(),
            numbered(*node, file, after as int) == numbered_all(
                node.children@,
                i as int,
                file,
                last as int,
            ),
        decreases node.children@.len() - i,
    {
        match check_numbering(&node.children[i], file, last) {
            Some(next) => {
                last = next;
            },
            None => {
                return None;
            },
        }
        i += 1;
    }
    Some(last)
}

/// One file of a document: its identity and its syntax tree.
///
/// Every node of the tree carries a span of this file, no two nodes carry
/// the same span, and the file's length fits the machine's address range.
#[derive(Debug)]
pub struct Source {
    id: FileId,
    root: SyntaxNode,
}

impl Source {
    #[verifier::type_invariant]
    spec fn valid(self) -> bool {
        self.wf()
    }

    /// The file that this source holds.
    pub closed spec fn file(self) -> FileId {
        self.id
    }

    /// The syntax tree of this source.
    pub closed spec fn tree(self) -> SyntaxNode {
        self.root
    }

    /// What holds of every source: its spans are numbered in growing order
    /// within its own file, and its length is a machine integer.
    pub open spec fn wf(self) -> bool {
        &&& numbered(self.tree(), self.file(), 0) is Some
        &&& node_len(self.tree()) <= usize::MAX
    }

    /// The node that `span` identifies in this source.
    pub open spec fn lookup(self, span: Span) -> Option<FoundView> {
        find_node(self.tree(), 0, span)
    }

    /// Makes a source of a syntax tree. Gives `None` unless the spans of
    /// the tree belong to `id` and their numbers, all above zero, grow
    /// strictly from each node to the next in document order, and the
    /// length of the text fits the machine's address range.
    pub fn new(id: FileId, root: SyntaxNode) -> (source: Option<Source>)
        ensures
            source is Some <==> numbered(root, id, 0) is Some && node_len(root) <= usize::MAX,
            source is Some ==> source->0.file() == id && source->0.tree() == root
                && source->0.wf(),
    {
        if check_numbering(&root, id, 0).is_none() {
            return None;
        }
        if root.len().is_none() {
            return None;
        }
        Some(Source { id, root })
    }

    /// The file that this source holds.
    pub fn id(&self) -> (id: FileId)
        ensures
            id == self.file(),
            self.wf(),
    {
        proof {
            use_type_invariant(self);
        }
        self.id
    }

    /// The syntax tree of this source.
    pub fn root(&self) -> (root: &SyntaxNode)
        ensures
            *root == self.tree(),
            self.wf(),
    {
        proof {
            use_type_invariant(self);
        }
        &self.root
    }

    /// Number of bytes of this source.
    pub fn len_bytes(&self) -> (n: usize)
        ensures
            n == node_len(self.tree()),
    {
        proof {
            use_type_invariant(self);
        }
        match self.root.len() {
            Some(n) => n,
            None => 0,
        }
    }

    /// Finds the node that `span` identifies.
    pub fn find(&self, span: Span) -> (found: Option<Found>)
        ensures
            found is Some <==> self.lookup(span) is Some,
            found is Some ==> found->0@ == self.lookup(span)->0,
            self.wf(),
    {
        proof {
            use_type_invariant(self);
        }
        match find_walk(&self.root, 0, span) {
            Ok(found) => Some(found),
            Err(_) => None,
        }
    }
}

/// The sources of a document.
#[derive(Debug)]
pub struct World {
    pub sources: Vec<Source>,
}

/// The first of `sources` that holds `file`.
pub open spec fn source_of(sources: Seq<Source>, file: FileId) -> Option<Source>
    decreases sources.len(),
{
    if sources.len() == 0 {
        None
    } else if sources[0].file() == file {
        Some(sources[0])
    } else {
        source_of(sources.drop_first(), file)
    }
}

impl World {
    /// A document without sources.
    pub fn new() -> (world: World)
        ensures
            world.sources@.len() == 0,
    {
        World { sources: Vec::new() }
    }

    /// Adds a source after those already there.
    pub fn add(&mut self, source: Source)
        ensures
            final(self).sources@ == old(self).sources@.push(source),
    {
        self.sources.push(source);
    }

    /// The source of `file`: the first that was added for it.
    pub fn source(&self, file: FileId) -> (source: Option<&Source>)
        ensures
            source is Some <==> source_of(self.sources@, file) is Some,
            source is Some ==> *source->0 == source_of(self.sources@, file)->0,
    {
        let mut i: usize = 0;
        assert(self.sources@.skip(0) =~= self.sources@);
        while i < self.sources.len()
            invariant
                0 <= i <= self.sources@.len(),
                source_of(self.sources@, file) == source_of(self.sources@.skip(i as int), file),
            decreases self.sources@.len() - i,
        {
            if self.sources[i].id() == file {
                assert(self.sources@.skip(i as int)[0] == self.sources@[i as int]);
                return Some(&self.sources[i]);
            }
            assert(self.sources@.skip(i as int).drop_first() =~= self.sources@.skip(i + 1));
            i += 1;
        }
        None
    }
}

} // verus!

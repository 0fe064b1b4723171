//! Python syntax trees as plain values: the nodes that tree-sitter-python
//! finds in a source text, listed in preorder with their depths.
use vstd::prelude::*;

use crate::text::text_is;

verus! {

#[verifier::external_type_specification]
#[verifier::external_body]
pub struct ExTree(tree_sitter::Tree);

/// A position in a source text: zero-based row and byte column.
#[derive(Clone, Copy, Debug, PartialEq, Eq, Structural)]
pub struct Point {
    pub row: usize,
    pub column: usize,
}

/// One node of a syntax tree, as plain values.
#[derive(Debug)]
pub struct SyntaxNode {
    /// The grammar's name for the node (`import_statement`, `dotted_name`, ...).
    pub kind: String,
    /// The field under which the node stands in its parent, if any.
    pub field: Option<String>,
    /// The number of ancestors of the node.
    pub depth: usize,
    /// The source text that the node spans.
    pub text: String,
    pub start: Point,
    pub end: Point,
}

/// The mathematical content of a [`SyntaxNode`].
pub struct NodeView {
    pub kind: Seq<char>,
    pub field: Option<Seq<char>>,
    pub depth: nat,
    pub text: Seq<char>,
    pub start: Point,
    pub end: Point,
}

pub open spec fn opt_string_view(o: Option<String>) -> Option<Seq<char>> {
    match o {
        Some(s) => Some(s@),
        None => None,
    }
}

impl View for SyntaxNode {
    type V = NodeView;

    open spec fn view(&self) -> NodeView {
        NodeView {
            kind: self.kind@,
            field: opt_string_view(self.field),
            depth: self.depth as nat,
            text: self.text@,
            start: self.start,
            end: self.end,
        }
    }
}

/// A source text together with the tree that tree-sitter-python parsed from
/// it. Only [`parse_tree`] makes one, from the text it parses, so the tree is
/// always that of the text; its view is the text.
pub struct PythonSyntax {
    text: String,
    tree: tree_sitter::Tree,
}

impl View for PythonSyntax {
    type V = Seq<char>;

    closed spec fn view(&self) -> Seq<char> {
        self.text@
    }
}

/// Whether tree-sitter, set to the Python grammar, gives a tree for `source`.
pub uninterp spec fn python_parses(source: Seq<char>) -> bool;

/// How many nodes the tree that tree-sitter-python gives for `source` has.
pub uninterp spec fn python_node_count(source: Seq<char>) -> nat;

/// The node at `index`, in preorder, of the tree that tree-sitter-python
/// gives for `source`.
pub uninterp spec fn python_node(source: Seq<char>, index: nat) -> NodeView;

/// Parses `source` with tree-sitter (`Parser::new`, `Parser::set_language`
/// with tree-sitter-python's `LANGUAGE`, `Parser::parse`). Claimed: a tree
/// comes back exactly when `python_parses` holds of the text, and the value
/// returned holds that text. The tree itself is opaque here.
#[verifier::external_body]
pub fn parse_tree(source: &str) -> (r: Option<PythonSyntax>)
    ensures
        r is Some == python_parses(source@),
        r matches Some(p) ==> p@ == source@,
{
    let mut parser = tree_sitter::Parser::new();
    parser.set_language(&tree_sitter_python::LANGUAGE.into()).ok()?;
    let tree = parser.parse(source, None)?;
    Some(PythonSyntax { text: source.to_string(), tree })
}

/// The number of nodes of the parsed tree (`Node::descendant_count` on the
/// root). Claimed: it is `python_node_count` of the text.
#[verifier::external_body]
fn node_count(syntax: &PythonSyntax) -> (n: usize)
    ensures
        n == python_node_count(syntax@),
{
    syntax.tree.root_node().descendant_count()
}

/// The node at `index` in preorder (`TreeCursor::goto_descendant`), read out
/// as plain values: its kind, field name, depth, text and positions. Claimed:
/// it is `python_node` of the text at that index.
#[verifier::external_body]
fn node_at(syntax: &PythonSyntax, index: usize) -> (node: SyntaxNode)
    requires
        index < python_node_count(syntax@),
    ensures
        node@ == python_node(syntax@, index as nat),
{
    let mut cursor = syntax.tree.walk();
    cursor.goto_descendant(index);
    let n = cursor.node();
    let (s, e) = (n.start_position(), n.end_position());
    SyntaxNode {
        kind: n.kind().to_string(),
        field: cursor.field_name().map(|f| f.to_string()),
        depth: cursor.depth() as usize,
        text: n.utf8_text(syntax.text.as_bytes()).unwrap_or_default().to_string(),
        start: Point { row: s.row, column: s.column },
        end: Point { row: e.row, column: e.column },
    }
}

/// The views of a list of nodes.
pub open spec fn node_views(v: Seq<SyntaxNode>) -> Seq<NodeView> {
    v.map_values(|n: SyntaxNode| n@)
}

/// The nodes, in preorder, of the tree that tree-sitter-python gives for `source`.
pub open spec fn python_listing(source: Seq<char>) -> Seq<NodeView> {
    Seq::new(python_node_count(source), |i: int| python_node(source, i as nat))
}

/// The nodes of the syntax tree of `source`, in preorder, with their depths;
/// `None` when tree-sitter gives no tree.
pub fn syntax_nodes(source: &str) -> (r: Option<Vec<SyntaxNode>>)
    ensures
        r is Some == python_parses(source@),
        r matches Some(v) ==> node_views(v@) == python_listing(source@),
{
    let syntax = match parse_tree(source) {
        Some(p) => p,
        None => return None,
    };
    let count = node_count(&syntax);
    let mut nodes: Vec<SyntaxNode> = Vec::new();
    let mut i: usize = 0;
    while i < count
        invariant
            i <= count,
            count == python_node_count(syntax@),
            syntax@ == source@,
            nodes.len() == i,
            node_views(nodes@) == python_listing(source@).take(i as int),
        decreases count - i,
    {
        let n = node_at(&syntax, i);
        let ghost nv = n@;
        let ghost before = nodes@;
        nodes.push(n);
        assert(nodes@ == before.push(n));
        assert(python_listing(source@)[i as int] == nv);
        assert(node_views(nodes@)[i as int] == nv);
        i = i + 1;
        assert(node_views(nodes@) =~= python_listing(source@).take(i as int));
    }
    assert(python_listing(source@).take(count as int) =~= python_listing(source@));
    Some(nodes)
}

// ---------------------------------------------------------------------------
// The shape of a listing: a node's subtree is the run of later nodes that
// are deeper than it.
// ---------------------------------------------------------------------------

/// The first index from `k` on whose node is not deeper than node `i`, or
/// the length of the listing.
pub open spec fn scan_end(t: Seq<NodeView>, i: int, k: int) -> int
    decreases t.len() - k,
{
    if k >= t.len() {
        t.len() as int
    } else if t[k].depth <= t[i].depth {
        k
    } else {
        scan_end(t, i, k + 1)
    }
}

/// The index just past the subtree of node `i`.
pub open spec fn subtree_end(t: Seq<NodeView>, i: int) -> int {
    scan_end(t, i, i + 1)
}

/// Node `c` is one level below node `i`: within `i`'s subtree, it is a child.
pub open spec fn one_below(t: Seq<NodeView>, i: int, c: int) -> bool {
    t[c].depth == t[i].depth + 1
}

/// The scan stops at the first node from `k` on that is not deeper than
/// node `i`, or at the end.
pub proof fn lemma_scan_end(t: Seq<NodeView>, i: int, k: int)
    requires
        0 <= k <= t.len(),
    ensures
        k <= scan_end(t, i, k) <= t.len(),
        forall|j: int| k <= j < scan_end(t, i, k) ==> t[j].depth > t[i].depth,
        scan_end(t, i, k) < t.len() ==> t[scan_end(t, i, k)].depth <= t[i].depth,
    decreases t.len() - k,
{
    if k < t.len() && t[k].depth > t[i].depth {
        lemma_scan_end(t, i, k + 1);
    }
}

/// A subtree ends after the node that heads it.
pub proof fn lemma_subtree_end(t: Seq<NodeView>, i: int)
    requires
        0 <= i < t.len(),
    ensures
        i < subtree_end(t, i) <= t.len(),
        forall|j: int| i < j < subtree_end(t, i) ==> t[j].depth > t[i].depth,
        subtree_end(t, i) < t.len() ==> t[subtree_end(t, i)].depth <= t[i].depth,
{
    lemma_scan_end(t, i, i + 1);
}

proof fn lemma_scan_bound(t: Seq<NodeView>, k: int, j: int, e: int)
    requires
        0 <= k < j <= e <= t.len(),
        e == t.len() || t[e].depth <= t[k].depth,
    ensures
        scan_end(t, k, j) <= e,
    decreases e - j,
{
    if j < e && t[j].depth > t[k].depth {
        lemma_scan_bound(t, k, j + 1, e);
    }
}

/// A subtree inside another ends no later than it.
pub proof fn lemma_nested_subtree(t: Seq<NodeView>, c: int, k: int)
    requires
        0 <= c < k < subtree_end(t, c),
        subtree_end(t, c) <= t.len(),
    ensures
        subtree_end(t, k) <= subtree_end(t, c),
{
    lemma_subtree_end(t, c);
    lemma_scan_bound(t, k, k + 1, subtree_end(t, c));
}

/// The first child of node `i` at or after `k` that stands under field `f`.
pub open spec fn field_child_from(t: Seq<NodeView>, i: int, f: Seq<char>, k: int) -> Option<int>
    decreases t.len() - k,
{
    if k >= t.len() || k >= subtree_end(t, i) {
        None
    } else if one_below(t, i, k) && t[k].field == Some(f) {
        Some(k)
    } else {
        field_child_from(t, i, f, k + 1)
    }
}

/// The first child of node `i` under field `f` (`Node::child_by_field_name`).
pub open spec fn field_child(t: Seq<NodeView>, i: int, f: Seq<char>) -> Option<int> {
    field_child_from(t, i, f, i + 1)
}

/// The index just past the subtree of node `i`.
pub fn subtree_end_of(nodes: &Vec<SyntaxNode>, i: usize) -> (e: usize)
    requires
        i < nodes.len(),
    ensures
        e == subtree_end(node_views(nodes@), i as int),
        i < e <= nodes.len(),
{
    let ghost t = node_views(nodes@);
    proof {
        lemma_subtree_end(t, i as int);
    }
    let d = nodes[i].depth;
    let mut k: usize = i + 1;
    while k < nodes.len() && nodes[k].depth > d
        invariant
            i < k <= nodes.len(),
            t == node_views(nodes@),
            d == t[i as int].depth,
            scan_end(t, i as int, k as int) == subtree_end(t, i as int),
        decreases nodes.len() - k,
    {
        k = k + 1;
    }
    k
}

/// The first child of node `i` under field `f`.
pub fn field_child_of(nodes: &Vec<SyntaxNode>, i: usize, f: &str) -> (r: Option<usize>)
    requires
        i < nodes.len(),
    ensures
        field_child(node_views(nodes@), i as int, f@) == (match r {
            Some(k) => Some(k as int),
            None => None::<int>,
        }),
        r matches Some(k) ==> i < k < nodes.len(),
{
    let ghost t = node_views(nodes@);
    let end = subtree_end_of(nodes, i);
    let d = nodes[i].depth;
    let mut k: usize = i + 1;
    while k < end
        invariant
            i < k <= end <= nodes.len(),
            t == node_views(nodes@),
            end == subtree_end(t, i as int),
            d == t[i as int].depth,
            field_child_from(t, i as int, f@, k as int) == field_child(t, i as int, f@),
        decreases end - k,
    {
        if nodes[k].depth == d + 1 {
            let hit = match &nodes[k].field {
                Some(name) => text_is(name.as_str(), f),
                None => false,
            };
            if hit {
                return Some(k);
            }
        }
        k = k + 1;
    }
    None
}

} // verus!

//! The concrete syntax tree of a message, held as an arena of nodes.

use crate::point::Point;
use vstd::prelude::*;

verus! {

/// What a node of the tree stands for in the delimiter hierarchy.
#[derive(Clone, Copy, Debug, PartialEq, Eq, Hash, Structural)]
pub enum NodeKind {
    Message,
    Segment,
    Field,
    FieldSeparator,
    Component,
    ComponentSeparator,
    Subcomponent,
    SubcomponentSeparator,
    /// Leaf text and anything else the grammar produces.
    Other,
}

/// `str`'s `==`: two string slices are equal exactly when they hold the same
/// characters. Not proved here; it restates the standard library's
/// documentation.
pub assume_specification[ <str as PartialEq>::eq ](a: &str, b: &str) -> (r: bool)
    ensures
        r == (a@ == b@),
;

/// The kind that a grammar's name for a node stands for.
pub open spec fn kind_of_name(name: Seq<char>) -> NodeKind {
    if name == "message"@ {
        NodeKind::Message
    } else if name == "segment"@ || name == "msh"@ {
        NodeKind::Segment
    } else if name == "field"@ {
        NodeKind::Field
    } else if name == "field_separator"@ {
        NodeKind::FieldSeparator
    } else if name == "component"@ {
        NodeKind::Component
    } else if name == "component_separator"@ {
        NodeKind::ComponentSeparator
    } else if name == "subcomponent"@ {
        NodeKind::Subcomponent
    } else if name == "subcomponent_separator"@ {
        NodeKind::SubcomponentSeparator
    } else {
        NodeKind::Other
    }
}

impl NodeKind {
    /// Reads a kind from the grammar's name for it. The header segment, which
    /// the grammar tags `msh`, is a segment like any other.
    pub fn from_name(name: &str) -> (kind: NodeKind)
        ensures
            kind == kind_of_name(name@),
    {
        if *name == *"message" {
            NodeKind::Message
        } else if *name == *"segment" || *name == *"msh" {
            NodeKind::Segment
        } else if *name == *"field" {
            NodeKind::Field
        } else if *name == *"field_separator" {
            NodeKind::FieldSeparator
        } else if *name == *"component" {
            NodeKind::Component
        } else if *name == *"component_separator" {
            NodeKind::ComponentSeparator
        } else if *name == *"subcomponent" {
            NodeKind::Subcomponent
        } else if *name == *"subcomponent_separator" {
            NodeKind::SubcomponentSeparator
        } else {
            NodeKind::Other
        }
    }
}

/// One node of the tree.
///
/// Nodes refer to each other by their index in the arena. `parent` and
/// `sibling_index` only serve navigation: the tree owns every node.
#[derive(Clone, Debug, PartialEq, Eq)]
pub struct SyntaxNode {
    pub kind: NodeKind,
    /// Offset of the node's first byte in the source text.
    pub start_byte: usize,
    /// Offset just past the node's last byte.
    pub end_byte: usize,
    /// Position of the node's first byte.
    pub start: Point,
    /// Position just past the node's last byte.
    pub end: Point,
    /// The node above this one; `None` for the root.
    pub parent: Option<usize>,
    /// The place of this node among its parent's children.
    pub sibling_index: usize,
    /// The nodes directly below this one, from left to right.
    pub children: Vec<usize>,
}

impl SyntaxNode {
    /// The node's extent holds `p`: it starts at or before `p` and ends after it.
    pub open spec fn covers(self, p: Point) -> bool {
        self.start.not_after(p) && p.before(self.end)
    }

    /// The node's extent is in order, and where the node is a field
    /// separator the column after its first byte can be written down.
    pub open spec fn extent_ok(self) -> bool {
        &&& self.start.not_after(self.end)
        &&& self.start_byte <= self.end_byte
        &&& self.kind == NodeKind::FieldSeparator ==> self.start.column < u32::MAX
    }
}

/// Node `i` names its parent, and that parent lists it where it says.
pub open spec fn parent_ok(nodes: Seq<SyntaxNode>, i: int) -> bool {
    if i == 0 {
        nodes[i].parent is None
    } else {
        &&& nodes[i].parent matches Some(p)
        &&& p < i
        &&& nodes[i].sibling_index < nodes[p as int].children@.len()
        &&& nodes[p as int].children@[nodes[i].sibling_index as int] == i
    }
}

/// The `k`-th child of node `i` is stored after `i`, points back to it, lies
/// within its extent, and ends before the next child starts.
pub open spec fn child_ok(nodes: Seq<SyntaxNode>, i: int, k: int) -> bool {
    let c = nodes[i].children@[k];
    &&& i < c < nodes.len()
    &&& nodes[c as int].parent == Some(i as usize)
    &&& nodes[c as int].sibling_index == k
    &&& nodes[i].start.not_after(nodes[c as int].start)
    &&& nodes[c as int].end.not_after(nodes[i].end)
    &&& k + 1 < nodes[i].children@.len() ==> {
        let next = nodes[i].children@[k + 1];
        &&& c < next < nodes.len()
        &&& nodes[c as int].end.not_after(nodes[next as int].start)
    }
}

/// Node `i` has an extent, a place below its parent, and children that are
/// in order.
pub open spec fn node_ok(nodes: Seq<SyntaxNode>, i: int) -> bool {
    &&& nodes[i].extent_ok()
    &&& parent_ok(nodes, i)
    &&& forall|k: int| 0 <= k < nodes[i].children@.len() ==> child_ok(nodes, i, k)
}

/// What makes a sequence of nodes a tree: node 0 is the root, every other
/// node hangs below an earlier one, and siblings follow each other in the
/// text without overlap.
pub open spec fn well_formed(nodes: Seq<SyntaxNode>) -> bool {
    &&& nodes.len() > 0
    &&& forall|i: int| 0 <= i < nodes.len() ==> node_ok(nodes, i)
}

fn check_parent(nodes: &Vec<SyntaxNode>, i: usize) -> (ok: bool)
    requires
        i < nodes.len(),
    ensures
        ok == parent_ok(nodes@, i as int),
{
    match nodes[i].parent {
        None => i == 0,
        Some(p) => {
            if i == 0 || p >= i {
                false
            } else {
                let slot = nodes[i].sibling_index;
                slot < nodes[p].children.len() && nodes[p].children[slot] == i
            }
        },
    }
}

fn check_child(nodes: &Vec<SyntaxNode>, i: usize, k: usize) -> (ok: bool)
    requires
        i < nodes.len(),
        k < nodes[i as int].children@.len(),
    ensures
        ok == child_ok(nodes@, i as int, k as int),
{
    let node = &nodes[i];
    let count = node.children.len();
    let c = node.children[k];
    if c <= i || c >= nodes.len() {
        return false;
    }
    let child = &nodes[c];
    let linked = match child.parent {
        Some(p) => p == i,
        None => false,
    };
    if !linked || child.sibling_index != k || !node.start.is_not_after(&child.start)
        || !child.end.is_not_after(&node.end) {
        return false;
    }
    if k + 1 < count {
        let next = node.children[k + 1];
        c < next && next < nodes.len() && child.end.is_not_after(&nodes[next].start)
    } else {
        true
    }
}

fn check_node(nodes: &Vec<SyntaxNode>, i: usize) -> (ok: bool)
    requires
        i < nodes.len(),
    ensures
        ok == node_ok(nodes@, i as int),
{
    let node = &nodes[i];
    if !(node.start.is_not_after(&node.end) && node.start_byte <= node.end_byte) {
        return false;
    }
    if node.kind == NodeKind::FieldSeparator && node.start.column == u32::MAX {
        return false;
    }
    if !check_parent(nodes, i) {
        return false;
    }
    let mut k: usize = 0;
    while k < node.children.len()
        invariant
            i < nodes.len(),
            node == nodes[i as int],
            k <= node.children@.len(),
            forall|j: int| 0 <= j < k ==> child_ok(nodes@, i as int, j),
        decreases node.children@.len() - k,
    {
        if !check_child(nodes, i, k) {
            return false;
        }
        k += 1;
    }
    true
}

/// Decides whether `nodes` form a tree.
pub fn check_nodes(nodes: &Vec<SyntaxNode>) -> (ok: bool)
    ensures
        ok == well_formed(nodes@),
{
    if nodes.len() == 0 {
        return false;
    }
    let mut i: usize = 0;
    while i < nodes.len()
        invariant
            i <= nodes.len(),
            forall|j: int| 0 <= j < i ==> node_ok(nodes@, j),
        decreases nodes.len() - i,
    {
        if !check_node(nodes, i) {
            return false;
        }
        i += 1;
    }
    true
}

/// A concrete syntax tree: an arena of nodes that is known to be a tree.
#[derive(Debug)]
pub struct SyntaxTree {
    nodes: Vec<SyntaxNode>,
}

/// A tree is viewed as the sequence of its nodes.
impl View for SyntaxTree {
    type V = Seq<SyntaxNode>;

    closed spec fn view(&self) -> Seq<SyntaxNode> {
        self.nodes@
    }
}

impl SyntaxTree {
    /// What holds of every value of this type: its nodes form a tree.
    #[verifier::type_invariant]
    pub open spec fn is_tree(self) -> bool {
        well_formed(self@)
    }

    /// Takes `nodes` as a tree if they form one.
    pub fn new(nodes: Vec<SyntaxNode>) -> (tree: Option<SyntaxTree>)
        ensures
            tree is Some <==> well_formed(nodes@),
            tree matches Some(t) ==> t@ == nodes@,
    {
        if check_nodes(&nodes) {
            Some(SyntaxTree { nodes })
        } else {
            None
        }
    }

    /// The number of nodes; a tree has at least its root.
    pub fn len(&self) -> (n: usize)
        ensures
            n == self@.len(),
            n > 0,
    {
        proof {
            use_type_invariant(self);
        }
        self.nodes.len()
    }

    /// The index of the root.
    pub fn root(&self) -> (r: usize)
        ensures
            r == 0,
            r < self@.len(),
    {
        proof {
            use_type_invariant(self);
        }
        0
    }

    /// The node at index `i`.
    pub fn node(&self, i: usize) -> (n: &SyntaxNode)
        requires
            i < self@.len(),
        ensures
            *n == self@[i as int],
    {
        &self.nodes[i]
    }
}

/// Node `i` has a node above it.
pub open spec fn has_parent(nodes: Seq<SyntaxNode>, i: int) -> bool {
    &&& 0 < i < nodes.len()
    &&& nodes[i].parent matches Some(p)
    &&& p < i
}

/// The node above node `i`.
pub open spec fn parent_of(nodes: Seq<SyntaxNode>, i: int) -> int
    recommends
        has_parent(nodes, i),
{
    nodes[i].parent.unwrap() as int
}

/// Node `a` lies above node `i`, at any distance.
pub open spec fn is_ancestor(nodes: Seq<SyntaxNode>, a: int, i: int) -> bool
    decreases i,
{
    has_parent(nodes, i) && (parent_of(nodes, i) == a || is_ancestor(nodes, a, parent_of(nodes, i)))
}

/// Of the nodes above `i` that have kind `kind`, the one nearest to `i`.
pub open spec fn nearest_of_kind(nodes: Seq<SyntaxNode>, i: int, kind: NodeKind) -> Option<int>
    decreases i,
{
    if has_parent(nodes, i) {
        let p = parent_of(nodes, i);
        if nodes[p].kind == kind {
            Some(p)
        } else {
            nearest_of_kind(nodes, p, kind)
        }
    } else {
        None
    }
}

/// Of the nodes above `i` that have kind `kind`, the one nearest to the root.
pub open spec fn outermost_of_kind(nodes: Seq<SyntaxNode>, i: int, kind: NodeKind) -> Option<int>
    decreases i,
{
    if has_parent(nodes, i) {
        let p = parent_of(nodes, i);
        match outermost_of_kind(nodes, p, kind) {
            Some(a) => Some(a),
            None => if nodes[p].kind == kind {
                Some(p)
            } else {
                None
            },
        }
    } else {
        None
    }
}

/// How many of the nodes `ids` have kind `kind`.
pub open spec fn count_kind(nodes: Seq<SyntaxNode>, ids: Seq<usize>, kind: NodeKind) -> nat
    decreases ids.len(),
{
    if ids.len() == 0 {
        0
    } else {
        count_kind(nodes, ids.drop_last(), kind) + if nodes[ids.last() as int].kind == kind {
            1nat
        } else {
            0nat
        }
    }
}

/// The siblings to the left of node `i`, from left to right.
pub open spec fn preceding_siblings(nodes: Seq<SyntaxNode>, i: int) -> Seq<usize> {
    if has_parent(nodes, i) {
        nodes[parent_of(nodes, i)].children@.take(nodes[i].sibling_index as int)
    } else {
        Seq::empty()
    }
}

/// How many siblings of kind `kind` stand to the left of node `i`.
pub open spec fn count_before(nodes: Seq<SyntaxNode>, i: int, kind: NodeKind) -> nat {
    count_kind(nodes, preceding_siblings(nodes, i), kind)
}

/// In a tree the `k`-th child of node `i` is stored at least `k + 1` places
/// after `i`, so a node has fewer children than the tree has nodes.
pub proof fn lemma_child_index_bound(nodes: Seq<SyntaxNode>, i: int, k: int)
    requires
        well_formed(nodes),
        0 <= i < nodes.len(),
        0 <= k < nodes[i].children@.len(),
    ensures
        i + 1 + k <= nodes[i].children@[k] < nodes.len(),
    decreases k,
{
    assert(node_ok(nodes, i));
    assert(child_ok(nodes, i, k));
    if k > 0 {
        lemma_child_index_bound(nodes, i, k - 1);
        assert(child_ok(nodes, i, k - 1));
    }
}

/// A node of a tree has fewer children than the tree has nodes.
pub proof fn lemma_children_bound(nodes: Seq<SyntaxNode>, i: int)
    requires
        well_formed(nodes),
        0 <= i < nodes.len(),
    ensures
        nodes[i].children@.len() + i < nodes.len(),
{
    let n = nodes[i].children@.len() as int;
    if n > 0 {
        lemma_child_index_bound(nodes, i, n - 1);
    }
}

/// In a tree, a child ends before any child to its right starts.
pub proof fn lemma_sibling_order(nodes: Seq<SyntaxNode>, i: int, j: int, k: int)
    requires
        well_formed(nodes),
        0 <= i < nodes.len(),
        0 <= j < k < nodes[i].children@.len(),
    ensures
        nodes[nodes[i].children@[j] as int].end.not_after(
            nodes[nodes[i].children@[k] as int].start,
        ),
    decreases k - j,
{
    assert(node_ok(nodes, i));
    assert(child_ok(nodes, i, k - 1));
    if j + 1 < k {
        lemma_sibling_order(nodes, i, j, k - 1);
        assert(node_ok(nodes, nodes[i].children@[k - 1] as int));
    }
}

} // verus!

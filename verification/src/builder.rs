//! Putting a tree together node by node.

use crate::point::Point;
use crate::tree::{child_ok, node_ok, well_formed, NodeKind, SyntaxNode, SyntaxTree};
use vstd::prelude::*;

verus! {

/// The place and kind of a node that is about to join a tree.
#[derive(Clone, Copy, Debug, PartialEq, Eq, Structural)]
pub struct Span {
    pub kind: NodeKind,
    pub start_byte: usize,
    pub end_byte: usize,
    pub start: Point,
    pub end: Point,
}

impl Span {
    /// The span of a node of kind `kind` from `start` to `end`, which are
    /// the positions of the bytes at `start_byte` and `end_byte`.
    pub fn new(
        kind: NodeKind,
        start_byte: usize,
        end_byte: usize,
        start: Point,
        end: Point,
    ) -> (span: Span)
        ensures
            span == (Span { kind, start_byte, end_byte, start, end }),
    {
        Span { kind, start_byte, end_byte, start, end }
    }
}

/// `node` is what `span` becomes as the `slot`-th child of `parent`, with no
/// children of its own yet.
pub open spec fn is_leaf(node: SyntaxNode, span: Span, parent: Option<usize>, slot: usize) -> bool {
    &&& node.kind == span.kind
    &&& node.start_byte == span.start_byte
    &&& node.end_byte == span.end_byte
    &&& node.start == span.start
    &&& node.end == span.end
    &&& node.parent == parent
    &&& node.sibling_index == slot
    &&& node.children@.len() == 0
}

/// `after` is `before` with `child` as one more child at the right.
pub open spec fn gained_child(before: SyntaxNode, after: SyntaxNode, child: usize) -> bool {
    &&& after.kind == before.kind
    &&& after.start_byte == before.start_byte
    &&& after.end_byte == before.end_byte
    &&& after.start == before.start
    &&& after.end == before.end
    &&& after.parent == before.parent
    &&& after.sibling_index == before.sibling_index
    &&& after.children@ == before.children@.push(child)
}

/// A node may be added below `parent`: as the root of an empty arena, or
/// below a node that the arena holds.
pub open spec fn can_add(nodes: Seq<SyntaxNode>, parent: Option<usize>) -> bool {
    match parent {
        Some(p) => p < nodes.len(),
        None => nodes.len() == 0,
    }
}

/// `after` is `before` with `span` added as the last child of `parent`.
pub open spec fn added(
    before: Seq<SyntaxNode>,
    after: Seq<SyntaxNode>,
    parent: Option<usize>,
    span: Span,
) -> bool {
    let slot = match parent {
        Some(p) => before[p as int].children@.len() as usize,
        None => 0,
    };
    &&& after.len() == before.len() + 1
    &&& is_leaf(after[before.len() as int], span, parent, slot)
    &&& forall|i: int|
        0 <= i < before.len() ==> if parent == Some(i as usize) {
            gained_child(before[i], #[trigger] after[i], before.len() as usize)
        } else {
            after[i] == before[i]
        }
}

/// Collects nodes in the order in which they are added: a parent before its
/// children, the children of a node from left to right.
#[derive(Debug)]
pub struct TreeBuilder {
    nodes: Vec<SyntaxNode>,
}

/// A builder is viewed as the nodes added so far.
impl View for TreeBuilder {
    type V = Seq<SyntaxNode>;

    closed spec fn view(&self) -> Seq<SyntaxNode> {
        self.nodes@
    }
}

impl TreeBuilder {
    /// A builder that holds no node yet.
    pub fn new() -> (builder: TreeBuilder)
        ensures
            builder@.len() == 0,
    {
        TreeBuilder { nodes: Vec::new() }
    }

    /// The number of nodes added so far.
    pub fn len(&self) -> (n: usize)
        ensures
            n == self@.len(),
    {
        self.nodes.len()
    }

    /// Adds a node as the last child of `parent`, or as the root where
    /// `parent` is `None`, and returns its index. Nothing is added where
    /// `parent` is not a node of the builder, or a second root is asked for.
    pub fn add(&mut self, parent: Option<usize>, span: Span) -> (id: Option<usize>)
        ensures
            id is Some <==> can_add(old(self)@, parent),
            id matches Some(n) ==> n == old(self)@.len() && added(
                old(self)@,
                final(self)@,
                parent,
                span,
            ),
            id is None ==> final(self)@ == old(self)@,
    {
        let id = self.nodes.len();
        let slot = match parent {
            Some(p) => {
                if p >= id {
                    return None;
                }
                let slot = self.nodes[p].children.len();
                self.nodes[p].children.push(id);
                slot
            },
            None => {
                if id != 0 {
                    return None;
                }
                0
            },
        };
        self.nodes.push(
            SyntaxNode {
                kind: span.kind,
                start_byte: span.start_byte,
                end_byte: span.end_byte,
                start: span.start,
                end: span.end,
                parent,
                sibling_index: slot,
                children: Vec::new(),
            },
        );
        Some(id)
    }

    /// The tree that the added nodes form, if they form one.
    pub fn build(self) -> (tree: Option<SyntaxTree>)
        ensures
            tree is Some <==> well_formed(self@),
            tree matches Some(t) ==> t@ == self@,
    {
        SyntaxTree::new(self.nodes)
    }
}

/// A node as it is handed over to become part of a tree: its place and
/// kind, and where among the records its parent stands.
#[derive(Clone, Copy, Debug, PartialEq, Eq, Structural)]
pub struct NodeRecord {
    pub parent: Option<usize>,
    pub span: Span,
}

/// The `i`-th record names an earlier record as its parent, or is the first
/// record and names none.
pub open spec fn linked_at(records: Seq<NodeRecord>, i: int) -> bool {
    match records[i].parent {
        Some(p) => p < i,
        None => i == 0,
    }
}

/// Every record can be added to the records before it: the first is the
/// root, every other one names an earlier record as its parent.
pub open spec fn linked(records: Seq<NodeRecord>) -> bool {
    forall|i: int| 0 <= i < records.len() ==> linked_at(records, i)
}

/// Those of the first `upto` records that name record `p` as their parent,
/// in their order.
pub open spec fn children_in(records: Seq<NodeRecord>, p: int, upto: int) -> Seq<usize>
    decreases upto,
{
    if upto <= 0 {
        Seq::empty()
    } else {
        let earlier = children_in(records, p, upto - 1);
        if records[upto - 1].parent matches Some(q) && q == p {
            earlier.push((upto - 1) as usize)
        } else {
            earlier
        }
    }
}

/// The place of record `i` among the children of its parent: the number of
/// earlier records with the same parent.
pub open spec fn slot_of(records: Seq<NodeRecord>, i: int) -> nat {
    match records[i].parent {
        Some(p) => children_in(records, p as int, i).len(),
        None => 0,
    }
}

/// Node `i` is what record `i` says, with those of the first `upto` records
/// as its children that name it as their parent.
pub open spec fn node_holds(
    nodes: Seq<SyntaxNode>,
    records: Seq<NodeRecord>,
    i: int,
    upto: int,
) -> bool {
    &&& nodes[i].kind == records[i].span.kind
    &&& nodes[i].start_byte == records[i].span.start_byte
    &&& nodes[i].end_byte == records[i].span.end_byte
    &&& nodes[i].start == records[i].span.start
    &&& nodes[i].end == records[i].span.end
    &&& nodes[i].parent == records[i].parent
    &&& nodes[i].sibling_index == slot_of(records, i)
    &&& nodes[i].children@ == children_in(records, i, upto)
}

/// The arena `nodes` holds exactly what `records` say: one node for each
/// record, at the same index, with the record's place, kind and parent, and
/// with the records that name it as its children, in their order.
pub open spec fn holds(nodes: Seq<SyntaxNode>, records: Seq<NodeRecord>) -> bool {
    &&& nodes.len() == records.len()
    &&& forall|i: int|
        0 <= i < records.len() ==> node_holds(nodes, records, i, records.len() as int)
}

/// The records can be put together, and what they say is a tree.
pub open spec fn forms_tree(records: Seq<NodeRecord>) -> bool {
    linked(records) && exists|nodes: Seq<SyntaxNode>|
        holds(nodes, records) && well_formed(nodes)
}

/// Two arenas say the same: node by node they agree in place, kind, parent
/// and children.
pub open spec fn same_shape(a: Seq<SyntaxNode>, b: Seq<SyntaxNode>) -> bool {
    &&& a.len() == b.len()
    &&& forall|i: int|
        0 <= i < a.len() ==> {
            &&& a[i].kind == b[i].kind
            &&& a[i].start_byte == b[i].start_byte
            &&& a[i].end_byte == b[i].end_byte
            &&& a[i].start == b[i].start
            &&& a[i].end == b[i].end
            &&& a[i].parent == b[i].parent
            &&& a[i].sibling_index == b[i].sibling_index
            &&& a[i].children@ == b[i].children@
        }
}

/// Whether an arena is a tree depends only on what it says.
pub proof fn lemma_well_formed_by_shape(a: Seq<SyntaxNode>, b: Seq<SyntaxNode>)
    requires
        same_shape(a, b),
        well_formed(a),
    ensures
        well_formed(b),
{
    assert forall|i: int| 0 <= i < b.len() implies node_ok(b, i) by {
        assert(node_ok(a, i));
        assert forall|k: int| 0 <= k < b[i].children@.len() implies child_ok(b, i, k) by {
            assert(child_ok(a, i, k));
        }
    }
}

/// Two arenas that hold what the same records say, say the same.
pub proof fn lemma_same_records_same_shape(
    a: Seq<SyntaxNode>,
    b: Seq<SyntaxNode>,
    records: Seq<NodeRecord>,
)
    requires
        holds(a, records),
        holds(b, records),
    ensures
        same_shape(a, b),
{
    assert forall|i: int| 0 <= i < a.len() implies a[i].kind == b[i].kind && a[i].start_byte
        == b[i].start_byte && a[i].end_byte == b[i].end_byte && a[i].start == b[i].start
        && a[i].end == b[i].end && a[i].parent == b[i].parent && a[i].sibling_index
        == b[i].sibling_index && a[i].children@ == b[i].children@ by {
        assert(node_holds(a, records, i, records.len() as int));
        assert(node_holds(b, records, i, records.len() as int));
    }
}

/// Among records that are linked, a record has no children before itself.
pub proof fn lemma_no_children_before(records: Seq<NodeRecord>, p: int, upto: int)
    requires
        forall|j: int| 0 <= j < upto ==> linked_at(records, j),
        upto <= records.len(),
        upto <= p + 1,
    ensures
        children_in(records, p, upto).len() == 0,
    decreases upto,
{
    if upto > 0 {
        assert(linked_at(records, upto - 1));
        lemma_no_children_before(records, p, upto - 1);
    }
}

/// Adds the records to a new builder, one after the other, each below the
/// record it names as its parent. There is a builder exactly where every
/// record names an earlier one, the first none; it holds what the records
/// say.
pub fn fill(records: &Vec<NodeRecord>) -> (filled: Option<TreeBuilder>)
    ensures
        filled is Some <==> linked(records@),
        filled matches Some(builder) ==> holds(builder@, records@),
{
    let mut builder = TreeBuilder::new();
    let mut i: usize = 0;
    while i < records.len()
        invariant
            i <= records@.len(),
            builder@.len() == i,
            forall|k: int| 0 <= k < i ==> linked_at(records@, k),
            forall|k: int| 0 <= k < i ==> node_holds(builder@, records@, k, i as int),
        decreases records@.len() - i,
    {
        let record = records[i];
        let ghost before = builder@;
        match builder.add(record.parent, record.span) {
            None => {
                assert(!linked_at(records@, i as int));
                return None;
            },
            Some(_) => {},
        }
        proof {
            let after = builder@;
            let upto = i + 1;
            assert(linked_at(records@, i as int));
            lemma_no_children_before(records@, i as int, upto);
            assert forall|k: int| 0 <= k <= i implies node_holds(after, records@, k, upto) by {
                if k < i {
                    assert(node_holds(before, records@, k, i as int));
                    if record.parent == Some(k as usize) {
                        assert(gained_child(before[k], after[k], i));
                    } else {
                        assert(after[k] == before[k]);
                    }
                    assert(after[k].children@ == children_in(records@, k, upto));
                } else {
                    if let Some(p) = record.parent {
                        assert(node_holds(before, records@, p as int, i as int));
                        assert(before[p as int].children@.len() == before[p as int].children.len());
                    }
                    assert(after[k].children@ =~= children_in(records@, k, upto));
                }
            }
        }
        i += 1;
    }
    Some(builder)
}

/// Puts the records together, one after the other, each below the record it
/// names as its parent. There is a tree exactly where every record names an
/// earlier one, the first none, and what the records say is a tree.
pub fn assemble(records: &Vec<NodeRecord>) -> (tree: Option<SyntaxTree>)
    ensures
        tree is Some <==> forms_tree(records@),
        tree matches Some(t) ==> holds(t@, records@),
{
    match fill(records) {
        None => None,
        Some(builder) => {
            let ghost nodes = builder@;
            let tree = builder.build();
            proof {
                if tree is None {
                    assert forall|other: Seq<SyntaxNode>|
                        holds(other, records@) implies !well_formed(other) by {
                        if well_formed(other) {
                            lemma_same_records_same_shape(other, nodes, records@);
                            lemma_well_formed_by_shape(other, nodes);
                        }
                    }
                }
            }
            tree
        },
    }
}

} // verus!

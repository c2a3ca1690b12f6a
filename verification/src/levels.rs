//! Why reading the parser's tree level by level gives a tree that stands for
//! it, and gives none only where no tree does.

use crate::builder::{children_in, holds, linked, linked_at, node_holds, slot_of, NodeRecord, Span};
use crate::grammar::{
    mirrors, mirrors_at, mirrors_node, reported_child, reported_count, reported_extent,
    reported_kind, reported_root, span_for, span_in,
};
use crate::tree::{child_ok, node_ok, parent_ok, well_formed, SyntaxNode};
use tree_sitter::{Node, Tree};
use vstd::prelude::*;

verus! {

/// Every tree that stands for the parser's tree `tree` has a node that
/// stands for the parser's node `node`.
pub open spec fn reached(tree: Tree, node: Node) -> bool {
    forall|nodes: Seq<SyntaxNode>, at: Seq<Node<'static>>|
        well_formed(nodes) && #[trigger] mirrors_at(nodes, at, tree) ==> exists|j: int|
            0 <= j < nodes.len() && #[trigger] at[j] == node
}

/// The root of the parser's tree is reached.
pub proof fn lemma_root_reached(tree: Tree)
    ensures
        reached(tree, reported_root(tree)),
{
    assert forall|nodes: Seq<SyntaxNode>, at: Seq<Node<'static>>|
        well_formed(nodes) && #[trigger] mirrors_at(nodes, at, tree) implies exists|j: int|
        0 <= j < nodes.len() && #[trigger] at[j] == reported_root(tree) by {
        assert(at[0] == reported_root(tree));
    }
}

/// A child that the parser gives of a reached node, at an index below its
/// count, is reached.
pub proof fn lemma_child_reached(tree: Tree, node: Node, k: int, below: Node)
    requires
        reached(tree, node),
        0 <= k < reported_count(node),
        reported_child(node, k as nat) == Some(below),
    ensures
        reached(tree, below),
{
    assert forall|nodes: Seq<SyntaxNode>, at: Seq<Node<'static>>|
        well_formed(nodes) && #[trigger] mirrors_at(nodes, at, tree) implies exists|j: int|
        0 <= j < nodes.len() && #[trigger] at[j] == below by {
        let j = choose|j: int| 0 <= j < nodes.len() && #[trigger] at[j] == node;
        assert(mirrors_node(nodes, at, j));
        assert(node_ok(nodes, j));
        assert(child_ok(nodes, j, k));
        let m = nodes[j].children@[k] as int;
        assert(at[m] == below);
    }
}

/// No tree stands for a parser's tree that has a reached node whose place
/// cannot be written down.
pub proof fn lemma_no_mirror_without_span(tree: Tree, node: Node)
    requires
        reached(tree, node),
        span_for(reported_kind(node), reported_extent(node)) is None,
    ensures
        forall|nodes: Seq<SyntaxNode>| !(well_formed(nodes) && mirrors(nodes, tree)),
{
    assert forall|nodes: Seq<SyntaxNode>| !(well_formed(nodes) && mirrors(nodes, tree)) by {
        if well_formed(nodes) && mirrors(nodes, tree) {
            let at = choose|at: Seq<Node<'static>>| mirrors_at(nodes, at, tree);
            let j = choose|j: int| 0 <= j < nodes.len() && #[trigger] at[j] == node;
            assert(mirrors_node(nodes, at, j));
        }
    }
}

/// No tree stands for a parser's tree that has a reached node of which the
/// parser withholds a child that it has counted.
pub proof fn lemma_no_mirror_without_child(tree: Tree, node: Node, k: int)
    requires
        reached(tree, node),
        0 <= k < reported_count(node),
        reported_child(node, k as nat) is None,
    ensures
        forall|nodes: Seq<SyntaxNode>| !(well_formed(nodes) && mirrors(nodes, tree)),
{
    assert forall|nodes: Seq<SyntaxNode>| !(well_formed(nodes) && mirrors(nodes, tree)) by {
        if well_formed(nodes) && mirrors(nodes, tree) {
            let at = choose|at: Seq<Node<'static>>| mirrors_at(nodes, at, tree);
            let j = choose|j: int| 0 <= j < nodes.len() && #[trigger] at[j] == node;
            assert(mirrors_node(nodes, at, j));
            let m = nodes[j].children@[k];
            assert(reported_child(at[j], k as nat) == Some(at[m as int]));
        }
    }
}

/// The indices from `from` up to `to`, in their order.
pub open spec fn run(from: int, to: int) -> Seq<usize> {
    Seq::new(
        if to >= from {
            (to - from) as nat
        } else {
            0
        },
        |k: int| (from + k) as usize,
    )
}

/// `x`, held between `low` and `high`.
pub open spec fn clamp(x: int, low: int, high: int) -> int {
    if x < low {
        low
    } else if x > high {
        high
    } else {
        x
    }
}

/// The children of the `a`-th node stand no later than those of the `b`-th.
pub open spec fn ordered(bounds: Seq<int>, a: int, b: int) -> bool {
    bounds[a] <= bounds[b]
}

/// Record `j` names as its parent the record whose children stand from
/// `bounds[p]` up to `bounds[p + 1]`, with `j` among them.
pub open spec fn owned(records: Seq<NodeRecord>, bounds: Seq<int>, j: int) -> bool {
    records[j].parent matches Some(p) && p < records.len() && bounds[p as int] <= j < bounds[p + 1]
}

/// The records stand level by level: the children of record `q` are the
/// records from `bounds[q]` up to `bounds[q + 1]`, all behind `q`.
pub open spec fn laid_out(records: Seq<NodeRecord>, bounds: Seq<int>) -> bool {
    let n = records.len() as int;
    &&& 1 <= n <= usize::MAX
    &&& bounds.len() == n + 1
    &&& bounds[0] == 1
    &&& bounds[n] == n
    &&& forall|a: int, b: int| 0 <= a <= b <= n ==> #[trigger] ordered(bounds, a, b)
    &&& forall|q: int| 0 <= q < n ==> q < #[trigger] bounds[q]
    &&& records[0].parent is None
    &&& forall|j: int| 0 < j < n ==> owned(records, bounds, j)
}

/// Among records that stand level by level, those of the first `upto` that
/// name record `q` as their parent are a run of indices.
pub proof fn lemma_children_run(records: Seq<NodeRecord>, bounds: Seq<int>, q: int, upto: int)
    requires
        laid_out(records, bounds),
        0 <= q < records.len(),
        0 <= upto <= records.len(),
    ensures
        children_in(records, q, upto) == run(bounds[q], clamp(upto, bounds[q], bounds[q + 1])),
    decreases upto,
{
    if upto > 0 {
        lemma_children_run(records, bounds, q, upto - 1);
        let j = upto - 1;
        if j > 0 {
            assert(owned(records, bounds, j));
            let p = records[j].parent.unwrap() as int;
            if p < q {
                assert(ordered(bounds, p + 1, q));
            } else if p > q {
                assert(ordered(bounds, q + 1, p));
            }
        }
        assert(ordered(bounds, q, q + 1));
        assert(children_in(records, q, upto) =~= run(
            bounds[q],
            clamp(upto, bounds[q], bounds[q + 1]),
        ));
    } else {
        assert(ordered(bounds, q, q + 1));
        assert(children_in(records, q, upto) =~= run(
            bounds[q],
            clamp(upto, bounds[q], bounds[q + 1]),
        ));
    }
}

/// Records that stand level by level are linked.
pub proof fn lemma_laid_out_linked(records: Seq<NodeRecord>, bounds: Seq<int>)
    requires
        laid_out(records, bounds),
    ensures
        linked(records),
{
    assert forall|i: int| 0 <= i < records.len() implies linked_at(records, i) by {
        if i > 0 {
            assert(owned(records, bounds, i));
        }
    }
}

/// An arena that holds records standing level by level, and stands for the
/// parser's tree node by node, is a tree if any tree stands for the
/// parser's tree.
pub proof fn lemma_level_order_is_tree(
    tree: Tree,
    nodes: Seq<SyntaxNode>,
    at: Seq<Node<'static>>,
    records: Seq<NodeRecord>,
    bounds: Seq<int>,
    other: Seq<SyntaxNode>,
    other_at: Seq<Node<'static>>,
)
    requires
        laid_out(records, bounds),
        holds(nodes, records),
        mirrors_at(nodes, at, tree),
        forall|i: int| 0 <= i < nodes.len() ==> reached(tree, #[trigger] at[i]),
        well_formed(other),
        mirrors_at(other, other_at, tree),
    ensures
        well_formed(nodes),
{
    let n = records.len() as int;
    assert forall|i: int| 0 <= i < nodes.len() implies node_ok(nodes, i) by {
        assert(reached(tree, at[i]));
        let j = choose|j: int| 0 <= j < other.len() && #[trigger] other_at[j] == at[i];
        assert(mirrors_node(nodes, at, i));
        assert(mirrors_node(other, other_at, j));
        assert(node_ok(other, j));
        assert(node_holds(nodes, records, i, n));
        lemma_children_run(records, bounds, i, n);
        assert(ordered(bounds, i + 1, n));
        assert(ordered(bounds, i, i + 1));
        assert(nodes[i].children@ == run(bounds[i], bounds[i + 1]));
        assert(nodes[i].extent_ok());
        assert(parent_ok(nodes, i)) by {
            if i > 0 {
                assert(owned(records, bounds, i));
                let p = records[i].parent.unwrap() as int;
                assert(node_holds(nodes, records, p, n));
                lemma_children_run(records, bounds, p, n);
                lemma_children_run(records, bounds, p, i);
                assert(ordered(bounds, p + 1, n));
                assert(ordered(bounds, p, p + 1));
                assert(slot_of(records, i) == i - bounds[p]);
                assert(nodes[p].children@[i - bounds[p]] == i);
            }
        }
        assert forall|k: int| 0 <= k < nodes[i].children@.len() implies child_ok(nodes, i, k) by {
            let c = bounds[i] + k;
            assert(nodes[i].children@[k] == c);
            assert(owned(records, bounds, c));
            assert(records[c].parent == Some(i as usize)) by {
                let p = records[c].parent.unwrap() as int;
                if p < i {
                    assert(ordered(bounds, p + 1, i));
                } else if p > i {
                    assert(ordered(bounds, i + 1, p));
                }
            }
            assert(node_holds(nodes, records, c, n));
            lemma_children_run(records, bounds, i, c);
            assert(slot_of(records, c) == k);
            assert(child_ok(other, j, k));
            let m = other[j].children@[k] as int;
            assert(other_at[m] == at[c]);
            assert(mirrors_node(nodes, at, c));
            assert(mirrors_node(other, other_at, m));
            assert(span_in(nodes[c]) == span_in(other[m]));
            assert(span_in(nodes[i]) == span_in(other[j]));
            if k + 1 < nodes[i].children@.len() {
                let next = c + 1;
                assert(nodes[i].children@[k + 1] == next);
                let m_next = other[j].children@[k + 1] as int;
                assert(child_ok(other, j, k + 1));
                assert(other_at[m_next] == at[next]);
                assert(mirrors_node(nodes, at, next));
                assert(mirrors_node(other, other_at, m_next));
                assert(span_in(nodes[next]) == span_in(other[m_next]));
            }
        }
    }
}

/// The children of the `q`-th node of the queue stand behind it, and are as
/// many as the parser counts.
pub open spec fn counted(at: Seq<Node<'static>>, bounds: Seq<int>, q: int) -> bool {
    q < bounds[q] && bounds[q + 1] - bounds[q] == reported_count(at[q])
}

/// The `j`-th node of the queue is the child that the parser gives of its
/// parent, a node before the `limit`-th, at the place where it stands among
/// that node's children.
pub open spec fn linked_in(
    at: Seq<Node<'static>>,
    parents: Seq<Option<usize>>,
    bounds: Seq<int>,
    j: int,
    limit: int,
) -> bool {
    parents[j] matches Some(p) && p < limit && bounds[p as int] <= j < bounds[p + 1]
        && reported_child(at[p as int], (j - bounds[p as int]) as nat) == Some(at[j])
}

/// The `j`-th node of the queue is the child that the parser gives of the
/// `next`-th node, whose children stand from `first` on.
pub open spec fn fresh(
    at: Seq<Node<'static>>,
    parents: Seq<Option<usize>>,
    j: int,
    next: int,
    first: int,
) -> bool {
    parents[j] == Some(next as usize) && reported_child(at[next], (j - first) as nat) == Some(at[j])
}

/// The `q`-th record notes what the parser reports of the `q`-th node of
/// the queue, and its parent.
pub open spec fn noted(
    at: Seq<Node<'static>>,
    parents: Seq<Option<usize>>,
    records: Seq<NodeRecord>,
    q: int,
) -> bool {
    span_for(reported_kind(at[q]), reported_extent(at[q])) == Some(records[q].span)
        && records[q].parent == parents[q]
}

/// What holds of the queue between two nodes: the first `next` nodes are
/// noted and their children queued, level by level.
pub open spec fn queue_inv(
    tree: Tree,
    at: Seq<Node<'static>>,
    parents: Seq<Option<usize>>,
    bounds: Seq<int>,
    records: Seq<NodeRecord>,
    next: int,
) -> bool {
    &&& at.len() == parents.len()
    &&& 0 <= next <= at.len()
    &&& 1 <= at.len()
    &&& records.len() == next
    &&& bounds.len() == next + 1
    &&& bounds[0] == 1
    &&& bounds[next] == at.len()
    &&& at[0] == reported_root(tree)
    &&& parents[0] is None
    &&& forall|a: int, b: int| 0 <= a <= b <= next ==> #[trigger] ordered(bounds, a, b)
    &&& forall|q: int| 0 <= q < next ==> #[trigger] counted(at, bounds, q)
    &&& forall|j: int| 0 < j < at.len() ==> #[trigger] linked_in(at, parents, bounds, j, next)
    &&& forall|q: int| 0 <= q < at.len() ==> reached(tree, #[trigger] at[q])
    &&& forall|q: int| 0 <= q < next ==> #[trigger] noted(at, parents, records, q)
}

/// What holds of the queue while the children of the `next`-th node are
/// queued: `i` of them stand from `first` on.
pub open spec fn filling_inv(
    tree: Tree,
    at: Seq<Node<'static>>,
    parents: Seq<Option<usize>>,
    bounds: Seq<int>,
    records: Seq<NodeRecord>,
    next: int,
    first: int,
    i: int,
) -> bool {
    &&& at.len() == parents.len()
    &&& 0 <= next < first
    &&& next <= usize::MAX
    &&& first + i == at.len()
    &&& 0 <= i <= reported_count(at[next])
    &&& records.len() == next + 1
    &&& bounds.len() == next + 1
    &&& bounds[0] == 1
    &&& bounds[next] == first
    &&& at[0] == reported_root(tree)
    &&& parents[0] is None
    &&& forall|a: int, b: int| 0 <= a <= b <= next ==> #[trigger] ordered(bounds, a, b)
    &&& forall|q: int| 0 <= q < next ==> #[trigger] counted(at, bounds, q)
    &&& forall|j: int| 0 < j < first ==> #[trigger] linked_in(at, parents, bounds, j, next)
    &&& forall|j: int| first <= j < at.len() ==> #[trigger] fresh(at, parents, j, next, first)
    &&& forall|q: int| 0 <= q < at.len() ==> reached(tree, #[trigger] at[q])
    &&& forall|q: int| 0 <= q <= next ==> #[trigger] noted(at, parents, records, q)
}

/// Noting the `next`-th node opens the queue for its children.
pub proof fn lemma_begin(
    tree: Tree,
    at: Seq<Node<'static>>,
    parents: Seq<Option<usize>>,
    bounds: Seq<int>,
    records: Seq<NodeRecord>,
    next: int,
    span: Span,
)
    requires
        queue_inv(tree, at, parents, bounds, records, next),
        next < at.len(),
        next <= usize::MAX,
        span_for(reported_kind(at[next]), reported_extent(at[next])) == Some(span),
    ensures
        filling_inv(
            tree,
            at,
            parents,
            bounds,
            records.push(NodeRecord { parent: parents[next], span }),
            next,
            at.len() as int,
            0,
        ),
{
    let noted_now = records.push(NodeRecord { parent: parents[next], span });
    assert forall|q: int| 0 <= q <= next implies #[trigger] noted(at, parents, noted_now, q) by {
        if q < next {
            assert(noted(at, parents, records, q));
        }
    }
}

/// Queueing the next child of the `next`-th node.
pub proof fn lemma_push(
    tree: Tree,
    at: Seq<Node<'static>>,
    parents: Seq<Option<usize>>,
    bounds: Seq<int>,
    records: Seq<NodeRecord>,
    next: int,
    first: int,
    i: int,
    below: Node<'static>,
)
    requires
        filling_inv(tree, at, parents, bounds, records, next, first, i),
        i < reported_count(at[next]),
        reported_child(at[next], i as nat) == Some(below),
    ensures
        filling_inv(
            tree,
            at.push(below),
            parents.push(Some(next as usize)),
            bounds,
            records,
            next,
            first,
            i + 1,
        ),
{
    let at_now = at.push(below);
    let parents_now = parents.push(Some(next as usize));
    lemma_child_reached(tree, at[next], i, below);
    assert forall|q: int| 0 <= q < next implies #[trigger] counted(at_now, bounds, q) by {
        assert(counted(at, bounds, q));
    }
    assert forall|j: int| 0 < j < first implies #[trigger] linked_in(
        at_now,
        parents_now,
        bounds,
        j,
        next,
    ) by {
        assert(linked_in(at, parents, bounds, j, next));
    }
    assert forall|j: int| first <= j < at_now.len() implies #[trigger] fresh(
        at_now,
        parents_now,
        j,
        next,
        first,
    ) by {
        if j < at.len() {
            assert(fresh(at, parents, j, next, first));
        }
    }
    assert forall|q: int| 0 <= q < at_now.len() implies reached(tree, #[trigger] at_now[q]) by {
        if q < at.len() {
            assert(reached(tree, at[q]));
        }
    }
    assert forall|q: int| 0 <= q <= next implies #[trigger] noted(
        at_now,
        parents_now,
        records,
        q,
    ) by {
        assert(noted(at, parents, records, q));
    }
}

/// With all children of the `next`-th node queued, the queue is ready for
/// the node after it.
pub proof fn lemma_end(
    tree: Tree,
    at: Seq<Node<'static>>,
    parents: Seq<Option<usize>>,
    bounds: Seq<int>,
    records: Seq<NodeRecord>,
    next: int,
    first: int,
    i: int,
)
    requires
        filling_inv(tree, at, parents, bounds, records, next, first, i),
        i == reported_count(at[next]),
    ensures
        queue_inv(tree, at, parents, bounds.push(at.len() as int), records, next + 1),
{
    let bounds_now = bounds.push(at.len() as int);
    assert forall|a: int, b: int| 0 <= a <= b <= next + 1 implies #[trigger] ordered(
        bounds_now,
        a,
        b,
    ) by {
        if b <= next {
            assert(ordered(bounds, a, b));
        } else if a <= next {
            assert(ordered(bounds, a, next));
        }
    }
    assert forall|q: int| 0 <= q < next + 1 implies #[trigger] counted(at, bounds_now, q) by {
        if q < next {
            assert(counted(at, bounds, q));
        }
    }
    assert forall|j: int| 0 < j < at.len() implies #[trigger] linked_in(
        at,
        parents,
        bounds_now,
        j,
        next + 1,
    ) by {
        if j < first {
            assert(linked_in(at, parents, bounds, j, next));
        } else {
            assert(fresh(at, parents, j, next, first));
        }
    }
}

/// The parser gives the node at `bounds[i] + k` as the `k`-th child of the
/// `i`-th node.
pub open spec fn child_at(at: Seq<Node<'static>>, bounds: Seq<int>, i: int, k: int) -> bool {
    reported_child(at[i], k as nat) == Some(at[bounds[i] + k])
}

/// With every node of the queue noted, the records stand level by level.
pub proof fn lemma_done(
    tree: Tree,
    at: Seq<Node<'static>>,
    parents: Seq<Option<usize>>,
    bounds: Seq<int>,
    records: Seq<NodeRecord>,
)
    requires
        queue_inv(tree, at, parents, bounds, records, at.len() as int),
        records.len() <= usize::MAX,
    ensures
        laid_out(records, bounds),
{
    let n = at.len() as int;
    assert forall|q: int| 0 <= q < n implies q < #[trigger] bounds[q] by {
        assert(counted(at, bounds, q));
    }
    assert(noted(at, parents, records, 0));
    assert forall|j: int| 0 < j < n implies owned(records, bounds, j) by {
        assert(linked_in(at, parents, bounds, j, n));
        assert(noted(at, parents, records, j));
    }
}

/// With every node of the queue noted, the children of each node stand in
/// a run, as many as the parser counts and each as the parser gives it.
pub proof fn lemma_done_children(
    tree: Tree,
    at: Seq<Node<'static>>,
    parents: Seq<Option<usize>>,
    bounds: Seq<int>,
    records: Seq<NodeRecord>,
    i: int,
    k: int,
)
    requires
        queue_inv(tree, at, parents, bounds, records, at.len() as int),
        0 <= i < at.len(),
        0 <= k < bounds[i + 1] - bounds[i],
    ensures
        child_at(at, bounds, i, k),
        bounds[i + 1] - bounds[i] == reported_count(at[i]),
        bounds[i + 1] <= at.len(),
{
    let n = at.len() as int;
    let c = bounds[i] + k;
    assert(ordered(bounds, i + 1, n));
    assert(counted(at, bounds, i));
    assert(linked_in(at, parents, bounds, c, n));
    let p = parents[c].unwrap() as int;
    if p < i {
        assert(ordered(bounds, p + 1, i));
    } else if p > i {
        assert(ordered(bounds, i + 1, p));
    }
}

/// An arena that holds the records of a queue whose nodes are all noted
/// stands for the parser's tree, node by node.
pub proof fn lemma_built_mirrors(
    tree: Tree,
    nodes: Seq<SyntaxNode>,
    at: Seq<Node<'static>>,
    parents: Seq<Option<usize>>,
    bounds: Seq<int>,
    records: Seq<NodeRecord>,
)
    requires
        queue_inv(tree, at, parents, bounds, records, at.len() as int),
        records.len() <= usize::MAX,
        holds(nodes, records),
    ensures
        mirrors_at(nodes, at, tree),
        forall|i: int| 0 <= i < nodes.len() ==> reached(tree, #[trigger] at[i]),
{
    lemma_done(tree, at, parents, bounds, records);
    let n = records.len() as int;
    assert forall|i: int| 0 <= i < nodes.len() implies mirrors_node(nodes, at, i) by {
        assert(node_holds(nodes, records, i, n));
        assert(noted(at, parents, records, i));
        assert(counted(at, bounds, i));
        assert(ordered(bounds, i, i + 1));
        assert(ordered(bounds, i + 1, n));
        lemma_children_run(records, bounds, i, n);
        assert(nodes[i].children@ == run(bounds[i], bounds[i + 1]));
        assert forall|k: int| 0 <= k < nodes[i].children@.len() implies reported_child(
            at[i],
            k as nat,
        ) == Some(at[#[trigger] nodes[i].children@[k] as int]) by {
            lemma_done_children(tree, at, parents, bounds, records, i, k);
            assert(child_at(at, bounds, i, k));
        }
    }
}

} // verus!

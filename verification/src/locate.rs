//! Finding the node under a position.

use crate::point::Point;
use crate::tree::{
    child_ok, has_parent, is_ancestor, lemma_sibling_order, node_ok, parent_of, well_formed,
    SyntaxNode, SyntaxTree,
};
use vstd::prelude::*;

verus! {

/// The first child of node `i`, from its `from`-th on, whose extent holds `p`.
pub open spec fn child_covering(nodes: Seq<SyntaxNode>, i: int, p: Point, from: int) -> Option<int>
    decreases nodes[i].children@.len() - from,
{
    let children = nodes[i].children@;
    if from < 0 || from >= children.len() {
        None
    } else if 0 <= children[from] < nodes.len() && nodes[children[from] as int].covers(p) {
        Some(children[from] as int)
    } else {
        child_covering(nodes, i, p, from + 1)
    }
}

/// The node reached from `i` by stepping, as long as there is one, to the
/// child whose extent holds `p`.
pub open spec fn deepest_covering(nodes: Seq<SyntaxNode>, i: int, p: Point) -> int
    decreases nodes.len() - i,
{
    match child_covering(nodes, i, p, 0) {
        Some(c) => if i < c < nodes.len() {
            deepest_covering(nodes, c, p)
        } else {
            i
        },
        None => i,
    }
}

/// The smallest node whose extent holds `p`: the deepest one on the way down
/// from the root. There is none where `p` lies outside the root.
pub open spec fn node_at(nodes: Seq<SyntaxNode>, p: Point) -> Option<int> {
    if nodes.len() > 0 && nodes[0].covers(p) {
        Some(deepest_covering(nodes, 0, p))
    } else {
        None
    }
}

/// The child of `node` whose extent holds `p`, if there is one.
fn covering_child(tree: &SyntaxTree, node: usize, p: Point) -> (found: Option<usize>)
    requires
        node < tree@.len(),
    ensures
        match found {
            Some(c) => node < c < tree@.len() && child_covering(tree@, node as int, p, 0) == Some(
                c as int,
            ),
            None => child_covering(tree@, node as int, p, 0) is None,
        },
{
    proof {
        use_type_invariant(tree);
    }
    let children = &tree.node(node).children;
    let mut k: usize = 0;
    while k < children.len()
        invariant
            well_formed(tree@),
            node < tree@.len(),
            node_ok(tree@, node as int),
            *children == tree@[node as int].children,
            k <= children@.len(),
            child_covering(tree@, node as int, p, 0) == child_covering(
                tree@,
                node as int,
                p,
                k as int,
            ),
        decreases children@.len() - k,
    {
        proof {
            assert(child_ok(tree@, node as int, k as int));
        }
        let c = children[k];
        let child = tree.node(c);
        if child.start.is_not_after(&p) && p.is_before(&child.end) {
            return Some(c);
        }
        k += 1;
    }
    None
}

/// The smallest node of `tree` whose extent holds `p`: it holds `p`, and
/// every node that holds `p` is that node or lies above it. There is none
/// exactly where no node holds `p`.
///
/// An extent holds the positions from its start up to, not including, its
/// end. So a node that takes up no room holds no position and is never
/// found, and a position outside the root finds nothing.
pub fn descendant_for_point(tree: &SyntaxTree, p: Point) -> (found: Option<usize>)
    ensures
        match found {
            Some(n) => n < tree@.len() && node_at(tree@, p) == Some(n as int),
            None => node_at(tree@, p) is None,
        },
        found matches Some(n) ==> tree@[n as int].covers(p) && forall|m: int|
            0 <= m < tree@.len() && tree@[m].covers(p) ==> m == n || is_ancestor(
                tree@,
                m,
                n as int,
            ),
        found is None ==> forall|m: int| 0 <= m < tree@.len() ==> !tree@[m].covers(p),
{
    proof {
        use_type_invariant(tree);
        lemma_node_at_covers(tree@, p);
        assert forall|m: int| 0 <= m < tree@.len() && tree@[m].covers(p) implies node_at(tree@, p)
            matches Some(n) && (m == n || is_ancestor(tree@, m, n)) by {
            lemma_node_at_is_smallest(tree@, p, m);
        }
    }
    let root = tree.node(0);
    if !(root.start.is_not_after(&p) && p.is_before(&root.end)) {
        return None;
    }
    let mut current: usize = 0;
    loop
        invariant
            well_formed(tree@),
            current < tree@.len(),
            deepest_covering(tree@, 0, p) == deepest_covering(tree@, current as int, p),
        ensures
            current < tree@.len(),
            deepest_covering(tree@, 0, p) == current,
        decreases tree@.len() - current,
    {
        match covering_child(tree, current, p) {
            Some(child) => {
                current = child;
            },
            None => {
                break;
            },
        }
    }
    Some(current)
}

/// In a tree, a child whose extent holds `p` is the one that the search
/// among its parent's children finds: no sibling holds `p` as well.
pub proof fn lemma_covering_child_is_found(
    nodes: Seq<SyntaxNode>,
    i: int,
    p: Point,
    from: int,
    k: int,
)
    requires
        well_formed(nodes),
        0 <= i < nodes.len(),
        0 <= from <= k < nodes[i].children@.len(),
        nodes[nodes[i].children@[k] as int].covers(p),
    ensures
        child_covering(nodes, i, p, from) == Some(nodes[i].children@[k] as int),
    decreases k - from,
{
    assert(node_ok(nodes, i));
    assert(child_ok(nodes, i, k));
    if from < k {
        lemma_sibling_order(nodes, i, from, k);
        lemma_covering_child_is_found(nodes, i, p, from + 1, k);
    }
}

/// What the search among the children of a node of a tree finds is one of
/// its children and holds `p`; where it finds nothing, no child holds `p`.
pub proof fn lemma_child_covering(nodes: Seq<SyntaxNode>, i: int, p: Point, from: int)
    requires
        well_formed(nodes),
        0 <= i < nodes.len(),
        0 <= from,
    ensures
        match child_covering(nodes, i, p, from) {
            Some(c) => i < c < nodes.len() && nodes[c].covers(p) && parent_of(nodes, c) == i
                && has_parent(nodes, c),
            None => forall|k: int|
                from <= k < nodes[i].children@.len() ==> !nodes[nodes[i].children@[k]
                    as int].covers(p),
        },
    decreases nodes[i].children@.len() - from,
{
    assert(node_ok(nodes, i));
    if from < nodes[i].children@.len() {
        assert(child_ok(nodes, i, from));
        lemma_child_covering(nodes, i, p, from + 1);
    }
}

/// Being above is transitive.
pub proof fn lemma_ancestor_of_ancestor(nodes: Seq<SyntaxNode>, a: int, b: int, c: int)
    requires
        is_ancestor(nodes, a, b),
        is_ancestor(nodes, b, c),
    ensures
        is_ancestor(nodes, a, c),
    decreases c,
{
    let p = parent_of(nodes, c);
    if p != b {
        lemma_ancestor_of_ancestor(nodes, a, b, p);
    }
}

/// The way down from node `from` towards `p` passes node `m`.
pub open spec fn on_way_down(nodes: Seq<SyntaxNode>, from: int, p: Point, m: int) -> bool
    decreases nodes.len() - from,
{
    from == m || (child_covering(nodes, from, p, 0) matches Some(c) && from < c < nodes.len()
        && on_way_down(nodes, c, p, m))
}

proof fn lemma_way_down_one_more(nodes: Seq<SyntaxNode>, from: int, p: Point, q: int, m: int)
    requires
        on_way_down(nodes, from, p, q),
        child_covering(nodes, q, p, 0) == Some(m),
        q < m < nodes.len(),
    ensures
        on_way_down(nodes, from, p, m),
    decreases nodes.len() - from,
{
    if from != q {
        let c = child_covering(nodes, from, p, 0).unwrap();
        lemma_way_down_one_more(nodes, c, p, q, m);
    } else {
        assert(on_way_down(nodes, m, p, m));
    }
}

proof fn lemma_covering_is_on_way_down(nodes: Seq<SyntaxNode>, p: Point, m: int)
    requires
        well_formed(nodes),
        0 <= m < nodes.len(),
        nodes[m].covers(p),
    ensures
        nodes[0].covers(p),
        on_way_down(nodes, 0, p, m),
    decreases m,
{
    assert(node_ok(nodes, m));
    if m > 0 {
        let q = parent_of(nodes, m);
        let k = nodes[m].sibling_index as int;
        assert(node_ok(nodes, q));
        assert(child_ok(nodes, q, k));
        lemma_covering_is_on_way_down(nodes, p, q);
        lemma_covering_child_is_found(nodes, q, p, 0, k);
        lemma_way_down_one_more(nodes, 0, p, q, m);
    }
}

/// The node at the end of the way down from `from` is `from` or lies below it.
proof fn lemma_deepest_is_below(nodes: Seq<SyntaxNode>, from: int, p: Point)
    requires
        well_formed(nodes),
        0 <= from < nodes.len(),
    ensures
        from <= deepest_covering(nodes, from, p) < nodes.len(),
        deepest_covering(nodes, from, p) == from || is_ancestor(
            nodes,
            from,
            deepest_covering(nodes, from, p),
        ),
        nodes[from].covers(p) ==> nodes[deepest_covering(nodes, from, p)].covers(p),
        forall|k: int|
            0 <= k < nodes[deepest_covering(nodes, from, p)].children@.len()
                ==> !nodes[nodes[deepest_covering(nodes, from, p)].children@[k] as int].covers(p),
    decreases nodes.len() - from,
{
    lemma_child_covering(nodes, from, p, 0);
    match child_covering(nodes, from, p, 0) {
        Some(c) => {
            lemma_deepest_is_below(nodes, c, p);
            let n = deepest_covering(nodes, c, p);
            if n != c {
                lemma_ancestor_of_ancestor(nodes, from, c, n);
            }
        },
        None => {},
    }
}

proof fn lemma_way_down_leads_to_deepest(nodes: Seq<SyntaxNode>, from: int, p: Point, m: int)
    requires
        well_formed(nodes),
        0 <= from < nodes.len(),
        on_way_down(nodes, from, p, m),
    ensures
        m == deepest_covering(nodes, from, p) || is_ancestor(
            nodes,
            m,
            deepest_covering(nodes, from, p),
        ),
    decreases nodes.len() - from,
{
    if from == m {
        lemma_deepest_is_below(nodes, from, p);
    } else {
        let c = child_covering(nodes, from, p, 0).unwrap();
        lemma_way_down_leads_to_deepest(nodes, c, p, m);
    }
}

/// The node found under a position holds the position, and none of its
/// children does.
pub proof fn lemma_node_at_covers(nodes: Seq<SyntaxNode>, p: Point)
    requires
        well_formed(nodes),
    ensures
        node_at(nodes, p) is Some <==> nodes[0].covers(p),
        node_at(nodes, p) matches Some(n) ==> {
            &&& 0 <= n < nodes.len()
            &&& nodes[n].covers(p)
            &&& forall|k: int|
                0 <= k < nodes[n].children@.len() ==> !nodes[nodes[n].children@[k] as int].covers(p)
        },
{
    lemma_deepest_is_below(nodes, 0, p);
}

/// The node found under a position is the smallest that holds it: every
/// node whose extent holds the position is the node found or lies above it.
/// So a position that any node holds is found, and a position that none
/// holds is not.
pub proof fn lemma_node_at_is_smallest(nodes: Seq<SyntaxNode>, p: Point, m: int)
    requires
        well_formed(nodes),
        0 <= m < nodes.len(),
        nodes[m].covers(p),
    ensures
        node_at(nodes, p) matches Some(n) && (m == n || is_ancestor(nodes, m, n)),
{
    lemma_covering_is_on_way_down(nodes, p, m);
    lemma_way_down_leads_to_deepest(nodes, 0, p, m);
}

} // verus!

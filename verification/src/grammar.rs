//! Reading what the parser produced into a tree of this crate.

use crate::builder::{fill, NodeRecord, Span};
use crate::levels::{
    filling_inv, lemma_begin, lemma_built_mirrors, lemma_done, lemma_end, lemma_laid_out_linked,
    lemma_level_order_is_tree, lemma_no_mirror_without_child, lemma_no_mirror_without_span,
    lemma_push, lemma_root_reached, queue_inv,
};
use crate::point::Point;
use crate::tree::{kind_of_name, well_formed, NodeKind, SyntaxNode, SyntaxTree};
use tree_sitter::{Node, Parser, Tree};
use vstd::prelude::*;

verus! {

/// `tree_sitter::Parser`: nothing is known of what it holds.
#[verifier::external_type_specification]
#[verifier::external_body]
pub struct ExParser(tree_sitter::Parser);

/// `tree_sitter::Tree`: the parser's own tree. Nothing is known of what it
/// holds.
#[verifier::external_type_specification]
#[verifier::external_body]
pub struct ExTree(tree_sitter::Tree);

/// `tree_sitter::Node`: a node of the parser's tree. Nothing is known of
/// what it holds.
#[verifier::external_type_specification]
#[verifier::external_body]
pub struct ExNode<'tree>(tree_sitter::Node<'tree>);

/// Where the parser says a node lies: the offsets of its first byte and of
/// the byte after its last, and the rows and columns of the two.
#[derive(Clone, Copy, Debug, PartialEq, Eq, Structural)]
pub struct Extent {
    pub start_byte: usize,
    pub end_byte: usize,
    pub start_row: usize,
    pub start_column: usize,
    pub end_row: usize,
    pub end_column: usize,
}

/// The node that `Tree::root_node` gives for `tree`.
pub uninterp spec fn reported_root(tree: Tree) -> Node<'static>;

/// The name that `Node::kind` gives for `node`.
pub uninterp spec fn reported_kind(node: Node) -> Seq<char>;

/// The number that `Node::child_count` gives for `node`.
pub uninterp spec fn reported_count(node: Node) -> nat;

/// What `Node::child` gives for `node` at index `i`.
pub uninterp spec fn reported_child(node: Node, i: nat) -> Option<Node<'static>>;

/// The six numbers of what `Node::range` gives for `node`.
pub uninterp spec fn reported_extent(node: Node) -> Extent;

/// Calls `Parser::parse` on `text`, with no earlier tree. Nothing is claimed
/// of the tree, nor of when there is one: a parser without a language gives
/// none, and a time limit or a flag set on the parser can end a parse.
#[verifier::external_body]
fn parse(parser: &mut Parser, text: &[u8]) -> Option<Tree> {
    parser.parse(text, None)
}

/// Calls `Tree::root_node`. The node depends on the tree alone; that is all
/// that is claimed.
#[verifier::external_body]
fn root_node<'tree>(tree: &'tree Tree) -> (node: Node<'tree>)
    ensures
        node == reported_root(*tree),
{
    tree.root_node()
}

/// Calls `Node::kind`. The name depends on the node alone; that is all that
/// is claimed.
#[verifier::external_body]
fn kind_name(node: &Node) -> (name: &'static str)
    ensures
        name@ == reported_kind(*node),
{
    node.kind()
}

/// Calls `Node::child_count`. The number depends on the node alone, and the
/// parser counts in 32 bits.
#[verifier::external_body]
fn child_count(node: &Node) -> (n: usize)
    ensures
        n == reported_count(*node),
        n <= u32::MAX,
{
    node.child_count()
}

/// Calls `Node::child`, which takes an index of 32 bits. What it gives
/// depends on the node and the index alone; that is all that is claimed.
#[verifier::external_body]
fn child<'tree>(node: &Node<'tree>, i: usize) -> (below: Option<Node<'tree>>)
    requires
        i <= u32::MAX,
    ensures
        below == reported_child(*node, i as nat),
{
    node.child(i)
}

/// Calls `Node::range` and hands its six numbers on. They depend on the
/// node alone; that is all that is claimed.
#[verifier::external_body]
fn extent(node: &Node) -> (at: Extent)
    ensures
        at == reported_extent(*node),
{
    let range = node.range();
    Extent {
        start_byte: range.start_byte,
        end_byte: range.end_byte,
        start_row: range.start_point.row,
        start_column: range.start_point.column,
        end_row: range.end_point.row,
        end_column: range.end_point.column,
    }
}

/// The position at `row` and `column`, where both can be written in 32 bits.
pub open spec fn point_for(row: usize, column: usize) -> Option<Point> {
    if row <= u32::MAX && column <= u32::MAX {
        Some(Point { row: row as u32, column: column as u32 })
    } else {
        None
    }
}

/// The span of a node that the grammar calls `name` and the parser puts at
/// `at`: the kind that the name stands for, the byte offsets as they are,
/// and the two positions where they can be written in 32 bits.
pub open spec fn span_for(name: Seq<char>, at: Extent) -> Option<Span> {
    match (point_for(at.start_row, at.start_column), point_for(at.end_row, at.end_column)) {
        (Some(start), Some(end)) => Some(
            Span {
                kind: kind_of_name(name),
                start_byte: at.start_byte,
                end_byte: at.end_byte,
                start,
                end,
            },
        ),
        _ => None,
    }
}

/// The position at `row` and `column`, where both can be written in 32 bits.
pub fn narrow_point(row: usize, column: usize) -> (p: Option<Point>)
    ensures
        p == point_for(row, column),
{
    if row <= u32::MAX as usize && column <= u32::MAX as usize {
        Some(Point { row: row as u32, column: column as u32 })
    } else {
        None
    }
}

/// The span of a node from what the parser says of it: its name `name` and
/// its extent `at`.
pub fn span_from(name: &str, at: Extent) -> (span: Option<Span>)
    ensures
        span == span_for(name@, at),
{
    let kind = NodeKind::from_name(name);
    match (narrow_point(at.start_row, at.start_column), narrow_point(at.end_row, at.end_column)) {
        (Some(start), Some(end)) => Some(Span::new(kind, at.start_byte, at.end_byte, start, end)),
        _ => None,
    }
}

/// The place and kind of `node` as the parser reports them, or `None` where
/// one of its rows or columns cannot be written in 32 bits.
fn span_of(node: &Node) -> (span: Option<Span>)
    ensures
        span == span_for(reported_kind(*node), reported_extent(*node)),
{
    span_from(kind_name(node), extent(node))
}

/// The place and kind of a node of a tree.
pub open spec fn span_in(node: SyntaxNode) -> Span {
    Span {
        kind: node.kind,
        start_byte: node.start_byte,
        end_byte: node.end_byte,
        start: node.start,
        end: node.end,
    }
}

/// Node `i` of `nodes` stands for the parser's node `at[i]`: it has the
/// place and kind that the parser reports of it, as many children as the
/// parser counts, and each child stands for the child that the parser gives
/// at that index.
pub open spec fn mirrors_node(nodes: Seq<SyntaxNode>, at: Seq<Node<'static>>, i: int) -> bool {
    &&& span_for(reported_kind(at[i]), reported_extent(at[i])) == Some(span_in(nodes[i]))
    &&& nodes[i].children@.len() == reported_count(at[i])
    &&& forall|k: int|
        0 <= k < nodes[i].children@.len() ==> reported_child(at[i], k as nat) == Some(
            at[#[trigger] nodes[i].children@[k] as int],
        )
}

/// The arena `nodes` stands for the parser's tree `tree`, node `i` for the
/// parser's node `at[i]`, the first for its root.
pub open spec fn mirrors_at(nodes: Seq<SyntaxNode>, at: Seq<Node<'static>>, tree: Tree) -> bool {
    &&& at.len() == nodes.len()
    &&& at[0] == reported_root(tree)
    &&& forall|i: int| 0 <= i < nodes.len() ==> mirrors_node(nodes, at, i)
}

/// The arena `nodes` stands for the parser's tree `tree`: its first node for
/// the root, every node with the place, kind and children that the parser
/// reports.
pub open spec fn mirrors(nodes: Seq<SyntaxNode>, tree: Tree) -> bool {
    exists|at: Seq<Node<'static>>| mirrors_at(nodes, at, tree)
}

/// Reads the parser's tree into a tree of this crate, level by level: every
/// node with the place and kind that the parser reports, its children as
/// the parser gives them, from left to right. There is no result exactly
/// where no tree stands for the parser's tree: where a place cannot be
/// written down, where the parser withholds a child that it has counted, or
/// where the nodes do not lie as the nodes of a tree do.
pub fn read_tree(tree: &Tree) -> (converted: Option<SyntaxTree>)
    ensures
        converted matches Some(t) ==> well_formed(t@) && mirrors(t@, *tree),
        converted is None ==> forall|nodes: Seq<SyntaxNode>|
            !(well_formed(nodes) && mirrors(nodes, *tree)),
{
    let mut records: Vec<NodeRecord> = Vec::new();
    let mut pending: Vec<(Node, Option<usize>)> = Vec::new();
    let root = root_node(tree);
    pending.push((root, None));
    let ghost mut at: Seq<Node<'static>> = seq![root];
    let ghost mut parents: Seq<Option<usize>> = seq![None];
    let ghost mut bounds: Seq<int> = seq![1int];
    proof {
        lemma_root_reached(*tree);
    }
    let mut next: usize = 0;
    while next < pending.len()
        invariant
            queue_inv(*tree, at, parents, bounds, records@, next as int),
            at.len() == pending@.len(),
            forall|q: int|
                0 <= q < pending@.len() ==> (#[trigger] pending@[q]).0 == at[q] && pending@[q].1
                    == parents[q],
        decreases usize::MAX - next,
    {
        let (node, parent) = pending[next];
        match span_of(&node) {
            Some(span) => {
                proof {
                    lemma_begin(*tree, at, parents, bounds, records@, next as int, span);
                }
                records.push(NodeRecord { parent, span });
            },
            None => {
                proof {
                    lemma_no_mirror_without_span(*tree, node);
                }
                return None;
            },
        }
        let count = child_count(&node);
        let ghost first = pending@.len() as int;
        let mut i: usize = 0;
        while i < count
            invariant
                filling_inv(*tree, at, parents, bounds, records@, next as int, first, i as int),
                at.len() == pending@.len(),
                forall|q: int|
                    0 <= q < pending@.len() ==> (#[trigger] pending@[q]).0 == at[q]
                        && pending@[q].1 == parents[q],
                node == at[next as int],
                count == reported_count(node),
                count <= u32::MAX,
                i <= count,
            decreases count - i,
        {
            match child(&node, i) {
                Some(below) => {
                    pending.push((below, Some(next)));
                    proof {
                        lemma_push(
                            *tree,
                            at,
                            parents,
                            bounds,
                            records@,
                            next as int,
                            first,
                            i as int,
                            below,
                        );
                        at = at.push(below);
                        parents = parents.push(Some(next));
                    }
                },
                None => {
                    proof {
                        lemma_no_mirror_without_child(*tree, node, i as int);
                    }
                    return None;
                },
            }
            i += 1;
        }
        proof {
            lemma_end(*tree, at, parents, bounds, records@, next as int, first, i as int);
            bounds = bounds.push(at.len() as int);
        }
        next += 1;
    }
    proof {
        assert(records@.len() == records.len());
        lemma_done(*tree, at, parents, bounds, records@);
        lemma_laid_out_linked(records@, bounds);
    }
    match fill(&records) {
        None => None,
        Some(builder) => {
            let ghost nodes = builder@;
            proof {
                lemma_built_mirrors(*tree, nodes, at, parents, bounds, records@);
            }
            match builder.build() {
                Some(converted) => {
                    proof {
                        use_type_invariant(&converted);
                    }
                    Some(converted)
                },
                None => {
                    proof {
                        assert forall|other: Seq<SyntaxNode>|
                            !(well_formed(other) && mirrors(other, *tree)) by {
                            if well_formed(other) && mirrors(other, *tree) {
                                let other_at = choose|other_at: Seq<Node<'static>>|
                                    mirrors_at(other, other_at, *tree);
                                lemma_level_order_is_tree(
                                    *tree,
                                    nodes,
                                    at,
                                    records@,
                                    bounds,
                                    other,
                                    other_at,
                                );
                            }
                        }
                    }
                    None
                },
            }
        },
    }
}

/// Parses `text` with `parser`, with no earlier tree, and reads the result.
/// Whether the parser gives a tree is the parser's to say; `read_tree` says
/// what becomes of the tree it gives.
pub fn parse_message(parser: &mut Parser, text: &[u8]) -> (parsed: Option<SyntaxTree>)
    ensures
        parsed matches Some(t) ==> well_formed(t@) && exists|tree: Tree| mirrors(t@, tree),
{
    match parse(parser, text) {
        Some(tree) => {
            let read = read_tree(&tree);
            proof {
                if read is Some {
                    assert(mirrors(read.unwrap()@, tree));
                }
            }
            read
        },
        None => None,
    }
}

} // verus!

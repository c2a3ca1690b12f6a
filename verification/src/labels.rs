//! Numbering the field boundaries of a message.

use crate::address::{header_name, name_of_segment, read_segment_name};
use crate::point::Point;
use crate::text::{decimal, push_decimal};
use crate::tree::{
    child_ok, count_before, count_kind, has_parent, lemma_children_bound, lemma_sibling_order,
    node_ok, parent_of, well_formed, NodeKind, SyntaxNode, SyntaxTree,
};
use vstd::prelude::*;

verus! {

/// A label for one field boundary: where to show it, and what it says.
#[derive(Clone, Debug, PartialEq, Eq)]
pub struct FieldLabel {
    pub position: Point,
    pub text: String,
}

/// A field label as a mathematical value.
pub struct LabelModel {
    pub position: Point,
    pub text: Seq<char>,
}

impl View for FieldLabel {
    type V = LabelModel;

    open spec fn view(&self) -> LabelModel {
        LabelModel { position: self.position, text: self.text@ }
    }
}

/// The labels of `labels` as mathematical values.
pub open spec fn models(labels: Seq<FieldLabel>) -> Seq<LabelModel> {
    labels.map_values(|label: FieldLabel| label@)
}

/// Where the label of `node` is shown: at the node's start, and for a field
/// separator one column further, just behind the separator character.
pub open spec fn hint_position(node: SyntaxNode) -> Point {
    if node.kind == NodeKind::FieldSeparator {
        Point { row: node.start.row, column: (node.start.column + 1) as u32 }
    } else {
        node.start
    }
}

/// What the label of field `number` says: the number, and a colon after it
/// where the field has content.
pub open spec fn label_text(number: nat, has_content: bool) -> Seq<char> {
    if has_content {
        decimal(number).push(':')
    } else {
        decimal(number)
    }
}

/// The number that counting starts from in segment `s`: the header segment
/// has its separator character as field 1.
pub open spec fn first_number(nodes: Seq<SyntaxNode>, text: Seq<u8>, s: int) -> nat {
    if name_of_segment(nodes[s], text) == Some(header_name()) {
        1
    } else {
        0
    }
}

/// The child after the `k`-th child of node `s` is a field.
pub open spec fn followed_by_field(nodes: Seq<SyntaxNode>, s: int, k: int) -> bool {
    let children = nodes[s].children@;
    k + 1 < children.len() && nodes[children[k + 1] as int].kind == NodeKind::Field
}

/// Node `i` is a field boundary: a field separator directly below a segment
/// that stands directly below the root.
pub open spec fn is_boundary(nodes: Seq<SyntaxNode>, i: int) -> bool {
    &&& has_parent(nodes, i)
    &&& nodes[i].kind == NodeKind::FieldSeparator
    &&& nodes[parent_of(nodes, i)].kind == NodeKind::Segment
    &&& has_parent(nodes, parent_of(nodes, i))
    &&& parent_of(nodes, parent_of(nodes, i)) == 0
}

/// The number of the field that begins behind the field boundary `i`: 1 +
/// the number of field separators to its left, and 1 more in the header
/// segment.
pub open spec fn field_number(nodes: Seq<SyntaxNode>, text: Seq<u8>, i: int) -> nat {
    first_number(nodes, text, parent_of(nodes, i)) + count_before(
        nodes,
        i,
        NodeKind::FieldSeparator,
    ) + 1
}

/// The label of the field boundary `i`: it stands just behind the separator
/// and carries the number of the field that begins there.
pub open spec fn label_of(nodes: Seq<SyntaxNode>, text: Seq<u8>, i: int) -> LabelModel {
    LabelModel {
        position: hint_position(nodes[i]),
        text: label_text(
            field_number(nodes, text, i),
            followed_by_field(nodes, parent_of(nodes, i), nodes[i].sibling_index as int),
        ),
    }
}

/// The field separators among the first `upto` children of node `s`, from
/// left to right.
pub open spec fn boundaries_in(nodes: Seq<SyntaxNode>, s: int, upto: int) -> Seq<int>
    decreases upto,
{
    if upto <= 0 {
        Seq::empty()
    } else {
        let earlier = boundaries_in(nodes, s, upto - 1);
        let c = nodes[s].children@[upto - 1] as int;
        if nodes[c].kind == NodeKind::FieldSeparator {
            earlier.push(c)
        } else {
            earlier
        }
    }
}

/// The field boundaries of the segments among the first `upto` children of
/// the root, segment after segment.
pub open spec fn boundaries_upto(nodes: Seq<SyntaxNode>, upto: int) -> Seq<int>
    decreases upto,
{
    if upto <= 0 {
        Seq::empty()
    } else {
        let earlier = boundaries_upto(nodes, upto - 1);
        let s = nodes[0].children@[upto - 1] as int;
        if nodes[s].kind == NodeKind::Segment {
            earlier + boundaries_in(nodes, s, nodes[s].children@.len() as int)
        } else {
            earlier
        }
    }
}

/// The field boundaries of a message, in the order of the text.
pub open spec fn boundaries(nodes: Seq<SyntaxNode>) -> Seq<int> {
    boundaries_upto(nodes, nodes[0].children@.len() as int)
}

/// The labels of the field boundaries `ids`, in their order.
pub open spec fn labels_of(nodes: Seq<SyntaxNode>, text: Seq<u8>, ids: Seq<int>) -> Seq<
    LabelModel,
> {
    ids.map_values(|i: int| label_of(nodes, text, i))
}

/// The field labels of a whole message: one for every field boundary, in
/// the order of the text.
pub open spec fn field_labels(nodes: Seq<SyntaxNode>, text: Seq<u8>) -> Seq<LabelModel> {
    labels_of(nodes, text, boundaries(nodes))
}

/// Puts `hint_label` where the label of `child` belongs.
pub fn build_inlay_hint(hint_label: String, child: &SyntaxNode) -> (hint: FieldLabel)
    requires
        child.kind == NodeKind::FieldSeparator ==> child.start.column < u32::MAX,
    ensures
        hint@ == (LabelModel { position: hint_position(*child), text: hint_label@ }),
{
    let position = child.start;
    let row = position.row;
    let start = position.column;
    let mut start_idx = start;

    if child.kind == NodeKind::FieldSeparator {
        start_idx += 1
    }
    FieldLabel { position: Point { row, column: start_idx }, text: hint_label }
}

/// Whether `segment` carries the name of the header segment.
fn is_header(segment: &SyntaxNode, msg_text: &[u8]) -> (header: bool)
    ensures
        header == (name_of_segment(*segment, msg_text@) == Some(header_name())),
{
    proof {
        reveal_strlit("MSH");
        assert("MSH"@ =~= header_name());
    }
    match read_segment_name(segment, msg_text) {
        Some(name) => *name.as_str() == *"MSH",
        None => false,
    }
}

/// The field labels of the message `tree`, whose text is `msg_text`: for
/// every segment, one label behind each of its field separators, numbered
/// from left to right.
pub fn get_inlay_hints(tree: &SyntaxTree, msg_text: &[u8]) -> (inlay_hints: Vec<FieldLabel>)
    ensures
        models(inlay_hints@) == field_labels(tree@, msg_text@),
        inlay_hints@.len() == boundaries(tree@).len(),
{
    proof {
        use_type_invariant(tree);
    }
    let mut inlay_hints: Vec<FieldLabel> = Vec::new();
    let limit = tree.len();
    let root_node = tree.node(0);

    let mut i: usize = 0;
    while i < root_node.children.len()
        invariant
            well_formed(tree@),
            limit == tree@.len(),
            *root_node == tree@[0],
            i <= root_node.children@.len(),
            models(inlay_hints@) == labels_of(tree@, msg_text@, boundaries_upto(tree@, i as int)),
        decreases root_node.children@.len() - i,
    {
        proof {
            assert(node_ok(tree@, 0));
            assert(child_ok(tree@, 0, i as int));
        }
        let s = root_node.children[i];
        let segment = tree.node(s);
        if segment.kind == NodeKind::Segment {
            proof {
                lemma_children_bound(tree@, s as int);
            }
            let ghost before = boundaries_upto(tree@, i as int);
            let first: usize = if is_header(segment, msg_text) {
                1
            } else {
                0
            };
            let mut field_count = first;
            let mut j: usize = 0;
            while j < segment.children.len()
                invariant
                    well_formed(tree@),
                    limit == tree@.len(),
                    s < tree@.len(),
                    *segment == tree@[s as int],
                    segment.children@.len() < limit,
                    j <= segment.children@.len(),
                    first == first_number(tree@, msg_text@, s as int),
                    field_count == first + count_kind(
                        tree@,
                        segment.children@.take(j as int),
                        NodeKind::FieldSeparator,
                    ),
                    field_count <= first + j,
                    first <= 1,
                    models(inlay_hints@) == labels_of(
                        tree@,
                        msg_text@,
                        before + boundaries_in(tree@, s as int, j as int),
                    ),
                decreases segment.children@.len() - j,
            {
                proof {
                    assert(node_ok(tree@, s as int));
                    assert(child_ok(tree@, s as int, j as int));
                    assert(segment.children@.take(j + 1).drop_last() == segment.children@.take(
                        j as int,
                    ));
                }
                let c = segment.children[j];
                let field = tree.node(c);
                if field.kind == NodeKind::FieldSeparator {
                    field_count += 1;

                    let mut hint_label = String::new();
                    push_decimal(&mut hint_label, field_count);
                    if j + 1 < segment.children.len() {
                        if tree.node(segment.children[j + 1]).kind == NodeKind::Field {
                            hint_label.push(':');
                        }
                    }
                    proof {
                        assert(node_ok(tree@, c as int));
                    }
                    let ghost ids = before + boundaries_in(tree@, s as int, j as int);
                    let hint = build_inlay_hint(hint_label, field);
                    inlay_hints.push(hint);
                    proof {
                        assert(hint@ == label_of(tree@, msg_text@, c as int));
                        assert(labels_of(tree@, msg_text@, ids.push(c as int)) =~= labels_of(
                            tree@,
                            msg_text@,
                            ids,
                        ).push(hint@));
                    }
                }
                j += 1;
            }
        }
        i += 1;
    }
    inlay_hints
}

/// How many field separators stand directly below the segments among the
/// first `upto` children of the root.
pub open spec fn separator_total(nodes: Seq<SyntaxNode>, upto: int) -> nat
    decreases upto,
{
    if upto <= 0 {
        0
    } else {
        let s = nodes[0].children@[upto - 1] as int;
        separator_total(nodes, upto - 1) + if nodes[s].kind == NodeKind::Segment {
            count_kind(nodes, nodes[s].children@, NodeKind::FieldSeparator)
        } else {
            0
        }
    }
}

proof fn lemma_boundaries_in_count(nodes: Seq<SyntaxNode>, s: int, upto: int)
    requires
        0 <= upto <= nodes[s].children@.len(),
    ensures
        boundaries_in(nodes, s, upto).len() == count_kind(
            nodes,
            nodes[s].children@.take(upto),
            NodeKind::FieldSeparator,
        ),
    decreases upto,
{
    if upto > 0 {
        lemma_boundaries_in_count(nodes, s, upto - 1);
        assert(nodes[s].children@.take(upto).drop_last() == nodes[s].children@.take(upto - 1));
    }
}

proof fn lemma_boundaries_upto_count(nodes: Seq<SyntaxNode>, upto: int)
    requires
        0 <= upto <= nodes[0].children@.len(),
    ensures
        boundaries_upto(nodes, upto).len() == separator_total(nodes, upto),
    decreases upto,
{
    if upto > 0 {
        lemma_boundaries_upto_count(nodes, upto - 1);
        let s = nodes[0].children@[upto - 1] as int;
        let all = nodes[s].children@;
        lemma_boundaries_in_count(nodes, s, all.len() as int);
        assert(all.take(all.len() as int) == all);
    }
}

/// A message with field separators `F1`, `F2`, ... directly below its
/// segments has `F1 + F2 + ...` field labels: one for each separator.
pub proof fn lemma_label_count(nodes: Seq<SyntaxNode>, text: Seq<u8>)
    ensures
        field_labels(nodes, text).len() == separator_total(
            nodes,
            nodes[0].children@.len() as int,
        ),
{
    lemma_boundaries_upto_count(nodes, nodes[0].children@.len() as int);
}

/// The field boundary `x` stands before the field boundary `y`: in an
/// earlier segment, or further left in the same segment.
pub open spec fn stands_before(nodes: Seq<SyntaxNode>, x: int, y: int) -> bool {
    let sx = parent_of(nodes, x);
    let sy = parent_of(nodes, y);
    nodes[sx].sibling_index < nodes[sy].sibling_index || (sx == sy && nodes[x].sibling_index
        < nodes[y].sibling_index)
}

proof fn lemma_boundaries_in(nodes: Seq<SyntaxNode>, s: int, upto: int)
    requires
        well_formed(nodes),
        has_parent(nodes, s),
        parent_of(nodes, s) == 0,
        nodes[s].kind == NodeKind::Segment,
        0 <= upto <= nodes[s].children@.len(),
    ensures
        forall|a: int|
            0 <= a < boundaries_in(nodes, s, upto).len() ==> {
                let x = #[trigger] boundaries_in(nodes, s, upto)[a];
                is_boundary(nodes, x) && parent_of(nodes, x) == s && nodes[x].sibling_index < upto
            },
        forall|a: int, c: int|
            0 <= a < c < boundaries_in(nodes, s, upto).len() ==> nodes[boundaries_in(
                nodes,
                s,
                upto,
            )[a]].sibling_index < nodes[boundaries_in(nodes, s, upto)[c]].sibling_index,
        forall|k: int|
            0 <= k < upto && nodes[nodes[s].children@[k] as int].kind == NodeKind::FieldSeparator
                ==> boundaries_in(nodes, s, upto).contains(nodes[s].children@[k] as int),
    decreases upto,
{
    if upto > 0 {
        lemma_boundaries_in(nodes, s, upto - 1);
        let earlier = boundaries_in(nodes, s, upto - 1);
        let all = boundaries_in(nodes, s, upto);
        let c = nodes[s].children@[upto - 1] as int;
        assert(node_ok(nodes, s));
        assert(child_ok(nodes, s, upto - 1));
        if nodes[c].kind == NodeKind::FieldSeparator {
            assert(all[earlier.len() as int] == c);
        }
        assert forall|k: int|
            0 <= k < upto && nodes[nodes[s].children@[k] as int].kind
                == NodeKind::FieldSeparator implies all.contains(nodes[s].children@[k] as int) by {
            if k < upto - 1 {
                let x = nodes[s].children@[k] as int;
                let a = choose|a: int| 0 <= a < earlier.len() && earlier[a] == x;
                assert(all[a] == x);
            }
        }
    }
}

proof fn lemma_boundaries_upto(nodes: Seq<SyntaxNode>, upto: int)
    requires
        well_formed(nodes),
        0 <= upto <= nodes[0].children@.len(),
    ensures
        forall|a: int|
            0 <= a < boundaries_upto(nodes, upto).len() ==> {
                let x = #[trigger] boundaries_upto(nodes, upto)[a];
                is_boundary(nodes, x) && nodes[parent_of(nodes, x)].sibling_index < upto
            },
        forall|a: int, c: int|
            0 <= a < c < boundaries_upto(nodes, upto).len() ==> stands_before(
                nodes,
                boundaries_upto(nodes, upto)[a],
                boundaries_upto(nodes, upto)[c],
            ),
        forall|i: int|
            is_boundary(nodes, i) && nodes[parent_of(nodes, i)].sibling_index < upto
                ==> boundaries_upto(nodes, upto).contains(i),
    decreases upto,
{
    if upto > 0 {
        lemma_boundaries_upto(nodes, upto - 1);
        let earlier = boundaries_upto(nodes, upto - 1);
        let all = boundaries_upto(nodes, upto);
        let s = nodes[0].children@[upto - 1] as int;
        assert(node_ok(nodes, 0));
        assert(child_ok(nodes, 0, upto - 1));
        let own = if nodes[s].kind == NodeKind::Segment {
            boundaries_in(nodes, s, nodes[s].children@.len() as int)
        } else {
            Seq::empty()
        };
        assert(all =~= earlier + own);
        if nodes[s].kind == NodeKind::Segment {
            lemma_boundaries_in(nodes, s, nodes[s].children@.len() as int);
        }
        assert forall|a: int| 0 <= a < all.len() implies {
            let x = #[trigger] all[a];
            is_boundary(nodes, x) && nodes[parent_of(nodes, x)].sibling_index < upto
        } by {}
        assert forall|a: int, c: int| 0 <= a < c < all.len() implies stands_before(
            nodes,
            all[a],
            all[c],
        ) by {}
        assert forall|i: int|
            is_boundary(nodes, i) && nodes[parent_of(nodes, i)].sibling_index
                < upto implies all.contains(i) by {
            let parent = parent_of(nodes, i);
            assert(node_ok(nodes, i));
            assert(node_ok(nodes, parent));
            if nodes[parent].sibling_index < upto - 1 {
                let a = choose|a: int| 0 <= a < earlier.len() && earlier[a] == i;
                assert(all[a] == i);
            } else {
                let a = choose|a: int| 0 <= a < own.len() && own[a] == i;
                assert(all[earlier.len() + a] == i);
            }
        }
    }
}

/// Every field boundary of a message is among `boundaries`, exactly once,
/// and nothing else is: so every field boundary has one label, and only
/// field boundaries have one.
pub proof fn lemma_boundaries_exactly_once(nodes: Seq<SyntaxNode>)
    requires
        well_formed(nodes),
    ensures
        forall|i: int| boundaries(nodes).contains(i) <==> is_boundary(nodes, i),
        boundaries(nodes).no_duplicates(),
        forall|a: int, c: int|
            0 <= a < c < boundaries(nodes).len() ==> stands_before(
                nodes,
                boundaries(nodes)[a],
                boundaries(nodes)[c],
            ),
{
    let all = boundaries(nodes);
    lemma_boundaries_upto(nodes, nodes[0].children@.len() as int);
    assert forall|i: int| is_boundary(nodes, i) implies all.contains(i) by {
        assert(node_ok(nodes, parent_of(nodes, i)));
    }
    assert forall|a: int, c: int| 0 <= a < all.len() && 0 <= c < all.len() && a != c implies all[a]
        != all[c] by {
        if a < c {
            assert(stands_before(nodes, all[a], all[c]));
        } else {
            assert(stands_before(nodes, all[c], all[a]));
        }
    }
}

/// In a tree, a field boundary that stands before another ends before the
/// other starts.
pub proof fn lemma_boundary_order(nodes: Seq<SyntaxNode>, x: int, y: int)
    requires
        well_formed(nodes),
        is_boundary(nodes, x),
        is_boundary(nodes, y),
        stands_before(nodes, x, y),
    ensures
        nodes[x].end.not_after(nodes[y].start),
{
    let sx = parent_of(nodes, x);
    let sy = parent_of(nodes, y);
    assert(node_ok(nodes, x) && node_ok(nodes, y));
    assert(node_ok(nodes, sx) && node_ok(nodes, sy));
    assert(child_ok(nodes, sx, nodes[x].sibling_index as int));
    assert(child_ok(nodes, sy, nodes[y].sibling_index as int));
    if sx == sy {
        lemma_sibling_order(
            nodes,
            sx,
            nodes[x].sibling_index as int,
            nodes[y].sibling_index as int,
        );
    } else {
        lemma_sibling_order(
            nodes,
            0,
            nodes[sx].sibling_index as int,
            nodes[sy].sibling_index as int,
        );
    }
}

/// No two field boundaries of `nodes` start at the same position.
pub open spec fn boundaries_start_apart(nodes: Seq<SyntaxNode>) -> bool {
    forall|i: int, j: int|
        is_boundary(nodes, i) && is_boundary(nodes, j) && i != j ==> nodes[i].start
            != nodes[j].start
}

/// Every field separator of `nodes` takes up room in the text.
pub open spec fn separators_not_empty(nodes: Seq<SyntaxNode>) -> bool {
    forall|i: int|
        0 <= i < nodes.len() && nodes[i].kind == NodeKind::FieldSeparator
            ==> nodes[i].start.before(nodes[i].end)
}

/// Each label of `labels` stands before the labels that follow it.
pub open spec fn in_reading_order(labels: Seq<LabelModel>) -> bool {
    forall|a: int, b: int|
        0 <= a < b < labels.len() ==> labels[a].position.before(labels[b].position)
}

/// Where no two field boundaries start at the same position, the labels of
/// a message come in reading order, each strictly behind the one before. So
/// no two labels share a position.
pub proof fn lemma_labels_in_reading_order(nodes: Seq<SyntaxNode>, text: Seq<u8>)
    requires
        well_formed(nodes),
        boundaries_start_apart(nodes),
    ensures
        in_reading_order(field_labels(nodes, text)),
        forall|a: int, b: int|
            0 <= a < field_labels(nodes, text).len() && 0 <= b < field_labels(nodes, text).len()
                && a != b ==> field_labels(nodes, text)[a].position != field_labels(
                nodes,
                text,
            )[b].position,
{
    let ids = boundaries(nodes);
    let labels = field_labels(nodes, text);
    lemma_boundaries_exactly_once(nodes);
    assert forall|a: int, b: int| 0 <= a < b < labels.len() implies labels[a].position.before(
        labels[b].position,
    ) by {
        let x = ids[a];
        let y = ids[b];
        assert(ids.contains(x) && ids.contains(y));
        assert(is_boundary(nodes, x) && is_boundary(nodes, y));
        lemma_boundary_order(nodes, x, y);
        assert(node_ok(nodes, x) && node_ok(nodes, y));
    }
    assert forall|a: int, b: int|
        0 <= a < labels.len() && 0 <= b < labels.len() && a != b implies labels[a].position
        != labels[b].position by {
        if a < b {
            assert(labels[a].position.before(labels[b].position));
        } else {
            assert(labels[b].position.before(labels[a].position));
        }
    }
}

/// Field separators that all take up room in the text start at different
/// positions.
pub proof fn lemma_separators_with_room_start_apart(nodes: Seq<SyntaxNode>)
    requires
        well_formed(nodes),
        separators_not_empty(nodes),
    ensures
        boundaries_start_apart(nodes),
{
    assert forall|i: int, j: int|
        is_boundary(nodes, i) && is_boundary(nodes, j) && i != j implies nodes[i].start
        != nodes[j].start by {
        assert(node_ok(nodes, i) && node_ok(nodes, j));
        assert(node_ok(nodes, parent_of(nodes, i)) && node_ok(nodes, parent_of(nodes, j)));
        if stands_before(nodes, i, j) {
            lemma_boundary_order(nodes, i, j);
        } else {
            lemma_boundary_order(nodes, j, i);
        }
    }
}

} // verus!

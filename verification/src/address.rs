//! Resolving a node of the tree to its structural address.

use crate::text::{all_ascii, ascii_chars, decimal, push_decimal};
use crate::tree::{
    child_ok, count_before, count_kind, has_parent, is_ancestor, lemma_children_bound,
    nearest_of_kind, node_ok, outermost_of_kind, parent_of, preceding_siblings, well_formed,
    NodeKind, SyntaxNode, SyntaxTree,
};
use vstd::prelude::*;

verus! {

/// Counts the siblings of kind `kind` to the left of `node`.
fn count_prev(tree: &SyntaxTree, node: usize, kind: NodeKind) -> (count: usize)
    requires
        node < tree@.len(),
    ensures
        count == count_before(tree@, node as int, kind),
        count < tree@.len(),
{
    proof {
        use_type_invariant(tree);
        assert(node_ok(tree@, node as int));
    }
    let this = tree.node(node);
    match this.parent {
        None => 0,
        Some(p) => {
            let siblings = &tree.node(p).children;
            let slot = this.sibling_index;
            let mut count: usize = 0;
            let mut k: usize = 0;
            proof {
                lemma_children_bound(tree@, p as int);
            }
            while k < slot
                invariant
                    k <= slot < siblings@.len(),
                    siblings@.len() < tree@.len(),
                    well_formed(tree@),
                    p < tree@.len(),
                    *siblings == tree@[p as int].children,
                    count <= k,
                    count == count_kind(tree@, siblings@.take(k as int), kind),
                decreases slot - k,
            {
                proof {
                    assert(node_ok(tree@, p as int));
                    assert(child_ok(tree@, p as int, k as int));
                    assert(siblings@.take(k + 1).drop_last() == siblings@.take(k as int));
                }
                if tree.node(siblings[k]).kind == kind {
                    count += 1;
                }
                k += 1;
            }
            count
        },
    }
}

/// The number of field separators among the siblings to the left of the
/// field `node`.
pub fn count_prev_fields(tree: &SyntaxTree, node: usize) -> (count: usize)
    requires
        node < tree@.len(),
        tree@[node as int].kind == NodeKind::Field,
    ensures
        count == count_before(tree@, node as int, NodeKind::FieldSeparator),
        count < tree@.len(),
{
    count_prev(tree, node, NodeKind::FieldSeparator)
}

/// One more than the number of component separators among the siblings to
/// the left of the component `node`: a component that no separator precedes
/// is the first.
pub fn count_prev_components(tree: &SyntaxTree, node: usize) -> (count: usize)
    requires
        node < tree@.len(),
        tree@[node as int].kind == NodeKind::Component,
    ensures
        count == 1 + count_before(tree@, node as int, NodeKind::ComponentSeparator),
{
    let limit = tree.len();
    let separators = count_prev(tree, node, NodeKind::ComponentSeparator);
    assert(separators < limit);
    1 + separators
}

/// One more than the number of subcomponent separators among the siblings to
/// the left of the subcomponent `node`.
pub fn count_prev_subcomponents(tree: &SyntaxTree, node: usize) -> (count: usize)
    requires
        node < tree@.len(),
        tree@[node as int].kind == NodeKind::Subcomponent,
    ensures
        count == 1 + count_before(tree@, node as int, NodeKind::SubcomponentSeparator),
{
    let limit = tree.len();
    let separators = count_prev(tree, node, NodeKind::SubcomponentSeparator);
    assert(separators < limit);
    1 + separators
}

/// The name of the header segment.
pub open spec fn header_name() -> Seq<char> {
    seq!['M', 'S', 'H']
}

/// The name that the segment node `segment` carries: the first three bytes
/// of its text, where it has as many, they lie in `text`, and they are ASCII.
pub open spec fn name_of_segment(segment: SyntaxNode, text: Seq<u8>) -> Option<Seq<char>> {
    let name = text.subrange(segment.start_byte as int, segment.start_byte + 3);
    if segment.start_byte + 3 <= segment.end_byte <= text.len() && all_ascii(name) {
        Some(ascii_chars(name))
    } else {
        None
    }
}

/// The name of the segment that node `i` lies in: that of the nearest
/// segment node above it.
pub open spec fn segment_name(nodes: Seq<SyntaxNode>, text: Seq<u8>, i: int) -> Option<Seq<char>> {
    match nearest_of_kind(nodes, i, NodeKind::Segment) {
        Some(s) => name_of_segment(nodes[s], text),
        None => None,
    }
}

/// The index at one level of the hierarchy: the node of kind `level`
/// nearest to the root among those above `i` decides it, by the number of
/// `separator` siblings to its left, counted from `first`. With no such node
/// above `i` the index is 0.
pub open spec fn level_index(
    nodes: Seq<SyntaxNode>,
    i: int,
    level: NodeKind,
    separator: NodeKind,
    first: nat,
) -> nat {
    match outermost_of_kind(nodes, i, level) {
        Some(a) => first + count_before(nodes, a, separator),
        None => 0,
    }
}

/// The field index of node `i`. In the header segment the separator
/// character itself is field 1, so every field there counts one higher.
pub open spec fn field_index(nodes: Seq<SyntaxNode>, i: int, header: bool) -> nat {
    level_index(nodes, i, NodeKind::Field, NodeKind::FieldSeparator, 0) + if header {
        1nat
    } else {
        0nat
    }
}

/// The component index of node `i`, counted from 1; 0 outside any component.
pub open spec fn component_index(nodes: Seq<SyntaxNode>, i: int) -> nat {
    level_index(nodes, i, NodeKind::Component, NodeKind::ComponentSeparator, 1)
}

/// The subcomponent index of node `i`, counted from 1; 0 outside any
/// subcomponent.
pub open spec fn subcomponent_index(nodes: Seq<SyntaxNode>, i: int) -> nat {
    level_index(nodes, i, NodeKind::Subcomponent, NodeKind::SubcomponentSeparator, 1)
}

/// The three indices of a node's address.
#[derive(Clone, Copy, Debug, PartialEq, Eq, Structural)]
pub struct NodeNumbers {
    pub field: usize,
    pub component: usize,
    pub subcomponent: usize,
}

/// Where a node stands in the message: its segment and the indices of its
/// field, component and subcomponent.
#[derive(Clone, Debug, PartialEq, Eq)]
pub struct StructuralAddress {
    pub segment_name: String,
    pub field: usize,
    pub component: usize,
    pub subcomponent: usize,
}

/// A structural address as a mathematical value.
pub struct AddressModel {
    pub segment_name: Seq<char>,
    pub field: nat,
    pub component: nat,
    pub subcomponent: nat,
}

impl View for StructuralAddress {
    type V = AddressModel;

    open spec fn view(&self) -> AddressModel {
        AddressModel {
            segment_name: self.segment_name@,
            field: self.field as nat,
            component: self.component as nat,
            subcomponent: self.subcomponent as nat,
        }
    }
}

/// The address of node `i`, where a segment with a name encloses it.
pub open spec fn address_of(nodes: Seq<SyntaxNode>, text: Seq<u8>, i: int) -> Option<AddressModel> {
    match segment_name(nodes, text, i) {
        Some(name) => Some(
            AddressModel {
                segment_name: name,
                field: field_index(nodes, i, name == header_name()),
                component: component_index(nodes, i),
                subcomponent: subcomponent_index(nodes, i),
            },
        ),
        None => None,
    }
}

/// `result` is the address `expected`, or the lack of one.
pub open spec fn is_address(
    result: Option<StructuralAddress>,
    expected: Option<AddressModel>,
) -> bool {
    match result {
        Some(a) => expected == Some(a@),
        None => expected is None,
    }
}

/// An address as shown to the reader: the segment name, then the three
/// indices separated by dots.
pub open spec fn info_text(address: AddressModel) -> Seq<char> {
    address.segment_name + seq![' ', '-', ' '] + decimal(address.field) + seq!['.'] + decimal(
        address.component,
    ) + seq!['.'] + decimal(address.subcomponent)
}

/// The name that the segment node `segment` carries in `msg_text`.
pub fn read_segment_name(segment: &SyntaxNode, msg_text: &[u8]) -> (name: Option<String>)
    ensures
        match name {
            Some(s) => name_of_segment(*segment, msg_text@) == Some(s@),
            None => name_of_segment(*segment, msg_text@) is None,
        },
{
    let start = segment.start_byte;
    let end = segment.end_byte;
    if end > msg_text.len() || end < start || end - start < 3 {
        return None;
    }
    let (b0, b1, b2) = (msg_text[start], msg_text[start + 1], msg_text[start + 2]);
    let ghost bytes = msg_text@.subrange(start as int, start + 3);
    assert(bytes[0] == b0 && bytes[1] == b1 && bytes[2] == b2);
    if b0 >= 128 || b1 >= 128 || b2 >= 128 {
        return None;
    }
    let mut name = String::new();
    name.push(b0 as char);
    name.push(b1 as char);
    name.push(b2 as char);
    proof {
        assert forall|i: int| 0 <= i < bytes.len() implies bytes[i] < 128 by {
            assert(i == 0 || i == 1 || i == 2);
        }
        assert(name@ =~= ascii_chars(bytes));
    }
    Some(name)
}

/// The name of the segment that encloses `node`, read from `msg_text`.
pub fn get_node_segment(tree: &SyntaxTree, node: usize, msg_text: &[u8]) -> (name: Option<String>)
    requires
        node < tree@.len(),
    ensures
        match name {
            Some(s) => segment_name(tree@, msg_text@, node as int) == Some(s@),
            None => segment_name(tree@, msg_text@, node as int) is None,
        },
{
    proof {
        use_type_invariant(tree);
    }
    let mut tmp_node = node;
    loop
        invariant_except_break
            nearest_of_kind(tree@, node as int, NodeKind::Segment) == nearest_of_kind(
                tree@,
                tmp_node as int,
                NodeKind::Segment,
            ),
        invariant
            well_formed(tree@),
            tmp_node < tree@.len(),
        ensures
            nearest_of_kind(tree@, node as int, NodeKind::Segment) == Some(tmp_node as int),
        decreases tmp_node,
    {
        proof {
            assert(node_ok(tree@, tmp_node as int));
        }
        match tree.node(tmp_node).parent {
            None => {
                return None;
            },
            Some(parent) => {
                tmp_node = parent;
                if tree.node(parent).kind == NodeKind::Segment {
                    break;
                }
            },
        }
    }
    read_segment_name(tree.node(tmp_node), msg_text)
}

/// What the walk from `i` to the root will report for one level, when it has
/// `so_far` in hand on reaching `i`.
spec fn pending(
    nodes: Seq<SyntaxNode>,
    i: int,
    level: NodeKind,
    separator: NodeKind,
    first: nat,
    so_far: nat,
) -> nat {
    match outermost_of_kind(nodes, i, level) {
        Some(a) => first + count_before(nodes, a, separator),
        None => so_far,
    }
}

/// The field, component and subcomponent indices of `node`, which lies in
/// the segment named `segment`.
pub fn get_node_numbers(tree: &SyntaxTree, node: usize, segment: &str) -> (numbers: NodeNumbers)
    requires
        node < tree@.len(),
    ensures
        numbers.field == field_index(tree@, node as int, segment@ == header_name()),
        numbers.component == component_index(tree@, node as int),
        numbers.subcomponent == subcomponent_index(tree@, node as int),
{
    proof {
        use_type_invariant(tree);
    }
    let mut sub_component_idx: usize = 0;
    let mut component_idx: usize = 0;
    let mut field_idx: usize = 0;

    let limit = tree.len();
    let mut tmp_node = node;
    loop
        invariant
            well_formed(tree@),
            limit == tree@.len(),
            tmp_node < tree@.len(),
            field_idx < limit,
            pending(
                tree@,
                tmp_node as int,
                NodeKind::Field,
                NodeKind::FieldSeparator,
                0,
                field_idx as nat,
            ) == level_index(tree@, node as int, NodeKind::Field, NodeKind::FieldSeparator, 0),
            pending(
                tree@,
                tmp_node as int,
                NodeKind::Component,
                NodeKind::ComponentSeparator,
                1,
                component_idx as nat,
            ) == component_index(tree@, node as int),
            pending(
                tree@,
                tmp_node as int,
                NodeKind::Subcomponent,
                NodeKind::SubcomponentSeparator,
                1,
                sub_component_idx as nat,
            ) == subcomponent_index(tree@, node as int),
        ensures
            field_idx < limit,
            field_idx == level_index(
                tree@,
                node as int,
                NodeKind::Field,
                NodeKind::FieldSeparator,
                0,
            ),
            component_idx == component_index(tree@, node as int),
            sub_component_idx == subcomponent_index(tree@, node as int),
        decreases tmp_node,
    {
        proof {
            assert(node_ok(tree@, tmp_node as int));
        }
        match tree.node(tmp_node).parent {
            None => {
                break;
            },
            Some(parent) => {
                let kind = tree.node(parent).kind;
                if kind == NodeKind::Subcomponent {
                    sub_component_idx = count_prev_subcomponents(tree, parent);
                }
                if kind == NodeKind::Component {
                    component_idx = count_prev_components(tree, parent);
                }
                if kind == NodeKind::Field {
                    field_idx = count_prev_fields(tree, parent);
                }
                tmp_node = parent;
            },
        }
    }
    proof {
        reveal_strlit("MSH");
        assert("MSH"@ =~= header_name());
    }
    if *segment == *"MSH" {
        field_idx += 1;
    }
    NodeNumbers { field: field_idx, component: component_idx, subcomponent: sub_component_idx }
}

/// The structural address of `node`, or `None` where no named segment
/// encloses it.
pub fn resolve_node(tree: &SyntaxTree, node: usize, msg_text: &[u8]) -> (address: Option<
    StructuralAddress,
>)
    requires
        node < tree@.len(),
    ensures
        is_address(address, address_of(tree@, msg_text@, node as int)),
{
    match get_node_segment(tree, node, msg_text) {
        None => None,
        Some(segment) => {
            let numbers = get_node_numbers(tree, node, segment.as_str());
            Some(
                StructuralAddress {
                    segment_name: segment,
                    field: numbers.field,
                    component: numbers.component,
                    subcomponent: numbers.subcomponent,
                },
            )
        },
    }
}

impl StructuralAddress {
    /// The address as one line of text.
    pub fn render(&self) -> (text: String)
        ensures
            text@ == info_text(self@),
    {
        let mut text = self.segment_name.clone();
        text.push(' ');
        text.push('-');
        text.push(' ');
        push_decimal(&mut text, self.field);
        text.push('.');
        push_decimal(&mut text, self.component);
        text.push('.');
        push_decimal(&mut text, self.subcomponent);
        text
    }
}

/// The line of text that describes where `node` stands, or `None` where no
/// named segment encloses it.
pub fn get_node_info(tree: &SyntaxTree, node: usize, msg_text: &[u8]) -> (info: Option<String>)
    requires
        node < tree@.len(),
    ensures
        match info {
            Some(s) => address_of(tree@, msg_text@, node as int) matches Some(a) && s@
                == info_text(a),
            None => address_of(tree@, msg_text@, node as int) is None,
        },
{
    match resolve_node(tree, node, msg_text) {
        Some(address) => Some(address.render()),
        None => None,
    }
}

/// The search for the outermost node of a kind above `i` finds none exactly
/// when no node above `i` has that kind; and what it finds lies above `i`,
/// has the kind, and has no node of the kind above itself.
pub proof fn lemma_outermost_of_kind(nodes: Seq<SyntaxNode>, i: int, kind: NodeKind)
    ensures
        outermost_of_kind(nodes, i, kind) is None <==> forall|a: int|
            is_ancestor(nodes, a, i) ==> nodes[a].kind != kind,
        outermost_of_kind(nodes, i, kind) matches Some(top) ==> {
            &&& is_ancestor(nodes, top, i)
            &&& nodes[top].kind == kind
            &&& forall|a: int| is_ancestor(nodes, a, top) ==> nodes[a].kind != kind
        },
    decreases i,
{
    if has_parent(nodes, i) {
        let p = parent_of(nodes, i);
        lemma_outermost_of_kind(nodes, p, kind);
        if outermost_of_kind(nodes, p, kind) is None {
            if nodes[p].kind == kind {
                assert(is_ancestor(nodes, p, i));
            } else {
                assert forall|a: int| is_ancestor(nodes, a, i) implies nodes[a].kind != kind by {
                    if a != p {
                        assert(is_ancestor(nodes, a, p));
                    }
                }
            }
        } else {
            let top = outermost_of_kind(nodes, p, kind).unwrap();
            assert(is_ancestor(nodes, top, i));
        }
    }
}

/// An index is 0 where no node of its level lies above the node: a node
/// directly below its segment has component 0 and subcomponent 0, and a
/// node outside every field has the field index of no field, which the
/// header segment raises to 1.
pub proof fn lemma_index_without_level(nodes: Seq<SyntaxNode>, i: int, header: bool)
    ensures
        (forall|a: int| is_ancestor(nodes, a, i) ==> nodes[a].kind != NodeKind::Field)
            ==> field_index(nodes, i, header) == if header {
            1nat
        } else {
            0nat
        },
        (forall|a: int| is_ancestor(nodes, a, i) ==> nodes[a].kind != NodeKind::Component)
            ==> component_index(nodes, i) == 0,
        (forall|a: int| is_ancestor(nodes, a, i) ==> nodes[a].kind != NodeKind::Subcomponent)
            ==> subcomponent_index(nodes, i) == 0,
{
    lemma_outermost_of_kind(nodes, i, NodeKind::Field);
    lemma_outermost_of_kind(nodes, i, NodeKind::Component);
    lemma_outermost_of_kind(nodes, i, NodeKind::Subcomponent);
}

/// Component and subcomponent indices count from 1: where a component lies
/// above the node the component index is at least 1, and likewise for
/// subcomponents.
pub proof fn lemma_index_with_level(nodes: Seq<SyntaxNode>, i: int, a: int)
    requires
        is_ancestor(nodes, a, i),
    ensures
        nodes[a].kind == NodeKind::Component ==> component_index(nodes, i) >= 1,
        nodes[a].kind == NodeKind::Subcomponent ==> subcomponent_index(nodes, i) >= 1,
{
    lemma_outermost_of_kind(nodes, i, NodeKind::Component);
    lemma_outermost_of_kind(nodes, i, NodeKind::Subcomponent);
}

/// In a tree, the `k`-th child of a node has the node's first `k` children
/// as the siblings to its left.
pub proof fn lemma_siblings_of_child(nodes: Seq<SyntaxNode>, s: int, k: int)
    requires
        well_formed(nodes),
        0 <= s < nodes.len(),
        0 <= k < nodes[s].children@.len(),
    ensures
        preceding_siblings(nodes, nodes[s].children@[k] as int) == nodes[s].children@.take(k),
{
    assert(node_ok(nodes, s));
    assert(child_ok(nodes, s, k));
}

/// A field that directly follows a field separator has one separator more
/// to its left than the separator has.
pub proof fn lemma_field_behind_separator(nodes: Seq<SyntaxNode>, s: int, k: int)
    requires
        well_formed(nodes),
        0 <= s < nodes.len(),
        0 <= k,
        k + 1 < nodes[s].children@.len(),
        nodes[nodes[s].children@[k] as int].kind == NodeKind::FieldSeparator,
    ensures
        count_before(nodes, nodes[s].children@[k + 1] as int, NodeKind::FieldSeparator) == 1
            + count_before(nodes, nodes[s].children@[k] as int, NodeKind::FieldSeparator),
{
    let children = nodes[s].children@;
    lemma_siblings_of_child(nodes, s, k);
    lemma_siblings_of_child(nodes, s, k + 1);
    assert(children.take(k + 1).drop_last() == children.take(k));
}

} // verus!

//! The document as it was last parsed, and the two queries on it.

use crate::address::{
    address_of, header_name, info_text, is_address, lemma_field_behind_separator,
    lemma_index_without_level, lemma_outermost_of_kind, resolve_node, AddressModel,
    StructuralAddress,
};
use crate::grammar::parse_message;
use crate::labels::{
    field_labels, get_inlay_hints, label_of, label_text, models, FieldLabel, LabelModel,
};
use crate::locate::{descendant_for_point, node_at};
use crate::point::Point;
use crate::tree::{
    child_ok, count_before, has_parent, is_ancestor, nearest_of_kind, node_ok, outermost_of_kind,
    parent_of, well_formed, NodeKind, SyntaxNode, SyntaxTree,
};
use tree_sitter::Parser;
use vstd::prelude::*;

verus! {

/// A source text and the tree parsed from it, as mathematical values.
pub struct SnapshotModel {
    pub text: Seq<u8>,
    pub nodes: Seq<SyntaxNode>,
}

/// Every node of `nodes` ends within a text of `len` bytes.
pub open spec fn ranges_within(nodes: Seq<SyntaxNode>, len: nat) -> bool {
    forall|i: int| 0 <= i < nodes.len() ==> nodes[i].end_byte <= len
}

/// `model` pairs a tree with a text that holds all of the tree's byte ranges.
pub open spec fn consistent(model: SnapshotModel) -> bool {
    well_formed(model.nodes) && ranges_within(model.nodes, model.text.len())
}

/// The node found under `p` has room for `p`: it starts at or before `p`
/// and ends behind it, so it is no node that takes up no room.
pub open spec fn found_with_room(nodes: Seq<SyntaxNode>, p: Point) -> bool {
    node_at(nodes, p) matches Some(n) && nodes[n].covers(p) && nodes[n].start.before(
        nodes[n].end,
    )
}

/// The address of the position `p` in a snapshot: that of the smallest node
/// whose extent holds `p`.
pub open spec fn address_at(model: SnapshotModel, p: Point) -> Option<AddressModel> {
    match node_at(model.nodes, p) {
        Some(n) => address_of(model.nodes, model.text, n),
        None => None,
    }
}

/// A source text together with the tree parsed from it. The two are only
/// ever held, replaced and read as a pair.
#[derive(Debug)]
pub struct Snapshot {
    text: Vec<u8>,
    tree: SyntaxTree,
}

/// A snapshot is viewed as its text and the nodes of its tree.
impl View for Snapshot {
    type V = SnapshotModel;

    closed spec fn view(&self) -> SnapshotModel {
        SnapshotModel { text: self.text@, nodes: self.tree@ }
    }
}

impl Snapshot {
    /// What holds of every snapshot: its tree is a tree, and lies within its
    /// text.
    #[verifier::type_invariant]
    pub open spec fn is_consistent(self) -> bool {
        consistent(self@)
    }

    /// Pairs `text` with `tree` if every byte range of the tree lies in the
    /// text.
    pub fn new(text: Vec<u8>, tree: SyntaxTree) -> (snapshot: Option<Snapshot>)
        ensures
            snapshot is Some <==> ranges_within(tree@, text@.len()),
            snapshot matches Some(s) ==> s@ == (SnapshotModel { text: text@, nodes: tree@ }),
    {
        proof {
            use_type_invariant(&tree);
        }
        let mut i: usize = 0;
        while i < tree.len()
            invariant
                i <= tree@.len(),
                forall|j: int| 0 <= j < i ==> tree@[j].end_byte <= text@.len(),
            decreases tree@.len() - i,
        {
            if tree.node(i).end_byte > text.len() {
                return None;
            }
            i += 1;
        }
        Some(Snapshot { text, tree })
    }

    /// The source text.
    pub fn text(&self) -> (text: &Vec<u8>)
        ensures
            text@ == self@.text,
    {
        &self.text
    }

    /// The tree parsed from the text.
    pub fn tree(&self) -> (tree: &SyntaxTree)
        ensures
            tree@ == self@.nodes,
    {
        &self.tree
    }

    /// The structural address of the position `position`, or `None` where
    /// the position lies outside the tree or in no named segment.
    ///
    /// The address is that of the smallest node that has room for the
    /// position. A node that takes up no room is not entered, also where it
    /// starts at the position; the parser's own lookup would answer with
    /// such a node. This is meant: a node without room holds no position.
    pub fn resolve_address(&self, position: Point) -> (address: Option<StructuralAddress>)
        ensures
            is_address(address, address_at(self@, position)),
            address is Some ==> found_with_room(self@.nodes, position),
    {
        match descendant_for_point(&self.tree, position) {
            Some(node) => resolve_node(&self.tree, node, self.text.as_slice()),
            None => None,
        }
    }

    /// The labels of all field boundaries of the document.
    pub fn generate_field_labels(&self) -> (labels: Vec<FieldLabel>)
        ensures
            models(labels@) == field_labels(self@.nodes, self@.text),
            labels@.len() == field_labels(self@.nodes, self@.text).len(),
    {
        get_inlay_hints(&self.tree, self.text.as_slice())
    }
}

/// Holds the snapshot of the one open document, if there is one.
#[derive(Debug)]
pub struct DocumentStore {
    current: Option<Snapshot>,
}

/// A store is viewed as the snapshot it holds, if any.
impl View for DocumentStore {
    type V = Option<SnapshotModel>;

    closed spec fn view(&self) -> Option<SnapshotModel> {
        match self.current {
            Some(snapshot) => Some(snapshot@),
            None => None,
        }
    }
}

/// The address of the position `p` in what a store holds.
pub open spec fn stored_address_at(held: Option<SnapshotModel>, p: Point) -> Option<AddressModel> {
    match held {
        Some(model) => address_at(model, p),
        None => None,
    }
}

/// The field labels of what a store holds.
pub open spec fn stored_field_labels(held: Option<SnapshotModel>) -> Seq<LabelModel> {
    match held {
        Some(model) => field_labels(model.nodes, model.text),
        None => Seq::empty(),
    }
}

/// What a store holds after `text` and `nodes` were handed to it: the two
/// as a pair where they fit together, else what it held before.
pub open spec fn replaced(
    held: Option<SnapshotModel>,
    text: Seq<u8>,
    nodes: Seq<SyntaxNode>,
) -> Option<SnapshotModel> {
    if ranges_within(nodes, text.len()) {
        Some(SnapshotModel { text, nodes })
    } else {
        held
    }
}

/// What a store holds after it was handed `text` and what parsing it gave:
/// with a tree, what a replacement leaves; with none, what it held before.
pub open spec fn installed(
    held: Option<SnapshotModel>,
    text: Seq<u8>,
    parsed: Option<SyntaxTree>,
) -> Option<SnapshotModel> {
    match parsed {
        Some(tree) => replaced(held, text, tree@),
        None => held,
    }
}

impl DocumentStore {
    /// A store with no document.
    pub fn new() -> (store: DocumentStore)
        ensures
            store@ is None,
    {
        DocumentStore { current: None }
    }

    /// Puts `text` and `tree` in place of what the store held, both at once.
    /// A tree that reaches beyond its text is refused, and the store keeps
    /// what it held.
    pub fn replace(&mut self, text: Vec<u8>, tree: SyntaxTree) -> (stored: bool)
        ensures
            stored == ranges_within(tree@, text@.len()),
            final(self)@ == replaced(old(self)@, text@, tree@),
    {
        match Snapshot::new(text, tree) {
            Some(snapshot) => {
                self.current = Some(snapshot);
                true
            },
            None => false,
        }
    }

    /// Takes what parsing `text` gave. Where it gave a tree, text and tree
    /// go in place of what the store held, as `replace` puts them. Where it
    /// gave none, the store keeps what it held.
    pub fn install(&mut self, text: Vec<u8>, parsed: Option<SyntaxTree>) -> (stored: bool)
        ensures
            stored == (parsed matches Some(tree) && ranges_within(tree@, text@.len())),
            final(self)@ == installed(old(self)@, text@, parsed),
    {
        match parsed {
            Some(tree) => self.replace(text, tree),
            None => false,
        }
    }

    /// Parses `text` with `parser` and puts the text and its tree in place
    /// of what the store held. Where the text does not parse the store keeps
    /// what it held. Whether it parses, and into what, is the parser's to
    /// say; `read_tree` and `install` say what follows from each answer.
    pub fn open(&mut self, parser: &mut Parser, text: Vec<u8>) -> (stored: bool)
        ensures
            stored ==> (final(self)@ matches Some(model) && model.text == text@ && consistent(
                model,
            )),
            !stored ==> final(self)@ == old(self)@,
    {
        let parsed = parse_message(parser, text.as_slice());
        self.install(text, parsed)
    }

    /// Forgets the document.
    pub fn close(&mut self)
        ensures
            final(self)@ is None,
    {
        self.current = None;
    }

    /// The snapshot that the store holds, if any.
    pub fn read(&self) -> (snapshot: Option<&Snapshot>)
        ensures
            match snapshot {
                Some(s) => self@ == Some(s@) && consistent(s@),
                None => self@ is None,
            },
    {
        match &self.current {
            Some(snapshot) => {
                proof {
                    use_type_invariant(snapshot);
                }
                Some(snapshot)
            },
            None => None,
        }
    }

    /// The structural address of `position` in the open document. There is
    /// none while no document is open.
    ///
    /// The address is that of the smallest node that has room for the
    /// position. A node that takes up no room is not entered, also where it
    /// starts at the position; the parser's own lookup would answer with
    /// such a node. This is meant: a node without room holds no position.
    pub fn resolve_address(&self, position: Point) -> (address: Option<StructuralAddress>)
        ensures
            is_address(address, stored_address_at(self@, position)),
            address is Some ==> (self@ matches Some(model) && found_with_room(
                model.nodes,
                position,
            )),
    {
        match &self.current {
            Some(snapshot) => snapshot.resolve_address(position),
            None => None,
        }
    }

    /// The field labels of the open document; none while no document is open.
    pub fn generate_field_labels(&self) -> (labels: Vec<FieldLabel>)
        ensures
            models(labels@) == stored_field_labels(self@),
            labels@.len() == stored_field_labels(self@).len(),
    {
        match &self.current {
            Some(snapshot) => snapshot.generate_field_labels(),
            None => {
                let labels: Vec<FieldLabel> = Vec::new();
                labels
            },
        }
    }

    /// The line of text that describes `position` in the open document.
    pub fn hover_text(&self, position: Point) -> (info: Option<String>)
        ensures
            match info {
                Some(s) => stored_address_at(self@, position) matches Some(a) && s@ == info_text(a),
                None => stored_address_at(self@, position) is None,
            },
    {
        match self.resolve_address(position) {
            Some(address) => Some(address.render()),
            None => None,
        }
    }
}

/// What the header segment adds to a field index.
pub open spec fn header_bonus(segment_name: Seq<char>) -> nat {
    if segment_name == header_name() {
        1
    } else {
        0
    }
}

/// A replacement leaves a store with the new text and the new tree, or with
/// exactly what it held: never with the text of one document and the tree of
/// another. What it holds stays consistent.
pub proof fn lemma_replace_keeps_pairs_whole(
    held: Option<SnapshotModel>,
    text: Seq<u8>,
    nodes: Seq<SyntaxNode>,
)
    requires
        held matches Some(model) ==> consistent(model),
        well_formed(nodes),
    ensures
        replaced(held, text, nodes) == Some(SnapshotModel { text, nodes }) || replaced(
            held,
            text,
            nodes,
        ) == held,
        replaced(held, text, nodes) matches Some(model) ==> consistent(model),
{
}

/// Asking twice for the address of one position in one store gives the same
/// answer both times.
pub proof fn lemma_resolve_address_repeatable(
    held: Option<SnapshotModel>,
    p: Point,
    first: Option<StructuralAddress>,
    second: Option<StructuralAddress>,
)
    requires
        is_address(first, stored_address_at(held, p)),
        is_address(second, stored_address_at(held, p)),
    ensures
        first is Some <==> second is Some,
        first matches Some(a) ==> second matches Some(b) && a@ == b@,
{
}

/// While no document is open a store answers nothing: no address, no label.
pub proof fn lemma_empty_store(p: Point)
    ensures
        stored_address_at(None, p) is None,
        stored_field_labels(None).len() == 0,
{
}

/// The indices of a level that does not enclose the position are 0: with no
/// component above the node under the position its component index is 0,
/// with no subcomponent above it its subcomponent index is 0, and with no
/// field above it its field index is 0, or 1 in the header segment.
pub proof fn lemma_address_outside_levels(model: SnapshotModel, p: Point)
    requires
        consistent(model),
        address_at(model, p) is Some,
    ensures
        ({
            let n = node_at(model.nodes, p).unwrap();
            let address = address_at(model, p).unwrap();
            &&& (forall|a: int|
                is_ancestor(model.nodes, a, n) ==> model.nodes[a].kind != NodeKind::Field)
                ==> address.field == header_bonus(address.segment_name)
            &&& (forall|a: int|
                is_ancestor(model.nodes, a, n) ==> model.nodes[a].kind != NodeKind::Component)
                ==> address.component == 0
            &&& (forall|a: int|
                is_ancestor(model.nodes, a, n) ==> model.nodes[a].kind != NodeKind::Subcomponent)
                ==> address.subcomponent == 0
        }),
{
    let n = node_at(model.nodes, p).unwrap();
    let address = address_at(model, p).unwrap();
    lemma_index_without_level(model.nodes, n, address.segment_name == header_name());
}

/// A position whose node stands directly below its segment, with neither a
/// component nor a subcomponent above the segment, has component 0 and
/// subcomponent 0, whatever the segment is called.
pub proof fn lemma_address_directly_below_segment(model: SnapshotModel, p: Point)
    requires
        consistent(model),
        address_at(model, p) is Some,
        node_at(model.nodes, p) matches Some(n) && has_parent(model.nodes, n) && {
            let s = parent_of(model.nodes, n);
            &&& model.nodes[s].kind == NodeKind::Segment
            &&& forall|a: int|
                is_ancestor(model.nodes, a, s) ==> model.nodes[a].kind != NodeKind::Component
                    && model.nodes[a].kind != NodeKind::Subcomponent
        },
    ensures
        address_at(model, p).unwrap().component == 0,
        address_at(model, p).unwrap().subcomponent == 0,
{
    let n = node_at(model.nodes, p).unwrap();
    let s = parent_of(model.nodes, n);
    assert forall|a: int| is_ancestor(model.nodes, a, n) implies model.nodes[a].kind
        != NodeKind::Component && model.nodes[a].kind != NodeKind::Subcomponent by {
        if a != s {
            assert(is_ancestor(model.nodes, a, s));
        }
    }
    lemma_address_outside_levels(model, p);
}

/// A position inside the field that directly follows a field separator has
/// the field index 1 + the number of field separators to the left of that
/// separator, and 1 more in the header segment. Here the `k`-th child of
/// node `s` is the separator, and the child after it is the outermost field
/// above the node under the position. Where `s` is also the segment of the
/// position, the label of the separator shows that same number.
pub proof fn lemma_address_behind_separator(model: SnapshotModel, p: Point, s: int, k: int)
    requires
        consistent(model),
        address_at(model, p) is Some,
        0 <= s < model.nodes.len(),
        0 <= k,
        k + 1 < model.nodes[s].children@.len(),
        model.nodes[model.nodes[s].children@[k] as int].kind == NodeKind::FieldSeparator,
        outermost_of_kind(model.nodes, node_at(model.nodes, p).unwrap(), NodeKind::Field) == Some(
            model.nodes[s].children@[k + 1] as int,
        ),
    ensures
        address_at(model, p).unwrap().field == 1 + count_before(
            model.nodes,
            model.nodes[s].children@[k] as int,
            NodeKind::FieldSeparator,
        ) + header_bonus(address_at(model, p).unwrap().segment_name),
        nearest_of_kind(model.nodes, node_at(model.nodes, p).unwrap(), NodeKind::Segment) == Some(s)
            ==> label_of(model.nodes, model.text, model.nodes[s].children@[k] as int).text
            == label_text(address_at(model, p).unwrap().field, true),
{
    lemma_field_behind_separator(model.nodes, s, k);
    lemma_outermost_of_kind(model.nodes, node_at(model.nodes, p).unwrap(), NodeKind::Field);
    assert(node_ok(model.nodes, s));
    assert(child_ok(model.nodes, s, k));
}

/// At a field separator that stands directly below its segment, with no
/// field above the segment, the field index is that of no field: 0, or 1 in
/// the header segment. The separators to its left do not count.
pub proof fn lemma_address_at_separator(model: SnapshotModel, p: Point)
    requires
        consistent(model),
        address_at(model, p) is Some,
        node_at(model.nodes, p) matches Some(n) && model.nodes[n].kind
            == NodeKind::FieldSeparator && has_parent(model.nodes, n) && {
            let s = parent_of(model.nodes, n);
            &&& model.nodes[s].kind == NodeKind::Segment
            &&& forall|a: int|
                is_ancestor(model.nodes, a, s) ==> model.nodes[a].kind != NodeKind::Field
        },
    ensures
        address_at(model, p).unwrap().field == header_bonus(
            address_at(model, p).unwrap().segment_name,
        ),
{
    let n = node_at(model.nodes, p).unwrap();
    let s = parent_of(model.nodes, n);
    assert forall|a: int| is_ancestor(model.nodes, a, n) implies model.nodes[a].kind
        != NodeKind::Field by {
        if a != s {
            assert(is_ancestor(model.nodes, a, s));
        }
    }
    lemma_address_outside_levels(model, p);
}

} // verus!

use hl7_lsp::address::StructuralAddress;
use hl7_lsp::builder::{Span, TreeBuilder};
use hl7_lsp::labels::FieldLabel;
use hl7_lsp::point::Point;
use hl7_lsp::store::{DocumentStore, Snapshot};
use hl7_lsp::tree::{NodeKind, SyntaxTree};

fn span(kind: NodeKind, start: usize, end: usize) -> Span {
    Span::new(kind, start, end, Point::new(0, start as u32), Point::new(0, end as u32))
}

fn find(bytes: &[u8], from: usize, to: usize, what: u8) -> usize {
    let mut at = from;
    while at < to && bytes[at] != what {
        at += 1;
    }
    at
}

fn add_pieces(
    builder: &mut TreeBuilder,
    parent: usize,
    bytes: &[u8],
    start: usize,
    end: usize,
    level: usize,
) {
    let (delimiter, piece, separator) = if level == 0 {
        (b'^', NodeKind::Component, NodeKind::ComponentSeparator)
    } else {
        (b'&', NodeKind::Subcomponent, NodeKind::SubcomponentSeparator)
    };
    let mut at = start;
    loop {
        let piece_end = find(bytes, at, end, delimiter);
        if piece_end > at {
            let node = builder.add(Some(parent), span(piece, at, piece_end)).unwrap();
            if level == 0 {
                add_pieces(builder, node, bytes, at, piece_end, 1);
            } else {
                builder.add(Some(node), span(NodeKind::Other, at, piece_end)).unwrap();
            }
        }
        if piece_end == end {
            break;
        }
        builder.add(Some(parent), span(separator, piece_end, piece_end + 1)).unwrap();
        at = piece_end + 1;
    }
}

fn add_segment(builder: &mut TreeBuilder, root: usize, bytes: &[u8], start: usize, end: usize) {
    let segment = builder.add(Some(root), span(NodeKind::Segment, start, end)).unwrap();
    let body_end = if bytes[end - 1] == b'\r' { end - 1 } else { end };
    let name_end = find(bytes, start, body_end, b'|');
    builder.add(Some(segment), span(NodeKind::Other, start, name_end)).unwrap();
    let header = &bytes[start..name_end] == b"MSH";
    let mut first = true;
    let mut at = name_end;
    while at < body_end {
        builder.add(Some(segment), span(NodeKind::FieldSeparator, at, at + 1)).unwrap();
        let field_end = find(bytes, at + 1, body_end, b'|');
        if field_end > at + 1 {
            let place = span(NodeKind::Field, at + 1, field_end);
            let field = builder.add(Some(segment), place).unwrap();
            if header && first {
                builder.add(Some(field), span(NodeKind::Other, at + 1, field_end)).unwrap();
            } else {
                add_pieces(builder, field, bytes, at + 1, field_end, 0);
            }
        }
        first = false;
        at = field_end;
    }
    if body_end < end {
        builder.add(Some(segment), span(NodeKind::Other, body_end, end)).unwrap();
    }
}

/// The tree of a message written on one line, its segments ended by `\r`.
fn tree_of(text: &str) -> SyntaxTree {
    let bytes = text.as_bytes();
    let mut builder = TreeBuilder::new();
    let root = builder.add(None, span(NodeKind::Message, 0, bytes.len())).unwrap();
    let mut start = 0;
    while start < bytes.len() {
        let end = (find(bytes, start, bytes.len(), b'\r') + 1).min(bytes.len());
        add_segment(&mut builder, root, bytes, start, end);
        start = end;
    }
    builder.build().unwrap()
}

fn opened(text: &str) -> DocumentStore {
    let mut store = DocumentStore::new();
    assert!(store.replace(text.as_bytes().to_vec(), tree_of(text)));
    store
}

fn label(column: u32, text: &str) -> FieldLabel {
    FieldLabel { position: Point::new(0, column), text: text.to_string() }
}

#[test]
fn empty_store_has_no_results() {
    let store = DocumentStore::new();
    assert!(store.read().is_none());
    assert_eq!(store.resolve_address(Point::new(0, 0)), None);
    assert_eq!(store.resolve_address(Point::new(3, 14)), None);
    assert_eq!(store.hover_text(Point::new(0, 0)), None);
    assert_eq!(store.generate_field_labels(), vec![]);
}

#[test]
fn opened_document_is_read_as_a_pair() {
    let text = "PID|1|2|3\r";
    let store = opened(text);
    let snapshot = store.read().unwrap();
    assert_eq!(snapshot.text().as_slice(), text.as_bytes());
    assert_eq!(snapshot.tree().len(), tree_of(text).len());
    for i in 0..snapshot.tree().len() {
        assert_eq!(snapshot.tree().node(i), tree_of(text).node(i));
    }
}

#[test]
fn hover_on_header_field() {
    let store = opened("MSH|^~\\&|APP|FAC\r");
    let found = store.resolve_address(Point::new(0, 4)).unwrap();
    assert_eq!(found.segment_name, "MSH");
    assert_eq!((found.field, found.component, found.subcomponent), (2, 0, 0));
    assert_eq!(store.hover_text(Point::new(0, 4)), Some("MSH - 2.0.0".to_string()));
}

#[test]
fn hover_on_patient_identifier() {
    let store = opened("PID|1||12345^^^MRN\r");
    let expected = StructuralAddress {
        segment_name: "PID".to_string(),
        field: 3,
        component: 1,
        subcomponent: 1,
    };
    assert_eq!(store.resolve_address(Point::new(0, 7)), Some(expected.clone()));
    assert_eq!(store.resolve_address(Point::new(0, 11)), Some(expected));
    assert_eq!(store.hover_text(Point::new(0, 9)), Some("PID - 3.1.1".to_string()));
}

#[test]
fn hover_outside_the_document() {
    let store = opened("PID|1\r");
    assert_eq!(store.resolve_address(Point::new(0, 6)), None);
    assert_eq!(store.hover_text(Point::new(5, 0)), None);
}

#[test]
fn labels_of_the_open_document() {
    let store = opened("PID|1|2|3\r");
    let labels = store.generate_field_labels();
    assert_eq!(labels, vec![label(4, "1:"), label(6, "2:"), label(8, "3:")]);
}

#[test]
fn queries_do_not_change_the_store() {
    let store = opened("PID|1||12345^^^MRN\r");
    let first = store.resolve_address(Point::new(0, 8));
    let labels = store.generate_field_labels();
    assert_eq!(store.resolve_address(Point::new(0, 8)), first);
    assert_eq!(store.generate_field_labels(), labels);
    assert_eq!(store.resolve_address(Point::new(0, 8)), first);
}

#[test]
fn replacing_swaps_text_and_tree_together() {
    let mut store = opened("PID|1||12345^^^MRN\r");
    assert_eq!(store.hover_text(Point::new(0, 8)), Some("PID - 3.1.1".to_string()));
    let next = "OBX|a|b\r";
    assert!(store.replace(next.as_bytes().to_vec(), tree_of(next)));
    let snapshot = store.read().unwrap();
    assert_eq!(snapshot.text().as_slice(), next.as_bytes());
    assert_eq!(snapshot.tree().len(), tree_of(next).len());
    assert_eq!(store.hover_text(Point::new(0, 6)), Some("OBX - 2.1.1".to_string()));
    assert_eq!(store.hover_text(Point::new(0, 8)), None);
    assert_eq!(store.generate_field_labels(), vec![label(4, "1:"), label(6, "2:")]);
}

#[test]
fn tree_beyond_its_text_is_refused() {
    let mut store = opened("PID|1\r");
    let longer = "OBX|1|2|3|4\r";
    assert!(!store.replace(b"OBX|1".to_vec(), tree_of(longer)));
    let snapshot = store.read().unwrap();
    assert_eq!(snapshot.text().as_slice(), b"PID|1\r");
    assert_eq!(snapshot.tree().len(), tree_of("PID|1\r").len());
    assert_eq!(store.hover_text(Point::new(0, 4)), Some("PID - 1.1.1".to_string()));
    assert_eq!(store.generate_field_labels(), vec![label(4, "1:")]);
}

#[test]
fn refused_pair_leaves_an_empty_store_empty() {
    let mut store = DocumentStore::new();
    assert!(!store.replace(vec![], tree_of("PID|1\r")));
    assert!(store.read().is_none());
    assert_eq!(store.generate_field_labels(), vec![]);
}

#[test]
fn text_may_be_longer_than_the_tree() {
    let mut store = DocumentStore::new();
    assert!(store.replace(b"PID|1\rtrailing".to_vec(), tree_of("PID|1\r")));
    assert_eq!(store.hover_text(Point::new(0, 4)), Some("PID - 1.1.1".to_string()));
}

#[test]
fn closing_forgets_the_document() {
    let mut store = opened("PID|1|2|3\r");
    store.close();
    assert!(store.read().is_none());
    assert_eq!(store.resolve_address(Point::new(0, 4)), None);
    assert_eq!(store.generate_field_labels(), vec![]);
    store.close();
    assert!(store.read().is_none());
}

#[test]
fn snapshot_pairs_only_what_fits() {
    let text = "PID|1\r";
    assert!(Snapshot::new(text.as_bytes().to_vec(), tree_of(text)).is_some());
    assert!(Snapshot::new(b"PID|1".to_vec(), tree_of(text)).is_none());
    assert!(Snapshot::new(vec![], tree_of("")).is_some());
    let mut builder = TreeBuilder::new();
    let whole = Span::new(NodeKind::Message, 0, 3, Point::new(0, 0), Point::new(0, 3));
    let root = builder.add(None, whole).unwrap();
    // Byte ranges are held against the text one by one.
    let child = Span::new(NodeKind::Other, 2, 9, Point::new(0, 2), Point::new(0, 3));
    builder.add(Some(root), child).unwrap();
    let tree = builder.build().unwrap();
    assert!(Snapshot::new(b"PID".to_vec(), tree).is_none());
}

#[test]
fn label_shows_the_field_index_behind_it() {
    let texts = [
        "MSH|^~\\&|APP|FAC\r",
        "PID|1||12345^^^MRN\r",
        "OBX|a|b&c|d\rNTE|1|x\r",
    ];
    let mut seen = 0;
    for text in texts {
        let store = opened(text);
        for label in store.generate_field_labels() {
            if let Some(number) = label.text.strip_suffix(':') {
                let behind = store.resolve_address(label.position).unwrap();
                assert_eq!(behind.field.to_string(), number);
                seen += 1;
            }
        }
    }
    assert_eq!(seen, 3 + 2 + 3 + 2);
}

#[test]
fn parsed_text_is_installed() {
    let mut store = DocumentStore::new();
    let text = "PID|1|2\r";
    assert!(store.install(text.as_bytes().to_vec(), Some(tree_of(text))));
    assert_eq!(store.read().unwrap().text().as_slice(), text.as_bytes());
    assert_eq!(store.hover_text(Point::new(0, 6)), Some("PID - 2.1.1".to_string()));
}

#[test]
fn unparsed_text_leaves_the_store_as_it_was() {
    let mut store = DocumentStore::new();
    assert!(!store.install(b"PID|1\r".to_vec(), None));
    assert!(store.read().is_none());
    let mut store = opened("PID|1|2\r");
    assert!(!store.install(b"OBX|7\r".to_vec(), None));
    assert_eq!(store.read().unwrap().text().as_slice(), b"PID|1|2\r");
    assert_eq!(store.hover_text(Point::new(0, 6)), Some("PID - 2.1.1".to_string()));
}

#[test]
fn installed_tree_must_fit_its_text() {
    let mut store = opened("PID|1|2\r");
    assert!(!store.install(b"OBX".to_vec(), Some(tree_of("OBX|7\r"))));
    assert_eq!(store.read().unwrap().text().as_slice(), b"PID|1|2\r");
    assert!(store.install(b"OBX|7\r".to_vec(), Some(tree_of("OBX|7\r"))));
    assert_eq!(store.hover_text(Point::new(0, 4)), Some("OBX - 1.1.1".to_string()));
}

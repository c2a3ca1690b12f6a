use hl7_lsp::builder::{Span, TreeBuilder};
use hl7_lsp::labels::{build_inlay_hint, get_inlay_hints, FieldLabel};
use hl7_lsp::point::Point;
use hl7_lsp::store::Snapshot;
use hl7_lsp::tree::{NodeKind, SyntaxNode, SyntaxTree};

fn span(kind: NodeKind, start: usize, end: usize) -> Span {
    Span::new(kind, start, end, Point::new(0, start as u32), Point::new(0, end as u32))
}

fn find(bytes: &[u8], from: usize, to: usize, what: u8) -> usize {
    let mut at = from;
    while at < to && bytes[at] != what {
        at += 1;
    }
    at
}

fn add_pieces(
    builder: &mut TreeBuilder,
    parent: usize,
    bytes: &[u8],
    start: usize,
    end: usize,
    level: usize,
) {
    let (delimiter, piece, separator) = if level == 0 {
        (b'^', NodeKind::Component, NodeKind::ComponentSeparator)
    } else {
        (b'&', NodeKind::Subcomponent, NodeKind::SubcomponentSeparator)
    };
    let mut at = start;
    loop {
        let piece_end = find(bytes, at, end, delimiter);
        if piece_end > at {
            let node = builder.add(Some(parent), span(piece, at, piece_end)).unwrap();
            if level == 0 {
                add_pieces(builder, node, bytes, at, piece_end, 1);
            } else {
                builder.add(Some(node), span(NodeKind::Other, at, piece_end)).unwrap();
            }
        }
        if piece_end == end {
            break;
        }
        builder.add(Some(parent), span(separator, piece_end, piece_end + 1)).unwrap();
        at = piece_end + 1;
    }
}

fn add_segment(builder: &mut TreeBuilder, root: usize, bytes: &[u8], start: usize, end: usize) {
    let segment = builder.add(Some(root), span(NodeKind::Segment, start, end)).unwrap();
    let body_end = if bytes[end - 1] == b'\r' { end - 1 } else { end };
    let name_end = find(bytes, start, body_end, b'|');
    builder.add(Some(segment), span(NodeKind::Other, start, name_end)).unwrap();
    let header = &bytes[start..name_end] == b"MSH";
    let mut first = true;
    let mut at = name_end;
    while at < body_end {
        builder.add(Some(segment), span(NodeKind::FieldSeparator, at, at + 1)).unwrap();
        let field_end = find(bytes, at + 1, body_end, b'|');
        if field_end > at + 1 {
            let place = span(NodeKind::Field, at + 1, field_end);
            let field = builder.add(Some(segment), place).unwrap();
            if header && first {
                builder.add(Some(field), span(NodeKind::Other, at + 1, field_end)).unwrap();
            } else {
                add_pieces(builder, field, bytes, at + 1, field_end, 0);
            }
        }
        first = false;
        at = field_end;
    }
    if body_end < end {
        builder.add(Some(segment), span(NodeKind::Other, body_end, end)).unwrap();
    }
}

/// The tree of a message written on one line, its segments ended by `\r`.
fn tree_of(text: &str) -> SyntaxTree {
    let bytes = text.as_bytes();
    let mut builder = TreeBuilder::new();
    let root = builder.add(None, span(NodeKind::Message, 0, bytes.len())).unwrap();
    let mut start = 0;
    while start < bytes.len() {
        let end = (find(bytes, start, bytes.len(), b'\r') + 1).min(bytes.len());
        add_segment(&mut builder, root, bytes, start, end);
        start = end;
    }
    builder.build().unwrap()
}

fn label(column: u32, text: &str) -> FieldLabel {
    FieldLabel { position: Point::new(0, column), text: text.to_string() }
}

fn labels_of(text: &str) -> Vec<FieldLabel> {
    get_inlay_hints(&tree_of(text), text.as_bytes())
}

#[test]
fn three_fields_give_three_labels() {
    let labels = labels_of("PID|1|2|3\r");
    assert_eq!(labels, vec![label(4, "1:"), label(6, "2:"), label(8, "3:")]);
}

#[test]
fn empty_field_has_no_colon() {
    let labels = labels_of("PID|1||3|\r");
    assert_eq!(labels, vec![label(4, "1:"), label(6, "2"), label(7, "3:"), label(9, "4")]);
}

#[test]
fn header_labels_start_at_two() {
    let labels = labels_of("MSH|^~\\&|APP|FAC\r");
    assert_eq!(labels, vec![label(4, "2:"), label(9, "3:"), label(13, "4:")]);
}

#[test]
fn each_segment_counts_anew() {
    let labels = labels_of("MSH|^~\\&|APP\rPID|1||3\rOBX|x\r");
    let expected = vec![
        label(4, "2:"),
        label(9, "3:"),
        label(17, "1:"),
        label(19, "2"),
        label(20, "3:"),
        label(26, "1:"),
    ];
    assert_eq!(labels, expected);
}

#[test]
fn one_label_for_each_separator() {
    let text = "MSH|^~\\&|APP|FAC\rPID|1||12345^^^MRN|||\rNTE\rOBX|1|a&b|\r";
    let labels = labels_of(text);
    let separators = text.bytes().filter(|&b| b == b'|').count();
    assert_eq!(labels.len(), separators);
    assert_eq!(labels.len(), 3 + 6 + 0 + 3);
    for (i, a) in labels.iter().enumerate() {
        for b in labels.iter().skip(i + 1) {
            assert_ne!(a.position, b.position);
            assert!((a.position.row, a.position.column) < (b.position.row, b.position.column));
        }
    }
}

#[test]
fn numbers_grow_past_nine() {
    let labels = labels_of("OBX|1|2|3|4|5|6|7|8|9|10|11\r");
    assert_eq!(labels.len(), 11);
    assert_eq!(labels[8], label(20, "9:"));
    assert_eq!(labels[9], label(22, "10:"));
    assert_eq!(labels[10], label(25, "11:"));
}

#[test]
fn message_without_separators_has_no_labels() {
    assert_eq!(labels_of("NTE\r"), vec![]);
    assert_eq!(labels_of(""), vec![]);
}

#[test]
fn only_segments_below_the_root_are_labelled() {
    let mut builder = TreeBuilder::new();
    let root = builder.add(None, span(NodeKind::Message, 0, 12)).unwrap();
    // A separator directly below the root, and one below a node that is no segment.
    builder.add(Some(root), span(NodeKind::FieldSeparator, 0, 1)).unwrap();
    let other = builder.add(Some(root), span(NodeKind::Other, 1, 4)).unwrap();
    builder.add(Some(other), span(NodeKind::FieldSeparator, 1, 2)).unwrap();
    let segment = builder.add(Some(root), span(NodeKind::Segment, 4, 12)).unwrap();
    builder.add(Some(segment), span(NodeKind::Other, 4, 7)).unwrap();
    builder.add(Some(segment), span(NodeKind::FieldSeparator, 7, 8)).unwrap();
    let field = builder.add(Some(segment), span(NodeKind::Field, 8, 12)).unwrap();
    // A separator deeper down is no boundary of the segment.
    builder.add(Some(field), span(NodeKind::FieldSeparator, 9, 10)).unwrap();
    let tree = builder.build().unwrap();
    let labels = get_inlay_hints(&tree, b"||xxPID|abcd");
    assert_eq!(labels, vec![label(8, "1:")]);
}

#[test]
fn leading_separator_is_counted() {
    let mut builder = TreeBuilder::new();
    let root = builder.add(None, span(NodeKind::Message, 0, 3)).unwrap();
    let segment = builder.add(Some(root), span(NodeKind::Segment, 0, 3)).unwrap();
    builder.add(Some(segment), span(NodeKind::FieldSeparator, 0, 1)).unwrap();
    builder.add(Some(segment), span(NodeKind::Field, 1, 2)).unwrap();
    builder.add(Some(segment), span(NodeKind::FieldSeparator, 2, 3)).unwrap();
    let tree = builder.build().unwrap();
    assert_eq!(get_inlay_hints(&tree, b"|a|"), vec![label(1, "1:"), label(3, "2")]);
}

#[test]
fn header_is_told_by_the_text() {
    let tree = tree_of("MSH|1|2\r");
    assert_eq!(get_inlay_hints(&tree, b"MSH|1|2\r"), vec![label(4, "2:"), label(6, "3:")]);
    assert_eq!(get_inlay_hints(&tree, b"PID|1|2\r"), vec![label(4, "1:"), label(6, "2:")]);
    assert_eq!(get_inlay_hints(&tree, b"msh|1|2\r"), vec![label(4, "1:"), label(6, "2:")]);
    // A text too short for the segment leaves it without a name.
    assert_eq!(get_inlay_hints(&tree, b"MSH|1|2"), vec![label(4, "1:"), label(6, "2:")]);
}

#[test]
fn labels_keep_the_row_of_their_separator() {
    let mut builder = TreeBuilder::new();
    let whole = Span::new(NodeKind::Message, 0, 12, Point::new(0, 0), Point::new(2, 0));
    let root = builder.add(None, whole).unwrap();
    let first = Span::new(NodeKind::Segment, 0, 6, Point::new(0, 0), Point::new(1, 0));
    let second = Span::new(NodeKind::Segment, 6, 12, Point::new(1, 0), Point::new(2, 0));
    let a = builder.add(Some(root), first).unwrap();
    let b = builder.add(Some(root), second).unwrap();
    let bar_a = Span::new(NodeKind::FieldSeparator, 3, 4, Point::new(0, 3), Point::new(0, 4));
    let bar_b = Span::new(NodeKind::FieldSeparator, 9, 10, Point::new(1, 3), Point::new(1, 4));
    builder.add(Some(a), bar_a).unwrap();
    builder.add(Some(b), bar_b).unwrap();
    let tree = builder.build().unwrap();
    let labels = get_inlay_hints(&tree, b"PID|1\nOBX|2\n");
    let expected = vec![
        FieldLabel { position: Point::new(0, 4), text: "1".to_string() },
        FieldLabel { position: Point::new(1, 4), text: "1".to_string() },
    ];
    assert_eq!(labels, expected);
}

#[test]
fn columns_count_bytes_not_characters() {
    // The first field holds one character of two bytes and one combining
    // mark of two bytes: the second separator is the tenth byte of the row.
    let text = "PID|e\u{301}\u{e9}|2\r";
    assert_eq!(text.len(), 12);
    let labels = labels_of(text);
    assert_eq!(labels, vec![label(4, "1:"), label(10, "2:")]);
}

#[test]
fn empty_separators_share_a_position() {
    let mut builder = TreeBuilder::new();
    let root = builder.add(None, span(NodeKind::Message, 0, 4)).unwrap();
    let segment = builder.add(Some(root), span(NodeKind::Segment, 0, 4)).unwrap();
    builder.add(Some(segment), span(NodeKind::Other, 0, 3)).unwrap();
    builder.add(Some(segment), span(NodeKind::FieldSeparator, 3, 3)).unwrap();
    builder.add(Some(segment), span(NodeKind::FieldSeparator, 3, 3)).unwrap();
    let tree = builder.build().unwrap();
    let labels = get_inlay_hints(&tree, b"PID\r");
    assert_eq!(labels, vec![label(4, "1"), label(4, "2")]);
}

#[test]
fn hint_stands_behind_a_separator() {
    let tree = tree_of("PID|1\r");
    let separator = tree.node(tree.node(1).children[1]);
    assert_eq!(separator.kind, NodeKind::FieldSeparator);
    assert_eq!(build_inlay_hint("7:".to_string(), separator), label(4, "7:"));
    let field = tree.node(tree.node(1).children[2]);
    assert_eq!(field.kind, NodeKind::Field);
    assert_eq!(build_inlay_hint("7:".to_string(), field), label(4, "7:"));
    let name = tree.node(tree.node(1).children[0]);
    assert_eq!(build_inlay_hint(String::new(), name), label(0, ""));
}

#[test]
fn snapshot_labels_are_those_of_its_tree() {
    let text = "PID|1|2|3\r";
    let snapshot = Snapshot::new(text.as_bytes().to_vec(), tree_of(text)).unwrap();
    assert_eq!(snapshot.generate_field_labels(), labels_of(text));
}

#[test]
fn hint_of_another_node_keeps_the_last_column() {
    let node = SyntaxNode {
        kind: NodeKind::Field,
        start_byte: 9,
        end_byte: 9,
        start: Point::new(3, u32::MAX),
        end: Point::new(3, u32::MAX),
        parent: None,
        sibling_index: 0,
        children: vec![],
    };
    let hint = build_inlay_hint("5".to_string(), &node);
    assert_eq!(hint.position, Point::new(3, u32::MAX));
    assert_eq!(hint.text, "5");
    let mut separator = node.clone();
    separator.kind = NodeKind::FieldSeparator;
    separator.start = Point::new(3, u32::MAX - 1);
    assert_eq!(build_inlay_hint("5".to_string(), &separator).position, Point::new(3, u32::MAX));
}

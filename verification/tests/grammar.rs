use hl7_lsp::builder::{assemble, NodeRecord, Span};
use hl7_lsp::grammar::{narrow_point, parse_message, read_tree, span_from, Extent};
use hl7_lsp::locate::descendant_for_point;
use hl7_lsp::point::Point;
use hl7_lsp::store::DocumentStore;
use hl7_lsp::tree::NodeKind;
use tree_sitter::{Language, Node, Parser, Tree};

const TEXT: &str = "{\"name\": [1, 22, {\"b\": null}],\n  \"c\": \"d\",\n\n \"e\": []}\n";

fn json() -> Language {
    tree_sitter_json::LANGUAGE.into()
}

fn parser() -> Parser {
    let mut parser = Parser::new();
    parser.set_language(&json()).unwrap();
    parser
}

fn parsed(text: &str) -> Tree {
    parser().parse(text, None).unwrap()
}

/// The parser's nodes level by level, each level from left to right.
fn level_order<'tree>(tree: &'tree Tree) -> Vec<Node<'tree>> {
    let mut nodes = vec![tree.root_node()];
    let mut next = 0;
    while next < nodes.len() {
        let node = nodes[next];
        for i in 0..node.child_count() {
            nodes.push(node.child(i).unwrap());
        }
        next += 1;
    }
    nodes
}

#[test]
fn every_node_of_the_parser_is_read() {
    let theirs = parsed(TEXT);
    let ours = read_tree(&theirs).unwrap();
    let nodes = level_order(&theirs);
    assert!(nodes.len() > 20);
    assert_eq!(ours.len(), nodes.len());
    for (i, node) in nodes.iter().enumerate() {
        let read = ours.node(i);
        assert_eq!(read.start_byte, node.start_byte());
        assert_eq!(read.end_byte, node.end_byte());
        assert_eq!(read.start.row as usize, node.start_position().row);
        assert_eq!(read.start.column as usize, node.start_position().column);
        assert_eq!(read.end.row as usize, node.end_position().row);
        assert_eq!(read.end.column as usize, node.end_position().column);
        assert_eq!(read.children.len(), node.child_count());
        for (slot, &below) in read.children.iter().enumerate() {
            assert_eq!(nodes[below].id(), node.child(slot).unwrap().id());
        }
        match read.parent {
            Some(above) => assert_eq!(nodes[above].id(), node.parent().unwrap().id()),
            None => assert!(node.parent().is_none()),
        }
    }
}

#[test]
fn text_is_parsed_and_read_in_one_step() {
    let direct = parse_message(&mut parser(), TEXT.as_bytes()).unwrap();
    let by_hand = read_tree(&parsed(TEXT)).unwrap();
    assert_eq!(direct.len(), by_hand.len());
    for i in 0..direct.len() {
        assert_eq!(direct.node(i), by_hand.node(i));
    }
    assert_eq!((direct.node(0).start_byte, direct.node(0).end_byte), (0, TEXT.len()));
}

#[test]
fn kinds_of_another_grammar_are_other() {
    let ours = parse_message(&mut parser(), TEXT.as_bytes()).unwrap();
    for i in 0..ours.len() {
        assert_eq!(ours.node(i).kind, NodeKind::Other);
    }
}

#[test]
fn lookup_agrees_with_the_parser() {
    let theirs = parsed(TEXT);
    let ours = read_tree(&theirs).unwrap();
    let root = theirs.root_node();
    let mut inside = 0;
    for row in 0..6 {
        for column in 0..40 {
            let at = tree_sitter::Point { row, column };
            let found = descendant_for_point(&ours, Point::new(row as u32, column as u32));
            if root.start_position() <= at && at < root.end_position() {
                let expected = root.descendant_for_point_range(at, at).unwrap();
                let node = ours.node(found.unwrap());
                assert_eq!(node.start_byte..node.end_byte, expected.byte_range());
                assert_eq!(node.children.len(), expected.child_count());
                inside += 1;
            } else {
                assert_eq!(found, None);
            }
        }
    }
    assert!(inside > 100);
}

#[test]
fn empty_text_is_a_tree_of_one_node() {
    let ours = parse_message(&mut parser(), b"").unwrap();
    assert_eq!(ours.len(), 1);
    assert_eq!((ours.node(0).start_byte, ours.node(0).end_byte), (0, 0));
    assert_eq!(descendant_for_point(&ours, Point::new(0, 0)), None);
}

#[test]
fn broken_text_still_gives_a_tree() {
    let ours = parse_message(&mut parser(), b"{\"a\": [1, }").unwrap();
    assert!(ours.len() > 3);
}

#[test]
fn opening_a_document_parses_it() {
    let mut store = DocumentStore::new();
    assert!(store.open(&mut parser(), TEXT.as_bytes().to_vec()));
    let held = store.read().unwrap();
    assert_eq!(held.text().as_slice(), TEXT.as_bytes());
    assert_eq!(held.tree().len(), level_order(&parsed(TEXT)).len());
    // No node of this grammar is a segment.
    assert_eq!(store.generate_field_labels(), vec![]);
    assert_eq!(store.resolve_address(Point::new(0, 3)), None);
    assert!(store.open(&mut parser(), b"[]".to_vec()));
    assert_eq!(store.read().unwrap().text().as_slice(), b"[]");
}

#[test]
fn positions_are_narrowed_to_32_bits() {
    assert_eq!(narrow_point(3, 14), Some(Point::new(3, 14)));
    assert_eq!(narrow_point(0, u32::MAX as usize), Some(Point::new(0, u32::MAX)));
    assert_eq!(narrow_point(u32::MAX as usize, 0), Some(Point::new(u32::MAX, 0)));
    if usize::BITS > 32 {
        assert_eq!(narrow_point(u32::MAX as usize + 1, 0), None);
        assert_eq!(narrow_point(0, u32::MAX as usize + 1), None);
        assert_eq!(narrow_point(usize::MAX, usize::MAX), None);
    }
}

fn extent_on_row(row: usize, start: usize, end: usize) -> Extent {
    Extent {
        start_byte: start,
        end_byte: end,
        start_row: row,
        start_column: start,
        end_row: row,
        end_column: end,
    }
}

#[test]
fn span_takes_kind_and_extent() {
    let at = Extent {
        start_byte: 40,
        end_byte: 52,
        start_row: 2,
        start_column: 7,
        end_row: 3,
        end_column: 1,
    };
    let expected = Span {
        kind: NodeKind::FieldSeparator,
        start_byte: 40,
        end_byte: 52,
        start: Point::new(2, 7),
        end: Point::new(3, 1),
    };
    assert_eq!(span_from("field_separator", at), Some(expected));
    let header = span_from("msh", extent_on_row(0, 0, 9)).unwrap();
    assert_eq!(header.kind, NodeKind::Segment);
    assert_eq!((header.start, header.end), (Point::new(0, 0), Point::new(0, 9)));
    assert_eq!(span_from("|", extent_on_row(0, 3, 4)).unwrap().kind, NodeKind::Other);
}

#[test]
fn span_needs_positions_of_32_bits() {
    let widest = u32::MAX as usize;
    let fits = span_from("field", extent_on_row(widest, widest - 1, widest)).unwrap();
    assert_eq!(fits.start, Point::new(u32::MAX, u32::MAX - 1));
    assert_eq!(fits.end, Point::new(u32::MAX, u32::MAX));
    if usize::BITS > 32 {
        let mut at = extent_on_row(0, 3, 4);
        at.end_column = widest + 1;
        assert_eq!(span_from("field", at), None);
        let mut at = extent_on_row(0, 3, 4);
        at.start_row = widest + 1;
        assert_eq!(span_from("field", at), None);
        // Byte offsets are taken as they are.
        let mut at = extent_on_row(0, 3, 4);
        at.end_byte = usize::MAX;
        assert_eq!(span_from("field", at).unwrap().end_byte, usize::MAX);
    }
}

#[test]
fn reading_is_putting_the_parser_s_reports_together() {
    let theirs = parsed(TEXT);
    let nodes = level_order(&theirs);
    let mut records = Vec::new();
    for node in &nodes {
        let range = node.range();
        let at = Extent {
            start_byte: range.start_byte,
            end_byte: range.end_byte,
            start_row: range.start_point.row,
            start_column: range.start_point.column,
            end_row: range.end_point.row,
            end_column: range.end_point.column,
        };
        let above = node.parent().map(|p| nodes.iter().position(|n| n.id() == p.id()).unwrap());
        records.push(NodeRecord { parent: above, span: span_from(node.kind(), at).unwrap() });
    }
    let by_hand = assemble(&records).unwrap();
    let read = read_tree(&theirs).unwrap();
    assert_eq!(read.len(), by_hand.len());
    for i in 0..read.len() {
        assert_eq!(read.node(i), by_hand.node(i));
    }
}

#[test]
fn parser_without_a_grammar_gives_nothing() {
    let mut bare = Parser::new();
    assert!(parse_message(&mut bare, TEXT.as_bytes()).is_none());
    let mut store = DocumentStore::new();
    assert!(store.open(&mut parser(), b"[1]".to_vec()));
    assert!(!store.open(&mut bare, TEXT.as_bytes().to_vec()));
    assert_eq!(store.read().unwrap().text().as_slice(), b"[1]");
}

#[test]
fn one_parser_reads_text_after_text() {
    let mut parser = parser();
    let first = parse_message(&mut parser, b"[1, 2]").unwrap();
    let second = parse_message(&mut parser, TEXT.as_bytes()).unwrap();
    let again = parse_message(&mut parser, b"[1, 2]").unwrap();
    assert_eq!(first.len(), again.len());
    for i in 0..first.len() {
        assert_eq!(first.node(i), again.node(i));
    }
    assert_eq!(second.len(), level_order(&parsed(TEXT)).len());
}

/// The nodes of the parser's tree that take up no room.
fn empty_nodes<'tree>(tree: &'tree Tree) -> Vec<Node<'tree>> {
    level_order(tree).into_iter().filter(|n| n.start_byte() == n.end_byte()).collect()
}

#[test]
fn lookup_on_broken_text_finds_nodes_with_room() {
    // The parser makes up the missing bracket as a node that takes up no
    // room. The lookup here never answers with such a node: it gives the
    // smallest node that has room for the position, which is the parser's
    // own answer or, where that takes up no room, the nearest node above it
    // that holds the position.
    let text = "{\"a\": [1, 2}\n";
    let theirs = parsed(text);
    assert!(theirs.root_node().has_error());
    assert_eq!(empty_nodes(&theirs).len(), 1);
    let ours = read_tree(&theirs).unwrap();
    let root = theirs.root_node();
    let mut inside = 0;
    for row in 0..2 {
        for column in 0..16 {
            let at = tree_sitter::Point { row, column };
            let found = descendant_for_point(&ours, Point::new(row as u32, column as u32));
            if !(root.start_position() <= at && at < root.end_position()) {
                assert_eq!(found, None);
                continue;
            }
            let node = ours.node(found.unwrap());
            assert!(node.start != node.end);
            let mut expected = root.descendant_for_point_range(at, at).unwrap();
            while !(expected.start_position() <= at && at < expected.end_position()) {
                expected = expected.parent().unwrap();
            }
            assert_eq!(node.start_byte..node.end_byte, expected.byte_range());
            inside += 1;
        }
    }
    assert_eq!(inside, 16);
    let missing = empty_nodes(&theirs)[0];
    let start = missing.start_position();
    let place = Point::new(start.row as u32, start.column as u32);
    let there = ours.node(descendant_for_point(&ours, place).unwrap());
    assert_eq!((there.start_byte, there.end_byte), (11, 12));
}

use inferus_parser::ast::heading::Heading;
use inferus_parser::ast::list::List;
use inferus_parser::ast::list::ListItem;
use inferus_parser::ast::paragraph::Paragraph;
use inferus_parser::parse;
use inferus_parser::syntax::SyntaxKind;
use inferus_parser::tree::Element;
use inferus_parser::tree::SyntaxTree;

fn nodes_of_kind(tree: &SyntaxTree, kind: SyntaxKind) -> Vec<usize> {
    let mut out = Vec::new();
    let mut i = 0;
    while i < tree.node_count() {
        if tree.kind_of(i) == kind {
            out.push(i);
        }
        i += 1;
    }
    out
}

fn child_kinds(tree: &SyntaxTree, node: usize) -> Vec<SyntaxKind> {
    let mut out = Vec::new();
    let mut j = 0;
    while j < tree.child_count(node) {
        match tree.child(node, j) {
            Element::Token(t) => out.push(t.kind),
            Element::Node(c) => out.push(tree.kind_of(c)),
        }
        j += 1;
    }
    out
}

#[test]
fn heading_scenario() {
    let tree = parse("# Title\n");
    let root = tree.root();
    assert_eq!(tree.kind_of(root), SyntaxKind::Document);
    let headings = nodes_of_kind(&tree, SyntaxKind::Heading);
    assert_eq!(headings.len(), 1);
    let kinds = child_kinds(&tree, headings[0]);
    assert_eq!(
        kinds,
        vec![SyntaxKind::Hash, SyntaxKind::Whitespace, SyntaxKind::Text]
    );
    let h = Heading::cast(&tree, headings[0]).unwrap();
    assert_eq!(h.text(&tree), b"Title".to_vec());
}

#[test]
fn list_scenario() {
    let tree = parse("- a\n- b\n");
    let lists = nodes_of_kind(&tree, SyntaxKind::List);
    assert_eq!(lists.len(), 1);
    let root = tree.root();
    assert_eq!(child_kinds(&tree, root), vec![SyntaxKind::List]);
    let items = nodes_of_kind(&tree, SyntaxKind::ListItem);
    assert_eq!(items.len(), 2);
    assert_eq!(
        child_kinds(&tree, lists[0]),
        vec![SyntaxKind::ListItem, SyntaxKind::ListItem]
    );
    let a = ListItem::cast(&tree, items[0]).unwrap();
    let b = ListItem::cast(&tree, items[1]).unwrap();
    assert_eq!(a.text(&tree), b"a".to_vec());
    assert_eq!(b.text(&tree), b"b".to_vec());
    assert!(List::cast(&tree, lists[0]).is_some());
}

#[test]
fn paragraph_scenario() {
    let tree = parse("plain text\n");
    let paragraphs = nodes_of_kind(&tree, SyntaxKind::Paragraph);
    assert_eq!(paragraphs.len(), 1);
    let p = Paragraph::cast(&tree, paragraphs[0]).unwrap();
    assert_eq!(p.text(&tree), b"plain text".to_vec());
}

#[test]
fn heading_error_recovery_scenario() {
    let tree = parse("#NoSpace\n");
    let headings = nodes_of_kind(&tree, SyntaxKind::Heading);
    assert_eq!(headings.len(), 1);
    let kinds = child_kinds(&tree, headings[0]);
    assert_eq!(kinds, vec![SyntaxKind::Hash, SyntaxKind::Error]);
    let errors = nodes_of_kind(&tree, SyntaxKind::Error);
    assert_eq!(errors.len(), 1);
    // The Error node wraps exactly the one unexpected token.
    assert_eq!(tree.child_count(errors[0]), 1);
    match tree.child(errors[0], 0) {
        Element::Token(t) => assert_eq!(t.kind, SyntaxKind::Text),
        Element::Node(_) => panic!("error node should wrap a token"),
    }
    // The round trip still holds for the malformed input.
    let root = tree.root();
    assert_eq!(tree.text_of(root), b"#NoSpace\n".to_vec());
}

#[test]
fn empty_input_scenario() {
    let tree = parse("");
    let root = tree.root();
    assert_eq!(tree.kind_of(root), SyntaxKind::Document);
    assert_eq!(tree.child_count(root), 0);
    assert_eq!(tree.range_of(root), (0, 0));
    assert_eq!(tree.text_of(root), Vec::<u8>::new());
}

fn assert_round_trip(input: &str) {
    let tree = parse(input);
    let root = tree.root();
    assert_eq!(tree.text_of(root), input.as_bytes().to_vec());
    assert_eq!(tree.range_of(root), (0, input.len()));
}

#[test]
fn round_trip_assorted_inputs() {
    assert_round_trip("# Title\n");
    assert_round_trip("- a\n- b\n");
    assert_round_trip("plain text\n");
    assert_round_trip("#NoSpace\n");
    assert_round_trip("");
    assert_round_trip("\n");
    assert_round_trip("\n\n\n");
    assert_round_trip("#");
    assert_round_trip("-");
    assert_round_trip("`[]()*# \t-\n");
    assert_round_trip("## Two hashes\npara\n- item");
    assert_round_trip("text without newline");
    assert_round_trip("mixé ünïcode \u{1F600}\n");
}

#[test]
fn coverage_is_total() {
    // Every node's children tile the parent exactly; spot-check by walking
    // each node's children and comparing the reconstructed boundaries.
    let tree = parse("# T\n- a\n- b\nplain\n");
    let mut i = 0;
    while i < tree.node_count() {
        let (start, end) = tree.range_of(i);
        let mut pos = start;
        let mut j = 0;
        while j < tree.child_count(i) {
            match tree.child(i, j) {
                Element::Token(t) => {
                    assert_eq!(t.start, pos);
                    pos = t.end;
                }
                Element::Node(c) => {
                    let (cs, ce) = tree.range_of(c);
                    assert_eq!(cs, pos);
                    pos = ce;
                }
            }
            j += 1;
        }
        if tree.child_count(i) == 0 {
            assert_eq!(start, end);
        } else {
            assert_eq!(pos, end);
        }
        i += 1;
    }
}

#[test]
fn cast_exclusivity() {
    let tree = parse("# T\n- a\nplain\n");
    let mut i = 0;
    while i < tree.node_count() {
        let mut successes = 0;
        if Heading::cast(&tree, i).is_some() {
            successes += 1;
        }
        if Paragraph::cast(&tree, i).is_some() {
            successes += 1;
        }
        if List::cast(&tree, i).is_some() {
            successes += 1;
        }
        if ListItem::cast(&tree, i).is_some() {
            successes += 1;
        }
        assert!(successes <= 1);
        i += 1;
    }
}

#[test]
fn cast_fails_on_wrong_kind() {
    let tree = parse("plain\n");
    let paragraphs = nodes_of_kind(&tree, SyntaxKind::Paragraph);
    assert!(Heading::cast(&tree, paragraphs[0]).is_none());
    assert!(List::cast(&tree, paragraphs[0]).is_none());
    assert!(ListItem::cast(&tree, paragraphs[0]).is_none());
    let root = tree.root();
    assert!(Paragraph::cast(&tree, root).is_none());
}

#[test]
fn parent_navigation() {
    let tree = parse("- a\n- b\n");
    let root = tree.root();
    assert_eq!(tree.parent_of(root), None);
    let lists = nodes_of_kind(&tree, SyntaxKind::List);
    assert_eq!(tree.parent_of(lists[0]), Some(root));
    let items = nodes_of_kind(&tree, SyntaxKind::ListItem);
    assert_eq!(tree.parent_of(items[0]), Some(lists[0]));
    assert_eq!(tree.parent_of(items[1]), Some(lists[0]));
}

#[test]
fn dash_without_whitespace_is_not_a_list() {
    // A Dash not immediately followed by Whitespace cannot start a list
    // item, so the line falls through to the Paragraph case.
    let tree = parse("-x\n");
    assert_eq!(nodes_of_kind(&tree, SyntaxKind::List).len(), 0);
    let paragraphs = nodes_of_kind(&tree, SyntaxKind::Paragraph);
    assert_eq!(paragraphs.len(), 1);
    assert_eq!(
        child_kinds(&tree, paragraphs[0]),
        vec![SyntaxKind::Dash, SyntaxKind::Text]
    );
    assert_round_trip("-x\n");
}

#[test]
fn multi_hash_heading_level() {
    let tree = parse("### Deep\n");
    let headings = nodes_of_kind(&tree, SyntaxKind::Heading);
    assert_eq!(headings.len(), 1);
    let kinds = child_kinds(&tree, headings[0]);
    assert_eq!(
        kinds,
        vec![
            SyntaxKind::Hash,
            SyntaxKind::Hash,
            SyntaxKind::Hash,
            SyntaxKind::Whitespace,
            SyntaxKind::Text
        ]
    );
    let h = Heading::cast(&tree, headings[0]).unwrap();
    assert_eq!(h.text(&tree), b"Deep".to_vec());
}

#[test]
fn list_item_without_trailing_newline() {
    let tree = parse("- last");
    let items = nodes_of_kind(&tree, SyntaxKind::ListItem);
    assert_eq!(items.len(), 1);
    let item = ListItem::cast(&tree, items[0]).unwrap();
    assert_eq!(item.text(&tree), b"last".to_vec());
    assert_round_trip("- last");
}

#[test]
fn hash_at_end_of_input_gets_empty_error() {
    let tree = parse("#");
    let headings = nodes_of_kind(&tree, SyntaxKind::Heading);
    assert_eq!(headings.len(), 1);
    let errors = nodes_of_kind(&tree, SyntaxKind::Error);
    assert_eq!(errors.len(), 1);
    assert_eq!(tree.child_count(errors[0]), 0);
    assert_round_trip("#");
}

#[test]
fn mid_line_hash_is_paragraph_text() {
    let tree = parse("a # b\n");
    assert_eq!(nodes_of_kind(&tree, SyntaxKind::Heading).len(), 0);
    let paragraphs = nodes_of_kind(&tree, SyntaxKind::Paragraph);
    assert_eq!(paragraphs.len(), 1);
    let p = Paragraph::cast(&tree, paragraphs[0]).unwrap();
    assert_eq!(p.text(&tree), b"a # b".to_vec());
}

#[test]
fn descendants_preorder() {
    let tree = parse("- a\n- b\n");
    let root = tree.root();
    let order = tree.descendants(root);
    // Pre-order: the Document first, then the List, then its items in order.
    assert_eq!(order[0], root);
    let lists = nodes_of_kind(&tree, SyntaxKind::List);
    let items = nodes_of_kind(&tree, SyntaxKind::ListItem);
    assert_eq!(order[1], lists[0]);
    assert_eq!(order[2], items[0]);
    assert_eq!(order[3], items[1]);
    assert_eq!(order.len(), 4);
}

#[test]
fn single_character_inputs_terminate_and_round_trip() {
    for b in 0u8..128u8 {
        let s = (b as char).to_string();
        let tree = parse(&s);
        let root = tree.root();
        assert_eq!(tree.text_of(root), s.as_bytes().to_vec());
        assert_eq!(tree.range_of(root), (0, s.len()));
    }
}

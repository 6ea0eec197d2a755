use icarus::dom::{eq_ignore_ascii_case, indented, Document, Node, NodeData, QualName};

fn qn(local: &str) -> QualName {
    QualName {
        prefix: None,
        ns: "http://www.w3.org/1999/xhtml".to_string(),
        local: local.to_string(),
    }
}

fn element(doc: &mut Document, local: &str) -> usize {
    Node::new(doc, NodeData::Element { name: qn(local), attrs: Vec::new() })
}

fn text(doc: &mut Document, s: &str) -> usize {
    Node::new(doc, NodeData::Text { contents: s.to_string() })
}

#[test]
fn new_document_has_lone_root() {
    let doc = Document::new();
    assert_eq!(doc.nodes.len(), 1);
    assert_eq!(doc.root, 0);
    assert!(matches!(doc.nodes[0].data, NodeData::Document));
    assert!(doc.nodes[0].children.is_empty());
    assert_eq!(doc.nodes[0].parent, None);
}

#[test]
fn append_child_links_both_ways() {
    let mut doc = Document::new();
    let a = element(&mut doc, "div");
    let b = element(&mut doc, "span");
    let root = doc.root;
    Node::append_child(&mut doc, root, a);
    Node::append_child(&mut doc, a, b);
    assert_eq!(doc.nodes[0].children, vec![a]);
    assert_eq!(doc.nodes[a].children, vec![b]);
    assert_eq!(doc.nodes[a].parent, Some(0));
    assert_eq!(doc.nodes[b].parent, Some(a));
    assert!(doc.is_attached(a));
    assert!(doc.is_attached(b));
}

#[test]
fn every_child_points_back_at_its_parent() {
    let mut doc = Document::new();
    let html = element(&mut doc, "html");
    Node::append_child(&mut doc, 0, html);
    let mut kids = Vec::new();
    for name in ["a", "b", "c"] {
        let k = element(&mut doc, name);
        kids.push(k);
    }
    Node::append_child(&mut doc, html, kids[0]);
    Node::insert_before(&mut doc, html, kids[1], kids[0]);
    Node::insert_before(&mut doc, html, kids[2], kids[0]);
    for (p, node) in doc.nodes.iter().enumerate() {
        for &c in node.children.iter() {
            assert_eq!(doc.nodes[c].parent, Some(p));
        }
    }
    assert_eq!(doc.nodes[html].children, vec![kids[1], kids[2], kids[0]]);
}

#[test]
fn insert_before_puts_child_before_reference() {
    let mut doc = Document::new();
    let a = element(&mut doc, "a");
    let b = element(&mut doc, "b");
    let c = element(&mut doc, "c");
    Node::append_child(&mut doc, 0, a);
    Node::append_child(&mut doc, 0, b);
    Node::insert_before(&mut doc, 0, c, b);
    assert_eq!(doc.nodes[0].children, vec![a, c, b]);
    assert_eq!(doc.nodes[c].parent, Some(0));
}

#[test]
fn insert_before_missing_reference_appends() {
    let mut doc = Document::new();
    let a = element(&mut doc, "a");
    let stray = element(&mut doc, "stray");
    let c = element(&mut doc, "c");
    Node::append_child(&mut doc, 0, a);
    Node::insert_before(&mut doc, 0, c, stray);
    assert_eq!(doc.nodes[0].children, vec![a, c]);
    assert_eq!(doc.nodes[c].parent, Some(0));
}

#[test]
fn remove_child_detaches_but_keeps_back_reference() {
    let mut doc = Document::new();
    let a = element(&mut doc, "a");
    let b = element(&mut doc, "b");
    Node::append_child(&mut doc, 0, a);
    Node::append_child(&mut doc, 0, b);
    Node::remove_child(&mut doc, 0, a);
    assert_eq!(doc.nodes[0].children, vec![b]);
    assert_eq!(doc.nodes[a].parent, Some(0));
    assert!(!doc.is_attached(a));
    Node::remove_child(&mut doc, 0, a);
    assert_eq!(doc.nodes[0].children, vec![b]);
}

#[test]
fn element_name_and_text_content_accessors() {
    let mut doc = Document::new();
    let a = element(&mut doc, "Section");
    let t = text(&mut doc, "words");
    assert_eq!(doc.nodes[a].element_name(), Some("Section"));
    assert_eq!(doc.nodes[t].element_name(), None);
    assert_eq!(doc.nodes[t].text_content(), Some("words"));
    assert_eq!(doc.nodes[a].text_content(), None);
    assert_eq!(doc.nodes[0].element_name(), None);
}

#[test]
fn text_content_concatenates_nested_text() {
    // <div>A<span>B</span>C</div> with a comment and a doctype mixed in
    let mut doc = Document::new();
    let dt = Node::new(
        &mut doc,
        NodeData::Doctype {
            name: "html".to_string(),
            public_id: String::new(),
            system_id: String::new(),
        },
    );
    Node::append_child(&mut doc, 0, dt);
    let div = element(&mut doc, "div");
    Node::append_child(&mut doc, 0, div);
    let a = text(&mut doc, "A");
    Node::append_child(&mut doc, div, a);
    let span = element(&mut doc, "span");
    Node::append_child(&mut doc, div, span);
    let b = text(&mut doc, "B");
    Node::append_child(&mut doc, span, b);
    let cm = Node::new(&mut doc, NodeData::Comment { contents: "note".to_string() });
    Node::append_child(&mut doc, div, cm);
    let c = text(&mut doc, "C");
    Node::append_child(&mut doc, div, c);
    assert_eq!(Node::get_text_content(&doc, div), "ABC");
    assert_eq!(Node::get_text_content(&doc, 0), "ABC");
    assert_eq!(Node::get_text_content(&doc, span), "B");
    assert_eq!(Node::get_text_content(&doc, cm), "");
}

#[test]
fn elements_by_tag_name_fold_case_in_document_order() {
    // <DIV><p>a</p><P>b</P></DIV>
    let mut doc = Document::new();
    let div = element(&mut doc, "DIV");
    Node::append_child(&mut doc, 0, div);
    let p1 = element(&mut doc, "p");
    Node::append_child(&mut doc, div, p1);
    let ta = text(&mut doc, "a");
    Node::append_child(&mut doc, p1, ta);
    let p2 = element(&mut doc, "P");
    Node::append_child(&mut doc, div, p2);
    let tb = text(&mut doc, "b");
    Node::append_child(&mut doc, p2, tb);
    assert_eq!(doc.get_elements_by_tag_name("p"), vec![p1, p2]);
    assert_eq!(doc.get_elements_by_tag_name("P"), vec![p1, p2]);
    assert_eq!(doc.get_elements_by_tag_name("div"), vec![div]);
    assert_eq!(doc.get_elements_by_tag_name("span"), Vec::<usize>::new());
    assert_eq!(Node::get_text_content(&doc, p2), "b");
}

#[test]
fn elements_by_tag_name_nested_matches_come_parent_first() {
    let mut doc = Document::new();
    let outer = element(&mut doc, "div");
    Node::append_child(&mut doc, 0, outer);
    let inner = element(&mut doc, "Div");
    Node::append_child(&mut doc, outer, inner);
    let sib = element(&mut doc, "dIV");
    Node::append_child(&mut doc, 0, sib);
    assert_eq!(doc.get_elements_by_tag_name("DIV"), vec![outer, inner, sib]);
}

#[test]
fn ascii_case_folding_compare() {
    assert!(eq_ignore_ascii_case("Body", "bODY"));
    assert!(eq_ignore_ascii_case("", ""));
    assert!(!eq_ignore_ascii_case("p", "pre"));
    assert!(!eq_ignore_ascii_case("a", "b"));
    assert!(eq_ignore_ascii_case("h1", "H1"));
    assert!(!eq_ignore_ascii_case("é", "É"));
}

#[test]
fn walk_visits_in_pre_order() {
    let mut doc = Document::new();
    let a = element(&mut doc, "a");
    let b = element(&mut doc, "b");
    let c = element(&mut doc, "c");
    let d = element(&mut doc, "d");
    Node::append_child(&mut doc, 0, a);
    Node::append_child(&mut doc, a, b);
    Node::append_child(&mut doc, a, c);
    Node::append_child(&mut doc, 0, d);
    assert_eq!(Node::walk(&doc, 0), vec![0, a, b, c, d]);
    assert_eq!(Node::walk(&doc, a), vec![a, b, c]);
}

#[test]
fn indented_uses_two_spaces_per_level() {
    assert_eq!(indented(0, "Document"), "Document");
    assert_eq!(indented(2, "Comment"), "    Comment");
}

#[test]
fn print_tree_formats_each_variant() {
    let mut doc = Document::new();
    let dt = Node::new(
        &mut doc,
        NodeData::Doctype {
            name: "html".to_string(),
            public_id: String::new(),
            system_id: String::new(),
        },
    );
    Node::append_child(&mut doc, 0, dt);
    let html = element(&mut doc, "html");
    Node::append_child(&mut doc, 0, html);
    let ws = text(&mut doc, "\n   \t");
    Node::append_child(&mut doc, html, ws);
    let p = element(&mut doc, "p");
    Node::append_child(&mut doc, html, p);
    let t = text(&mut doc, "  say \"hi\"\n");
    Node::append_child(&mut doc, p, t);
    let cm = Node::new(&mut doc, NodeData::Comment { contents: "x".to_string() });
    Node::append_child(&mut doc, html, cm);
    let lines = doc.print_tree();
    assert_eq!(
        lines,
        vec![
            "Document".to_string(),
            "  Doctype: html".to_string(),
            "  Element: html".to_string(),
            "    Element: p".to_string(),
            "      Text: \"say \\\"hi\\\"\"".to_string(),
            "    Comment".to_string(),
        ]
    );
}

#[test]
fn print_tree_trims_unicode_white_space() {
    let mut doc = Document::new();
    let t = text(&mut doc, "\u{a0}\u{3000} x y\u{2028}\n");
    Node::append_child(&mut doc, 0, t);
    let blank = text(&mut doc, "\u{85}\u{200a}");
    Node::append_child(&mut doc, 0, blank);
    assert_eq!(doc.print_tree(), vec!["Document".to_string(), "  Text: \"x y\"".to_string()]);
}

use icarus::dom::{Attribute, Node, NodeData, QualName};
use icarus::html::parser::{DomSink, Handle, NodeOrText, QuirksMode};

const HTML_NS: &str = "http://www.w3.org/1999/xhtml";

fn qn(local: &str) -> QualName {
    QualName { prefix: None, ns: HTML_NS.to_string(), local: local.to_string() }
}

fn make(sink: &mut DomSink, local: &str) -> Handle {
    sink.create_element(qn(local), Vec::new())
}

fn text_of(sink: &DomSink, id: usize) -> String {
    match &sink.document.nodes[id].data {
        NodeData::Text { contents } => contents.clone(),
        _ => panic!("not a text node"),
    }
}

#[test]
fn get_document_is_stable() {
    let sink = DomSink::new();
    let a = sink.get_document();
    let b = sink.get_document();
    assert!(sink.same_node(&a, &b));
    assert_eq!(a, Handle(0));
    assert_eq!(sink.quirks_mode, QuirksMode::NoQuirks);
}

#[test]
fn consecutive_text_appends_coalesce() {
    let mut sink = DomSink::new();
    let root = sink.get_document();
    let p = make(&mut sink, "p");
    sink.append(&root, NodeOrText::AppendNode(p));
    sink.append(&p, NodeOrText::AppendText("Hel".to_string()));
    sink.append(&p, NodeOrText::AppendText("lo".to_string()));
    let kids = sink.document.nodes[p.0].children.clone();
    assert_eq!(kids.len(), 1);
    assert_eq!(text_of(&sink, kids[0]), "Hello");
    assert_eq!(sink.document.nodes[kids[0]].parent, Some(p.0));
}

#[test]
fn coalescing_replaces_old_text_node() {
    let mut sink = DomSink::new();
    let p = make(&mut sink, "p");
    sink.append(&p, NodeOrText::AppendText("a".to_string()));
    let first = sink.document.nodes[p.0].children[0];
    sink.append(&p, NodeOrText::AppendText("b".to_string()));
    let second = sink.document.nodes[p.0].children[0];
    assert_ne!(first, second);
    assert_eq!(text_of(&sink, first), "a");
    assert_eq!(text_of(&sink, second), "ab");
    assert!(!sink.document.is_attached(first));
}

#[test]
fn text_after_element_is_not_merged() {
    let mut sink = DomSink::new();
    let div = make(&mut sink, "div");
    sink.append(&div, NodeOrText::AppendText("x".to_string()));
    let b = make(&mut sink, "b");
    sink.append(&div, NodeOrText::AppendNode(b));
    sink.append(&div, NodeOrText::AppendText("y".to_string()));
    let kids = sink.document.nodes[div.0].children.clone();
    assert_eq!(kids.len(), 3);
    assert_eq!(text_of(&sink, kids[0]), "x");
    assert_eq!(kids[1], b.0);
    assert_eq!(text_of(&sink, kids[2]), "y");
}

#[test]
fn remove_then_append_elsewhere_has_one_owner() {
    let mut sink = DomSink::new();
    let root = sink.get_document();
    let a = make(&mut sink, "a");
    let b = make(&mut sink, "b");
    let x = make(&mut sink, "x");
    sink.append(&root, NodeOrText::AppendNode(a));
    sink.append(&root, NodeOrText::AppendNode(b));
    sink.append(&a, NodeOrText::AppendNode(x));
    sink.remove_from_parent(&x);
    sink.append(&b, NodeOrText::AppendNode(x));
    assert!(sink.document.nodes[a.0].children.is_empty());
    assert_eq!(sink.document.nodes[b.0].children, vec![x.0]);
    assert_eq!(sink.document.nodes[x.0].parent, Some(b.0));
    let owners = sink.document.nodes.iter().filter(|n| n.children.contains(&x.0)).count();
    assert_eq!(owners, 1);
}

#[test]
fn remove_from_parent_of_detached_is_noop() {
    let mut sink = DomSink::new();
    let a = make(&mut sink, "a");
    sink.remove_from_parent(&a);
    sink.remove_from_parent(&a);
    assert_eq!(sink.document.nodes.len(), 2);
    assert!(!sink.document.is_attached(a.0));
}

#[test]
fn reparent_children_moves_all_in_order() {
    let mut sink = DomSink::new();
    let from = make(&mut sink, "from");
    let to = make(&mut sink, "to");
    let keep = make(&mut sink, "keep");
    sink.append(&to, NodeOrText::AppendNode(keep));
    let a = make(&mut sink, "a");
    sink.append(&from, NodeOrText::AppendNode(a));
    sink.append(&from, NodeOrText::AppendText("t".to_string()));
    let t = sink.document.nodes[from.0].children[1];
    sink.reparent_children(&from, &to);
    assert!(sink.document.nodes[from.0].children.is_empty());
    assert_eq!(sink.document.nodes[to.0].children, vec![keep.0, a.0, t]);
    assert_eq!(sink.document.nodes[a.0].parent, Some(to.0));
    assert_eq!(sink.document.nodes[t].parent, Some(to.0));
}

#[test]
fn append_before_sibling_node_and_text() {
    let mut sink = DomSink::new();
    let table = make(&mut sink, "table");
    let body = make(&mut sink, "body");
    sink.append(&body, NodeOrText::AppendNode(table));
    let p = make(&mut sink, "p");
    sink.append_before_sibling(&table, NodeOrText::AppendNode(p));
    sink.append_before_sibling(&table, NodeOrText::AppendText("z".to_string()));
    let kids = sink.document.nodes[body.0].children.clone();
    assert_eq!(kids.len(), 3);
    assert_eq!(kids[0], p.0);
    assert_eq!(text_of(&sink, kids[1]), "z");
    assert_eq!(kids[2], table.0);
    assert_eq!(sink.document.nodes[p.0].parent, Some(body.0));
    assert_eq!(sink.document.nodes[kids[1]].parent, Some(body.0));
}

#[test]
fn append_before_stale_sibling_appends_at_end() {
    let mut sink = DomSink::new();
    let body = make(&mut sink, "body");
    let gone = make(&mut sink, "gone");
    let other = make(&mut sink, "other");
    sink.append(&body, NodeOrText::AppendNode(other));
    sink.append(&body, NodeOrText::AppendNode(gone));
    sink.remove_from_parent(&gone);
    let p = make(&mut sink, "p");
    sink.append_before_sibling(&gone, NodeOrText::AppendNode(p));
    assert_eq!(sink.document.nodes[body.0].children, vec![other.0, p.0]);
}

#[test]
fn elem_name_and_template_contents() {
    let mut sink = DomSink::new();
    let attrs = vec![Attribute { name: qn("class"), value: "x".to_string() }];
    let t = sink.create_element(qn("template"), attrs);
    assert_eq!(sink.elem_name(&t).local, "template");
    assert_eq!(sink.elem_name(&t).ns, HTML_NS);
    let c = sink.get_template_contents(&t);
    assert!(sink.same_node(&c, &t));
    match &sink.document.nodes[t.0].data {
        NodeData::Element { attrs, .. } => {
            assert_eq!(attrs.len(), 1);
            assert_eq!(attrs[0].value, "x");
        },
        _ => panic!("not an element"),
    }
    sink.add_attrs_if_missing(&t, vec![Attribute { name: qn("id"), value: "y".to_string() }]);
    match &sink.document.nodes[t.0].data {
        NodeData::Element { attrs, .. } => assert_eq!(attrs.len(), 1),
        _ => panic!("not an element"),
    }
}

#[test]
fn same_node_is_identity_not_content() {
    let mut sink = DomSink::new();
    let a = make(&mut sink, "p");
    let b = make(&mut sink, "p");
    assert!(!sink.same_node(&a, &b));
    assert!(sink.same_node(&a, &a));
}

#[test]
fn comment_and_processing_instruction() {
    let mut sink = DomSink::new();
    let c = sink.create_comment("hello".to_string());
    let pi = sink.create_pi("xml".to_string(), "version".to_string());
    match &sink.document.nodes[c.0].data {
        NodeData::Comment { contents } => assert_eq!(contents, "hello"),
        _ => panic!("not a comment"),
    }
    match &sink.document.nodes[pi.0].data {
        NodeData::Comment { contents } => assert_eq!(contents, ""),
        _ => panic!("not a comment"),
    }
}

#[test]
fn quirks_mode_is_recorded() {
    let mut sink = DomSink::new();
    sink.set_quirks_mode(QuirksMode::Quirks);
    assert_eq!(sink.quirks_mode, QuirksMode::Quirks);
    sink.parse_error("unexpected token");
    assert_eq!(sink.document.nodes.len(), 1);
}

#[test]
fn doctype_html_body_p_end_to_end() {
    // the events a tree builder issues for
    // <!DOCTYPE html><html><body><p>Hi</p></body></html>
    let mut sink = DomSink::new();
    let doc = sink.get_document();
    sink.append_doctype_to_document("html".to_string(), String::new(), String::new());
    sink.set_quirks_mode(QuirksMode::NoQuirks);
    let html = make(&mut sink, "html");
    sink.append(&doc, NodeOrText::AppendNode(html));
    let head = make(&mut sink, "head");
    sink.append(&html, NodeOrText::AppendNode(head));
    let body = make(&mut sink, "body");
    sink.append(&html, NodeOrText::AppendNode(body));
    let p = make(&mut sink, "p");
    sink.append(&body, NodeOrText::AppendNode(p));
    sink.append(&p, NodeOrText::AppendText("Hi".to_string()));
    let document = sink.finish();
    let root_kids = document.nodes[document.root].children.clone();
    assert_eq!(root_kids.len(), 2);
    match &document.nodes[root_kids[0]].data {
        NodeData::Doctype { name, .. } => assert_eq!(name, "html"),
        _ => panic!("first child is not a doctype"),
    }
    assert_eq!(document.nodes[root_kids[1]].element_name(), Some("html"));
    let ps = document.get_elements_by_tag_name("p");
    assert_eq!(ps.len(), 1);
    assert_eq!(Node::get_text_content(&document, ps[0]), "Hi");
}

#[test]
fn text_before_sibling_merges_with_preceding_text() {
    let mut sink = DomSink::new();
    let body = make(&mut sink, "body");
    let table = make(&mut sink, "table");
    sink.append(&body, NodeOrText::AppendNode(table));
    sink.append_before_sibling(&table, NodeOrText::AppendText("a".to_string()));
    sink.append_before_sibling(&table, NodeOrText::AppendText("b".to_string()));
    let kids = sink.document.nodes[body.0].children.clone();
    assert_eq!(kids.len(), 2);
    assert_eq!(text_of(&sink, kids[0]), "ab");
    assert_eq!(kids[1], table.0);
    assert_eq!(sink.document.nodes[kids[0]].parent, Some(body.0));
}

#[test]
fn text_before_stale_sibling_appends_like_append() {
    let mut sink = DomSink::new();
    let body = make(&mut sink, "body");
    let gone = make(&mut sink, "gone");
    sink.append(&body, NodeOrText::AppendNode(gone));
    sink.append(&body, NodeOrText::AppendText("x".to_string()));
    sink.remove_from_parent(&gone);
    sink.append_before_sibling(&gone, NodeOrText::AppendText("y".to_string()));
    let kids = sink.document.nodes[body.0].children.clone();
    assert_eq!(kids.len(), 1);
    assert_eq!(text_of(&sink, kids[0]), "xy");
}

#[test]
fn new_sink_root_is_detached_document() {
    let sink = DomSink::new();
    let root = sink.get_document();
    assert!(matches!(sink.document.nodes[root.0].data, NodeData::Document));
    assert_eq!(sink.document.nodes[root.0].parent, None);
    assert!(sink.document.nodes[root.0].children.is_empty());
}

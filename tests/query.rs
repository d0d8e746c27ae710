use hql::html::dom::{Attribute, QualName};
use hql::html::sink::NodeOrText;
use hql::html::{ElementOrTextRef, Html};
use hql::querier::Querier;
use hql::selector::path::FlatSelector;
use hql::selector::text::TrimSelector;
use hql::tree::NodeID;

const XHTML: &str = "http://www.w3.org/1999/xhtml";

fn element(doc: &mut Html, parent: NodeID, name: &str, attrs: &[(&str, &str)]) -> NodeID {
    let attrs = attrs
        .iter()
        .map(|(k, v)| Attribute { name: QualName::new(None, String::new(), k.to_string()), value: v.to_string() })
        .collect();
    let id = doc.create_element(QualName::new(None, XHTML.to_string(), name.to_string()), attrs);
    assert!(doc.append(parent, NodeOrText::AppendNode(id)));
    id
}

fn text(doc: &mut Html, parent: NodeID, t: &str) {
    assert!(doc.append(parent, NodeOrText::AppendText(t.to_string())));
}

/// `<html><body><div><a href="x"> hello </a></div></body></html>`
fn link_doc() -> Html {
    let mut doc = Html::new_document();
    let html = element(&mut doc, NodeID(0), "html", &[]);
    let body = element(&mut doc, html, "body", &[]);
    let div = element(&mut doc, body, "div", &[]);
    let a = element(&mut doc, div, "a", &[("href", "x")]);
    text(&mut doc, a, " hello ");
    doc
}

fn texts(doc: &Html, hql: &str) -> Vec<String> {
    let q = Querier::try_parse(hql).unwrap();
    q.query_document(doc)
        .iter()
        .map(|r| match r {
            ElementOrTextRef::Element(e) => format!("<{}>", e.expanded_name().unwrap().local),
            _ => r.own_text(doc.tree()).unwrap().clone(),
        })
        .collect()
}

#[test]
fn querier_test_parse() {}

#[test]
fn pipeline_extracts_trimmed_link_text() {
    let doc = link_doc();
    let out = texts(&doc, "@flat() | @path(`/body//div/a`) | @attr(`href`) | #text() | #trim()");
    assert_eq!(out, vec!["hello".to_string()]);
}

#[test]
fn attr_value_compared_ignoring_case_but_id_honours_case() {
    let mut doc = Html::new_document();
    let body = element(&mut doc, NodeID(0), "body", &[]);
    element(&mut doc, body, "a", &[("target", "_BLANK"), ("id", "main")]);
    assert_eq!(texts(&doc, "@flat() | @attr(`target`, `_blank`)"), vec!["<a>".to_string()]);
    assert!(texts(&doc, "@flat() | @id(`Main`, 1)").is_empty());
    assert_eq!(texts(&doc, "@flat() | @id(`Main`, 0)"), vec!["<a>".to_string()]);
    assert_eq!(texts(&doc, "@flat() | @id(`main`)"), vec!["<a>".to_string()]);
    assert!(texts(&doc, "@flat() | @attr(`target`, `_self`)").is_empty());
}

#[test]
fn trim_twice_equals_trim_once() {
    let mut doc = Html::new_document();
    let p = element(&mut doc, NodeID(0), "p", &[]);
    text(&mut doc, p, "\n\t  spaced out \u{3000}");
    let once = texts(&doc, "@flat() | #text() | #trim()");
    let twice = texts(&doc, "@flat() | #text() | #trim() | #trim()");
    assert_eq!(once, twice);
    assert_eq!(once[1], "spaced out".to_string());
}

#[test]
fn class_tokens_and_case() {
    let mut doc = Html::new_document();
    let div = element(&mut doc, NodeID(0), "div", &[("class", "Content-Body  main")]);
    element(&mut doc, div, "span", &[("class", "content-bodyx")]);
    assert_eq!(texts(&doc, "@flat() | @class(`Content-Body`)"), vec!["<div>".to_string()]);
    assert!(texts(&doc, "@flat() | @class(`content-body`)").is_empty());
    assert_eq!(texts(&doc, "@flat() | @class(`content-body`, 0)"), vec!["<div>".to_string()]);
    assert_eq!(texts(&doc, "@flat() | @class(`main`)"), vec!["<div>".to_string()]);
}

#[test]
fn nth_child_from_both_ends() {
    let mut doc = Html::new_document();
    let ul = element(&mut doc, NodeID(0), "ul", &[]);
    for name in ["li", "p", "em"] {
        element(&mut doc, ul, name, &[]);
    }
    assert_eq!(texts(&doc, "@path(`/ul`) | @child(0)"), vec!["<li>".to_string()]);
    assert_eq!(texts(&doc, "@path(`/ul`) | @child(-1)"), vec!["<em>".to_string()]);
    assert_eq!(texts(&doc, "@path(`/ul`) | @child(-2)"), vec!["<p>".to_string()]);
    assert!(texts(&doc, "@path(`/ul`) | @child(3)").is_empty());
    assert!(texts(&doc, "@path(`/ul`) | #text() | @child(0)").is_empty());
}

#[test]
fn text_concatenates_in_document_order_and_strips() {
    let mut doc = Html::new_document();
    let div = element(&mut doc, NodeID(0), "div", &[]);
    text(&mut doc, div, "hello ");
    let b = element(&mut doc, div, "b", &[]);
    text(&mut doc, b, "big ");
    text(&mut doc, div, "world");
    assert_eq!(texts(&doc, "@path(`/div`) | #text()"), vec!["hello big world".to_string()]);
    assert_eq!(texts(&doc, "@path(`/div`) | #text() | #trimPrefix(`hello `)"), vec!["big world".to_string()]);
    assert_eq!(texts(&doc, "@path(`/div`) | #text() | #trimSuffix(`world`)"), vec!["hello big ".to_string()]);
    assert_eq!(texts(&doc, "@path(`/div`) | #text() | #trimSuffix(`nope`)"), vec!["hello big world".to_string()]);
    assert_eq!(texts(&doc, "@path(`/div`) | #trim()"), vec!["<div>".to_string()]);
}

#[test]
fn adjacent_text_is_merged() {
    let mut doc = Html::new_document();
    let p = element(&mut doc, NodeID(0), "p", &[]);
    text(&mut doc, p, "ab");
    text(&mut doc, p, "cd");
    assert_eq!(texts(&doc, "@path(`/p`) | @flat()"), vec!["<p>".to_string(), "abcd".to_string()]);
}

#[test]
fn extract_attribute_value() {
    let doc = link_doc();
    assert_eq!(texts(&doc, "@flat() | #attr(`href`)"), vec!["x".to_string()]);
    assert!(texts(&doc, "@flat() | #attr(`title`)").is_empty());
}

#[test]
fn path_is_case_insensitive_and_empty_sets_propagate() {
    let doc = link_doc();
    assert_eq!(texts(&doc, "@path(`/HTML/Body//A`)"), vec!["<a>".to_string()]);
    assert!(texts(&doc, "@path(`/nav`) | @flat() | #text()").is_empty());
}

#[test]
fn built_querier_matches_parsed() {
    let doc = link_doc();
    let mut q = Querier::new(vec![FlatSelector::new().into()]);
    q.add_selector(TrimSelector::new().into());
    let out = q.query_document(&doc);
    assert_eq!(out.len(), 5);
    assert_eq!(q.selectors.len(), 2);
}

#[test]
fn template_gets_fragment_child_and_comments_are_invisible() {
    let mut doc = Html::new_document();
    let t = element(&mut doc, NodeID(0), "template", &[]);
    let contents = doc.get_template_contents(t).unwrap();
    assert_eq!(contents, NodeID(t.0 + 1));
    let c = doc.create_comment("note".to_string());
    assert!(doc.append(NodeID(0), NodeOrText::AppendNode(c)));
    assert_eq!(texts(&doc, "@flat()"), vec!["<template>".to_string()]);
}

#[test]
fn sink_events() {
    let mut doc = Html::new_document();
    let body = element(&mut doc, NodeID(0), "body", &[("class", "a")]);
    let p = element(&mut doc, body, "p", &[]);
    assert!(doc.append_before_sibling(p, NodeOrText::AppendText("x".to_string())));
    assert!(doc.append_before_sibling(p, NodeOrText::AppendText("y".to_string())));
    assert!(doc.add_attrs_if_missing(
        body,
        vec![
            Attribute { name: QualName::new(None, String::new(), "class".to_string()), value: "b".to_string() },
            Attribute { name: QualName::new(None, String::new(), "id".to_string()), value: "top".to_string() },
        ]
    ));
    assert_eq!(texts(&doc, "@flat() | #attr(`class`)"), vec!["a".to_string()]);
    assert_eq!(texts(&doc, "@flat() | #attr(`id`)"), vec!["top".to_string()]);
    assert_eq!(texts(&doc, "@path(`/body`) | @flat()"), vec!["<body>".to_string(), "xy".to_string(), "<p>".to_string()]);
    let div = element(&mut doc, NodeID(0), "div", &[]);
    assert!(doc.reparent_children(body, div));
    assert_eq!(texts(&doc, "@path(`/div`) | @flat()"), vec!["<div>".to_string(), "xy".to_string(), "<p>".to_string()]);
    assert!(doc.remove_from_parent(p));
    assert_eq!(texts(&doc, "@path(`/div`) | @flat()"), vec!["<div>".to_string(), "xy".to_string()]);
    doc.parse_error("bad".to_string());
    assert_eq!(doc.errors().len(), 1);
    assert!(doc.same_node(p, p));
    assert_eq!(doc.elem_name(p).unwrap().local, "p".to_string());
    assert!(!doc.add_attrs_if_missing(NodeID(0), vec![]));
}

#[test]
fn render_sketches_elements_and_prints_text() {
    let mut doc = Html::new_document();
    let a = element(&mut doc, NodeID(0), "a", &[("href", "x"), ("id", "k")]);
    text(&mut doc, a, " hi ");
    let q = Querier::try_parse("@flat()").unwrap();
    let out: Vec<String> = q.query_document(&doc).iter().map(|r| r.render()).collect();
    assert_eq!(out, vec!["<a href=x id=k >".to_string(), " hi ".to_string()]);
    assert_eq!(doc.root().render(), "Document".to_string());
}

#[test]
fn append_based_on_parent_node_picks_target() {
    let mut doc = Html::new_document();
    let body = element(&mut doc, NodeID(0), "body", &[]);
    let table = element(&mut doc, body, "table", &[]);
    // `table` has a parent: the text goes right before it
    assert!(doc.append_based_on_parent_node(table, body, NodeOrText::AppendText("a".to_string())));
    assert_eq!(texts(&doc, "@path(`/body`) | @flat()"), vec!["<body>".to_string(), "a".to_string(), "<table>".to_string()]);
    // a node without parent: the text goes into the previous element
    let lone = doc.create_element(QualName::new(None, XHTML.to_string(), "td".to_string()), vec![]);
    assert!(doc.append_based_on_parent_node(lone, table, NodeOrText::AppendText("b".to_string())));
    assert_eq!(texts(&doc, "@path(`//table`) | #text()"), vec!["b".to_string()]);
}

#[test]
fn classes_lists_tokens_and_traverse_all_walks_in_order() {
    let mut doc = Html::new_document();
    let div = element(&mut doc, NodeID(0), "div", &[("class", " a  b\tc "), ("CLASS", "d")]);
    text(&mut doc, div, "t");
    let e = doc.tree().node_ref(div).unwrap().data.as_element().unwrap();
    assert_eq!(e.classes(), vec!["a".to_string(), "b".to_string(), "c".to_string(), "d".to_string()]);
    assert!(e.has_class("d", true));
    assert!(!e.has_class("a b", true));
    let all = doc.traverse_all();
    assert_eq!(all.len(), 3);
    assert!(all[0].is_document() && all[1].is_element() && all[2].is_text());
}

#[test]
fn repeated_attribute_keeps_last_value() {
    let mut doc = Html::new_document();
    element(&mut doc, NodeID(0), "a", &[("href", "first"), ("href", "second")]);
    assert_eq!(texts(&doc, "@flat() | #attr(`href`)"), vec!["second".to_string()]);
    let e = doc.tree().node_ref(NodeID(1)).unwrap().data.as_element().unwrap();
    assert_eq!(e.attrs.len(), 1);
}

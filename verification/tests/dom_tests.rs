use minibrowser::element::{
    add_event_listener, class_list_add, class_list_contains, class_list_remove, class_list_toggle,
    get_attribute, has_attribute, remove_attribute, remove_event_listener, set_attribute,
};
use minibrowser::event::{EventTarget, ListenerCall};
use minibrowser::node::{Event, EventPhase, NamedNodeMap, NodeKind};
use minibrowser::selector::{is_parsable, SelectorEngine};
use minibrowser::tree::DomTree;

fn text_of_kind(tree: &DomTree, id: minibrowser::node::NodeId) -> String {
    match &tree.get_node(id).kind {
        NodeKind::Text(t) => t.data.clone(),
        _ => String::new(),
    }
}

#[test]
fn new_tree_has_skeleton() {
    let t = DomTree::new();
    assert_eq!(t.node_count(), 4);
    assert_eq!(t.children(t.document_node()), vec![t.html_node()]);
    assert_eq!(t.children(t.html_node()), vec![t.head_node(), t.body_node()]);
    assert_eq!(t.get_node(t.body_node()).tag_name(), Some("BODY"));
    assert_eq!(t.get_node(t.document_node()).kind.node_type(), 9);
}

#[test]
fn append_insert_remove_children() {
    let mut t = DomTree::new();
    let body = t.body_node();
    let a = t.create_element("div");
    let b = t.create_text("hello");
    let c = t.create_comment("note");
    t.append_child(body, a);
    t.append_child(body, b);
    t.insert_before(body, c, a);
    assert_eq!(t.children(body), vec![c, a, b]);
    assert!(t.remove_child(body, a));
    assert!(!t.remove_child(body, a));
    assert_eq!(t.children(body), vec![c, b]);
    assert_eq!(t.get_node(a).parent, None);
    assert_eq!(text_of_kind(&t, b), "hello");
}

#[test]
fn append_moves_node_between_parents() {
    let mut t = DomTree::new();
    let head = t.head_node();
    let body = t.body_node();
    let x = t.create_element("span");
    t.append_child(head, x);
    t.append_child(body, x);
    assert!(t.children(head).is_empty());
    assert_eq!(t.children(body), vec![x]);
    assert_eq!(t.get_node(x).parent, Some(body));
}

#[test]
fn text_content_in_document_order() {
    let mut t = DomTree::new();
    let body = t.body_node();
    let p = t.create_element("p");
    let t1 = t.create_text("Hello, ");
    let em = t.create_element("em");
    let t2 = t.create_text("world");
    let t3 = t.create_text("!");
    t.append_child(body, p);
    t.append_child(p, t1);
    t.append_child(p, em);
    t.append_child(em, t2);
    t.append_child(p, t3);
    assert_eq!(t.text_content(p), "Hello, world!");
    assert_eq!(t.text_content(t.document_node()), "Hello, world!");
}

#[test]
fn id_index_follows_attributes() {
    let mut t = DomTree::new();
    let body = t.body_node();
    let attrs = NamedNodeMap::from_pairs(vec![
        ("id".to_string(), "main".to_string()),
        ("class".to_string(), "a  b".to_string()),
        ("style".to_string(), "color: red; font-size:12px".to_string()),
    ]);
    let d = t.create_element_with_attrs("div", attrs);
    t.append_child(body, d);
    assert_eq!(t.get_element_by_id("main"), Some(d));
    match &t.get_node(d).kind {
        NodeKind::Element(e) => {
            assert_eq!(e.tag_name, "DIV");
            assert_eq!(e.class_list, vec!["a".to_string(), "b".to_string()]);
            assert_eq!(e.style.get("color"), Some("red"));
            assert_eq!(e.style.to_css_string(), "color:red;font-size:12px");
        },
        _ => panic!("not an element"),
    }
    set_attribute(&mut t, d, "id", "other");
    assert_eq!(t.get_element_by_id("main"), None);
    assert_eq!(t.get_element_by_id("other"), Some(d));
    assert_eq!(get_attribute(&t, d, "id"), Some("other".to_string()));
    remove_attribute(&mut t, d, "ID");
    assert_eq!(t.get_element_by_id("other"), None);
    assert!(has_attribute(&t, d, "id"));
    remove_attribute(&mut t, d, "id");
    assert!(!has_attribute(&t, d, "id"));
    assert_eq!(get_attribute(&t, d, "id"), None);
}

#[test]
fn class_list_operations() {
    let mut t = DomTree::new();
    let d = t.create_element("div");
    class_list_add(&mut t, d, "x");
    class_list_add(&mut t, d, "y");
    class_list_add(&mut t, d, "x");
    assert_eq!(get_attribute(&t, d, "class"), Some("x y".to_string()));
    assert!(class_list_contains(&t, d, "y"));
    assert!(!class_list_toggle(&mut t, d, "y"));
    assert!(!class_list_contains(&t, d, "y"));
    assert!(class_list_toggle(&mut t, d, "y"));
    assert!(class_list_contains(&t, d, "y"));
    class_list_remove(&mut t, d, "x");
    class_list_remove(&mut t, d, "y");
    assert_eq!(get_attribute(&t, d, "class"), None);
    set_attribute(&mut t, d, "CLASS", "p q");
    assert!(class_list_contains(&t, d, "q"));
}

#[test]
fn class_list_on_text_node() {
    let mut t = DomTree::new();
    let x = t.create_text("x");
    assert!(class_list_toggle(&mut t, x, "a"));
    assert!(!class_list_contains(&t, x, "a"));
    assert_eq!(get_attribute(&t, x, "a"), None);
}

struct Recorder {
    calls: Vec<(u64, EventPhase)>,
    stop_on: Option<u64>,
    prevent_on: Option<u64>,
}

impl ListenerCall for Recorder {
    fn call(&mut self, callback: u64, event: &mut Event) {
        self.calls.push((callback, event.phase));
        if self.stop_on == Some(callback) {
            event.stop_propagation();
        }
        if self.prevent_on == Some(callback) {
            event.prevent_default();
        }
    }
}

fn event_tree() -> (DomTree, minibrowser::node::NodeId, minibrowser::node::NodeId) {
    let mut t = DomTree::new();
    let body = t.body_node();
    let outer = t.create_element("div");
    let inner = t.create_element("span");
    t.append_child(body, outer);
    t.append_child(outer, inner);
    (t, outer, inner)
}

#[test]
fn dispatch_runs_three_phases() {
    let (mut t, outer, inner) = event_tree();
    add_event_listener(&mut t, outer, "click", 1, true);
    add_event_listener(&mut t, outer, "click", 2, false);
    add_event_listener(&mut t, inner, "click", 3, false);
    add_event_listener(&mut t, inner, "click", 4, true);
    let mut rec = Recorder { calls: vec![], stop_on: None, prevent_on: Some(3) };
    let mut ev = Event::new("click", true, true);
    let not_prevented = t.dispatch_event(inner, &mut ev, &mut rec);
    assert!(!not_prevented);
    assert_eq!(
        rec.calls,
        vec![
            (1, EventPhase::Capturing),
            (4, EventPhase::AtTarget),
            (3, EventPhase::AtTarget),
            (2, EventPhase::Bubbling),
        ]
    );
    assert_eq!(ev.phase, EventPhase::Inactive);
    assert_eq!(ev.target, Some(inner));
    assert_eq!(ev.current_target, None);
}

#[test]
fn stopped_event_goes_no_further() {
    let (mut t, outer, inner) = event_tree();
    add_event_listener(&mut t, inner, "click", 3, false);
    add_event_listener(&mut t, outer, "click", 2, false);
    let mut rec = Recorder { calls: vec![], stop_on: Some(3), prevent_on: None };
    let mut ev = Event::new("click", true, false);
    assert!(t.dispatch_event(inner, &mut ev, &mut rec));
    assert_eq!(rec.calls, vec![(3, EventPhase::AtTarget)]);
}

#[test]
fn listeners_removed_by_handle() {
    let (mut t, _outer, inner) = event_tree();
    add_event_listener(&mut t, inner, "click", 7, false);
    assert!(remove_event_listener(&mut t, inner, "click", 7));
    assert!(!remove_event_listener(&mut t, inner, "click", 7));
    assert!(!remove_event_listener(&mut t, inner, "keydown", 7));
    let mut rec = Recorder { calls: vec![], stop_on: None, prevent_on: None };
    let mut ev = Event::new("click", false, false);
    assert!(t.dispatch_event(inner, &mut ev, &mut rec));
    assert!(rec.calls.is_empty());
}

fn selector_tree() -> (DomTree, Vec<minibrowser::node::NodeId>) {
    let mut t = DomTree::new();
    let body = t.body_node();
    let ul = t.create_element_with_attrs(
        "ul",
        NamedNodeMap::from_pairs(vec![("id".to_string(), "list".to_string())]),
    );
    t.append_child(body, ul);
    let mut items = vec![];
    for (i, cls) in ["a", "b a", "c"].iter().enumerate() {
        let li = t.create_element_with_attrs(
            "li",
            NamedNodeMap::from_pairs(vec![
                ("class".to_string(), cls.to_string()),
                ("data-n".to_string(), format!("{}", i)),
            ]),
        );
        t.append_child(ul, li);
        items.push(li);
    }
    (t, items)
}

#[test]
fn selector_queries() {
    let (t, items) = selector_tree();
    assert_eq!(t.query_selector_all("li"), items);
    assert_eq!(t.query_selector("li.a"), Some(items[0]));
    assert_eq!(t.query_selector_all(".a"), vec![items[0], items[1]]);
    assert_eq!(t.query_selector_all("#list > li:last-child"), vec![items[2]]);
    assert_eq!(t.query_selector_all("li:first-child"), vec![items[0]]);
    assert_eq!(t.query_selector_all("body li[data-n=1]"), vec![items[1]]);
    assert_eq!(t.query_selector_all("[data-n]").len(), 3);
    assert_eq!(t.query_selector_all("ul > li.c, #list"), vec![t.query_selector("ul").unwrap(), items[2]]);
    assert_eq!(t.query_selector_all("ul > .c"), vec![items[2]]);
    assert_eq!(t.query_selector("p"), None);
    assert_eq!(t.query_selector("html"), None);
    assert_eq!(t.query_selector_all("html").len(), 1);
}

#[test]
fn selector_parsing() {
    let engine = SelectorEngine::parse("div.a#x > span , p");
    assert_eq!(engine.selectors.len(), 2);
    let first = &engine.selectors[0];
    assert_eq!(first.parts.len(), 2);
    assert_eq!(first.parts[0].0.tag, Some("DIV".to_string()));
    assert_eq!(first.parts[0].0.id, Some("x".to_string()));
    assert_eq!(first.parts[0].0.classes, vec!["a".to_string()]);
    assert_eq!(first.parts[0].1, Some(minibrowser::selector::Combinator::Child));
    assert_eq!(first.parts[1].0.tag, Some("SPAN".to_string()));
    assert!(is_parsable("a b"));
    assert!(!is_parsable("*"));
    assert!(is_parsable("[a=*]"));
}

#[test]
fn descendant_combinator_before_class() {
    use_descendant_parts();
    let (t, items) = selector_tree();
    assert_eq!(t.query_selector_all("#list .a"), vec![items[0], items[1]]);
    assert_eq!(t.query_selector_all("ul .c"), vec![items[2]]);
    assert!(t.query_selector_all(".a .b").is_empty());
}

fn use_descendant_parts() {
    let e = SelectorEngine::parse(".a .b");
    let parts = &e.selectors[0].parts;
    assert_eq!(parts.len(), 2);
    assert_eq!(parts[0].0.classes, vec!["a".to_string()]);
    assert_eq!(parts[0].1, Some(minibrowser::selector::Combinator::Descendant));
    assert_eq!(parts[1].0.classes, vec!["b".to_string()]);
    let e = SelectorEngine::parse("div .x");
    assert_eq!(e.selectors[0].parts.len(), 2);
    assert_eq!(e.selectors[0].parts[0].0.tag, Some("DIV".to_string()));
    assert_eq!(e.selectors[0].parts[1].0.classes, vec!["x".to_string()]);
}

#[test]
fn select_from_root() {
    let (t, items) = selector_tree();
    let ul = t.query_selector("#list").unwrap();
    assert_eq!(SelectorEngine::select(&t, "li", ul), items);
}

#[test]
fn changing_an_id_forgets_the_old_one() {
    let mut t = DomTree::new();
    let body = t.body_node();
    let div = t.create_element("div");
    t.append_child(body, div);
    set_attribute(&mut t, div, "id", "a");
    assert_eq!(t.get_element_by_id("a"), Some(div));
    set_attribute(&mut t, div, "id", "b");
    assert_eq!(t.get_element_by_id("a"), None);
    assert_eq!(t.get_element_by_id("b"), Some(div));
    remove_attribute(&mut t, div, "id");
    assert_eq!(t.get_element_by_id("b"), None);
    assert!(!has_attribute(&t, div, "id"));
}

#[test]
fn removing_the_last_class_drops_the_attribute() {
    let mut t = DomTree::new();
    let body = t.body_node();
    let div = t.create_element("div");
    t.append_child(body, div);
    set_attribute(&mut t, div, "class", "x y");
    class_list_remove(&mut t, div, "x");
    assert_eq!(get_attribute(&t, div, "class"), Some("y".to_string()));
    class_list_remove(&mut t, div, "y");
    assert!(!class_list_contains(&t, div, "y"));
    assert!(!has_attribute(&t, div, "class"));
}

#[test]
fn attribute_map_keeps_names_once() {
    let mut m = NamedNodeMap::new();
    m.set("a".to_string(), "1".to_string());
    m.set("b".to_string(), "2".to_string());
    m.set("a".to_string(), "3".to_string());
    assert_eq!(m.iter().len(), 2);
    assert_eq!(m.get_value("a"), Some("3"));
    assert!(m.remove("a").is_some());
    assert!(!m.has("a"));
    assert!(m.remove("a").is_none());
}

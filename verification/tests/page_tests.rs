use minibrowser::commands::{
    build_request_with_headers, collect_links, inject_cookie_lines, inject_cookie_string, parse_header,
};
use minibrowser::cookie::CookieJar;
use minibrowser::html::HtmlParser;
use minibrowser::mutation::{apply_mutation, node_id_from_ffi, Mutation, MutationKind};
use minibrowser::node::NodeKind;
use minibrowser::page::{
    extract_from_dom, extract_selection, external_script_urls, next_reload, page_title, query_text, reload_target,
    resolve_script_url, ExtractionConfig, MbError,
};
use minibrowser::tree::DomTree;

const DOC: &str = "<!DOCTYPE html><html><head><title>The Title</title>\
<script src=\"/app.js\"></script><script>var x = 1;</script></head>\
<body><h1 id=\"top\">Hi</h1><a href=\"/a\">A</a><a href=\"mailto:x@y\">M</a>\
<a href=\" https://other.org/b \">B</a><a href=\"/a\">again</a><p class=\"n\">one</p><p class=\"n\">two</p></body></html>";

#[test]
fn parse_builds_tree() {
    let t = HtmlParser::parse(DOC, "https://example.com/page");
    match &t.get_node(t.document_node()).kind {
        NodeKind::Document(d) => assert_eq!(d.url, "https://example.com/page"),
        _ => panic!("no document"),
    }
    let h1 = t.get_element_by_id("top").unwrap();
    assert_eq!(t.text_content(h1), "Hi");
    assert_eq!(t.get_node(h1).parent, Some(t.body_node()));
    assert_eq!(page_title(&t), "The Title");
    assert_eq!(query_text(&t, "p.n"), Some("one".to_string()));
    assert_eq!(query_text(&t, "table"), None);
}

#[test]
fn scripts_are_collected_in_order() {
    let t = HtmlParser::parse(DOC, "https://example.com/page");
    let scripts = HtmlParser::collect_scripts(&t);
    assert_eq!(scripts.len(), 2);
    assert_eq!(scripts[0].src, Some("/app.js".to_string()));
    assert_eq!(scripts[0].inline_content, None);
    assert_eq!(scripts[1].src, None);
    assert_eq!(scripts[1].inline_content, Some("var x = 1;".to_string()));
    let urls = external_script_urls(&scripts, "https://example.com/page");
    assert_eq!(urls, vec!["https://example.com/app.js".to_string()]);
}

#[test]
fn extraction_modes() {
    let t = HtmlParser::parse(DOC, "https://example.com/page");
    assert_eq!(extract_from_dom(&t, "p", true, None), Some("one\ntwo".to_string()));
    assert_eq!(extract_from_dom(&t, "p", false, None), Some("one".to_string()));
    assert_eq!(extract_from_dom(&t, "p", true, Some("class")), Some("n\nn".to_string()));
    assert_eq!(extract_from_dom(&t, "p", false, Some("title")), None);
    assert_eq!(extract_from_dom(&t, "table", true, None), None);
    let cfg = ExtractionConfig { selector: Some("h1".to_string()), select_all: false, eval: None, attr: Some("id".to_string()) };
    assert_eq!(extract_selection(&t, &cfg), Some("top".to_string()));
    assert_eq!(extract_selection(&t, &ExtractionConfig::default()), None);
}

#[test]
fn script_url_resolution() {
    let base = "https://example.com/dir/page.html";
    assert_eq!(resolve_script_url(base, "http://cdn.org/x.js"), "http://cdn.org/x.js");
    assert_eq!(resolve_script_url(base, "//cdn.org/x.js"), "https://cdn.org/x.js");
    assert_eq!(resolve_script_url(base, "/root.js"), "https://example.com/root.js");
    assert_eq!(resolve_script_url(base, "rel.js"), "https://example.com/dir/rel.js");
    assert_eq!(resolve_script_url("not a url", "rel.js"), "rel.js");
}

#[test]
fn reload_targets() {
    assert_eq!(reload_target("https://b/", "https://a/"), "https://b/");
    assert_eq!(reload_target("", "https://a/"), "https://a/");
    assert_eq!(reload_target("undefined", "https://a/"), "https://a/");
    assert_eq!(reload_target("null", "https://a/"), "https://a/");
}

#[test]
fn error_messages() {
    assert_eq!(MbError::Network("down".to_string()).message(), "Network error: down");
    assert_eq!(MbError::Js("bad".to_string()).message(), "JS execution error: bad");
    assert_eq!(MbError::Navigation("x".to_string()).message(), "Navigation error: x");
}

#[test]
fn mutations_apply_to_tree() {
    let mut t = HtmlParser::parse(DOC, "https://example.com/page");
    let h1 = t.get_element_by_id("top").unwrap();
    let raw = h1.0 & 0xffff_ffff;
    assert_eq!(node_id_from_ffi(raw), h1);
    apply_mutation(&mut t, Mutation { kind: MutationKind::SetAttribute { node_id: h1.0, name: "title".to_string(), value: "t".to_string() } }, "https://example.com/");
    assert_eq!(minibrowser::element::get_attribute(&t, h1, "title"), Some("t".to_string()));
    apply_mutation(&mut t, Mutation { kind: MutationKind::SetTextContent { node_id: h1.0, text: "Bye".to_string() } }, "https://example.com/");
    assert_eq!(t.text_content(h1), "Bye");
    assert_eq!(t.children(h1).len(), 1);
    apply_mutation(&mut t, Mutation { kind: MutationKind::SetInnerHTML { node_id: h1.0, html: "<b>x</b>y".to_string() } }, "https://example.com/");
    assert_eq!(t.text_content(h1), "xy");
    assert_eq!(t.children(h1).len(), 2);
    apply_mutation(&mut t, Mutation { kind: MutationKind::AppendChild { parent_id: h1.0, child_tag: "i".to_string() } }, "https://example.com/");
    let kids = t.children(h1);
    assert_eq!(t.get_node(kids[2]).tag_name(), Some("I"));
    apply_mutation(&mut t, Mutation { kind: MutationKind::RemoveChild { parent_id: h1.0, child_id: kids[2].0 } }, "https://example.com/");
    assert_eq!(t.children(h1).len(), 2);
    apply_mutation(&mut t, Mutation { kind: MutationKind::RemoveAttribute { node_id: h1.0, name: "title".to_string() } }, "https://example.com/");
    assert_eq!(minibrowser::element::get_attribute(&t, h1, "title"), None);
    let before = t.node_count();
    apply_mutation(&mut t, Mutation { kind: MutationKind::AppendChild { parent_id: 12345, child_tag: "i".to_string() } }, "https://example.com/");
    assert_eq!(t.node_count(), before);
}

#[test]
fn headers_from_command_line() {
    assert_eq!(parse_header(" X-Key :  v:1 "), Some(("X-Key".to_string(), "v:1".to_string())));
    assert_eq!(parse_header("novalue"), None);
    let req = build_request_with_headers("https://a/", &vec!["X-A: 1".to_string(), "bad".to_string(), "sec-fetch-user: ?0".to_string()]);
    assert_eq!(req.url, "https://a/");
    assert_eq!(
        req.headers,
        vec![
            ("sec-fetch-user".to_string(), "?0".to_string()),
            ("upgrade-insecure-requests".to_string(), "1".to_string()),
            ("X-A".to_string(), "1".to_string()),
        ]
    );
}

#[test]
fn cookies_from_string_and_file() {
    let mut jar = CookieJar::new();
    inject_cookie_string(&mut jar, "a=1; b = 2 ; =x; junk; c=", "example.com");
    let all = jar.all_cookies();
    let pairs: Vec<(String, String)> = all.iter().map(|c| (c.name.clone(), c.value.clone())).collect();
    assert_eq!(pairs, vec![("a".to_string(), "1".to_string()), ("b".to_string(), "2".to_string()), ("c".to_string(), String::new())]);
    assert!(all.iter().all(|c| c.path == "/" && c.expires.is_none() && c.domain == Some("example.com".to_string())));

    let mut jar2 = CookieJar::new();
    inject_cookie_lines(&mut jar2, "# comment\n\n.example.com\tTRUE\t/p\ttrue\t4102444800\tsid\tv1\nshort\tline\n");
    let all2 = jar2.all_cookies();
    assert_eq!(all2.len(), 1);
    assert_eq!(all2[0].domain, Some("example.com".to_string()));
    assert_eq!(all2[0].path, "/p");
    assert!(all2[0].secure);
    assert_eq!(all2[0].expires, Some(4102444800));
    assert_eq!(all2[0].name, "sid");
}

#[test]
fn links_sorted_and_filtered() {
    let hrefs = vec![
        "/b".to_string(),
        " /a ".to_string(),
        "javascript:void(0)".to_string(),
        "#top".to_string(),
        "https://other.org/x".to_string(),
        "/a".to_string(),
        "".to_string(),
    ];
    let all = collect_links(&hrefs, "https://example.com/dir/", false, None);
    assert_eq!(all, vec!["https://example.com/a".to_string(), "https://example.com/b".to_string(), "https://other.org/x".to_string()]);
    let same = collect_links(&hrefs, "https://example.com/dir/", true, None);
    assert_eq!(same, vec!["https://example.com/a".to_string(), "https://example.com/b".to_string()]);
    let filtered = collect_links(&hrefs, "https://example.com/dir/", false, Some("other"));
    assert_eq!(filtered, vec!["https://other.org/x".to_string()]);
}

#[test]
fn parse_places_nodes_under_head_and_body() {
    let t = HtmlParser::parse("<title>T</title><P Class=\"a b\" id=\"q\">x<!--c--></P>tail", "u");
    let head = t.children(t.head_node());
    assert_eq!(head.len(), 1);
    assert_eq!(t.get_node(head[0]).tag_name(), Some("TITLE"));
    let body = t.children(t.body_node());
    assert_eq!(body.len(), 2);
    match &t.get_node(body[0]).kind {
        NodeKind::Element(e) => {
            assert_eq!(e.tag_name, "P");
            assert_eq!(e.class_list, vec!["a".to_string(), "b".to_string()]);
            assert_eq!(e.attributes.get_value("id"), Some("q"));
        }
        _ => panic!("not an element"),
    }
    let inner = t.children(body[0]);
    assert_eq!(inner.len(), 2);
    assert!(matches!(&t.get_node(inner[0]).kind, NodeKind::Text(d) if d.data == "x"));
    assert!(matches!(&t.get_node(inner[1]).kind, NodeKind::Comment(c) if c.data == "c"));
    assert!(matches!(&t.get_node(body[1]).kind, NodeKind::Text(d) if d.data == "tail"));
    assert_eq!(t.children(t.html_node()), vec![t.head_node(), t.body_node()]);
    assert_eq!(t.get_element_by_id("q"), Some(body[0]));
}

#[test]
fn reload_loop_steps() {
    assert_eq!(next_reload(0, "true", "https://b/", "https://a/"), Some("https://b/".to_string()));
    assert_eq!(next_reload(4, "true", "", "https://a/"), Some("https://a/".to_string()));
    assert_eq!(next_reload(5, "true", "https://b/", "https://a/"), None);
    assert_eq!(next_reload(0, "false", "https://b/", "https://a/"), None);
}

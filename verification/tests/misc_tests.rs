use minibrowser::client::{ClientConfig, ClientConfigBuilder, EmulationPreset, ProxyConfig};
use minibrowser::commands::{batch_line, cookie_domain, dom_tree_lines, urls_from_list};
use minibrowser::dom_script::{
    build_id_index, document_setup_js, dom_bootstrap_js, DOCUMENT_CLOSING, DOCUMENT_OPENING, dom_parser_json, serialize_document_json, serialize_element, serialize_inner_html,
    serialize_node_html, serialize_node_json,
};
use minibrowser::element::add_event_listener;
use minibrowser::element_table::{element_rows, query_rows, ElementRow};
use minibrowser::event::{listeners_for, propagation_path};
use minibrowser::js_source::{
    escape_js_key, escape_js_string, parse_url_components, split_last_expression, IdCounter,
};
use minibrowser::fetch::{fetch_plan, fetch_result_json, FetchPlan};
use minibrowser::mutation::{apply_mutation, deep_copy_node, mutation_of_record, Mutation, MutationKind, MutationRecord};
use minibrowser::request::Method;
use minibrowser::websocket::WsTable;
use minibrowser::xhr::{XhrSend, XhrTable};
use minibrowser::node::{InlineStyle, NamedNodeMap};
use minibrowser::page::BatchResult;
use minibrowser::storage::{BrowserSnapshot, Storage};
use minibrowser::tls::TlsConfig;
use minibrowser::tree::DomTree;
use std::time::Duration;

#[test]
fn js_string_escapes() {
    assert_eq!(escape_js_string("a\"b\n"), "\"a\\\"b\\n\"");
    assert_eq!(escape_js_string("back\\slash\ttab\r"), "\"back\\\\slash\\ttab\\r\"");
    assert_eq!(escape_js_string("\u{1}x"), "\"\\u0001x\"");
    assert_eq!(escape_js_string(""), "\"\"");
    assert_eq!(escape_js_string("héllo"), "\"héllo\"");
}

#[test]
fn js_key_escapes() {
    assert_eq!(escape_js_key("fooBar_1$"), "fooBar_1$");
    assert_eq!(escape_js_key("data-id"), "\"data-id\"");
    assert_eq!(escape_js_key("1abc"), "\"1abc\"");
    assert_eq!(escape_js_key(""), "\"\"");
}

#[test]
fn last_expression_split() {
    assert_eq!(split_last_expression("let a = 1; a + 1"), (Some("let a = 1".to_string()), "a + 1".to_string()));
    assert_eq!(split_last_expression("1 + 2"), (None, "1 + 2".to_string()));
    assert_eq!(split_last_expression("'a;b'"), (None, "'a;b'".to_string()));
    assert_eq!(split_last_expression("f({x: 1; y})"), (None, "f({x: 1; y})".to_string()));
    assert_eq!(split_last_expression("; x "), (None, "x".to_string()));
    assert_eq!(
        split_last_expression("a(); // c;\nb"),
        (Some("a()".to_string()), "// c;\nb".to_string())
    );
    assert_eq!(split_last_expression("x = `t;${1}`; y"), (Some("x = `t;${1}`".to_string()), "y".to_string()));
}

#[test]
fn id_counter_counts_up() {
    let mut c = IdCounter::starting_at(5);
    assert_eq!(c.current(), 5);
    assert_eq!(c.next_id(), 5);
    assert_eq!(c.next_id(), 6);
    assert_eq!(c.current(), 7);
}

#[test]
fn proxy_from_url() {
    assert!(matches!(ProxyConfig::from_url("socks5://127.0.0.1:1080"), ProxyConfig::Socks5(u) if u == "socks5://127.0.0.1:1080"));
    assert!(matches!(ProxyConfig::from_url("socks5h://h:1"), ProxyConfig::Socks5(_)));
    assert!(matches!(ProxyConfig::from_url("http://127.0.0.1:7890"), ProxyConfig::Http(u) if u == "http://127.0.0.1:7890"));
}

#[test]
fn client_defaults_and_builder() {
    let c = ClientConfig::default();
    assert_eq!(c.connect_timeout, Duration::from_secs(10));
    assert_eq!(c.request_timeout, Duration::from_secs(30));
    assert_eq!(c.pool_max_idle_per_host, 32);
    assert_eq!(c.pool_idle_timeout, Duration::from_secs(90));
    assert!(matches!(c.proxy, ProxyConfig::Direct));
    assert!(c.http2);
    assert_eq!(c.emulation, EmulationPreset::Chrome136);
    assert_eq!(c.tls.user_agent, "MiniBrowser/0.1");

    let built = ClientConfigBuilder::new()
        .connect_timeout(Duration::from_secs(3))
        .pool_max_idle_per_host(4)
        .http2(false)
        .emulation(EmulationPreset::Firefox136)
        .proxy(ProxyConfig::from_url("http://p:1"))
        .build();
    assert_eq!(built.connect_timeout, Duration::from_secs(3));
    assert_eq!(built.request_timeout, Duration::from_secs(30));
    assert_eq!(built.pool_max_idle_per_host, 4);
    assert!(!built.http2);
    assert_eq!(built.emulation, EmulationPreset::Firefox136);
    assert!(matches!(built.proxy, ProxyConfig::Http(_)));
}

#[test]
fn tls_defaults() {
    let t = TlsConfig::default();
    assert!(t.verify_certificates);
    assert!(t.prefer_h2);
    assert_eq!(t.user_agent, "MiniBrowser/0.1");
}

#[test]
fn snapshot_fields() {
    let s = BrowserSnapshot::new_at("https://a.com/", "A", "<p>x</p>", Storage::new(), 42);
    assert_eq!(s.version, 1);
    assert_eq!(s.url, "https://a.com/");
    assert_eq!(s.title, "A");
    assert_eq!(s.html, "<p>x</p>");
    assert_eq!(s.timestamp, 42);
    assert!(s.storage.cookies.is_empty());
    let now = BrowserSnapshot::new("u", "t", "h", Storage::default());
    assert_eq!(now.version, 1);
    assert!(now.timestamp > 1_600_000_000);
}

#[test]
fn named_node_map_operations() {
    let mut m = NamedNodeMap::from_pairs(vec![
        ("id".to_string(), "a".to_string()),
        ("class".to_string(), "x".to_string()),
        ("id".to_string(), "b".to_string()),
    ]);
    assert_eq!(m.len(), 2);
    assert_eq!(m.get_value("id"), Some("b"));
    assert!(m.has("class"));
    m.set("title".to_string(), "t".to_string());
    assert_eq!(m.iter().iter().map(|a| a.name.as_str()).collect::<Vec<_>>(), vec!["id", "class", "title"]);
    let removed = m.remove("class").unwrap();
    assert_eq!(removed.value, "x");
    assert!(m.remove("class").is_none());
    assert_eq!(m.len(), 2);
    assert!(!NamedNodeMap::new().has("id"));
    assert!(NamedNodeMap::new().is_empty());
}

#[test]
fn inline_style_merge_and_serialize() {
    let mut s = InlineStyle::new();
    s.parse_and_merge(" color : red ; ; font-size:12px;bogus");
    assert_eq!(s.get("color"), Some("red"));
    assert_eq!(s.get("font-size"), Some("12px"));
    assert_eq!(s.get("bogus"), None);
    assert_eq!(s.to_css_string(), "color:red;font-size:12px");
    s.parse_and_merge("color: blue");
    assert_eq!(s.to_css_string(), "color:blue;font-size:12px");
    assert_eq!(s.remove("color"), Some("blue".to_string()));
    assert_eq!(s.to_css_string(), "font-size:12px");
}

#[test]
fn inline_style_text_reads_back() {
    let mut s = InlineStyle::new();
    s.set("background".to_string(), "url(a:b)".to_string());
    s.set("margin".to_string(), "0 auto".to_string());
    s.set("color".to_string(), "red".to_string());
    let text = s.to_css_string();
    assert_eq!(text, "background:url(a:b);margin:0 auto;color:red");
    let mut t = InlineStyle::new();
    t.parse_and_merge(&text);
    assert_eq!(t.iter(), s.iter());
    assert_eq!(t.get("background"), Some("url(a:b)"));
    let mut e = InlineStyle::new();
    e.parse_and_merge(&InlineStyle::new().to_css_string());
    assert!(e.iter().is_empty());
}

#[test]
fn dom_dump_lines() {
    let mut t = DomTree::new();
    let body = t.body_node();
    let div = t.create_element_with_attrs(
        "div",
        NamedNodeMap::from_pairs(vec![("id".to_string(), "main".to_string())]),
    );
    let text = t.create_text("  hi  ");
    let blank = t.create_text("   ");
    let note = t.create_comment("c");
    t.append_child(body, div);
    t.append_child(div, text);
    t.append_child(div, blank);
    t.append_child(body, note);
    let lines = dom_tree_lines(&t, t.document_node());
    assert_eq!(
        lines,
        vec![
            "[Document]".to_string(),
            "  <html>".to_string(),
            "    <head>".to_string(),
            "    <body>".to_string(),
            "      <div id=\"main\">".to_string(),
            "        \"hi\"".to_string(),
            "      <!-- c -->".to_string(),
        ]
    );
    let long = t.create_text(&"x".repeat(100));
    t.append_child(body, long);
    let lines = dom_tree_lines(&t, long);
    assert_eq!(lines, vec![format!("\"{}...\"", "x".repeat(80))]);
}

#[test]
fn batch_lines() {
    let ok = BatchResult {
        url: "https://a.com".to_string(),
        status: 200,
        title: "A".to_string(),
        extracted: Some("x\ny".to_string()),
        error: None,
    };
    assert_eq!(batch_line(&ok), "https://a.com\\tA\tx\\ny\t200\n");
    let plain = BatchResult { extracted: None, ..ok };
    assert_eq!(batch_line(&plain), "https://a.com\\tA\t200\n");
    let failed = BatchResult {
        url: "https://b.com".to_string(),
        status: 0,
        title: String::new(),
        extracted: None,
        error: Some("timeout".to_string()),
    };
    assert_eq!(batch_line(&failed), "https://b.com\t\t0\tERROR: timeout\n");
}

#[test]
fn url_list_lines() {
    let urls = urls_from_list("https://a.com\n\n  # comment\n  https://b.com  \n");
    assert_eq!(urls, vec!["https://a.com".to_string(), "https://b.com".to_string()]);
    assert!(urls_from_list("").is_empty());
}

#[test]
fn cookie_domain_of_url() {
    assert_eq!(cookie_domain("https://www.example.com/path?q=1"), "www.example.com");
    assert_eq!(cookie_domain("not a url"), "");
}

#[test]
fn propagation_and_listener_lookup() {
    let mut t = DomTree::new();
    let body = t.body_node();
    let div = t.create_element("div");
    let span = t.create_element("span");
    t.append_child(body, div);
    t.append_child(div, span);
    assert_eq!(propagation_path(&t, span), vec![div, body, t.html_node()]);
    add_event_listener(&mut t, div, "click", 7, true);
    add_event_listener(&mut t, div, "click", 8, false);
    add_event_listener(&mut t, div, "click", 9, true);
    add_event_listener(&mut t, div, "keyup", 10, true);
    assert_eq!(listeners_for(&t, div, "click", true), vec![7, 9]);
    assert_eq!(listeners_for(&t, div, "click", false), vec![8]);
    assert!(listeners_for(&t, div, "focus", true).is_empty());
}

fn sample_tree() -> (DomTree, Vec<minibrowser::node::NodeId>) {
    let mut t = DomTree::new();
    let body = t.body_node();
    let div = t.create_element_with_attrs(
        "div",
        NamedNodeMap::from_pairs(vec![
            ("id".to_string(), "main".to_string()),
            ("data-x".to_string(), "a\"b".to_string()),
        ]),
    );
    let txt = t.create_text("hi");
    let img = t.create_element("img");
    let note = t.create_comment("x");
    t.append_child(body, div);
    t.append_child(div, txt);
    t.append_child(div, img);
    t.append_child(div, note);
    (t, vec![body, div, txt, img, note])
}

#[test]
fn markup_serialization() {
    let (t, ids) = sample_tree();
    assert_eq!(serialize_inner_html(&t, ids[1]), "hi<img><!--x-->");
    let mut buf = String::from(">");
    serialize_node_html(&t, ids[1], &mut buf);
    assert_eq!(buf, "><div id=\"main\" data-x=\"a&quot;b\">hi<img><!--x--></div>");
    let mut doc = String::new();
    serialize_node_html(&t, t.document_node(), &mut doc);
    assert_eq!(doc, "");
}

#[test]
fn bootstrap_program_lists_nodes_in_slot_order() {
    let (t, ids) = sample_tree();
    let prog = dom_bootstrap_js(&t);
    let mut order = vec![t.html_node(), t.head_node(), t.body_node(), ids[1], ids[3]];
    order.sort_by_key(|n| n.0 & 0xffff_ffff);
    let mut entries = Vec::new();
    let mut defs = String::new();
    for n in &order {
        let (lit, props) = serialize_element(&t, *n);
        entries.push(format!("{}:{}", n.0, lit));
        for p in props {
            defs.push_str(&p);
            defs.push_str(";\n");
        }
    }
    let txt = ids[2].0;
    entries.push(format!(
        "{}:{{nodeType:3,nodeName:\"#text\",textContent:\"hi\",_parentId:{}}}",
        txt, ids[1].0
    ));
    defs.push_str(&format!(
        "Object.defineProperty(__dom_elements__[{}],'parentNode',{{get:function(){{return this._parentId?(__dom_elements__[this._parentId]||null):null}},enumerable:true,configurable:true}});\n",
        txt
    ));
    let head = format!(
        "var __dom_elements__ = {{{}}};\n{}var __dom_by_id__ = {};\nvar __dom_head_id__ = {};\nvar __dom_body_id__ = {};\nvar __dom_html_id__ = {};\nvar __dom_node_name__ = function(n) {{\nif (n === null || n === undefined) return null;\nvar e = __dom_elements__[n];\nreturn e || null;\n}};\nglobalThis.window = globalThis;\n",
        entries.join(",\n"),
        defs,
        build_id_index(&t),
        t.head_node().0,
        t.body_node().0,
        t.html_node().0
    );
    assert!(prog.starts_with(&head), "{}", prog);
    let rest = &prog[head.len()..];
    assert!(rest.starts_with("\n        // --- Node constructor (constants only) ---\n        var Node = function() {};"));
    assert!(rest.contains("globalThis.HTMLElement = HTMLElement;"));
    assert!(build_id_index(&t).contains(&format!("\"main\":{}", ids[1].0)));
}

#[test]
fn document_program_carries_title() {
    let mut t = DomTree::new();
    let head = t.head_node();
    let title = t.create_element("title");
    let txt = t.create_text("A \"quoted\" page");
    t.append_child(head, title);
    t.append_child(title, txt);
    let prog = document_setup_js(&t);
    assert_eq!(prog, format!("{}\"A \\\"quoted\\\" page\"{}", DOCUMENT_OPENING, DOCUMENT_CLOSING));
    assert!(prog.starts_with("globalThis.window = globalThis;\nglobalThis.document = {\n    _title: \"A"));
    assert!(prog.ends_with("_createCounter: 0\n};\n"));
    assert_eq!(document_setup_js(&DomTree::new()), format!("{}\"\"{}", DOCUMENT_OPENING, DOCUMENT_CLOSING));
}

#[test]
fn element_table_lookup() {
    let (t, ids) = sample_tree();
    let rows = element_rows(&t);
    let nodes: Vec<u64> = rows.iter().map(|r| r.node).collect();
    let mut expected = vec![t.html_node().0, t.head_node().0, t.body_node().0, ids[1].0, ids[3].0];
    expected.sort_by_key(|n| n & 0xffff_ffff);
    assert_eq!(nodes, expected);
    let div = rows.iter().find(|r| r.node == ids[1].0).unwrap();
    assert_eq!(div.tag, "DIV");
    assert_eq!(div.id, "main");
    assert_eq!(div.parent, Some(ids[0].0));
    assert_eq!(query_rows(&rows, "div img"), vec![ids[3].0]);
    assert_eq!(query_rows(&rows, "#main"), vec![ids[1].0]);
    assert_eq!(query_rows(&rows, "html > img"), vec![ids[3].0]);
    assert_eq!(query_rows(&rows, "html"), vec![t.html_node().0]);
    assert_eq!(query_rows(&rows, "img, div"), vec![ids[1].0, ids[3].0]);
    assert!(query_rows(&rows, "span img").is_empty());
    let manual = vec![
        ElementRow { node: 1, tag: "UL".to_string(), classes: vec!["a".to_string()], id: String::new(), parent: None },
        ElementRow { node: 2, tag: "LI".to_string(), classes: vec!["b".to_string(), "c".to_string()], id: "x".to_string(), parent: Some(1) },
        ElementRow { node: 3, tag: "LI".to_string(), classes: vec![], id: String::new(), parent: Some(9) },
    ];
    assert_eq!(query_rows(&manual, ".a .b.c#x"), vec![2]);
    assert_eq!(query_rows(&manual, "li"), vec![2, 3]);
    assert!(query_rows(&manual, "ul li.c li").is_empty());
}

#[test]
fn element_literal_serialization() {
    let (t, ids) = sample_tree();
    let (lit, defs) = serialize_element(&t, ids[1]);
    let d = ids[1].0;
    let expected = format!(
        "{{tagName:\"DIV\",id:\"main\",className:\"\",_nodeId:{},_parentId:{},_childNodesIds:[{},{},{}],_textContent:\"hi\",_innerHTML:\"hi<img><!--x-->\",_attrs:{{id:\"main\",\"data-x\":\"a\\\"b\"}},style:{{}}}}",
        d, ids[0].0, ids[2].0, ids[3].0, ids[4].0
    );
    assert_eq!(lit, expected);
    assert_eq!(defs.len(), 7);
    assert_eq!(defs[6], format!("Object.setPrototypeOf(__dom_elements__[{}],__dom_element_proto__)", d));
    assert!(defs[0].contains(&format!("__mut_set_text__({},String(v))", d)));
    assert_eq!(serialize_element(&t, ids[2]), ("null".to_string(), Vec::new()));
}

#[test]
fn id_index_literal() {
    let (t, ids) = sample_tree();
    assert_eq!(build_id_index(&t), format!("{{\"main\":{}}}", ids[1].0));
    assert_eq!(build_id_index(&DomTree::new()), "{}");
}

#[test]
fn url_components() {
    let parts = |u: &str| parse_url_components(u);
    let s = |a: &str, b: &str, c: &str, d: &str, e: &str| {
        (a.to_string(), b.to_string(), c.to_string(), d.to_string(), e.to_string())
    };
    assert_eq!(parts("https://a.com/p/q?x=1#frag"), s("https://", "a.com", "/p/q", "?x=1", "#frag"));
    assert_eq!(parts("about:blank"), s("about:", "", "/", "", ""));
    assert_eq!(parts("http://h"), s("http://", "h", "/", "", ""));
    assert_eq!(parts("http://h/p#a?b"), s("http://", "h", "/p", "", "#a?b"));
}

#[test]
fn inner_html_mutation_copies_markup() {
    let (mut t, ids) = sample_tree();
    let div = ids[1];
    let old_kids = t.children(div);
    apply_mutation(
        &mut t,
        Mutation { kind: MutationKind::SetInnerHTML { node_id: div.0, html: "<p class=\"k\">a<br>b</p><!--z-->".to_string() } },
        "https://example.com/",
    );
    assert_eq!(serialize_inner_html(&t, div), "<p class=\"k\">a<br>b</p><!--z-->");
    for k in old_kids {
        assert_eq!(t.get_node(k).parent, None);
    }
    apply_mutation(&mut t, Mutation { kind: MutationKind::SetInnerHTML { node_id: div.0, html: String::new() } }, "u");
    assert!(t.children(div).is_empty());
    apply_mutation(&mut t, Mutation { kind: MutationKind::SetTextContent { node_id: div.0, text: "only".to_string() } }, "u");
    assert_eq!(serialize_inner_html(&t, div), "only");
    apply_mutation(&mut t, Mutation { kind: MutationKind::AppendChild { parent_id: div.0, child_tag: "em".to_string() } }, "u");
    assert_eq!(serialize_inner_html(&t, div), "only<em></em>");

    let (src, sids) = sample_tree();
    let mut dst = DomTree::new();
    let before = dst.node_count();
    let copy = deep_copy_node(&mut dst, &src, sids[1], u64::MAX).unwrap();
    assert_eq!(dst.node_count(), before + 4);
    assert_eq!(dst.get_node(copy).parent, None);
    let mut a = String::new();
    serialize_node_html(&src, sids[1], &mut a);
    let mut b = String::new();
    serialize_node_html(&dst, copy, &mut b);
    assert_eq!(a, b);
    let shallow = deep_copy_node(&mut dst, &src, sids[1], 0).unwrap();
    let mut c = String::new();
    serialize_node_html(&dst, shallow, &mut c);
    assert_eq!(c, "<div id=\"main\" data-x=\"a&quot;b\"></div>");
}

#[test]
fn json_serialization() {
    let (mut t, ids) = sample_tree();
    let odd = t.create_text("a\"b\n\u{1}\\");
    t.append_child(ids[1], odd);
    assert_eq!(
        serialize_node_json(&t, odd),
        format!("{{\"nodeType\":3,\"nodeName\":\"#text\",\"textContent\":\"a\\\"b\\n\\u0001\\\\\",\"_nodeId\":{}}}", odd.0)
    );
    assert_eq!(
        serialize_node_json(&t, ids[4]),
        format!("{{\"nodeType\":8,\"nodeName\":\"#comment\",\"_nodeId\":{}}}", ids[4].0)
    );
    let div = serialize_node_json(&t, ids[1]);
    let v: serde_json::Value = serde_json::from_str(&div).unwrap();
    assert_eq!(v["tagName"], "DIV");
    assert_eq!(v["childNodes"].as_array().unwrap().len(), 4);
    assert_eq!(v["childNodes"][1]["nodeName"], "IMG");
    assert_eq!(v["childNodes"][3]["textContent"], "a\"b\n\u{1}\\");
    let doc: serde_json::Value = serde_json::from_str(&serialize_document_json(&t)).unwrap();
    assert_eq!(doc["nodeType"], 9);
    assert_eq!(doc["childNodes"][0]["nodeName"], "HTML");

    let parsed: serde_json::Value = serde_json::from_str(&dom_parser_json("<p>x<!--c--></p>")).unwrap();
    let html = &parsed["childNodes"][0];
    assert_eq!(html["tagName"], "HTML");
    let body = &html["childNodes"][1];
    assert_eq!(body["tagName"], "BODY");
    assert_eq!(body["childNodes"][0]["tagName"], "P");
    assert_eq!(body["childNodes"][0]["childNodes"][0]["textContent"], "x");
    assert_eq!(body["childNodes"][0]["childNodes"][1]["nodeName"], "#comment");
}

#[test]
fn fetch_requests_planned() {
    use_fetch_plan();
}

fn use_fetch_plan() {
    assert!(matches!(fetch_plan("GET", "http://127.0.0.1/admin", "", ""), FetchPlan::Blocked));
    assert!(matches!(fetch_plan("GET", "http://10.1.2.3/", "", ""), FetchPlan::Blocked));
    match fetch_plan("post", "https://example.com/api", "abc", "{\"X-A\":\"1\",\"n\":2}") {
        FetchPlan::Send(req) => {
            assert_eq!(req.method, Method::Post);
            assert_eq!(req.url, "https://example.com/api");
            assert_eq!(req.headers, vec![("X-A".to_string(), "1".to_string())]);
            assert_eq!(req.body, b"abc".to_vec());
        }
        FetchPlan::Blocked => panic!("not blocked"),
    }
    match fetch_plan("brew", "https://example.com/", "", "not json") {
        FetchPlan::Send(req) => {
            assert_eq!(req.method, Method::Get);
            assert!(req.headers.is_empty());
            assert!(req.body.is_empty());
        }
        FetchPlan::Blocked => panic!("not blocked"),
    }
}

#[test]
fn fetch_results_written() {
    let headers = vec![
        ("x-b".to_string(), "2".to_string()),
        ("content-type".to_string(), "text/plain".to_string()),
        ("x-b".to_string(), "3".to_string()),
    ];
    assert_eq!(
        fetch_result_json(200, "OK", "hi \"there\"", "https://example.com/", &headers),
        "{\"body\":\"hi \\\"there\\\"\",\"headers\":{\"content-type\":\"text/plain\",\"x-b\":\"3\"},\"ok\":true,\"status\":200,\"statusText\":\"OK\",\"url\":\"https://example.com/\"}"
    );
    assert_eq!(
        fetch_result_json(404, "Not Found", "", "https://example.com/x", &Vec::new()),
        "{\"body\":\"\",\"headers\":{},\"ok\":false,\"status\":404,\"statusText\":\"Not Found\",\"url\":\"https://example.com/x\"}"
    );
    assert_eq!(
        fetch_result_json(0, "SSRF blocked: request to private IP address", "", "", &Vec::new()),
        "{\"body\":\"\",\"headers\":{},\"ok\":false,\"status\":0,\"statusText\":\"SSRF blocked: request to private IP address\",\"url\":\"\"}"
    );
}

fn record(kind: &str, node_id: u64, parent_id: u64, child_id: u64, name: &str) -> MutationRecord {
    MutationRecord {
        kind: kind.to_string(),
        node_id,
        parent_id,
        child_id,
        name: name.to_string(),
        value: "v".to_string(),
        text: "t".to_string(),
        html: "<b>h</b>".to_string(),
        child_tag: "div".to_string(),
    }
}

#[test]
fn mutation_records_read() {
    assert!(matches!(
        mutation_of_record(&record("setAttribute", 5, 0, 0, "id")),
        Some(Mutation { kind: MutationKind::SetAttribute { node_id: 5, .. } })
    ));
    assert!(mutation_of_record(&record("setAttribute", 5, 0, 0, "")).is_none());
    assert!(mutation_of_record(&record("removeAttribute", 0, 0, 0, "id")).is_none());
    assert!(matches!(
        mutation_of_record(&record("textContent", 3, 0, 0, "")),
        Some(Mutation { kind: MutationKind::SetTextContent { node_id: 3, .. } })
    ));
    assert!(matches!(
        mutation_of_record(&record("innerHTML", 3, 0, 0, "")),
        Some(Mutation { kind: MutationKind::SetInnerHTML { node_id: 3, .. } })
    ));
    assert!(matches!(
        mutation_of_record(&record("appendChild", 0, 7, 0, "")),
        Some(Mutation { kind: MutationKind::AppendChild { parent_id: 7, .. } })
    ));
    assert!(mutation_of_record(&record("removeChild", 0, 7, 0, "")).is_none());
    assert!(matches!(
        mutation_of_record(&record("removeChild", 0, 7, 8, "")),
        Some(Mutation { kind: MutationKind::RemoveChild { parent_id: 7, child_id: 8 } })
    ));
    assert!(mutation_of_record(&record("scroll", 1, 1, 1, "x")).is_none());
}

#[test]
fn xhr_instances_move_through_states() {
    let mut t = XhrTable::new();
    let id = t.create();
    assert_eq!(id, 0);
    assert_eq!(t.property(id, "readyState"), "0");
    t.open(id, "post", "https://example.com/x");
    assert_eq!(t.property(id, "readyState"), "1");
    t.set_header(id, "A", "1");
    t.set_header(id, "A", "2");
    match t.send(id, "body") {
        XhrSend::Execute(req) => {
            assert_eq!(req.method, Method::Post);
            assert_eq!(req.url, "https://example.com/x");
            assert_eq!(req.headers, vec![("A".to_string(), "2".to_string())]);
            assert_eq!(req.body, b"body".to_vec());
        }
        _ => panic!("expected a request"),
    }
    assert_eq!(t.property(id, "readyState"), "2");
    t.respond(id, 200, "ok", "https://example.com/x", &vec![("Content-Type".to_string(), "text/plain".to_string())]);
    assert_eq!(t.property(id, "status"), "200");
    assert_eq!(t.property(id, "statusText"), "200");
    assert_eq!(t.property(id, "response"), "ok");
    assert_eq!(t.property(id, "responseURL"), "https://example.com/x");
    assert_eq!(t.property(id, "readyState"), "4");
    assert_eq!(t.property(id, "other"), "");
    assert_eq!(t.response_header(id, "content-type"), "text/plain");
    assert_eq!(t.response_header(id, "x-none"), "");
    assert_eq!(t.all_response_headers(id), "Content-Type: text/plain\r\n");

    let b = t.create();
    t.open(b, "GET", "http://192.168.1.1/");
    assert!(matches!(t.send(b, ""), XhrSend::Blocked));
    assert_eq!(t.property(b, "statusText"), "Blocked");
    assert_eq!(t.property(b, "readyState"), "4");

    let c = t.create();
    assert!(matches!(t.send(c, ""), XhrSend::Refused));
    t.open(c, "GET", "https://example.com/");
    t.fail(c, "timeout");
    assert_eq!(t.property(c, "statusText"), "Error");
    assert_eq!(t.property(c, "responseText"), "timeout");

    t.abort(id);
    assert_eq!(t.property(id, "status"), "");
    assert!(matches!(t.send(99, ""), XhrSend::Refused));
    t.clear();
    assert_eq!(t.property(b, "readyState"), "");
    assert_eq!(t.create(), 3);
}

#[test]
fn websocket_connections() {
    let mut t = WsTable::new();
    assert_eq!(t.create(""), None);
    assert_eq!(t.create("ws://127.0.0.1:9000/"), None);
    let id = t.create("wss://example.com/feed").unwrap();
    assert_eq!(id, 1);
    assert_eq!(t.ready_state(id), 0);
    assert!(t.can_send(id));
    let p = t.poll(id, &vec!["hello".to_string(), "__error__:boom".to_string(), "x\"y".to_string()]);
    assert_eq!(p.messages, vec!["hello".to_string(), "x\"y".to_string()]);
    assert_eq!(p.error, Some("boom".to_string()));
    assert!(!p.closed);
    assert_eq!(p.to_json(), "{\"closed\":false,\"code\":0,\"error\":\"boom\",\"messages\":[\"hello\",\"x\\\"y\"],\"reason\":\"\"}");
    assert!(t.poll(id, &vec![]).messages.is_empty());
    t.close(id, 1000, "bye");
    assert_eq!(t.ready_state(id), 2);
    assert!(!t.can_send(id));
    let p = t.poll(id, &vec!["__closed__".to_string()]);
    assert!(p.closed);
    assert_eq!(p.code, 1000);
    assert_eq!(p.reason, "bye");
    assert_eq!(t.ready_state(id), 3);
    let missing = t.poll(42, &vec![]);
    assert_eq!(missing.error, Some("Connection not found".to_string()));
    assert_eq!(missing.code, 1006);
    assert_eq!(missing.to_json(), "{\"closed\":true,\"code\":1006,\"error\":\"Connection not found\",\"messages\":[],\"reason\":\"\"}");
    assert_eq!(t.ready_state(42), 3);
    let other = t.create("wss://example.com/b").unwrap();
    t.finish(other);
    assert_eq!(t.ready_state(other), 3);
}

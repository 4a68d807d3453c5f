//! Serialising the DOM for a script environment: markup of subtrees, object literals
//! of elements, and the id index.
use vstd::prelude::*;
use crate::node::{NodeId, NodeKind, ElementData};
use crate::tree::{DomTree, Nodes, has, sibling_walk, text_under, IdIndexV, id_index_view, slot_ordered, slot_order, lemma_slot_order_of};
use crate::request::{HeadersV, header_lookup, headers_view};
use crate::html::{lowercased, to_lowercase, HtmlParser, html5_nodes, parsed_into};
use crate::interceptor::decimal;
use crate::js_source::{js_key, js_string_literal, escape_js_key, escape_js_string, hex_digit};
use crate::text::{string_push, string_push_str, chars_of, str_eq, join, join_strings, strings_view};
use crate::mutation::{subtree_copy, kids_copy, copy_of};
use crate::page::{page_title, title_text};

verus! {

// ───────────────────────────────── markup ───────────────────────────────────

/// `s` with each `"` written as `&quot;`.
pub open spec fn quot_escaped(s: Seq<char>) -> Seq<char>
    decreases s.len(),
{
    if s.len() == 0 {
        seq![]
    } else {
        quot_escaped(s.drop_last()) + if s.last() == '"' {
            seq!['&', 'q', 'u', 'o', 't', ';']
        } else {
            seq![s.last()]
        }
    }
}

/// ` name="value"` for each attribute in order, `"` in values escaped.
pub open spec fn attrs_html(attrs: HeadersV) -> Seq<char>
    decreases attrs.len(),
{
    if attrs.len() == 0 {
        seq![]
    } else {
        attrs_html(attrs.drop_last()) + seq![' '] + attrs.last().0 + seq!['=', '"'] + quot_escaped(
            attrs.last().1,
        ) + seq!['"']
    }
}

/// The elements written without a closing tag.
pub open spec fn is_void_tag(t: Seq<char>) -> bool {
    ||| t == "area"@
    ||| t == "base"@
    ||| t == "br"@
    ||| t == "col"@
    ||| t == "embed"@
    ||| t == "hr"@
    ||| t == "img"@
    ||| t == "input"@
    ||| t == "link"@
    ||| t == "meta"@
    ||| t == "param"@
    ||| t == "source"@
    ||| t == "track"@
    ||| t == "wbr"@
}

/// The markup of the subtree at `k`, at most `fuel` levels down and `width` siblings
/// across: an element as its lower-case tag with its attributes, its children and,
/// unless void, a closing tag; a text node as its text; a comment as `<!--...-->`; a
/// document as nothing.
pub open spec fn node_html(m: Nodes, k: u64, fuel: nat, width: nat) -> Seq<char>
    decreases fuel, 0nat, 0nat,
{
    if fuel == 0 || !m.dom().contains(k) {
        seq![]
    } else {
        match m[k].kind {
            NodeKind::Element(e) => {
                let tag = lowercased(e.tag_name@);
                seq!['<'] + tag + attrs_html(e.attributes@) + seq!['>'] + kids_html(
                    m,
                    m[k].first_child,
                    (fuel - 1) as nat,
                    width,
                    width,
                ) + if is_void_tag(tag) {
                    seq![]
                } else {
                    seq!['<', '/'] + tag + seq!['>']
                }
            },
            NodeKind::Text(t) => t.data@,
            NodeKind::Comment(c) => seq!['<', '!', '-', '-'] + c.data@ + seq!['-', '-', '>'],
            NodeKind::Document(_) => seq![],
        }
    }
}

/// The markup of the subtrees of the sibling chain from `c`, at most `budget` of them.
pub open spec fn kids_html(m: Nodes, c: Option<NodeId>, fuel: nat, width: nat, budget: nat) -> Seq<
    char,
>
    decreases fuel, 1nat, budget,
{
    if budget == 0 {
        seq![]
    } else {
        match c {
            Some(x) => if m.dom().contains(x.0) {
                node_html(m, x.0, fuel, width) + kids_html(
                    m,
                    m[x.0].next_sibling,
                    fuel,
                    width,
                    (budget - 1) as nat,
                )
            } else {
                seq![]
            },
            None => seq![],
        }
    }
}

/// The markup of the children of `k` (its `innerHTML`).
pub open spec fn inner_html_of(t: DomTree, k: NodeId) -> Seq<char> {
    kids_html(t.nodes(), t.nodes()[k.0].first_child, t.size(), t.size(), t.size())
}

fn push_quot_escaped(out: &mut String, s: &str)
    ensures
        final(out)@ == old(out)@ + quot_escaped(s@),
{
    let cs = chars_of(s);
    let mut i: usize = 0;
    while i < cs.len()
        invariant
            i <= cs@.len(),
            cs@ == s@,
            out@ == old(out)@ + quot_escaped(cs@.take(i as int)),
        decreases cs@.len() - i,
    {
        assert(cs@.take(i + 1).drop_last() =~= cs@.take(i as int));
        if cs[i] == '"' {
            string_push(out, '&');
            string_push(out, 'q');
            string_push(out, 'u');
            string_push(out, 'o');
            string_push(out, 't');
            string_push(out, ';');
        } else {
            string_push(out, cs[i]);
        }
        assert(out@ =~= old(out)@ + quot_escaped(cs@.take(i + 1)));
        i = i + 1;
    }
    assert(cs@.take(cs@.len() as int) =~= cs@);
}

fn push_attrs_html(out: &mut String, attrs: &[crate::node::Attr])
    ensures
        final(out)@ == old(out)@ + attrs_html(crate::node::attrs_view(attrs@)),
{
    let ghost av = crate::node::attrs_view(attrs@);
    let mut i: usize = 0;
    while i < attrs.len()
        invariant
            i <= attrs@.len(),
            av == crate::node::attrs_view(attrs@),
            out@ == old(out)@ + attrs_html(av.take(i as int)),
        decreases attrs@.len() - i,
    {
        assert(av.take(i + 1).drop_last() =~= av.take(i as int));
        assert(av.take(i + 1).last() == (attrs@[i as int].name@, attrs@[i as int].value@));
        string_push(out, ' ');
        string_push_str(out, attrs[i].name.as_str());
        string_push(out, '=');
        string_push(out, '"');
        push_quot_escaped(out, attrs[i].value.as_str());
        string_push(out, '"');
        assert(out@ =~= old(out)@ + attrs_html(av.take(i + 1)));
        i = i + 1;
    }
    assert(av.take(attrs@.len() as int) =~= av);
}

/// Whether a lower-case tag name is that of a void element.
fn void_tag(tag: &str) -> (r: bool)
    ensures
        r == is_void_tag(tag@),
{
    str_eq(tag, "area") || str_eq(tag, "base") || str_eq(tag, "br") || str_eq(tag, "col")
        || str_eq(tag, "embed") || str_eq(tag, "hr") || str_eq(tag, "img") || str_eq(tag, "input")
        || str_eq(tag, "link") || str_eq(tag, "meta") || str_eq(tag, "param") || str_eq(
        tag,
        "source",
    ) || str_eq(tag, "track") || str_eq(tag, "wbr")
}

fn push_node_html(dom: &DomTree, node: NodeId, fuel: usize, out: &mut String)
    requires
        dom.wf(),
        dom.contains(node),
    ensures
        final(out)@ == old(out)@ + node_html(dom.nodes(), node.0, fuel as nat, dom.size()),
    decreases fuel,
{
    let ghost m = dom.nodes();
    let ghost w = dom.size();
    if fuel == 0 {
        assert(old(out)@ + seq![] =~= old(out)@);
        return;
    }
    proof {
        dom.lemma_links_in(node);
    }
    let n = dom.get_node(node);
    match &n.kind {
        NodeKind::Element(e) => {
            let tag = to_lowercase(e.tag_name.as_str());
            string_push(out, '<');
            string_push_str(out, tag.as_str());
            push_attrs_html(out, e.attributes.iter());
            string_push(out, '>');
            let width = dom.node_count();
            let mut child = n.first_child;
            let mut budget = width;
            let ghost opening = out@;
            let ghost closing = if is_void_tag(tag@) {
                seq![]
            } else {
                seq!['<', '/'] + tag@ + seq!['>']
            };
            assert(opening == old(out)@ + seq!['<'] + tag@ + attrs_html(e.attributes@) + seq!['>']);
            while budget > 0 && child.is_some()
                invariant
                    dom.wf(),
                    m == dom.nodes(),
                    w == dom.size(),
                    width == w,
                    fuel > 0,
                    has(m, child),
                    opening + kids_html(m, n.first_child, (fuel - 1) as nat, w, w) == out@ + kids_html(
                        m,
                        child,
                        (fuel - 1) as nat,
                        w,
                        budget as nat,
                    ),
                decreases budget,
            {
                let c = child.unwrap();
                proof {
                    dom.lemma_links_in(c);
                }
                let ghost before = out@;
                push_node_html(dom, c, fuel - 1, out);
                assert(before + kids_html(m, child, (fuel - 1) as nat, w, budget as nat) =~= out@
                    + kids_html(m, m[c.0].next_sibling, (fuel - 1) as nat, w, (budget - 1) as nat));
                child = dom.get_node(c).next_sibling;
                budget = budget - 1;
            }
            assert(out@ + kids_html(m, child, (fuel - 1) as nat, w, budget as nat) =~= out@);
            if !void_tag(tag.as_str()) {
                string_push(out, '<');
                string_push(out, '/');
                string_push_str(out, tag.as_str());
                string_push(out, '>');
            }
            assert(out@ =~= old(out)@ + node_html(m, node.0, fuel as nat, w));
        },
        NodeKind::Text(t) => {
            string_push_str(out, t.data.as_str());
        },
        NodeKind::Comment(c) => {
            string_push(out, '<');
            string_push(out, '!');
            string_push(out, '-');
            string_push(out, '-');
            string_push_str(out, c.data.as_str());
            string_push(out, '-');
            string_push(out, '-');
            string_push(out, '>');
            assert(out@ =~= old(out)@ + node_html(m, node.0, fuel as nat, w));
        },
        NodeKind::Document(_) => {
            assert(old(out)@ + seq![] =~= old(out)@);
        },
    }
}

/// Appends the markup of the subtree at `node_id` to `buf`.
pub fn serialize_node_html(tree: &DomTree, node_id: NodeId, buf: &mut String)
    requires
        tree.wf(),
        tree.contains(node_id),
    ensures
        final(buf)@ == old(buf)@ + node_html(tree.nodes(), node_id.0, tree.size(), tree.size()),
{
    let n = tree.node_count();
    push_node_html(tree, node_id, n, buf);
}

/// The markup of the children of `node_id` (its `innerHTML`).
pub fn serialize_inner_html(tree: &DomTree, node_id: NodeId) -> (r: String)
    requires
        tree.wf(),
        tree.contains(node_id),
    ensures
        r@ == inner_html_of(*tree, node_id),
{
    let ghost m = tree.nodes();
    let ghost w = tree.size();
    let mut buf = String::new();
    proof {
        tree.lemma_links_in(node_id);
    }
    let width = tree.node_count();
    let first = tree.get_node(node_id).first_child;
    let mut child = first;
    let mut budget = width;
    while budget > 0 && child.is_some()
        invariant
            tree.wf(),
            m == tree.nodes(),
            w == tree.size(),
            width == w,
            has(m, child),
            kids_html(m, first, w, w, w) == buf@ + kids_html(m, child, w, w, budget as nat),
        decreases budget,
    {
        let c = child.unwrap();
        proof {
            tree.lemma_links_in(c);
        }
        let ghost before = buf@;
        push_node_html(tree, c, width, &mut buf);
        assert(before + kids_html(m, child, w, w, budget as nat) =~= buf@ + kids_html(
            m,
            m[c.0].next_sibling,
            w,
            w,
            (budget - 1) as nat,
        ));
        child = tree.get_node(c).next_sibling;
        budget = budget - 1;
    }
    assert(buf@ + kids_html(m, child, w, w, budget as nat) =~= buf@);
    buf
}

// ───────────────────────────── element literals ─────────────────────────────

/// The upper-case form of a string, as `str::to_uppercase` gives it (full Unicode
/// case mapping).
pub uninterp spec fn uppercased(s: Seq<char>) -> Seq<char>;

/// `str::to_uppercase`: the result is named by [`uppercased`].
#[verifier::external_body]
pub(crate) fn to_uppercase(s: &str) -> (r: String)
    ensures
        r@ == uppercased(s@),
{
    s.to_uppercase()
}

/// A `key:value` entry of an object literal, the value a string literal.
pub open spec fn js_entry(p: (Seq<char>, Seq<char>)) -> Seq<char> {
    js_key(p.0) + seq![':'] + js_string_literal(p.1)
}

/// An object literal with one string entry per pair, in order.
pub open spec fn js_object(hs: HeadersV) -> Seq<char> {
    seq!['{'] + join(hs.map_values(|p: (Seq<char>, Seq<char>)| js_entry(p)), seq![',']) + seq!['}']
}

/// An array literal of node handles.
pub open spec fn id_list(ids: Seq<NodeId>) -> Seq<char> {
    seq!['['] + join(ids.map_values(|i: NodeId| decimal(i.0 as nat)), seq![',']) + seq![']']
}

/// The handle of a parent, or `null`.
pub open spec fn parent_text(p: Option<NodeId>) -> Seq<char> {
    match p {
        Some(x) => decimal(x.0 as nat),
        None => "null"@,
    }
}

/// The object literal of element `e` at node `k`: its tag, id, class name, handle,
/// parent handle, child handles, text, markup, attributes and style.
pub open spec fn element_literal(t: DomTree, k: NodeId, e: ElementData) -> Seq<char> {
    let m = t.nodes();
    let tag = lowercased(e.tag_name@);
    let id = match header_lookup(e.attributes@, "id"@) {
        Some(v) => v,
        None => seq![],
    };
    "{tagName:\""@ + uppercased(tag) + "\",id:"@ + js_string_literal(id) + ",className:"@
        + js_string_literal(join(strings_view(e.class_list@), seq![' '])) + ",_nodeId:"@ + decimal(
        k.0 as nat,
    ) + ",_parentId:"@ + parent_text(m[k.0].parent) + ",_childNodesIds:"@ + id_list(
        sibling_walk(m, m[k.0].first_child, t.size()),
    ) + ",_textContent:"@ + js_string_literal(text_under(m, k.0, t.size(), t.size()))
        + ",_innerHTML:"@ + js_string_literal(inner_html_of(t, k)) + ",_attrs:"@ + js_object(
        e.attributes@,
    ) + ",style:"@ + js_object(e.style@) + "}"@
}

/// The property definitions that make the element with handle `nid` live: text and
/// markup setters that record mutations, attribute getters, and getters for parent,
/// children and child nodes, then its prototype.
pub open spec fn property_definitions(nid: u64) -> Seq<Seq<char>> {
    let d = decimal(nid as nat);
    seq![
        "Object.defineProperty(__dom_elements__["@ + d + "],'textContent',{get:function(){return this._textContent},set:function(v){this._textContent=String(v);__mut_set_text__("@ + d + ",String(v))},enumerable:true,configurable:true})"@,
        "Object.defineProperty(__dom_elements__["@ + d + "],'innerHTML',{get:function(){return this._innerHTML},set:function(v){this._innerHTML=String(v);__mut_set_inner_html__("@ + d + ",String(v))},enumerable:true,configurable:true})"@,
        "(function(el) {\n                var attrGetters = {href:1,src:1,alt:1,title:1,value:1,type:1,name:1,action:1,method:1,target:1,rel:1,placeholder:1};\n                Object.keys(attrGetters).forEach(function(k) {\n                    Object.defineProperty(el, k, {\n                        get: function() { return this._attrs[k] || ''; },\n                        set: function(v) { this._attrs[k] = String(v); },\n                        enumerable: true, configurable: true\n                    });\n                });\n            })(__dom_elements__["@ + d + "])"@,
        "Object.defineProperty(__dom_elements__["@ + d + "],'parentNode',{get:function(){return this._parentId?(__dom_elements__[this._parentId]||null):null},enumerable:true,configurable:true})"@,
        "Object.defineProperty(__dom_elements__["@ + d + "],'children',{get:function(){var r=[];var ids=this._childNodesIds||[];for(var i=0;i<ids.length;i++){var e=__dom_elements__[ids[i]];if(e&&e.tagName)r.push(e)}return r},enumerable:true,configurable:true})"@,
        "Object.defineProperty(__dom_elements__["@ + d + "],'childNodes',{get:function(){var r=[];var ids=this._childNodesIds||[];for(var i=0;i<ids.length;i++){var e=__dom_elements__[ids[i]];if(e)r.push(e)}return r},enumerable:true,configurable:true})"@,
        "Object.setPrototypeOf(__dom_elements__["@ + d + "],__dom_element_proto__)"@,
    ]
}

fn push_u64(out: &mut String, n: u64)
    ensures
        final(out)@ == old(out)@ + decimal(n as nat),
    decreases n,
{
    if n >= 10 {
        push_u64(out, n / 10);
    }
    let d = (n % 10) as u8;
    let c = (d + 48) as char;
    assert(c == (((n % 10) + 48) as u32) as char);
    string_push(out, c);
    assert(decimal(n as nat) == if n < 10 {
        seq![c]
    } else {
        decimal((n / 10) as nat) + seq![c]
    });
}

fn push_js_entry(out: &mut String, k: &str, v: &str)
    ensures
        final(out)@ == old(out)@ + js_entry((k@, v@)),
{
    let key = escape_js_key(k);
    let val = escape_js_string(v);
    string_push_str(out, key.as_str());
    string_push(out, ':');
    string_push_str(out, val.as_str());
    assert(final(out)@ =~= old(out)@ + js_entry((k@, v@)));
}

fn push_attrs_object(out: &mut String, attrs: &[crate::node::Attr])
    ensures
        final(out)@ == old(out)@ + js_object(crate::node::attrs_view(attrs@)),
{
    let ghost av = crate::node::attrs_view(attrs@);
    let ghost pieces = av.map_values(|p: (Seq<char>, Seq<char>)| js_entry(p));
    string_push(out, '{');
    let ghost start = out@;
    let mut i: usize = 0;
    while i < attrs.len()
        invariant
            i <= attrs@.len(),
            av == crate::node::attrs_view(attrs@),
            pieces == av.map_values(|p: (Seq<char>, Seq<char>)| js_entry(p)),
            out@ == start + join(pieces.take(i as int), seq![',']),
        decreases attrs@.len() - i,
    {
        assert(pieces.take(i + 1).drop_last() =~= pieces.take(i as int));
        assert(pieces[i as int] == js_entry((attrs@[i as int].name@, attrs@[i as int].value@)));
        if i > 0 {
            string_push(out, ',');
        }
        push_js_entry(out, attrs[i].name.as_str(), attrs[i].value.as_str());
        proof {
            if i == 0 {
                assert(pieces.take(1) =~= seq![pieces[0]]);
            }
        }
        assert(out@ =~= start + join(pieces.take(i + 1), seq![',']));
        i = i + 1;
    }
    assert(pieces.take(attrs@.len() as int) =~= pieces);
    string_push(out, '}');
    assert(final(out)@ =~= old(out)@ + js_object(av));
}

fn push_pairs_object(out: &mut String, pairs: &[(String, String)])
    ensures
        final(out)@ == old(out)@ + js_object(headers_view(pairs@)),
{
    let ghost hv = headers_view(pairs@);
    let ghost pieces = hv.map_values(|p: (Seq<char>, Seq<char>)| js_entry(p));
    string_push(out, '{');
    let ghost start = out@;
    let mut i: usize = 0;
    while i < pairs.len()
        invariant
            i <= pairs@.len(),
            hv == headers_view(pairs@),
            pieces == hv.map_values(|p: (Seq<char>, Seq<char>)| js_entry(p)),
            out@ == start + join(pieces.take(i as int), seq![',']),
        decreases pairs@.len() - i,
    {
        assert(pieces.take(i + 1).drop_last() =~= pieces.take(i as int));
        assert(pieces[i as int] == js_entry((pairs@[i as int].0@, pairs@[i as int].1@)));
        if i > 0 {
            string_push(out, ',');
        }
        push_js_entry(out, pairs[i].0.as_str(), pairs[i].1.as_str());
        proof {
            if i == 0 {
                assert(pieces.take(1) =~= seq![pieces[0]]);
            }
        }
        assert(out@ =~= start + join(pieces.take(i + 1), seq![',']));
        i = i + 1;
    }
    assert(pieces.take(pairs@.len() as int) =~= pieces);
    string_push(out, '}');
    assert(final(out)@ =~= old(out)@ + js_object(hv));
}

fn push_id_list(out: &mut String, ids: &[NodeId])
    ensures
        final(out)@ == old(out)@ + id_list(ids@),
{
    let ghost pieces = ids@.map_values(|i: NodeId| decimal(i.0 as nat));
    string_push(out, '[');
    let ghost start = out@;
    let mut i: usize = 0;
    while i < ids.len()
        invariant
            i <= ids@.len(),
            pieces == ids@.map_values(|i: NodeId| decimal(i.0 as nat)),
            out@ == start + join(pieces.take(i as int), seq![',']),
        decreases ids@.len() - i,
    {
        assert(pieces.take(i + 1).drop_last() =~= pieces.take(i as int));
        if i > 0 {
            string_push(out, ',');
        }
        push_u64(out, ids[i].0);
        proof {
            if i == 0 {
                assert(pieces.take(1) =~= seq![pieces[0]]);
            }
        }
        assert(out@ =~= start + join(pieces.take(i + 1), seq![',']));
        i = i + 1;
    }
    assert(pieces.take(ids@.len() as int) =~= pieces);
    string_push(out, ']');
}

fn definitions_for(nid: u64) -> (defs: Vec<String>)
    ensures
        strings_view(defs@) == property_definitions(nid),
{
    let mut defs: Vec<String> = Vec::new();
    let mut p0 = String::new();
    string_push_str(&mut p0, "Object.defineProperty(__dom_elements__[");
    push_u64(&mut p0, nid);
    string_push_str(&mut p0, "],'textContent',{get:function(){return this._textContent},set:function(v){this._textContent=String(v);__mut_set_text__(");
    push_u64(&mut p0, nid);
    string_push_str(&mut p0, ",String(v))},enumerable:true,configurable:true})");
    defs.push(p0);
    let mut p1 = String::new();
    string_push_str(&mut p1, "Object.defineProperty(__dom_elements__[");
    push_u64(&mut p1, nid);
    string_push_str(&mut p1, "],'innerHTML',{get:function(){return this._innerHTML},set:function(v){this._innerHTML=String(v);__mut_set_inner_html__(");
    push_u64(&mut p1, nid);
    string_push_str(&mut p1, ",String(v))},enumerable:true,configurable:true})");
    defs.push(p1);
    let mut p2 = String::new();
    string_push_str(&mut p2, "(function(el) {\n                var attrGetters = {href:1,src:1,alt:1,title:1,value:1,type:1,name:1,action:1,method:1,target:1,rel:1,placeholder:1};\n                Object.keys(attrGetters).forEach(function(k) {\n                    Object.defineProperty(el, k, {\n                        get: function() { return this._attrs[k] || ''; },\n                        set: function(v) { this._attrs[k] = String(v); },\n                        enumerable: true, configurable: true\n                    });\n                });\n            })(__dom_elements__[");
    push_u64(&mut p2, nid);
    string_push_str(&mut p2, "])");
    defs.push(p2);
    let mut p3 = String::new();
    string_push_str(&mut p3, "Object.defineProperty(__dom_elements__[");
    push_u64(&mut p3, nid);
    string_push_str(&mut p3, "],'parentNode',{get:function(){return this._parentId?(__dom_elements__[this._parentId]||null):null},enumerable:true,configurable:true})");
    defs.push(p3);
    let mut p4 = String::new();
    string_push_str(&mut p4, "Object.defineProperty(__dom_elements__[");
    push_u64(&mut p4, nid);
    string_push_str(&mut p4, "],'children',{get:function(){var r=[];var ids=this._childNodesIds||[];for(var i=0;i<ids.length;i++){var e=__dom_elements__[ids[i]];if(e&&e.tagName)r.push(e)}return r},enumerable:true,configurable:true})");
    defs.push(p4);
    let mut p5 = String::new();
    string_push_str(&mut p5, "Object.defineProperty(__dom_elements__[");
    push_u64(&mut p5, nid);
    string_push_str(&mut p5, "],'childNodes',{get:function(){var r=[];var ids=this._childNodesIds||[];for(var i=0;i<ids.length;i++){var e=__dom_elements__[ids[i]];if(e)r.push(e)}return r},enumerable:true,configurable:true})");
    defs.push(p5);
    let mut p6 = String::new();
    string_push_str(&mut p6, "Object.setPrototypeOf(__dom_elements__[");
    push_u64(&mut p6, nid);
    string_push_str(&mut p6, "],__dom_element_proto__)");
    defs.push(p6);
    assert(strings_view(defs@) =~= property_definitions(nid));
    defs
}

/// The object literal of the element `node_id` and the property definitions that go
/// with it; `null` and none for a node that is not an element.
pub fn serialize_element(tree: &DomTree, node_id: NodeId) -> (r: (String, Vec<String>))
    requires
        tree.wf(),
        tree.contains(node_id),
    ensures
        match tree.nodes()[node_id.0].kind {
            NodeKind::Element(e) => r.0@ == element_literal(*tree, node_id, e) && strings_view(r.1@)
                == property_definitions(node_id.0),
            _ => r.0@ == "null"@ && r.1@.len() == 0,
        },
{
    let node = tree.get_node(node_id);
    let el = match &node.kind {
        NodeKind::Element(e) => e,
        _ => {
            return ("null".to_owned(), Vec::new());
        },
    };
    let tag = to_lowercase(el.tag_name.as_str());
    let id = match el.attributes.get_value("id") {
        Some(v) => v,
        None => {
            proof {
                reveal_strlit("");
            }
            ""
        },
    };
    assert(id@ == match header_lookup(el.attributes@, "id"@) {
        Some(v) => v,
        None => seq![],
    });
    proof {
        reveal_strlit(" ");
        assert(" "@ =~= seq![' ']);
    }
    let class_name = join_strings(el.class_list.as_slice(), " ");
    let text = escape_js_string(tree.text_content(node_id).as_str());
    let inner_html = escape_js_string(serialize_inner_html(tree, node_id).as_str());
    let kids = tree.children(node_id);
    let mut lit = String::new();
    string_push_str(&mut lit, "{tagName:\"");
    string_push_str(&mut lit, to_uppercase(tag.as_str()).as_str());
    string_push_str(&mut lit, "\",id:");
    string_push_str(&mut lit, escape_js_string(id).as_str());
    string_push_str(&mut lit, ",className:");
    string_push_str(&mut lit, escape_js_string(class_name.as_str()).as_str());
    string_push_str(&mut lit, ",_nodeId:");
    push_u64(&mut lit, node_id.0);
    string_push_str(&mut lit, ",_parentId:");
    match node.parent {
        Some(p) => push_u64(&mut lit, p.0),
        None => string_push_str(&mut lit, "null"),
    }
    string_push_str(&mut lit, ",_childNodesIds:");
    push_id_list(&mut lit, kids.as_slice());
    string_push_str(&mut lit, ",_textContent:");
    string_push_str(&mut lit, text.as_str());
    string_push_str(&mut lit, ",_innerHTML:");
    string_push_str(&mut lit, inner_html.as_str());
    string_push_str(&mut lit, ",_attrs:");
    push_attrs_object(&mut lit, el.attributes.iter());
    string_push_str(&mut lit, ",style:");
    push_pairs_object(&mut lit, el.style.iter());
    string_push_str(&mut lit, "}");
    proof {
        let e = match tree.nodes()[node_id.0].kind {
            NodeKind::Element(e) => e,
            _ => arbitrary(),
        };
        assert(lit@ =~= element_literal(*tree, node_id, e));
    }
    (lit, definitions_for(node_id.0))
}

// ──────────────────────────────── id index ──────────────────────────────────

/// The id index as an object literal: each id as a string literal, a colon and the
/// handle of its element, in index order.
pub open spec fn id_index_text(idx: IdIndexV) -> Seq<char> {
    seq!['{'] + join(
        idx.map_values(|e: (Seq<char>, NodeId)| js_string_literal(e.0) + seq![':'] + decimal(e.1.0 as nat)),
        seq![','],
    ) + seq!['}']
}

/// The id index of the tree as an object literal, for lookups by id.
pub fn build_id_index(tree: &DomTree) -> (r: String)
    ensures
        r@ == id_index_text(tree.index()),
{
    let entries = tree.id_entries();
    let ghost iv = id_index_view(entries@);
    let ghost pieces = iv.map_values(
        |e: (Seq<char>, NodeId)| js_string_literal(e.0) + seq![':'] + decimal(e.1.0 as nat),
    );
    let mut out = String::new();
    string_push(&mut out, '{');
    let ghost start = out@;
    let mut i: usize = 0;
    while i < entries.len()
        invariant
            i <= entries@.len(),
            iv == id_index_view(entries@),
            pieces == iv.map_values(
                |e: (Seq<char>, NodeId)| js_string_literal(e.0) + seq![':'] + decimal(e.1.0 as nat),
            ),
            out@ == start + join(pieces.take(i as int), seq![',']),
        decreases entries@.len() - i,
    {
        assert(pieces.take(i + 1).drop_last() =~= pieces.take(i as int));
        assert(iv[i as int] == (entries@[i as int].0@, entries@[i as int].1));
        if i > 0 {
            string_push(&mut out, ',');
        }
        let key = escape_js_string(entries[i].0.as_str());
        string_push_str(&mut out, key.as_str());
        string_push(&mut out, ':');
        push_u64(&mut out, entries[i].1.0);
        proof {
            if i == 0 {
                assert(pieces.take(1) =~= seq![pieces[0]]);
            }
        }
        assert(out@ =~= start + join(pieces.take(i + 1), seq![',']));
        i = i + 1;
    }
    assert(pieces.take(entries@.len() as int) =~= pieces);
    string_push(&mut out, '}');
    out
}

// ─────────────────────────── copies and their markup ─────────────────────────

/// The markup of the nodes `xs` one after the other.
pub open spec fn html_of_all(m: Nodes, xs: Seq<NodeId>, fuel: nat, width: nat) -> Seq<char>
    decreases xs.len(),
{
    if xs.len() == 0 {
        seq![]
    } else {
        node_html(m, xs[0].0, fuel, width) + html_of_all(m, xs.drop_first(), fuel, width)
    }
}

proof fn lemma_walk_len(m: Nodes, c: Option<NodeId>, b: nat)
    ensures
        sibling_walk(m, c, b).len() <= b,
    decreases b,
{
    if b > 0 {
        match c {
            Some(x) => if m.dom().contains(x.0) {
                lemma_walk_len(m, m[x.0].next_sibling, (b - 1) as nat);
            },
            None => {},
        }
    }
}

/// The markup of a sibling chain is that of the nodes a walk along it finds.
proof fn lemma_kids_html_walk(m: Nodes, c: Option<NodeId>, fuel: nat, width: nat, b: nat)
    ensures
        kids_html(m, c, fuel, width, b) == html_of_all(m, sibling_walk(m, c, b), fuel, width),
    decreases b,
{
    if b > 0 {
        match c {
            Some(x) => if m.dom().contains(x.0) {
                lemma_kids_html_walk(m, m[x.0].next_sibling, fuel, width, (b - 1) as nat);
                let t = sibling_walk(m, m[x.0].next_sibling, (b - 1) as nat);
                assert((seq![x] + t).drop_first() =~= t);
                assert(sibling_walk(m, c, b) == seq![x] + t);
            },
            None => {},
        }
    }
}

/// Nothing shows at no depth.
proof fn lemma_no_fuel_html(m: Nodes, xs: Seq<NodeId>, width: nat)
    ensures
        html_of_all(m, xs, 0, width) == Seq::<char>::empty(),
    decreases xs.len(),
{
    if xs.len() > 0 {
        lemma_no_fuel_html(m, xs.drop_first(), width);
    }
}

proof fn lemma_kids_copy_html(
    sm: Nodes,
    xs: Seq<NodeId>,
    dm: Nodes,
    dc: Option<NodeId>,
    depth: nat,
    width: nat,
    c: Set<u64>,
    fuel: nat,
    b: nat,
)
    requires
        kids_copy(sm, xs, dm, dc, depth, width, c),
        xs.len() <= b,
        fuel <= depth + 1,
    ensures
        kids_html(dm, dc, fuel, width, b) == html_of_all(sm, xs, fuel, width),
    decreases depth, 1nat, xs.len(),
{
    if xs.len() > 0 {
        let y = dc->0;
        assert(subtree_copy(sm, xs[0].0, dm, y.0, depth, width, c));
        law_copy_keeps_markup(sm, xs[0].0, dm, y.0, depth, width, c, fuel);
        lemma_kids_copy_html(sm, xs.drop_first(), dm, dm[y.0].next_sibling, depth, width, c, fuel, (b - 1) as nat);
    }
}

/// A copy of a subtree, down to the depth it was copied to, has the markup of the
/// subtree it copies.
pub proof fn law_copy_keeps_markup(
    sm: Nodes,
    s: u64,
    dm: Nodes,
    d: u64,
    depth: nat,
    width: nat,
    c: Set<u64>,
    fuel: nat,
)
    requires
        subtree_copy(sm, s, dm, d, depth, width, c),
        fuel <= depth + 1,
    ensures
        node_html(dm, d, fuel, width) == node_html(sm, s, fuel, width),
    decreases depth, 0nat, 0nat,
{
    if fuel > 0 {
        assert(copy_of(sm[s].kind, dm[d].kind));
        match sm[s].kind {
            NodeKind::Element(e) => {
                let ks = kids_html(sm, sm[s].first_child, (fuel - 1) as nat, width, width);
                let kd = kids_html(dm, dm[d].first_child, (fuel - 1) as nat, width, width);
                let walk = sibling_walk(sm, sm[s].first_child, width);
                lemma_kids_html_walk(sm, sm[s].first_child, (fuel - 1) as nat, width, width);
                if depth == 0 {
                    lemma_no_fuel_html(sm, walk, width);
                    assert(kd == Seq::<char>::empty());
                } else {
                    lemma_walk_len(sm, sm[s].first_child, width);
                    lemma_kids_copy_html(
                        sm,
                        walk,
                        dm,
                        dm[d].first_child,
                        (depth - 1) as nat,
                        width,
                        c.remove(d),
                        (fuel - 1) as nat,
                        width,
                    );
                }
                assert(kd == ks);
            },
            _ => {},
        }
    }
}

// ─────────────────────────────── JSON documents ─────────────────────────────

/// A character inside a JSON string: `"` and `\` escaped with a backslash, the control
/// characters below U+0020 as `\b`, `\t`, `\n`, `\f`, `\r` or `\u00XX` (lower-case hex),
/// anything else as it is.
pub open spec fn json_char(c: char) -> Seq<char> {
    if c == '"' {
        seq!['\\', '"']
    } else if c == '\\' {
        seq!['\\', '\\']
    } else if c == '\x08' {
        seq!['\\', 'b']
    } else if c == '\t' {
        seq!['\\', 't']
    } else if c == '\n' {
        seq!['\\', 'n']
    } else if c == '\x0c' {
        seq!['\\', 'f']
    } else if c == '\r' {
        seq!['\\', 'r']
    } else if (c as u32) < 0x20 {
        let v = c as u32 as int;
        seq!['\\', 'u', '0', '0', hex_digit(v / 16), hex_digit(v % 16)]
    } else {
        seq![c]
    }
}

pub open spec fn json_body(s: Seq<char>) -> Seq<char>
    decreases s.len(),
{
    if s.len() == 0 {
        seq![]
    } else {
        json_body(s.drop_last()) + json_char(s.last())
    }
}

/// `s` as a JSON string.
pub open spec fn json_quoted(s: Seq<char>) -> Seq<char> {
    seq!['"'] + json_body(s) + seq!['"']
}

/// `serde_json::Value::String(s)` written out through its `Display`: `s` quoted, with
/// the escapes of `format_escaped_str_contents` and `write_char_escape` in serde_json's
/// `ser.rs` (its `ESCAPE` table: `"`, `\`, and bytes below 0x20, the others `\u00` and
/// two lower-case hex digits).
#[verifier::external_body]
pub(crate) fn json_string(s: &str) -> (r: String)
    ensures
        r@ == json_quoted(s@),
{
    serde_json::Value::String(s.to_owned()).to_string()
}

/// The JSON object of the subtree at `k`, at most `fuel` levels down and `width`
/// siblings across: its node type and name, for an element its upper-case tag, for a
/// text its text, its handle, and for an element its children.
pub open spec fn node_json(m: Nodes, k: u64, fuel: nat, width: nat) -> Seq<char>
    decreases fuel, 0nat, 0nat,
{
    if fuel == 0 || !m.dom().contains(k) {
        seq![]
    } else {
        let id = decimal(k as nat);
        match m[k].kind {
            NodeKind::Element(e) => {
                let tag = uppercased(e.tag_name@);
                "{\"nodeType\":1,\"nodeName\":\""@ + tag + "\",\"tagName\":\""@ + tag
                    + "\",\"_nodeId\":"@ + id + ",\"attributes\":{},\"childNodes\":["@ + kids_json(
                    m,
                    m[k].first_child,
                    (fuel - 1) as nat,
                    width,
                    width,
                    true,
                ) + "]}"@
            },
            NodeKind::Text(t) => "{\"nodeType\":3,\"nodeName\":\"#text\",\"textContent\":"@ + json_quoted(
                t.data@,
            ) + ",\"_nodeId\":"@ + id + "}"@,
            NodeKind::Document(_) => "{\"nodeType\":9,\"nodeName\":\"#document\",\"_nodeId\":"@ + id
                + "}"@,
            NodeKind::Comment(_) => "{\"nodeType\":8,\"nodeName\":\"#comment\",\"_nodeId\":"@ + id
                + "}"@,
        }
    }
}

/// The JSON objects of the subtrees of the sibling chain from `c`, at most `budget`
/// of them, separated by commas (`first` when none has been written yet).
pub open spec fn kids_json(m: Nodes, c: Option<NodeId>, fuel: nat, width: nat, budget: nat, first: bool) -> Seq<
    char,
>
    decreases fuel, 1nat, budget,
{
    if budget == 0 {
        seq![]
    } else {
        match c {
            Some(x) => if m.dom().contains(x.0) {
                (if first {
                    seq![]
                } else {
                    seq![',']
                }) + node_json(m, x.0, fuel, width) + kids_json(
                    m,
                    m[x.0].next_sibling,
                    fuel,
                    width,
                    (budget - 1) as nat,
                    false,
                )
            } else {
                seq![]
            },
            None => seq![],
        }
    }
}

/// The JSON object of a whole document: its node type and name and its children.
pub open spec fn document_json(t: DomTree) -> Seq<char> {
    let m = t.nodes();
    "{\"nodeType\":9,\"nodeName\":\"#document\",\"childNodes\":["@ + kids_json(
        m,
        m[t.document_id().0].first_child,
        t.size(),
        t.size(),
        t.size(),
        true,
    ) + "]}"@
}

fn push_kids_json(dom: &DomTree, first_child: Option<NodeId>, fuel: usize, out: &mut String)
    requires
        dom.wf(),
        has(dom.nodes(), first_child),
    ensures
        final(out)@ == old(out)@ + kids_json(dom.nodes(), first_child, fuel as nat, dom.size(), dom.size(), true),
    decreases fuel, 1nat,
{
    let ghost m = dom.nodes();
    let ghost w = dom.size();
    let width = dom.node_count();
    let mut child = first_child;
    let mut budget = width;
    let mut first = true;
    while budget > 0 && child.is_some()
        invariant
            dom.wf(),
            m == dom.nodes(),
            w == dom.size(),
            width == w,
            has(m, child),
            old(out)@ + kids_json(m, first_child, fuel as nat, w, w, true) == out@ + kids_json(
                m,
                child,
                fuel as nat,
                w,
                budget as nat,
                first,
            ),
        decreases budget,
    {
        let c = child.unwrap();
        proof {
            dom.lemma_links_in(c);
        }
        let ghost before = out@;
        if !first {
            string_push(out, ',');
        }
        push_node_json(dom, c, fuel, out);
        assert(before + kids_json(m, child, fuel as nat, w, budget as nat, first) =~= out@ + kids_json(
            m,
            m[c.0].next_sibling,
            fuel as nat,
            w,
            (budget - 1) as nat,
            false,
        ));
        child = dom.get_node(c).next_sibling;
        budget = budget - 1;
        first = false;
    }
    assert(out@ + kids_json(m, child, fuel as nat, w, budget as nat, first) =~= out@);
}

fn push_node_json(dom: &DomTree, node: NodeId, fuel: usize, out: &mut String)
    requires
        dom.wf(),
        dom.contains(node),
    ensures
        final(out)@ == old(out)@ + node_json(dom.nodes(), node.0, fuel as nat, dom.size()),
    decreases fuel, 0nat,
{
    let ghost m = dom.nodes();
    if fuel == 0 {
        assert(old(out)@ + seq![] =~= old(out)@);
        return;
    }
    proof {
        dom.lemma_links_in(node);
    }
    let n = dom.get_node(node);
    match &n.kind {
        NodeKind::Element(e) => {
            let tag = to_uppercase(e.tag_name.as_str());
            string_push_str(out, "{\"nodeType\":1,\"nodeName\":\"");
            string_push_str(out, tag.as_str());
            string_push_str(out, "\",\"tagName\":\"");
            string_push_str(out, tag.as_str());
            string_push_str(out, "\",\"_nodeId\":");
            push_u64(out, node.0);
            string_push_str(out, ",\"attributes\":{},\"childNodes\":[");
            push_kids_json(dom, n.first_child, fuel - 1, out);
            string_push_str(out, "]}");
        },
        NodeKind::Text(t) => {
            string_push_str(out, "{\"nodeType\":3,\"nodeName\":\"#text\",\"textContent\":");
            string_push_str(out, json_string(t.data.as_str()).as_str());
            string_push_str(out, ",\"_nodeId\":");
            push_u64(out, node.0);
            string_push_str(out, "}");
        },
        NodeKind::Document(_) => {
            string_push_str(out, "{\"nodeType\":9,\"nodeName\":\"#document\",\"_nodeId\":");
            push_u64(out, node.0);
            string_push_str(out, "}");
        },
        NodeKind::Comment(_) => {
            string_push_str(out, "{\"nodeType\":8,\"nodeName\":\"#comment\",\"_nodeId\":");
            push_u64(out, node.0);
            string_push_str(out, "}");
        },
    }
    assert(out@ =~= old(out)@ + node_json(m, node.0, fuel as nat, dom.size()));
}

/// The JSON object of the subtree at `node_id`.
pub fn serialize_node_json(tree: &DomTree, node_id: NodeId) -> (r: String)
    requires
        tree.wf(),
        tree.contains(node_id),
    ensures
        r@ == node_json(tree.nodes(), node_id.0, tree.size(), tree.size()),
{
    let mut out = String::new();
    push_node_json(tree, node_id, tree.node_count(), &mut out);
    out
}

/// The JSON object of the whole document of `tree`.
pub fn serialize_document_json(tree: &DomTree) -> (r: String)
    requires
        tree.wf(),
    ensures
        r@ == document_json(*tree),
{
    proof {
        tree.lemma_roots_in();
        tree.lemma_links_in(tree.document_id());
    }
    let mut out = String::new();
    string_push_str(&mut out, "{\"nodeType\":9,\"nodeName\":\"#document\",\"childNodes\":[");
    let doc = tree.get_node(tree.document_node());
    push_kids_json(tree, doc.first_child, tree.node_count(), &mut out);
    string_push_str(&mut out, "]}");
    out
}

/// What a `DOMParser` gives for `html`: the markup parsed into a tree for
/// `about:blank`, that tree's document as JSON.
pub fn dom_parser_json(html: &str) -> (r: String)
    ensures
        exists|t: DomTree|
            {
                &&& t.wf()
                &&& t.consistent()
                &&& r@ == document_json(t)
                &&& t.nodes()[t.document_id().0].kind matches NodeKind::Document(d) && d.url@ == "about:blank"@
                &&& html5_nodes(html@).len() < 0xffff_fff0 ==> exists|ids: Seq<u64>| parsed_into(t, html5_nodes(html@), ids)
            },
{
    let tree = HtmlParser::parse(html, "about:blank");
    serialize_document_json(&tree)
}


// ──────────────────────────── the bootstrap program ─────────────────────────

/// The entries of the element table for the elements among `keys`: the handle, a colon
/// and the element's object literal.
pub open spec fn element_entries(t: DomTree, keys: Seq<u64>) -> Seq<Seq<char>>
    decreases keys.len(),
{
    if keys.len() == 0 {
        seq![]
    } else {
        let rest = element_entries(t, keys.drop_last());
        let k = keys.last();
        match t.nodes()[k].kind {
            NodeKind::Element(e) => rest.push(decimal(k as nat) + seq![':'] + element_literal(t, NodeId(k), e)),
            _ => rest,
        }
    }
}

/// The property definitions of the elements among `keys`, element by element.
pub open spec fn element_definitions(t: DomTree, keys: Seq<u64>) -> Seq<Seq<char>>
    decreases keys.len(),
{
    if keys.len() == 0 {
        seq![]
    } else {
        let rest = element_definitions(t, keys.drop_last());
        let k = keys.last();
        match t.nodes()[k].kind {
            NodeKind::Element(_) => rest + property_definitions(k),
            _ => rest,
        }
    }
}

/// The table entry of the text node `k` holding `data`.
pub open spec fn text_entry(t: DomTree, k: u64, data: Seq<char>) -> Seq<char> {
    decimal(k as nat) + ":{nodeType:3,nodeName:\"#text\",textContent:"@ + js_string_literal(data) + ",_parentId:"@
        + parent_text(t.nodes()[k].parent) + "}"@
}

/// The entries of the element table for the text nodes among `keys`.
pub open spec fn text_entries(t: DomTree, keys: Seq<u64>) -> Seq<Seq<char>>
    decreases keys.len(),
{
    if keys.len() == 0 {
        seq![]
    } else {
        let rest = text_entries(t, keys.drop_last());
        let k = keys.last();
        match t.nodes()[k].kind {
            NodeKind::Text(d) => rest.push(text_entry(t, k, d.data@)),
            _ => rest,
        }
    }
}

/// The `parentNode` getter of the text node with handle `k`.
pub open spec fn text_parent_definition(k: u64) -> Seq<char> {
    "Object.defineProperty(__dom_elements__["@ + decimal(k as nat) + "],'parentNode',{get:function(){return this._parentId?(__dom_elements__[this._parentId]||null):null},enumerable:true,configurable:true})"@
}

/// The `parentNode` getters of the text nodes among `keys`.
pub open spec fn text_definitions(t: DomTree, keys: Seq<u64>) -> Seq<Seq<char>>
    decreases keys.len(),
{
    if keys.len() == 0 {
        seq![]
    } else {
        let rest = text_definitions(t, keys.drop_last());
        let k = keys.last();
        match t.nodes()[k].kind {
            NodeKind::Text(_) => rest.push(text_parent_definition(k)),
            _ => rest,
        }
    }
}

/// Each statement followed by `;` and a line break.
pub open spec fn statements(defs: Seq<Seq<char>>) -> Seq<char>
    decreases defs.len(),
{
    if defs.len() == 0 {
        seq![]
    } else {
        statements(defs.drop_last()) + defs.last() + seq![';', '\n']
    }
}

/// The lookup of a node object by handle, for the document's getters.
pub open spec fn node_name_function() -> Seq<char> {
    "var __dom_node_name__ = function(n) {\nif (n === null || n === undefined) return null;\nvar e = __dom_elements__[n];\nreturn e || null;\n};\n"@
}

/// The `Node`, `Element` and `HTMLElement` constructors that scripts test against.
pub open spec fn node_constructors() -> Seq<char> {
    "\n        // --- Node constructor (constants only) ---\n        var Node = function() {};\n        Node.ELEMENT_NODE = 1;\n        Node.ATTRIBUTE_NODE = 2;\n        Node.TEXT_NODE = 3;\n        Node.CDATA_SECTION_NODE = 4;\n        Node.PROCESSING_INSTRUCTION_NODE = 7;\n        Node.COMMENT_NODE = 8;\n        Node.DOCUMENT_NODE = 9;\n        Node.DOCUMENT_TYPE_NODE = 10;\n        Node.DOCUMENT_FRAGMENT_NODE = 11;\n        globalThis.Node = Node;\n\n        // --- Element constructor ---\n        var Element = function() {};\n        Element.prototype = Object.create(Node.prototype);\n        globalThis.Element = Element;\n\n        // --- HTMLElement constructor ---\n        var HTMLElement = function() {};\n        HTMLElement.prototype = Object.create(Element.prototype);\n        globalThis.HTMLElement = HTMLElement;\n\n        // Fix __dom_element_proto__ chain: inherit from HTMLElement.prototype for instanceof\n        if (typeof __dom_element_proto__ !== 'undefined') {\n            Object.setPrototypeOf(__dom_element_proto__, HTMLElement.prototype);\n        }\n        "@
}

/// The program that gives a script engine the tree: the table of element and text
/// objects by handle, in slot order, elements first; their property definitions; the
/// id index; the handles of head, body and html; the lookup by handle; the `window`
/// alias; and the node constructors.
pub open spec fn bootstrap_program(t: DomTree, keys: Seq<u64>) -> Seq<char> {
    "var __dom_elements__ = {"@ + join(element_entries(t, keys) + text_entries(t, keys), seq![',', '\n']) + "};\n"@
        + statements(element_definitions(t, keys) + text_definitions(t, keys)) + "var __dom_by_id__ = "@
        + id_index_text(t.index()) + ";\nvar __dom_head_id__ = "@ + decimal(t.head_id().0 as nat)
        + ";\nvar __dom_body_id__ = "@ + decimal(t.body_id().0 as nat) + ";\nvar __dom_html_id__ = "@
        + decimal(t.html_id().0 as nat) + ";\n"@ + node_name_function() + "globalThis.window = globalThis;\n"@
        + node_constructors()
}

fn push_statements(out: &mut String, defs: &Vec<String>)
    ensures
        final(out)@ == old(out)@ + statements(strings_view(defs@)),
{
    let ghost dv = strings_view(defs@);
    let ghost start = out@;
    let mut i: usize = 0;
    while i < defs.len()
        invariant
            i <= defs@.len(),
            dv == strings_view(defs@),
            out@ == start + statements(dv.take(i as int)),
        decreases defs@.len() - i,
    {
        assert(dv.take(i + 1).drop_last() =~= dv.take(i as int));
        assert(dv.take(i + 1).last() == defs@[i as int]@);
        string_push_str(out, defs[i].as_str());
        string_push(out, ';');
        string_push(out, '\n');
        i = i + 1;
    }
    assert(dv.take(defs@.len() as int) =~= dv);
}

/// The program that gives a script engine the tree, its nodes taken in slot order.
pub fn dom_bootstrap_js(tree: &DomTree) -> (r: String)
    requires
        tree.wf(),
    ensures
        r@ == bootstrap_program(*tree, slot_order(*tree)),
{
    let keys = tree.slot_keys();
    proof {
        lemma_slot_order_of(keys@, *tree);
    }
    let mut entries: Vec<String> = Vec::new();
    let mut defs: Vec<String> = Vec::new();
    let mut i: usize = 0;
    while i < keys.len()
        invariant
            tree.wf(),
            i <= keys@.len(),
            slot_ordered(keys@, *tree),
            strings_view(entries@) == element_entries(*tree, keys@.take(i as int)),
            strings_view(defs@) == element_definitions(*tree, keys@.take(i as int)),
        decreases keys@.len() - i,
    {
        let ghost ks = keys@.take(i + 1);
        assert(ks.drop_last() =~= keys@.take(i as int));
        assert(ks.last() == keys@[i as int]);
        let k = keys[i];
        assert(keys@.contains(k));
        if tree.get_node(NodeId(k)).is_element() {
            let (lit, props) = serialize_element(tree, NodeId(k));
            let mut entry = String::new();
            push_u64(&mut entry, k);
            string_push(&mut entry, ':');
            string_push_str(&mut entry, lit.as_str());
            let ghost before = strings_view(defs@);
            let mut j: usize = 0;
            while j < props.len()
                invariant
                    j <= props@.len(),
                    strings_view(defs@) == before + strings_view(props@).take(j as int),
                decreases props@.len() - j,
            {
                let ghost d0 = defs@;
                let x = props[j].clone();
                defs.push(x);
                assert(defs@ =~= d0.push(x));
                assert(strings_view(defs@) =~= strings_view(d0).push(props@[j as int]@));
                assert(strings_view(props@).take(j + 1) =~= strings_view(props@).take(j as int).push(props@[j as int]@));
                j = j + 1;
            }
            assert(strings_view(props@).take(props@.len() as int) =~= strings_view(props@));
            let ghost e0 = entries@;
            entries.push(entry);
            assert(entries@ =~= e0.push(entry));
            assert(strings_view(entries@) =~= strings_view(e0).push(entry@));
            assert(tree.nodes()[k].kind is Element);
            let ghost el = tree.nodes()[k].kind->Element_0;
            assert(lit@ == element_literal(*tree, NodeId(k), el));
            assert(entry@ == decimal(k as nat) + seq![':'] + element_literal(*tree, NodeId(k), el));
            assert(element_entries(*tree, ks) == element_entries(*tree, keys@.take(i as int)).push(entry@));
            assert(element_definitions(*tree, ks) == element_definitions(*tree, keys@.take(i as int)) + property_definitions(k));
        } else {
            assert(element_entries(*tree, ks) == element_entries(*tree, keys@.take(i as int)));
            assert(element_definitions(*tree, ks) == element_definitions(*tree, keys@.take(i as int)));
        }
        i = i + 1;
    }
    assert(keys@.take(keys@.len() as int) =~= keys@);
    i = 0;
    while i < keys.len()
        invariant
            tree.wf(),
            i <= keys@.len(),
            slot_ordered(keys@, *tree),
            strings_view(entries@) == element_entries(*tree, keys@) + text_entries(*tree, keys@.take(i as int)),
            strings_view(defs@) == element_definitions(*tree, keys@) + text_definitions(*tree, keys@.take(i as int)),
        decreases keys@.len() - i,
    {
        let ghost ks = keys@.take(i + 1);
        assert(ks.drop_last() =~= keys@.take(i as int));
        assert(ks.last() == keys@[i as int]);
        let k = keys[i];
        assert(keys@.contains(k));
        let node = tree.get_node(NodeId(k));
        match &node.kind {
            NodeKind::Text(td) => {
                let mut entry = String::new();
                push_u64(&mut entry, k);
                string_push_str(&mut entry, ":{nodeType:3,nodeName:\"#text\",textContent:");
                string_push_str(&mut entry, escape_js_string(td.data.as_str()).as_str());
                string_push_str(&mut entry, ",_parentId:");
                match node.parent {
                    Some(p) => push_u64(&mut entry, p.0),
                    None => string_push_str(&mut entry, "null"),
                }
                string_push_str(&mut entry, "}");
                let ghost old_entries = strings_view(entries@);
                entries.push(entry);
                assert(strings_view(entries@) =~= old_entries.push(entry@));
                assert(old_entries.push(entry@) =~= element_entries(*tree, keys@) + text_entries(*tree, keys@.take(i as int)).push(entry@));
                let mut def = String::new();
                string_push_str(&mut def, "Object.defineProperty(__dom_elements__[");
                push_u64(&mut def, k);
                string_push_str(&mut def, "],'parentNode',{get:function(){return this._parentId?(__dom_elements__[this._parentId]||null):null},enumerable:true,configurable:true})");
                let ghost old_defs = strings_view(defs@);
                defs.push(def);
                assert(strings_view(defs@) =~= old_defs.push(def@));
                assert(old_defs.push(def@) =~= element_definitions(*tree, keys@) + text_definitions(*tree, keys@.take(i as int)).push(def@));
            },
            _ => {},
        }
        i = i + 1;
    }
    let mut out = String::new();
    string_push_str(&mut out, "var __dom_elements__ = {");
    string_push_str(&mut out, join_strings(entries.as_slice(), ",\n").as_str());
    string_push_str(&mut out, "};\n");
    push_statements(&mut out, &defs);
    string_push_str(&mut out, "var __dom_by_id__ = ");
    string_push_str(&mut out, build_id_index(tree).as_str());
    string_push_str(&mut out, ";\nvar __dom_head_id__ = ");
    push_u64(&mut out, tree.head_node().0);
    string_push_str(&mut out, ";\nvar __dom_body_id__ = ");
    push_u64(&mut out, tree.body_node().0);
    string_push_str(&mut out, ";\nvar __dom_html_id__ = ");
    push_u64(&mut out, tree.html_node().0);
    string_push_str(&mut out, ";\n");
    string_push_str(&mut out, "var __dom_node_name__ = function(n) {\nif (n === null || n === undefined) return null;\nvar e = __dom_elements__[n];\nreturn e || null;\n};\n");
    string_push_str(&mut out, "globalThis.window = globalThis;\n");
    string_push_str(&mut out, "\n        // --- Node constructor (constants only) ---\n        var Node = function() {};\n        Node.ELEMENT_NODE = 1;\n        Node.ATTRIBUTE_NODE = 2;\n        Node.TEXT_NODE = 3;\n        Node.CDATA_SECTION_NODE = 4;\n        Node.PROCESSING_INSTRUCTION_NODE = 7;\n        Node.COMMENT_NODE = 8;\n        Node.DOCUMENT_NODE = 9;\n        Node.DOCUMENT_TYPE_NODE = 10;\n        Node.DOCUMENT_FRAGMENT_NODE = 11;\n        globalThis.Node = Node;\n\n        // --- Element constructor ---\n        var Element = function() {};\n        Element.prototype = Object.create(Node.prototype);\n        globalThis.Element = Element;\n\n        // --- HTMLElement constructor ---\n        var HTMLElement = function() {};\n        HTMLElement.prototype = Object.create(Element.prototype);\n        globalThis.HTMLElement = HTMLElement;\n\n        // Fix __dom_element_proto__ chain: inherit from HTMLElement.prototype for instanceof\n        if (typeof __dom_element_proto__ !== 'undefined') {\n            Object.setPrototypeOf(__dom_element_proto__, HTMLElement.prototype);\n        }\n        ");
    proof {
        reveal_strlit(",\n");
    }
    assert(",\n"@ =~= seq![',', '\n']);
    out
}


/// The document object a script sees, up to its title.
pub const DOCUMENT_OPENING: &'static str = "globalThis.window = globalThis;\nglobalThis.document = {\n    _title: ";

/// The document object a script sees, after its title: its node type and name, the
/// getters of head, body, element and cookie, the lookups by id, tag, class and
/// selector, node creation, ranges, listeners and the ready state.
pub const DOCUMENT_CLOSING: &'static str = ",\n    nodeType: 9,\n    nodeName: '#document',\n    get title() { return this._title; },\n    set title(v) { this._title = String(v); },\n    _head: null, _body: null, _documentElement: null,\n    get head() { if (!this._head && typeof __dom_node_name__ === 'function') this._head = __dom_node_name__(__dom_head_id__); return this._head; },\n    get body() { if (!this._body && typeof __dom_node_name__ === 'function') this._body = __dom_node_name__(__dom_body_id__); return this._body; },\n    get documentElement() { if (!this._documentElement && typeof __dom_node_name__ === 'function') this._documentElement = __dom_node_name__(__dom_html_id__); return this._documentElement; },\n    get cookie() { return (typeof _get_cookies === 'function') ? _get_cookies() : ''; },\n    set cookie(v) { if (typeof _set_cookie === 'function') _set_cookie(v); },\n    getElementById: function(id) {\n        if (typeof __dom_by_id__ === 'undefined') return null;\n        var nid = __dom_by_id__[id];\n        if (nid === undefined || nid === null) return null;\n        return (typeof __dom_elements__ !== 'undefined') ? (__dom_elements__[nid] || null) : null;\n    },\n    getElementsByTagName: function(tag) {\n        tag = tag.toUpperCase();\n        var result = [];\n        if (typeof __dom_elements__ !== 'undefined') {\n            for (var k in __dom_elements__) {\n                var e = __dom_elements__[k];\n                if (e && e.tagName === tag) result.push(e);\n            }\n        }\n        return result;\n    },\n    getElementsByClassName: function(cls) {\n        var result = [];\n        if (typeof __dom_elements__ !== 'undefined') {\n            for (var k in __dom_elements__) {\n                var e = __dom_elements__[k];\n                if (e && e.className && e.className.split(' ').indexOf(cls) >= 0) result.push(e);\n            }\n        }\n        return result;\n    },\n    querySelector: function(sel) {\n        sel = sel.trim();\n        if (typeof _dom_query_selector_all === 'function') {\n            var ids = _dom_query_selector_all(sel);\n            if (ids.length > 0) return __dom_elements__[ids[0]] || null;\n        }\n        // Fallback for simple selectors\n        if (sel.charAt(0) === '#') { return this.getElementById(sel.substring(1)); }\n        if (sel.charAt(0) === '.') {\n            var arr = this.getElementsByClassName(sel.substring(1));\n            return arr.length > 0 ? arr[0] : null;\n        }\n        var arr = this.getElementsByTagName(sel);\n        return arr.length > 0 ? arr[0] : null;\n    },\n    querySelectorAll: function(sel) {\n        sel = sel.trim();\n        if (typeof _dom_query_selector_all === 'function') {\n            var ids = _dom_query_selector_all(sel);\n            var result = [];\n            for (var i = 0; i < ids.length; i++) {\n                var el = __dom_elements__[ids[i]];\n                if (el) result.push(el);\n            }\n            return result;\n        }\n        // Fallback for simple selectors\n        if (sel.charAt(0) === '#') { var e = this.getElementById(sel.substring(1)); return e ? [e] : []; }\n        if (sel.charAt(0) === '.') { return this.getElementsByClassName(sel.substring(1)); }\n        return this.getElementsByTagName(sel);\n    },\n    createElement: function(tag) {\n        var newId = 'created_' + (++this._createCounter);\n        var el = {\n            tagName: tag.toUpperCase(), id: \"\", className: \"\",\n            _nodeId: 0, _createdId: newId, _parentId: null, _childNodesIds: [],\n            _textContent: \"\", _innerHTML: \"\",\n            _attrs: {}, style: {}\n        };\n        Object.setPrototypeOf(el, __dom_element_proto__);\n        if (typeof __dom_elements__ !== 'undefined') __dom_elements__[newId] = el;\n        return el;\n    },\n    createDocumentFragment: function() {\n        var newId = 'created_' + (++this._createCounter);\n        var frag = {\n            nodeType: 11, nodeName: '#document-fragment', nodeValue: null,\n            _nodeId: 0, _createdId: newId, _parentId: null, _childNodesIds: [],\n            _textContent: \"\", _innerHTML: \"\",\n            _attrs: {}, style: {}\n        };\n        Object.setPrototypeOf(frag, __dom_element_proto__);\n        if (typeof __dom_elements__ !== 'undefined') __dom_elements__[newId] = frag;\n        return frag;\n    },\n    createComment: function(data) {\n        var newId = 'created_' + (++this._createCounter);\n        var comment = {\n            nodeType: 8, nodeName: '#comment', nodeValue: String(data || ''),\n            _nodeId: 0, _createdId: newId, _parentId: null, _childNodesIds: [],\n            _textContent: String(data || ''), _innerHTML: \"\",\n            _attrs: {}, style: {}\n        };\n        Object.setPrototypeOf(comment, __dom_element_proto__);\n        if (typeof __dom_elements__ !== 'undefined') __dom_elements__[newId] = comment;\n        return comment;\n    },\n    createTextNode: function(data) {\n        var newId = 'created_' + (++this._createCounter);\n        var text = {\n            nodeType: 3, nodeName: '#text', nodeValue: String(data || ''),\n            _nodeId: 0, _createdId: newId, _parentId: null, _childNodesIds: [],\n            _textContent: String(data || ''), _innerHTML: \"\",\n            _attrs: {}, style: {}\n        };\n        Object.setPrototypeOf(text, __dom_element_proto__);\n        if (typeof __dom_elements__ !== 'undefined') __dom_elements__[newId] = text;\n        return text;\n    },\n    createRange: function() {\n        return {\n            selectNodeContents: function(node) { this._node = node; },\n            createContextualFragment: function(html) {\n                var frag = document.createDocumentFragment();\n                if (typeof html === 'string' && html.length > 0) {\n                    var tmp = document.createElement('div');\n                    tmp.innerHTML = html;\n                    while (tmp.firstChild) {\n                        frag.appendChild(tmp.firstChild);\n                    }\n                }\n                return frag;\n            },\n            collapse: function() {},\n            selectNode: function(node) { this._node = node; },\n            deleteContents: function() {},\n            cloneContents: function() { return document.createDocumentFragment(); },\n            extractContents: function() { return document.createDocumentFragment(); }\n        };\n    },\n    createEvent: function(type) {\n        return {\n            type: type || '',\n            bubbles: false,\n            cancelable: false,\n            target: null,\n            currentTarget: null,\n            defaultPrevented: false,\n            timeStamp: Date.now(),\n            initEvent: function(type, bubbles, cancelable) {\n                this.type = type || '';\n                this.bubbles = !!bubbles;\n                this.cancelable = !!cancelable;\n            },\n            preventDefault: function() { this.defaultPrevented = true; },\n            stopPropagation: function() {},\n            stopImmediatePropagation: function() {}\n        };\n    },\n    _listeners: {},\n    addEventListener: function(type, fn) {\n        if (!this._listeners[type]) this._listeners[type] = [];\n        this._listeners[type].push(fn);\n    },\n    removeEventListener: function(type, fn) {\n        if (this._listeners[type]) {\n            var idx = this._listeners[type].indexOf(fn);\n            if (idx >= 0) this._listeners[type].splice(idx, 1);\n        }\n    },\n    dispatchEvent: function(evt) {\n        if (this._listeners[evt.type]) {\n            var self = this;\n            this._listeners[evt.type].forEach(function(fn) { fn.call(self, evt); });\n        }\n        return true;\n    },\n    readyState: 'complete',\n    visibilityState: 'visible',\n    hidden: false,\n    hasFocus: function() { return true; },\n    _createCounter: 0\n};\n";

/// The program that sets up `window` and `document` for a script engine, with the
/// title of the tree as a string literal.
pub open spec fn document_program(t: DomTree) -> Seq<char> {
    DOCUMENT_OPENING@ + js_string_literal(title_text(t)) + DOCUMENT_CLOSING@
}

/// The program that sets up `window` and `document`, titled as the tree is.
pub fn document_setup_js(tree: &DomTree) -> (r: String)
    requires
        tree.wf(),
    ensures
        r@ == document_program(*tree),
{
    let mut out = String::new();
    string_push_str(&mut out, DOCUMENT_OPENING);
    string_push_str(&mut out, escape_js_string(page_title(tree).as_str()).as_str());
    string_push_str(&mut out, DOCUMENT_CLOSING);
    out
}

} // verus!

//! HTML documents: `html5ever` parses, and the parsed nodes are copied into a
//! [`DomTree`] under its html, head and body elements; scripts are collected from the
//! tree.
use vstd::prelude::*;
use std::rc::Rc;
use html5ever::tendril::TendrilSink;
use markup5ever_rcdom::{NodeData as RcData, RcDom};
use html5ever::parse_document;
use crate::node::{NamedNodeMap, NodeId, NodeKind};
use crate::request::{header_lookup, headers_view, HeadersV};
use crate::interceptor::headers_replayed;
use crate::mutation::{chain_is, lemma_chain_frame, lemma_chain_extend, lemma_chain_last};
use crate::text::{eq_ignore_case, str_eq, str_eq_ignore_case, string_push_str, strings_view, upper_seq};
use crate::tree::{DomTree, Nodes, element_of, class_names, style_of, linked_last, fresh, links_consistent, node_ok};

verus! {

/// A parsed node as plain values: the position of its parent, its kind (0 document,
/// 1 element, 2 text, 3 comment, 4 doctype or processing instruction), its local tag
/// name or its text, and its attributes in order.
pub type FlatV = (int, nat, Seq<char>, HeadersV);

/// The nodes that `html5ever::parse_document` builds from `html` into an `RcDom`, in
/// pre-order (the document first), each as [`FlatV`].
pub uninterp spec fn html5_nodes(html: Seq<char>) -> Seq<FlatV>;

pub open spec fn flat_view(v: Seq<(usize, u8, String, Vec<(String, String)>)>) -> Seq<FlatV> {
    v.map_values(
        |e: (usize, u8, String, Vec<(String, String)>)| (e.0 as int, e.1 as nat, e.2@, headers_view(e.3@)),
    )
}

/// A document that `html5ever` parsed into an `RcDom`, its nodes listed in pre-order,
/// each with the position of its parent.
#[verifier::external_body]
pub struct ParsedHtml {
    nodes: Vec<(usize, Rc<markup5ever_rcdom::Node>)>,
}

/// What a [`ParsedHtml`] holds: its nodes in order, as [`FlatV`].
pub uninterp spec fn parsed_nodes(d: ParsedHtml) -> Seq<FlatV>;

pub open spec fn flat_entry(e: (usize, u8, String, Vec<(String, String)>)) -> FlatV {
    (e.0 as int, e.1 as nat, e.2@, headers_view(e.3@))
}

/// `html5ever::parse_document` into an `RcDom`, reading `html`; its nodes are listed
/// in pre-order, the document first (its own parent written as 0), a node's children
/// after it in order, so that every node after the first has its parent before it.
#[verifier::external_body]
fn html5_parse(html: &str) -> (r: ParsedHtml)
    ensures
        parsed_nodes(r) == html5_nodes(html@),
        parsed_nodes(r).len() > 0,
        forall|j: int| 0 < j < parsed_nodes(r).len() ==> 0 <= #[trigger] parsed_nodes(r)[j].0 < j,
{
    let (mut nodes, mut todo) = (Vec::new(), vec![(0, parse_document(RcDom::default(), Default::default()).one(html).document)]);
    while let Some((p, h)) = todo.pop() {
        todo.extend(h.children.borrow().iter().rev().map(|c| (nodes.len(), c.clone())));
        nodes.push((p, h));
    }
    ParsedHtml { nodes }
}

/// The number of nodes of a parsed document.
#[verifier::external_body]
fn html5_count(d: &ParsedHtml) -> (r: usize)
    ensures
        r == parsed_nodes(*d).len(),
{
    d.nodes.len()
}

/// The node at position `i` of a parsed document, as plain values.
#[verifier::external_body]
fn html5_entry(d: &ParsedHtml, i: usize) -> (r: (usize, u8, String, Vec<(String, String)>))
    requires
        i < parsed_nodes(*d).len(),
    ensures
        flat_entry(r) == parsed_nodes(*d)[i as int],
{
    let (p, h) = &d.nodes[i];
    let (k, s, a) = match &h.data {
        RcData::Document => (0, String::new(), vec![]),
        RcData::Element { name, attrs, .. } => (1, name.local.to_string(), attrs.borrow().iter().map(|a| (a.name.local.to_string(), a.value.to_string())).collect()),
        RcData::Text { contents } => (2, contents.borrow().to_string(), vec![]),
        RcData::Comment { contents } => (3, contents.to_string(), vec![]),
        _ => (4, String::new(), vec![]),
    };
    (*p, k, s, a)
}

/// The nodes of a parsed document, in order.
fn flat_nodes(d: &ParsedHtml) -> (r: Vec<(usize, u8, String, Vec<(String, String)>)>)
    ensures
        flat_view(r@) == parsed_nodes(*d),
{
    let n = html5_count(d);
    let mut out: Vec<(usize, u8, String, Vec<(String, String)>)> = Vec::new();
    let mut i: usize = 0;
    while i < n
        invariant
            i <= n,
            n == parsed_nodes(*d).len(),
            flat_view(out@) == parsed_nodes(*d).take(i as int),
        decreases n - i,
    {
        let e = html5_entry(d, i);
        let ghost o0 = out@;
        out.push(e);
        assert(flat_view(out@) =~= flat_view(o0).push(flat_entry(e)));
        assert(parsed_nodes(*d).take(i + 1) =~= parsed_nodes(*d).take(i as int).push(parsed_nodes(*d)[i as int]));
        i = i + 1;
    }
    assert(parsed_nodes(*d).take(n as int) =~= parsed_nodes(*d));
    out
}

/// Information about a `<script>` element.
pub struct ScriptInfo {
    pub src: Option<String>,
    pub inline_content: Option<String>,
}

/// Builds a [`DomTree`] from HTML.
pub struct HtmlParser;

/// Where a parsed node's children go: under the tree's html, head or body element, or
/// under the element made for the parsed node at a position.
pub enum Dest {
    Html,
    Head,
    Body,
    At(int),
}

pub open spec fn html_name() -> Seq<char> {
    seq!['h', 't', 'm', 'l']
}

pub open spec fn head_name() -> Seq<char> {
    seq!['h', 'e', 'a', 'd']
}

pub open spec fn body_name() -> Seq<char> {
    seq!['b', 'o', 'd', 'y']
}

/// The position of the first `<html>` element (ignoring ASCII case) at or after `i`.
pub open spec fn first_html(fs: Seq<FlatV>, i: int) -> Option<int>
    decreases fs.len() - i,
{
    if i < 0 || i >= fs.len() {
        None
    } else if fs[i].1 == 1 && eq_ignore_case(fs[i].2, html_name()) {
        Some(i)
    } else {
        first_html(fs, i + 1)
    }
}

/// Where the children of the parsed node `j` go, if anywhere. With an `<html>` element
/// (the first, at `hp`), only what is under it is taken: the children of its `head` and
/// `body` children go under the tree's head and body, its other children under the
/// tree's html. Without one, the document's children go under the tree's html. An
/// element's children go under its copy; a document passes its children on; a text,
/// comment, doctype or processing instruction has none that are taken.
pub open spec fn child_dest(fs: Seq<FlatV>, hp: Option<int>, j: int) -> Option<Dest>
    decreases j,
{
    if j < 0 || j >= fs.len() {
        None
    } else if j == 0 {
        if hp is None {
            Some(Dest::Html)
        } else {
            None
        }
    } else if hp == Some(j) {
        Some(Dest::Html)
    } else {
        let p = fs[j].0;
        if !(0 <= p < j) {
            None
        } else if hp == Some(p) && fs[j].1 == 1 && fs[j].2 == head_name() {
            Some(Dest::Head)
        } else if hp == Some(p) && fs[j].1 == 1 && fs[j].2 == body_name() {
            Some(Dest::Body)
        } else if fs[j].1 == 1 {
            if child_dest(fs, hp, p) is Some {
                Some(Dest::At(j))
            } else {
                None
            }
        } else if fs[j].1 == 0 {
            child_dest(fs, hp, p)
        } else {
            None
        }
    }
}

/// Where the copy of the parsed node `j` goes, if it is copied: elements, texts and
/// comments whose parent passes its children somewhere, but for the `<html>` element
/// itself and its `head` and `body` children.
pub open spec fn node_dest(fs: Seq<FlatV>, hp: Option<int>, j: int) -> Option<Dest> {
    if j <= 0 || j >= fs.len() || hp == Some(j) {
        None
    } else {
        let p = fs[j].0;
        if !(0 <= p < j) {
            None
        } else if hp == Some(p) && fs[j].1 == 1 && (fs[j].2 == head_name() || fs[j].2 == body_name()) {
            None
        } else if 1 <= fs[j].1 <= 3 {
            child_dest(fs, hp, p)
        } else {
            None
        }
    }
}

/// Node kind `k` is the copy of the parsed node `f`: an element with the tag name
/// lower-cased, then upper-cased, and the attributes in order (a later one of a name
/// replacing an earlier one), its classes and style read from them; a text; a comment.
pub open spec fn flat_kind_ok(k: NodeKind, f: FlatV) -> bool {
    if f.1 == 1 {
        k matches NodeKind::Element(e) && e.tag_name@ == upper_seq(lowercased(f.2)) && e.attributes@
            == headers_replayed(f.3) && strings_view(e.class_list@) == class_names(e.attributes@)
            && e.style@ == style_of(e.attributes@) && e.listeners@.len() == 0
    } else if f.1 == 2 {
        k matches NodeKind::Text(d) && d.data@ == f.2
    } else if f.1 == 3 {
        k matches NodeKind::Comment(c) && c.data@ == f.2
    } else {
        false
    }
}

/// The tree node a destination names, `ids` holding the handles of the copies.
pub open spec fn dest_node(t: DomTree, ids: Seq<u64>, d: Dest) -> NodeId {
    match d {
        Dest::Html => t.html_id(),
        Dest::Head => t.head_id(),
        Dest::Body => t.body_id(),
        Dest::At(p) => NodeId(ids[p]),
    }
}

/// The copies of the first `n` parsed nodes that go to `d`, in order.
pub open spec fn placed(fs: Seq<FlatV>, hp: Option<int>, ids: Seq<u64>, d: Dest, n: int) -> Seq<NodeId>
    decreases n,
{
    if n <= 0 {
        seq![]
    } else if node_dest(fs, hp, n - 1) == Some(d) {
        placed(fs, hp, ids, d, n - 1).push(NodeId(ids[n - 1]))
    } else {
        placed(fs, hp, ids, d, n - 1)
    }
}

/// Whether the parsed node `k` is copied.
pub open spec fn copied(fs: Seq<FlatV>, hp: Option<int>, k: int) -> bool {
    node_dest(fs, hp, k) is Some
}

/// The tree `t` holds its four roots and the copies (handles `ids`) of the first `n`
/// parsed nodes `fs`, and nothing else; each copy is of its node's kind and data, sits
/// under its destination, and the children of every root and copied element are, in
/// order, the head and body (for html) and the copies that go there.
pub open spec fn parsed_upto(t: DomTree, fs: Seq<FlatV>, hp: Option<int>, ids: Seq<u64>, n: int) -> bool {
    let m = t.nodes();
    let (d, h, hd, b) = (t.document_id().0, t.html_id().0, t.head_id().0, t.body_id().0);
    &&& 0 <= n <= fs.len()
    &&& ids.len() == n
    &&& d != h && d != hd && d != b && h != hd && h != b && hd != b
    &&& forall|k: int|
        #![trigger ids[k]]
        0 <= k < n && copied(fs, hp, k) ==> {
            &&& m.dom().contains(ids[k])
            &&& ids[k] != d && ids[k] != h && ids[k] != hd && ids[k] != b
            &&& flat_kind_ok(m[ids[k]].kind, fs[k])
            &&& m[ids[k]].parent == Some(dest_node(t, ids, node_dest(fs, hp, k)->0))
            &&& (fs[k].1 != 1 ==> m[ids[k]].first_child is None)
            &&& (fs[k].1 == 1 ==> chain_is(m, m[ids[k]].first_child, placed(fs, hp, ids, Dest::At(k), n)))
        }
    &&& forall|k: int, l: int|
        0 <= k < l < n && copied(fs, hp, k) && copied(fs, hp, l) ==> #[trigger] ids[k] != #[trigger] ids[l]
    &&& forall|u: u64|
        #[trigger] m.dom().contains(u) <==> (u == d || u == h || u == hd || u == b || exists|k: int|
            0 <= k < n && copied(fs, hp, k) && ids[k] == u)
    &&& m[d].parent is None
    &&& m[h].parent == Some(t.document_id())
    &&& m[hd].parent == Some(t.html_id())
    &&& m[b].parent == Some(t.html_id())
    &&& chain_is(m, m[d].first_child, seq![t.html_id()])
    &&& chain_is(m, m[h].first_child, seq![t.head_id(), t.body_id()] + placed(fs, hp, ids, Dest::Html, n))
    &&& chain_is(m, m[hd].first_child, placed(fs, hp, ids, Dest::Head, n))
    &&& chain_is(m, m[b].first_child, placed(fs, hp, ids, Dest::Body, n))
}

/// The tree `t` is the copy of the parsed nodes `fs`, the handles of the copies being
/// `ids`.
pub open spec fn parsed_into(t: DomTree, fs: Seq<FlatV>, ids: Seq<u64>) -> bool {
    parsed_upto(t, fs, first_html(fs, 1), ids, fs.len() as int)
}

/// What `str::to_lowercase` gives for `s`: its Unicode lower case.
pub uninterp spec fn lowercased(s: Seq<char>) -> Seq<char>;

/// `str::to_lowercase`.
#[verifier::external_body]
pub(crate) fn to_lowercase(s: &str) -> (r: String)
    ensures
        r@ == lowercased(s@),
{
    s.to_lowercase()
}

// ──────────────────────────────── scripts ───────────────────────────────────

/// A script as values: its `src` attribute and its inline text.
pub struct ScriptV {
    pub src: Option<Seq<char>>,
    pub inline_content: Option<Seq<char>>,
}

pub open spec fn script_view(s: ScriptInfo) -> ScriptV {
    ScriptV {
        src: crate::cookie::opt_view(s.src),
        inline_content: crate::cookie::opt_view(s.inline_content),
    }
}

pub open spec fn scripts_view(v: Seq<ScriptInfo>) -> Seq<ScriptV> {
    v.map_values(|s: ScriptInfo| script_view(s))
}

pub open spec fn script_name() -> Seq<char> {
    seq!['s', 'c', 'r', 'i', 'p', 't']
}

/// The text of the Text nodes of the sibling chain from `c`, at most `budget` nodes.
pub open spec fn direct_text(m: Nodes, c: Option<NodeId>, budget: nat) -> Seq<char>
    decreases budget,
{
    if budget == 0 {
        seq![]
    } else {
        match c {
            Some(x) => if m.dom().contains(x.0) {
                (match m[x.0].kind {
                    NodeKind::Text(t) => t.data@,
                    _ => seq![],
                }) + direct_text(m, m[x.0].next_sibling, (budget - 1) as nat)
            } else {
                seq![]
            },
            None => seq![],
        }
    }
}

/// The script node `k` is, if it is a `<script>` element (in any case): its `src`
/// attribute and the text of its Text children, `None` when empty.
pub open spec fn script_at(m: Nodes, k: u64, width: nat) -> Option<ScriptV> {
    match element_of(m, k) {
        Some(e) => if eq_ignore_case(e.tag_name@, script_name()) {
            let t = direct_text(m, m[k].first_child, width);
            Some(
                ScriptV {
                    src: header_lookup(e.attributes@, seq!['s', 'r', 'c']),
                    inline_content: if t.len() == 0 {
                        None
                    } else {
                        Some(t)
                    },
                },
            )
        } else {
            None
        },
        None => None,
    }
}

/// The scripts under `k`, itself included, in document order.
pub open spec fn scripts_under(m: Nodes, k: u64, depth: nat, width: nat) -> Seq<ScriptV>
    decreases depth, 0nat, 0nat,
{
    if depth == 0 || !m.dom().contains(k) {
        seq![]
    } else {
        (match script_at(m, k, width) {
            Some(s) => seq![s],
            None => seq![],
        }) + scripts_of_kids(m, m[k].first_child, (depth - 1) as nat, width, width)
    }
}

/// The scripts under each node of the sibling chain from `c`, at most `budget` nodes.
pub open spec fn scripts_of_kids(m: Nodes, c: Option<NodeId>, depth: nat, width: nat, budget: nat) -> Seq<
    ScriptV,
>
    decreases depth, 1nat, budget,
{
    if budget == 0 {
        seq![]
    } else {
        match c {
            Some(x) => if m.dom().contains(x.0) {
                scripts_under(m, x.0, depth, width) + scripts_of_kids(
                    m,
                    m[x.0].next_sibling,
                    depth,
                    width,
                    (budget - 1) as nat,
                )
            } else {
                seq![]
            },
            None => seq![],
        }
    }
}


/// Appending the parentless node `t` under `x` adds `t` at the end of `x`'s children;
/// every other node keeps its kind, parent and first child, and every node that is not
/// a child of `x` keeps its next sibling.
proof fn lemma_append_fresh(m1: Nodes, m2: Nodes, x: u64, t: u64, ys: Seq<NodeId>)
    requires
        links_consistent(m1),
        m1.dom().contains(x),
        m1.dom().contains(t),
        x != t,
        m1[t].parent is None,
        m1[t].next_sibling is None,
        m1[x].parent != Some(NodeId(x)),
        m2 == linked_last(m1, x, t),
        chain_is(m1, m1[x].first_child, ys),
        forall|i: int| 0 <= i < ys.len() ==> m1[#[trigger] ys[i].0].parent == Some(NodeId(x)),
    ensures
        chain_is(m2, m2[x].first_child, ys.push(NodeId(t))),
        m2.dom() == m1.dom(),
        m2[t].parent == Some(NodeId(x)),
        m2[t].first_child == m1[t].first_child,
        m2[t].kind == m1[t].kind,
        forall|u: u64|
            #![trigger m2[u]]
            m1.dom().contains(u) && u != t ==> m2[u].parent == m1[u].parent && m2[u].kind == m1[u].kind
                && (u != x ==> m2[u].first_child == m1[u].first_child) && (m1[u].parent != Some(NodeId(x))
                ==> m2[u].next_sibling == m1[u].next_sibling),
{
    reveal(links_consistent);
    assert(node_ok(m1, x));
    match m1[x].last_child {
        Some(l) => {
            assert(ys.len() > 0) by {
                if ys.len() == 0 {
                    assert(m1[x].first_child is None);
                }
            }
            lemma_chain_last(m1, m1[x].first_child, ys);
            let y = ys.last();
            assert(m1[y.0].parent == Some(NodeId(x)));
            assert(m1.dom().contains(y.0)) by {
                lemma_chain_in(m1, m1[x].first_child, ys, ys.len() - 1);
            }
            assert(node_ok(m1, y.0));
            assert(l == y);
            assert(l.0 != x);
            assert(l.0 != t);
            assert(m2[l.0].next_sibling == Some(NodeId(t)));
            assert(m2[t].next_sibling is None);
            assert(m2[x].first_child == m1[x].first_child);
            assert forall|j: int| 0 <= j < ys.len() - 1 implies m2.dom().contains(#[trigger] ys[j].0)
                && m2[ys[j].0].next_sibling == m1[ys[j].0].next_sibling by {
                lemma_chain_in(m1, m1[x].first_child, ys, j);
                lemma_chain_link(m1, m1[x].first_child, ys, j);
                assert(ys[j].0 != t);
                if ys[j] == l {
                    assert(m1[l.0].next_sibling is None);
                }
            }
            lemma_chain_extend(m1, m2, m1[x].first_child, ys, NodeId(t));
        },
        None => {
            assert(m1[x].first_child is None);
            assert(ys.len() == 0) by {
                if ys.len() > 0 {
                    assert(m1[x].first_child == Some(ys[0]));
                }
            }
            assert(ys.push(NodeId(t)) =~= seq![NodeId(t)]);
            assert(seq![NodeId(t)].drop_first() =~= Seq::<NodeId>::empty());
            assert(m2[x].first_child == Some(NodeId(t)));
            assert(m2.dom().contains(t));
            assert(m2[t].next_sibling is None);
            assert(chain_is(m2, m2[t].next_sibling, Seq::<NodeId>::empty()));
        },
    }
}

/// Every node of a chain is in the map.
proof fn lemma_chain_in(m: Nodes, start: Option<NodeId>, ys: Seq<NodeId>, j: int)
    requires
        chain_is(m, start, ys),
        0 <= j < ys.len(),
    ensures
        m.dom().contains(ys[j].0),
    decreases ys.len(),
{
    if j > 0 {
        lemma_chain_in(m, m[ys[0].0].next_sibling, ys.drop_first(), j - 1);
        assert(ys.drop_first()[j - 1] == ys[j]);
    }
}

/// In a chain each node's next sibling is the following node.
proof fn lemma_chain_link(m: Nodes, start: Option<NodeId>, ys: Seq<NodeId>, j: int)
    requires
        chain_is(m, start, ys),
        0 <= j < ys.len() - 1,
    ensures
        m[ys[j].0].next_sibling == Some(ys[j + 1]),
    decreases ys.len(),
{
    if j > 0 {
        lemma_chain_link(m, m[ys[0].0].next_sibling, ys.drop_first(), j - 1);
        assert(ys.drop_first()[j - 1] == ys[j]);
        assert(ys.drop_first()[j] == ys[j + 1]);
    } else {
        assert(chain_is(m, m[ys[0].0].next_sibling, ys.drop_first()));
        assert(ys.drop_first()[0] == ys[1]);
    }
}

/// A destination at a position names a copied element no later than the node asked about.
proof fn lemma_child_dest_at(fs: Seq<FlatV>, hp: Option<int>, j: int)
    ensures
        child_dest(fs, hp, j) matches Some(Dest::At(q)) ==> 0 < q <= j && copied(fs, hp, q) && fs[q].1 == 1
            && child_dest(fs, hp, q) == Some(Dest::At(q)),
    decreases j,
{
    if 0 < j < fs.len() && hp != Some(j) {
        let p = fs[j].0;
        if 0 <= p < j {
            lemma_child_dest_at(fs, hp, p);
        }
    }
}

/// `placed` reads only the handles before `n`.
proof fn lemma_placed_ids(fs: Seq<FlatV>, hp: Option<int>, ids: Seq<u64>, ids2: Seq<u64>, d: Dest, n: int)
    requires
        forall|k: int| 0 <= k < n ==> ids[k] == ids2[k],
    ensures
        placed(fs, hp, ids, d, n) == placed(fs, hp, ids2, d, n),
    decreases n,
{
    if n > 0 {
        lemma_placed_ids(fs, hp, ids, ids2, d, n - 1);
    }
}

/// Every copy placed at `d` among the first `n` nodes is one whose destination is `d`.
proof fn lemma_placed_from(fs: Seq<FlatV>, hp: Option<int>, ids: Seq<u64>, d: Dest, n: int, i: int)
    requires
        0 <= i < placed(fs, hp, ids, d, n).len(),
    ensures
        exists|k: int| 0 <= k < n && node_dest(fs, hp, k) == Some(d) && placed(fs, hp, ids, d, n)[i] == NodeId(ids[k]),
    decreases n,
{
    if n > 0 {
        let rest = placed(fs, hp, ids, d, n - 1);
        if node_dest(fs, hp, n - 1) == Some(d) && i == rest.len() {
        } else {
            lemma_placed_from(fs, hp, ids, d, n - 1, i);
        }
    }
}

/// Nothing is placed at a copied element from positions no later than it.
proof fn lemma_placed_none(fs: Seq<FlatV>, hp: Option<int>, ids: Seq<u64>, q: int, n: int)
    requires
        n <= q + 1,
    ensures
        placed(fs, hp, ids, Dest::At(q), n) == Seq::<NodeId>::empty(),
    decreases n,
{
    if n > 0 {
        lemma_placed_none(fs, hp, ids, q, n - 1);
        let p = fs[n - 1].0;
        if node_dest(fs, hp, n - 1) == Some(Dest::At(q)) {
            lemma_child_dest_at(fs, hp, p);
        }
    }
}


/// A new tree, its document relabelled, holds the copies of no parsed node.
proof fn lemma_skeleton_placed(tn: DomTree, t: DomTree, fs: Seq<FlatV>, hp: Option<int>, ids: Seq<u64>)
    requires
        tn.wf(),
        tn.is_skeleton(),
        tn.consistent(),
        t.nodes().dom() == tn.nodes().dom(),
        forall|k: u64| #![trigger t.nodes()[k]] tn.nodes().dom().contains(k) ==> t.nodes()[k].parent == tn.nodes()[k].parent
            && t.nodes()[k].first_child == tn.nodes()[k].first_child && t.nodes()[k].next_sibling
            == tn.nodes()[k].next_sibling,
        t.document_id() == tn.document_id(),
        t.html_id() == tn.html_id(),
        t.head_id() == tn.head_id(),
        t.body_id() == tn.body_id(),
        fs.len() >= 1,
        ids.len() == 1,
    ensures
        parsed_upto(t, fs, hp, ids, 1),
{
    let m = tn.nodes();
    let (d, h, hd, b) = (tn.document_id().0, tn.html_id().0, tn.head_id().0, tn.body_id().0);
    tn.lemma_roots_in();
    tn.lemma_closed();
    reveal(links_consistent);
    assert(node_ok(m, d));
    assert(node_ok(m, h));
    assert(node_ok(m, hd));
    assert(node_ok(m, b));
    assert(m.dom().contains(hd) && m.dom().contains(b));
    assert(m[hd].first_child is None) by {
        if m[hd].first_child is Some {
            let c = m[hd].first_child->0;
            assert(crate::tree::links_in(m, m[hd]));
            assert(m[c.0].parent == Some(NodeId(hd)));
        }
    }
    assert(m[b].first_child is None) by {
        if m[b].first_child is Some {
            let c = m[b].first_child->0;
            assert(crate::tree::links_in(m, m[b]));
            assert(m[c.0].parent == Some(NodeId(b)));
        }
    }
    assert(m[b].next_sibling is None);
    assert(m[h].next_sibling is None);
    assert(node_dest(fs, hp, 0) is None);
    assert(placed(fs, hp, ids, Dest::Html, 0) == Seq::<NodeId>::empty());
    assert(placed(fs, hp, ids, Dest::Head, 0) == Seq::<NodeId>::empty());
    assert(placed(fs, hp, ids, Dest::Body, 0) == Seq::<NodeId>::empty());
    assert(placed(fs, hp, ids, Dest::Html, 1) == Seq::<NodeId>::empty());
    assert(placed(fs, hp, ids, Dest::Head, 1) == Seq::<NodeId>::empty());
    assert(placed(fs, hp, ids, Dest::Body, 1) == Seq::<NodeId>::empty());
    let mt = t.nodes();
    assert(seq![tn.head_id(), tn.body_id()] + Seq::<NodeId>::empty() =~= seq![tn.head_id(), tn.body_id()]);
    assert(seq![tn.head_id(), tn.body_id()].drop_first() =~= seq![tn.body_id()]);
    assert(seq![tn.body_id()].drop_first() =~= Seq::<NodeId>::empty());
    assert(seq![tn.html_id()].drop_first() =~= Seq::<NodeId>::empty());
    assert(chain_is(mt, mt[b].next_sibling, Seq::<NodeId>::empty()));
    assert(chain_is(mt, mt[hd].next_sibling, seq![tn.body_id()]));
    assert(chain_is(mt, mt[h].next_sibling, Seq::<NodeId>::empty()));
    assert forall|u: u64| #[trigger] mt.dom().contains(u) <==> (u == d || u == h || u == hd || u == b
        || exists|k: int| 0 <= k < 1 && copied(fs, hp, k) && ids[k] == u) by {
        if exists|k: int| 0 <= k < 1 && copied(fs, hp, k) && ids[k] == u {
            assert(!copied(fs, hp, 0));
        }
    }
}

/// A parsed node that is not copied leaves the tree as it is.
proof fn lemma_step_skip(t: DomTree, fs: Seq<FlatV>, hp: Option<int>, ids0: Seq<u64>, ids1: Seq<u64>, j: int)
    requires
        parsed_upto(t, fs, hp, ids0, j),
        0 < j < fs.len(),
        ids1 == ids0.push(0),
        !copied(fs, hp, j),
    ensures
        parsed_upto(t, fs, hp, ids1, j + 1),
{
    let m = t.nodes();
    assert forall|d: Dest| placed(fs, hp, ids1, d, j + 1) == placed(fs, hp, ids0, d, j) by {
        lemma_placed_ids(fs, hp, ids0, ids1, d, j);
    }
    assert forall|k: int| 0 <= k < j + 1 && copied(fs, hp, k) implies #[trigger] ids1[k] == ids0[k] && k < j by {}
    assert forall|u: u64| #[trigger] m.dom().contains(u) <==> (u == t.document_id().0 || u == t.html_id().0
        || u == t.head_id().0 || u == t.body_id().0 || exists|k: int| 0 <= k < j + 1 && copied(fs, hp, k) && ids1[k]
        == u) by {
        if exists|k: int| 0 <= k < j + 1 && copied(fs, hp, k) && ids1[k] == u {
            let k = choose|k: int| 0 <= k < j + 1 && copied(fs, hp, k) && ids1[k] == u;
            assert(ids1[k] == ids0[k]);
        }
        if exists|k: int| 0 <= k < j && copied(fs, hp, k) && ids0[k] == u {
            let k = choose|k: int| 0 <= k < j && copied(fs, hp, k) && ids0[k] == u;
            assert(ids1[k] == ids0[k]);
        }
    }
    assert(placed(fs, hp, ids1, Dest::Html, j + 1) == placed(fs, hp, ids0, Dest::Html, j));
    assert(placed(fs, hp, ids1, Dest::Head, j + 1) == placed(fs, hp, ids0, Dest::Head, j));
    assert(placed(fs, hp, ids1, Dest::Body, j + 1) == placed(fs, hp, ids0, Dest::Body, j));
    assert forall|k: int| #![trigger ids1[k]] 0 <= k < j + 1 && copied(fs, hp, k) implies {
        &&& m.dom().contains(ids1[k])
        &&& ids1[k] != t.document_id().0 && ids1[k] != t.html_id().0 && ids1[k] != t.head_id().0 && ids1[k] != t.body_id().0
        &&& flat_kind_ok(m[ids1[k]].kind, fs[k])
        &&& m[ids1[k]].parent == Some(dest_node(t, ids1, node_dest(fs, hp, k)->0))
        &&& (fs[k].1 != 1 ==> m[ids1[k]].first_child is None)
        &&& (fs[k].1 == 1 ==> chain_is(m, m[ids1[k]].first_child, placed(fs, hp, ids1, Dest::At(k), j + 1)))
    } by {
        assert(ids1[k] == ids0[k]);
        assert(placed(fs, hp, ids1, Dest::At(k), j + 1) == placed(fs, hp, ids0, Dest::At(k), j));
        lemma_child_dest_at(fs, hp, fs[k].0);
    }
}

/// Copying the parsed node `j` to `t`, under `x`: the tree then holds the copies of the
/// first `j + 1` nodes.
proof fn lemma_step_copy(
    tb: DomTree,
    t1: DomTree,
    t2: DomTree,
    fs: Seq<FlatV>,
    hp: Option<int>,
    ids0: Seq<u64>,
    ids1: Seq<u64>,
    j: int,
    x: NodeId,
    t: NodeId,
)
    requires
        parsed_upto(tb, fs, hp, ids0, j),
        0 < j < fs.len(),
        tb.wf(),
        links_consistent(tb.nodes()),
        links_consistent(t1.nodes()),
        !tb.nodes().dom().contains(t.0),
        t1.nodes() == tb.nodes().insert(t.0, fresh(t1.nodes()[t.0].kind)),
        flat_kind_ok(t1.nodes()[t.0].kind, fs[j]),
        t2.nodes() == linked_last(t1.nodes(), x.0, t.0),
        t1.document_id() == tb.document_id() && t2.document_id() == tb.document_id(),
        t1.html_id() == tb.html_id() && t2.html_id() == tb.html_id(),
        t1.head_id() == tb.head_id() && t2.head_id() == tb.head_id(),
        t1.body_id() == tb.body_id() && t2.body_id() == tb.body_id(),
        copied(fs, hp, j),
        dest_node(tb, ids0, node_dest(fs, hp, j)->0) == x,
        ids1 == ids0.push(t.0),
    ensures
        parsed_upto(t2, fs, hp, ids1, j + 1),
{
    let m0 = tb.nodes();
    let m1 = t1.nodes();
    let m2 = t2.nodes();
    let (d, h, hd, b) = (tb.document_id().0, tb.html_id().0, tb.head_id().0, tb.body_id().0);
    let dd = node_dest(fs, hp, j)->0;
    let p = fs[j].0;
    lemma_child_dest_at(fs, hp, p);
    assert(child_dest(fs, hp, p) == Some(dd));
    // the destination is a container of the tree before
    assert(m0.dom().contains(x.0)) by {
        match dd {
            Dest::At(q) => {
                assert(ids0[q] == x.0);
            },
            _ => {},
        }
    }
    assert(x.0 != t.0);
    // placements grow only at the destination
    assert forall|e: Dest| #[trigger] placed(fs, hp, ids1, e, j + 1) == if e == dd {
        placed(fs, hp, ids0, e, j).push(t)
    } else {
        placed(fs, hp, ids0, e, j)
    } by {
        lemma_placed_ids(fs, hp, ids0, ids1, e, j);
    }
    // the children of the destination, before
    lemma_placed_parents(tb, fs, hp, ids0, j);
    let ys = match dd {
        Dest::Html => seq![tb.head_id(), tb.body_id()] + placed(fs, hp, ids0, Dest::Html, j),
        Dest::Head => placed(fs, hp, ids0, Dest::Head, j),
        Dest::Body => placed(fs, hp, ids0, Dest::Body, j),
        Dest::At(q) => placed(fs, hp, ids0, Dest::At(q), j),
    };
    assert(chain_is(m0, m0[x.0].first_child, ys));
    assert forall|i: int| 0 <= i < ys.len() implies m0[#[trigger] ys[i].0].parent == Some(x) by {
        match dd {
            Dest::Html => {
                if i >= 2 {
                    assert(ys[i] == placed(fs, hp, ids0, Dest::Html, j)[i - 2]);
                }
            },
            _ => {},
        }
    }
    assert(m0[x.0].parent != Some(x)) by {
        match dd {
            Dest::At(q) => {
                let pq = node_dest(fs, hp, q)->0;
                lemma_child_dest_at(fs, hp, fs[q].0);
                match pq {
                    Dest::At(r) => {
                        assert(ids0[r] != ids0[q]);
                    },
                    _ => {},
                }
            },
            _ => {},
        }
    }
    // from m0 to m1 nothing but the new node
    assert forall|u: u64| #![trigger m1[u]] m0.dom().contains(u) implies m1[u] == m0[u] by {}
    assert forall|i: int| 0 <= i < ys.len() implies m1.dom().contains(#[trigger] ys[i].0) && m1[ys[i].0].next_sibling
        == m0[ys[i].0].next_sibling by {
        lemma_chain_in(m0, m0[x.0].first_child, ys, i);
    }
    lemma_chain_frame(m0, m1, m0[x.0].first_child, ys);
    assert forall|i: int| 0 <= i < ys.len() implies m1[#[trigger] ys[i].0].parent == Some(x) by {
        lemma_chain_in(m0, m0[x.0].first_child, ys, i);
    }
    lemma_append_fresh(m1, m2, x.0, t.0, ys);
    // every other container keeps its children
    assert forall|y: u64, zs: Seq<NodeId>|
        m0.dom().contains(y) && y != x.0 && chain_is(m0, m0[y].first_child, zs) && (forall|i: int|
            0 <= i < zs.len() ==> m0[#[trigger] zs[i].0].parent == Some(NodeId(y))) implies #[trigger] chain_is(
        m2,
        m2[y].first_child,
        zs,
    ) by {
        assert forall|i: int| 0 <= i < zs.len() implies m2.dom().contains(#[trigger] zs[i].0) && m2[zs[i].0].next_sibling
            == m0[zs[i].0].next_sibling by {
            lemma_chain_in(m0, m0[y].first_child, zs, i);
            assert(m1[zs[i].0] == m0[zs[i].0]);
            assert(zs[i].0 != t.0);
        }
        assert(m2[y].first_child == m0[y].first_child);
        lemma_chain_frame(m0, m2, m0[y].first_child, zs);
    }
    // the roots' chains
    lemma_placed_parents(tb, fs, hp, ids0, j);
    assert(tb.html_id() == NodeId(h) && tb.head_id() == NodeId(hd) && tb.body_id() == NodeId(b));
    let hy = seq![tb.head_id(), tb.body_id()] + placed(fs, hp, ids0, Dest::Html, j);
    assert forall|i: int| 0 <= i < hy.len() implies m0[#[trigger] hy[i].0].parent == Some(NodeId(h)) by {
        if i >= 2 {
            assert(hy[i] == placed(fs, hp, ids0, Dest::Html, j)[i - 2]);
        }
    }
    assert(m0[h].parent == Some(NodeId(d)));
    assert(chain_is(m2, m2[d].first_child, seq![tb.html_id()])) by {
        assert(d != x.0);
    }
    if dd == Dest::Html {
        assert(hy.push(t) =~= seq![tb.head_id(), tb.body_id()] + placed(fs, hp, ids1, Dest::Html, j + 1));
    } else {
        assert(hy =~= seq![tb.head_id(), tb.body_id()] + placed(fs, hp, ids1, Dest::Html, j + 1));
    }
    let hz = placed(fs, hp, ids0, Dest::Head, j);
    let bz = placed(fs, hp, ids0, Dest::Body, j);
    assert forall|i: int| 0 <= i < hz.len() implies m0[#[trigger] hz[i].0].parent == Some(NodeId(hd)) by {}
    assert forall|i: int| 0 <= i < bz.len() implies m0[#[trigger] bz[i].0].parent == Some(NodeId(b)) by {}
    if dd == Dest::Head {
        assert(chain_is(m2, m2[hd].first_child, placed(fs, hp, ids1, Dest::Head, j + 1)));
    } else {
        assert(hd != x.0) by {
            match dd {
                Dest::At(q) => {
                    assert(ids0[q] != hd);
                },
                _ => {},
            }
        }
        assert(chain_is(m2, m2[hd].first_child, hz));
        assert(placed(fs, hp, ids1, Dest::Head, j + 1) == hz);
    }
    if dd == Dest::Body {
        assert(chain_is(m2, m2[b].first_child, placed(fs, hp, ids1, Dest::Body, j + 1)));
    } else {
        assert(b != x.0) by {
            match dd {
                Dest::At(q) => {
                    assert(ids0[q] != b);
                },
                _ => {},
            }
        }
        assert(chain_is(m2, m2[b].first_child, bz));
        assert(placed(fs, hp, ids1, Dest::Body, j + 1) == bz);
    }
    // the copies
    lemma_placed_none(fs, hp, ids1, j, j + 1);
    assert forall|k: int| #![trigger ids1[k]] 0 <= k < j + 1 && copied(fs, hp, k) implies {
        &&& m2.dom().contains(ids1[k])
        &&& ids1[k] != d && ids1[k] != h && ids1[k] != hd && ids1[k] != b
        &&& flat_kind_ok(m2[ids1[k]].kind, fs[k])
        &&& m2[ids1[k]].parent == Some(dest_node(t2, ids1, node_dest(fs, hp, k)->0))
        &&& (fs[k].1 != 1 ==> m2[ids1[k]].first_child is None)
        &&& (fs[k].1 == 1 ==> chain_is(m2, m2[ids1[k]].first_child, placed(fs, hp, ids1, Dest::At(k), j + 1)))
    } by {
        lemma_child_dest_at(fs, hp, fs[k].0);
        if k == j {
            assert(ids1[k] == t.0);
            assert(m2[t.0].first_child is None);
        } else {
            let u = ids0[k];
            assert(ids1[k] == u);
            assert(m0.dom().contains(u));
            assert(u != t.0);
            assert(m1[u] == m0[u]);
            let nd = node_dest(fs, hp, k)->0;
            assert(dest_node(t2, ids1, nd) == dest_node(tb, ids0, nd));
            if fs[k].1 == 1 {
                let zs = placed(fs, hp, ids0, Dest::At(k), j);
                if dd == Dest::At(k) {
                    assert(u == x.0);
                } else {
                    assert(u != x.0) by {
                        if u == x.0 {
                            match dd {
                                Dest::At(q) => {
                                    assert(ids0[q] == u);
                                    if q < k {
                                        assert(ids0[q] != ids0[k]);
                                    } else if q > k {
                                        assert(ids0[k] != ids0[q]);
                                    }
                                },
                                _ => {},
                            }
                        }
                    }
                    assert forall|i: int| 0 <= i < zs.len() implies m0[#[trigger] zs[i].0].parent == Some(NodeId(u)) by {}
                }
            } else {
                assert(u != x.0) by {
                    if u == x.0 {
                        match dd {
                            Dest::At(q) => {
                                assert(ids0[q] == u);
                                if q < k {
                                    assert(ids0[q] != ids0[k]);
                                } else if q > k {
                                    assert(ids0[k] != ids0[q]);
                                }
                            },
                            _ => {},
                        }
                    }
                }
            }
        }
    }
    assert forall|k: int, l: int|
        0 <= k < l < j + 1 && copied(fs, hp, k) && copied(fs, hp, l) implies #[trigger] ids1[k] != #[trigger] ids1[l] by {
        if l == j {
            assert(m0.dom().contains(ids0[k]));
        } else {
            assert(ids0[k] != ids0[l]);
        }
    }
    assert forall|u: u64| #[trigger] m2.dom().contains(u) <==> (u == d || u == h || u == hd || u == b || exists|k: int|
        0 <= k < j + 1 && copied(fs, hp, k) && ids1[k] == u) by {
        if u == t.0 {
            assert(ids1[j] == u);
        } else if m0.dom().contains(u) {
            if !(u == d || u == h || u == hd || u == b) {
                let k = choose|k: int| 0 <= k < j && copied(fs, hp, k) && ids0[k] == u;
                assert(ids1[k] == u);
            }
        } else {
            if exists|k: int| 0 <= k < j + 1 && copied(fs, hp, k) && ids1[k] == u {
                let k = choose|k: int| 0 <= k < j + 1 && copied(fs, hp, k) && ids1[k] == u;
                assert(k != j);
                assert(ids0[k] == u);
            }
        }
    }
}

/// Every copy placed at `e` sits under the tree node `e` names.
proof fn lemma_placed_parents(t: DomTree, fs: Seq<FlatV>, hp: Option<int>, ids: Seq<u64>, n: int)
    requires
        parsed_upto(t, fs, hp, ids, n),
    ensures
        forall|e: Dest, i: int|
            0 <= i < placed(fs, hp, ids, e, n).len() ==> t.nodes()[#[trigger] placed(fs, hp, ids, e, n)[i].0].parent
                == Some(dest_node(t, ids, e)),
{
    assert forall|e: Dest, i: int| 0 <= i < placed(fs, hp, ids, e, n).len() implies t.nodes()[#[trigger] placed(
        fs,
        hp,
        ids,
        e,
        n,
    )[i].0].parent == Some(dest_node(t, ids, e)) by {
        lemma_placed_from(fs, hp, ids, e, n, i);
        let k = choose|k: int| 0 <= k < n && node_dest(fs, hp, k) == Some(e) && placed(fs, hp, ids, e, n)[i] == NodeId(ids[k]);
        assert(copied(fs, hp, k));
        assert(ids[k] == ids[k]);
    }
}

/// Writes the pairs out again.
fn copy_pairs(v: &Vec<(String, String)>) -> (r: Vec<(String, String)>)
    ensures
        headers_view(r@) == headers_view(v@),
{
    let mut out: Vec<(String, String)> = Vec::new();
    let mut i: usize = 0;
    while i < v.len()
        invariant
            i <= v@.len(),
            headers_view(out@) == headers_view(v@).take(i as int),
        decreases v@.len() - i,
    {
        let ghost o0 = out@;
        let e = (v[i].0.clone(), v[i].1.clone());
        out.push(e);
        assert(e.0 == v@[i as int].0 && e.1 == v@[i as int].1);
        assert(out@ == o0.push(e));
        assert(headers_view(out@) =~= headers_view(o0).push((e.0@, e.1@)));
        assert(headers_view(v@).take(i + 1) =~= headers_view(v@).take(i as int).push(headers_view(v@)[i as int]));
        assert(headers_view(out@) =~= headers_view(v@).take(i + 1));
        i = i + 1;
    }
    assert(headers_view(v@).take(v@.len() as int) =~= headers_view(v@));
    out
}

pub open spec fn dest_opt(t: DomTree, ids: Seq<u64>, d: Option<Dest>) -> Option<NodeId> {
    match d {
        Some(x) => Some(dest_node(t, ids, x)),
        None => None,
    }
}

impl HtmlParser {
    /// Parses `html` and copies it into a new tree whose document has the URL
    /// `base_url`: the children of the first parsed `<html>` element go under the tree's
    /// head (those of its `head` child), body (those of its `body` child) or html element
    /// (the rest); without an `<html>` element everything goes under the tree's html
    /// element (see [`parsed_into`]). A parse of `0xffff_fff0` nodes or more is not copied.
    pub fn parse(html: &str, base_url: &str) -> (r: DomTree)
        ensures
            r.wf(),
            r.consistent(),
            r.nodes()[r.document_id().0].kind matches NodeKind::Document(d) && d.url@ == base_url@,
            r.nodes()[r.document_id().0].parent is None,
            r.nodes()[r.html_id().0].parent == Some(r.document_id()),
            r.nodes()[r.head_id().0].parent == Some(r.html_id()),
            r.nodes()[r.body_id().0].parent == Some(r.html_id()),
            html5_nodes(html@).len() < 0xffff_fff0 ==> exists|ids: Seq<u64>| parsed_into(r, html5_nodes(html@), ids),
    {
        let parsed = html5_parse(html);
        let flat = flat_nodes(&parsed);
        let ghost fs = flat_view(flat@);
        assert forall|jj: int| 0 < jj < flat@.len() implies #[trigger] flat@[jj].0 < jj by {
            assert(fs[jj] == flat_entry(flat@[jj]));
            assert(0 <= parsed_nodes(parsed)[jj].0 < jj);
        }
        let mut tree = DomTree::new();
        let ghost tn = tree;
        proof {
            tree.lemma_roots_in();
        }
        let document = tree.document_node();
        match tree.get_node_mut(document) {
            NodeKind::Document(d) => {
                d.url = base_url.to_owned();
            },
            _ => {},
        }
        let html_node = tree.html_node();
        let head_node = tree.head_node();
        let body_node = tree.body_node();
        proof {
            tree.lemma_roots_in();
            tn.lemma_roots_in();
            assert(tree.nodes().dom() =~= tn.nodes().dom());
        }
        if flat.len() >= 0xffff_fff0 {
            return tree;
        }
        let mut hpos: Option<usize> = None;
        let mut i: usize = 1;
        proof {
            reveal_strlit("html");
            assert("html"@ =~= html_name());
        }
        while i < flat.len()
            invariant_except_break
                hpos is None,
            invariant
                1 <= i <= flat@.len(),
                fs == flat_view(flat@),
                first_html(fs, 1) == first_html(fs, i as int),
                "html"@ == html_name(),
            ensures
                match hpos {
                    Some(h) => first_html(fs, 1) == Some(h as int),
                    None => first_html(fs, 1) is None,
                },
            decreases flat@.len() - i,
        {
            assert(fs[i as int] == (flat@[i as int].0 as int, flat@[i as int].1 as nat, flat@[i as int].2@, headers_view(flat@[i as int].3@)));
            if flat[i].1 == 1 && str_eq_ignore_case(flat[i].2.as_str(), "html") {
                hpos = Some(i);
                break;
            }
            i = i + 1;
        }
        let ghost hp: Option<int> = match hpos {
            Some(h) => Some(h as int),
            None => None,
        };
        assert(hp == first_html(fs, 1));
        proof {
            reveal_strlit("head");
            reveal_strlit("body");
            assert("head"@ =~= head_name());
            assert("body"@ =~= body_name());
        }
        let mut ids: Vec<u64> = Vec::new();
        ids.push(0);
        let mut cd: Vec<Option<NodeId>> = Vec::new();
        match hpos {
            None => cd.push(Some(html_node)),
            Some(_) => cd.push(None),
        }
        let ghost t0 = tree;
        proof {
            lemma_skeleton_placed(tn, tree, fs, hp, ids@);
        }
        let mut j: usize = 1;
        while j < flat.len()
            invariant
                1 <= j <= flat@.len(),
                flat@.len() < 0xffff_fff0,
                fs == flat_view(flat@),
                forall|jj: int| 0 < jj < flat@.len() ==> #[trigger] flat@[jj].0 < jj,
                hp == first_html(fs, 1),
                hp == match hpos {
                    Some(h) => Some(h as int),
                    None => None::<int>,
                },
                tree.wf(),
                tree.consistent(),
                tree.size() <= 4 + j,
                tree.document_id() == t0.document_id(),
                tree.html_id() == html_node,
                tree.head_id() == head_node,
                tree.body_id() == body_node,
                tree.nodes()[tree.document_id().0].kind == t0.nodes()[t0.document_id().0].kind,
                "head"@ == head_name(),
                "body"@ == body_name(),
                parsed_upto(tree, fs, hp, ids@, j as int),
                cd@.len() == j,
                forall|k: int| 0 <= k < j ==> #[trigger] cd@[k] == dest_opt(tree, ids@, child_dest(fs, hp, k)),
            decreases flat@.len() - j,
        {
            let p = flat[j].0;
            let kind = flat[j].1;
            assert(fs[j as int] == (flat@[j as int].0 as int, flat@[j as int].1 as nat, flat@[j as int].2@, headers_view(flat@[j as int].3@)));
            let is_h = match hpos {
                Some(h) => h == j,
                None => false,
            };
            let below = match hpos {
                Some(h) => h == p,
                None => false,
            };
            let ghost ids0 = ids@;
            let ghost tb = tree;
            assert(flat@[j as int].0 < j);
            assert(fs[j as int].0 == p as int);
            assert(fs[j as int].1 == kind as nat);
            assert(is_h == (hp == Some(j as int)));
            assert(below == (hp == Some(p as int)));
            assert(cd@[p as int] == dest_opt(tree, ids@, child_dest(fs, hp, p as int)));
            proof {
                lemma_child_dest_at(fs, hp, p as int);
                tree.lemma_finite();
                tree.lemma_roots_in();
            }
            if is_h || (below && kind == 1 && (str_eq(flat[j].2.as_str(), "head") || str_eq(flat[j].2.as_str(), "body"))) {
                if is_h {
                    cd.push(Some(html_node));
                } else if str_eq(flat[j].2.as_str(), "head") {
                    cd.push(Some(head_node));
                } else {
                    cd.push(Some(body_node));
                }
                ids.push(0);
                proof {
                    lemma_step_skip(tree, fs, hp, ids0, ids@, j as int);
                }
            } else {
                match cd[p] {
                    Some(x) => {
                        if 1 <= kind && kind <= 3 {
                            proof {
                                lemma_child_dest_at(fs, hp, p as int);
                                assert(node_dest(fs, hp, j as int) == child_dest(fs, hp, p as int));
                            }
                            let t = if kind == 1 {
                                let tag = to_lowercase(flat[j].2.as_str());
                                let attributes = NamedNodeMap::from_pairs(copy_pairs(&flat[j].3));
                                tree.create_element_with_attrs(tag.as_str(), attributes)
                            } else if kind == 2 {
                                tree.create_text(flat[j].2.as_str())
                            } else {
                                tree.create_comment(flat[j].2.as_str())
                            };
                            let ghost t1 = tree;
                            proof {
                                tree.lemma_roots_in();
                                assert(tree.nodes().dom() =~= tb.nodes().dom().insert(t.0));
                                assert(tree.nodes()[t.0].parent is None);
                            }
                            tree.append_child(x, t);
                            if kind == 1 {
                                cd.push(Some(t));
                            } else {
                                cd.push(None);
                            }
                            ids.push(t.0);
                            proof {
                                lemma_step_copy(tb, t1, tree, fs, hp, ids0, ids@, j as int, x, t);
                            }
                        } else {
                            if kind == 0 {
                                cd.push(Some(x));
                            } else {
                                cd.push(None);
                            }
                            ids.push(0);
                            proof {
                                lemma_step_skip(tree, fs, hp, ids0, ids@, j as int);
                            }
                        }
                    },
                    None => {
                        cd.push(None);
                        ids.push(0);
                        proof {
                            lemma_step_skip(tree, fs, hp, ids0, ids@, j as int);
                        }
                    },
                }
            }
            assert forall|k: int| 0 <= k < j + 1 implies #[trigger] cd@[k] == dest_opt(tree, ids@, child_dest(fs, hp, k)) by {
                lemma_child_dest_at(fs, hp, k);
                if k < j {
                    lemma_child_dest_at(fs, hp, k);
                }
            }
            j = j + 1;
        }
        proof {
            assert(parsed_into(tree, fs, ids@));
        }
        tree
    }

    /// The `<script>` elements under the tree's html element, in document order.
    pub fn collect_scripts(tree: &DomTree) -> (r: Vec<ScriptInfo>)
        requires
            tree.wf(),
        ensures
            scripts_view(r@) == scripts_under(tree.nodes(), tree.html_id().0, tree.size(), tree.size()),
    {
        proof {
            tree.lemma_roots_in();
        }
        let n = tree.node_count();
        let mut scripts: Vec<ScriptInfo> = Vec::new();
        Self::walk_for_scripts(tree, tree.html_node(), n, &mut scripts);
        assert(scripts_view(scripts@) =~= seq![] + scripts_under(
            tree.nodes(),
            tree.html_id().0,
            tree.size(),
            tree.size(),
        ));
        scripts
    }

    /// The text of the Text children of `node`.
    fn direct_text_of(tree: &DomTree, node: NodeId) -> (r: String)
        requires
            tree.wf(),
            tree.contains(node),
        ensures
            r@ == direct_text(tree.nodes(), tree.nodes()[node.0].first_child, tree.size()),
    {
        let ghost m = tree.nodes();
        proof {
            tree.lemma_links_in(node);
        }
        let mut out = String::new();
        let mut child = tree.get_node(node).first_child;
        let mut budget = tree.node_count();
        assert(out@ + direct_text(m, child, budget as nat) =~= direct_text(
            m,
            m[node.0].first_child,
            tree.size(),
        ));
        while budget > 0 && child.is_some()
            invariant
                tree.wf(),
                m == tree.nodes(),
                crate::tree::has(m, child),
                out@ + direct_text(m, child, budget as nat) == direct_text(
                    m,
                    m[node.0].first_child,
                    tree.size(),
                ),
            decreases budget,
        {
            let c = child.unwrap();
            proof {
                tree.lemma_links_in(c);
            }
            let ghost before = out@;
            let cn = tree.get_node(c);
            match &cn.kind {
                NodeKind::Text(t) => string_push_str(&mut out, t.data.as_str()),
                _ => {},
            }
            assert(before + direct_text(m, child, budget as nat) =~= out@ + direct_text(
                m,
                m[c.0].next_sibling,
                (budget - 1) as nat,
            ));
            child = cn.next_sibling;
            budget = budget - 1;
        }
        assert(out@ + direct_text(m, child, budget as nat) =~= out@);
        out
    }

    fn walk_for_scripts(tree: &DomTree, node: NodeId, depth: usize, scripts: &mut Vec<ScriptInfo>)
        requires
            tree.wf(),
            tree.contains(node),
        ensures
            scripts_view(final(scripts)@) == scripts_view(old(scripts)@) + scripts_under(
                tree.nodes(),
                node.0,
                depth as nat,
                tree.size(),
            ),
        decreases depth,
    {
        let ghost m = tree.nodes();
        let ghost w = tree.size();
        if depth == 0 {
            assert(scripts_view(old(scripts)@) + seq![] =~= scripts_view(old(scripts)@));
            return;
        }
        proof {
            tree.lemma_links_in(node);
            reveal_strlit("script");
            reveal_strlit("src");
            assert("script"@ =~= script_name());
            assert("src"@ =~= seq!['s', 'r', 'c']);
        }
        let ghost before = scripts_view(scripts@);
        let n = tree.get_node(node);
        match &n.kind {
            NodeKind::Element(el) => {
                if str_eq_ignore_case(el.tag_name.as_str(), "script") {
                    let src = match el.attributes.get_value("src") {
                        Some(v) => Some(v.to_owned()),
                        None => None,
                    };
                    let text = Self::direct_text_of(tree, node);
                    let inline_content = if text.as_str().is_empty() {
                        None
                    } else {
                        Some(text)
                    };
                    let info = ScriptInfo { src, inline_content };
                    let ghost iv = script_view(info);
                    scripts.push(info);
                    assert(scripts_view(scripts@) =~= before.push(iv));
                }
            },
            _ => {},
        }
        let mut child = n.first_child;
        let mut budget = tree.node_count();
        proof {
            let own = match script_at(m, node.0, w) {
                Some(s) => seq![s],
                None => seq![],
            };
            assert(scripts_view(scripts@) =~= before + own);
            assert(before + scripts_under(m, node.0, depth as nat, w) =~= scripts_view(scripts@)
                + scripts_of_kids(m, child, (depth - 1) as nat, w, budget as nat));
        }
        while budget > 0 && child.is_some()
            invariant
                tree.wf(),
                m == tree.nodes(),
                w == tree.size(),
                depth > 0,
                crate::tree::has(m, child),
                scripts_view(old(scripts)@) + scripts_under(m, node.0, depth as nat, w) == scripts_view(
                    scripts@,
                ) + scripts_of_kids(m, child, (depth - 1) as nat, w, budget as nat),
            decreases budget,
        {
            let c = child.unwrap();
            proof {
                tree.lemma_links_in(c);
            }
            let ghost b2 = scripts_view(scripts@);
            Self::walk_for_scripts(tree, c, depth - 1, scripts);
            assert(b2 + scripts_of_kids(m, child, (depth - 1) as nat, w, budget as nat) =~= scripts_view(
                scripts@,
            ) + scripts_of_kids(m, m[c.0].next_sibling, (depth - 1) as nat, w, (budget - 1) as nat));
            child = tree.get_node(c).next_sibling;
            budget = budget - 1;
        }
        assert(scripts_view(scripts@) + scripts_of_kids(m, child, (depth - 1) as nat, w, budget as nat)
            =~= scripts_view(scripts@));
    }
}

} // verus!

//! The DOM tree: nodes held in a `slotmap::SlotMap`, linked by parent, child and
//! sibling handles, with an index of element ids.
use vstd::prelude::*;
use slotmap::{DefaultKey, Key, KeyData, SlotMap};
use crate::node::{DomNode, NodeId, NodeKind, DocumentData, DocumentReadyState, ElementData, TextData, CommentData, NamedNodeMap, InlineStyle, ascii_upper, merge_declarations};
use crate::request::{header_lookup, HeadersV, key_index, lemma_key_index_bound, lemma_key_index_of};
use crate::text::{str_eq, string_push_str, split_words, strings_view, split_ws, split_char, upper_seq};

verus! {

// ───────────────────────────── the slot map ─────────────────────────────────

/// The nodes, in a `slotmap::SlotMap` keyed by `DefaultKey`. Nothing is ever removed
/// from it, so every slot it has made is occupied.
#[verifier::external_body]
pub struct NodeSlots {
    slots: SlotMap<DefaultKey, DomNode>,
}

/// What the slot map holds: each occupied key, as `KeyData::as_ffi`, to its node.
pub uninterp spec fn slot_nodes(s: NodeSlots) -> Map<u64, DomNode>;

/// A key value as `KeyData::as_ffi` writes it: the version half is odd.
pub open spec fn canonical(k: u64) -> bool {
    (k / 0x1_0000_0000) % 2 == 1
}

/// `SlotMap::new`: an empty map.
#[verifier::external_body]
fn slots_new() -> (r: NodeSlots)
    ensures
        slot_nodes(r).dom().len() == 0,
        slot_nodes(r).dom().finite(),
{
    NodeSlots { slots: SlotMap::new() }
}

/// `SlotMap::insert`, the key returned as `as_ffi`: a key that was not occupied, with
/// an odd version. With every slot occupied (nothing is removed from a `NodeSlots`)
/// the map makes a new slot, and it panics when it would hold `u32::MAX - 1` of them,
/// which `requires` excludes.
#[verifier::external_body]
fn slots_insert(s: &mut NodeSlots, n: DomNode) -> (k: u64)
    requires
        slot_nodes(*old(s)).dom().len() < 0xffff_fffe,
    ensures
        !slot_nodes(*old(s)).dom().contains(k),
        canonical(k),
        slot_nodes(*final(s)) == slot_nodes(*old(s)).insert(k, n),
{
    s.slots.insert(n).data().as_ffi()
}

/// `SlotMap::len`: the number of occupied slots.
#[verifier::external_body]
fn slots_len(s: &NodeSlots) -> (r: usize)
    ensures
        r == slot_nodes(*s).dom().len(),
{
    s.slots.len()
}

/// `SlotMap::contains_key` on the key `KeyData::from_ffi(k)`, for an odd-versioned `k`.
#[verifier::external_body]
fn slots_contains(s: &NodeSlots, k: u64) -> (r: bool)
    requires
        canonical(k),
    ensures
        r == slot_nodes(*s).dom().contains(k),
{
    s.slots.contains_key(DefaultKey::from(KeyData::from_ffi(k)))
}

/// `SlotMap` indexing with the key `KeyData::from_ffi(k)`; it panics on a key that is
/// not occupied, which `requires` excludes.
#[verifier::external_body]
fn slots_get(s: &NodeSlots, k: u64) -> (r: &DomNode)
    requires
        canonical(k),
        slot_nodes(*s).dom().contains(k),
    ensures
        *r == slot_nodes(*s)[k],
{
    &s.slots[DefaultKey::from(KeyData::from_ffi(k))]
}

/// `SlotMap` mutable indexing with the key `KeyData::from_ffi(k)`; what is written
/// through the reference is what the map then holds under `k`.
#[verifier::external_body]
fn slots_get_mut(s: &mut NodeSlots, k: u64) -> (r: &mut DomNode)
    requires
        canonical(k),
        slot_nodes(*old(s)).dom().contains(k),
    ensures
        *r == slot_nodes(*old(s))[k],
        slot_nodes(*final(s)) == slot_nodes(*old(s)).insert(k, *final(r)),
{
    &mut s.slots[DefaultKey::from(KeyData::from_ffi(k))]
}

/// `SlotMap::keys`, each key as `KeyData::as_ffi`: every occupied key once, in slot
/// order; the slot index is the low half of `as_ffi`, so the low halves rise.
#[verifier::external_body]
fn slots_keys(s: &NodeSlots) -> (r: Vec<u64>)
    ensures
        forall|k: u64| slot_nodes(*s).dom().contains(k) <==> r@.contains(k),
        forall|i: int, j: int| 0 <= i < j < r@.len() ==> r@[i] % 0x1_0000_0000 < r@[j] % 0x1_0000_0000,
{
    let mut v = Vec::new();
    for k in s.slots.keys() {
        v.push(k.data().as_ffi());
    }
    v
}

// ──────────────────────────── tree consistency ──────────────────────────────

pub type Nodes = Map<u64, DomNode>;

pub open spec fn has(m: Nodes, o: Option<NodeId>) -> bool {
    match o {
        Some(x) => m.dom().contains(x.0),
        None => true,
    }
}

/// Every link of `n` names a node of `m`.
pub open spec fn links_in(m: Nodes, n: DomNode) -> bool {
    &&& has(m, n.parent)
    &&& has(m, n.first_child)
    &&& has(m, n.last_child)
    &&& has(m, n.next_sibling)
    &&& has(m, n.prev_sibling)
}

/// Every link names a node of the tree.
pub open spec fn links_closed(m: Nodes) -> bool {
    forall|k: u64| #![trigger m[k]] m.dom().contains(k) ==> links_in(m, m[k])
}

/// The links of node `k` agree with its neighbours': siblings point at each other and
/// share a parent, a first and last child point back at their parent and end the sibling
/// chain, a child at either end of the chain is its parent's first or last child, and a
/// node without a parent has no siblings.
pub open spec fn node_ok(m: Nodes, k: u64) -> bool {
    &&& (m[k].next_sibling matches Some(j) ==> m[j.0].prev_sibling == Some(NodeId(k))
        && m[j.0].parent == m[k].parent)
    &&& (m[k].prev_sibling matches Some(j) ==> m[j.0].next_sibling == Some(NodeId(k)))
    &&& (m[k].first_child matches Some(c) ==> m[c.0].parent == Some(NodeId(k))
        && m[c.0].prev_sibling is None)
    &&& (m[k].last_child matches Some(c) ==> m[c.0].parent == Some(NodeId(k))
        && m[c.0].next_sibling is None)
    &&& (m[k].first_child is None <==> m[k].last_child is None)
    &&& (m[k].parent matches Some(p) ==> (m[k].prev_sibling is None ==> m[p.0].first_child
        == Some(NodeId(k))))
    &&& (m[k].parent matches Some(p) ==> (m[k].next_sibling is None ==> m[p.0].last_child
        == Some(NodeId(k))))
    &&& (m[k].parent is None ==> m[k].prev_sibling is None && m[k].next_sibling is None)
}

/// The links of every node agree with its neighbours'.
#[verifier::opaque]
pub open spec fn links_consistent(m: Nodes) -> bool {
    forall|k: u64| #[trigger] m.dom().contains(k) ==> node_ok(m, k)
}

/// The id index: element id value to node, in order of first indexing.
pub type IdIndexV = Seq<(Seq<char>, NodeId)>;

pub open spec fn id_index_view(v: Seq<(String, NodeId)>) -> IdIndexV {
    v.map_values(|e: (String, NodeId)| (e.0@, e.1))
}

/// The index with its values dropped, to search it by key.
pub open spec fn id_keys(idx: IdIndexV) -> HeadersV {
    idx.map_values(|e: (Seq<char>, NodeId)| (e.0, Seq::<char>::empty()))
}

/// The position of `k` in the index.
pub open spec fn id_position(idx: IdIndexV, k: Seq<char>) -> Option<int> {
    key_index(id_keys(idx), k)
}

/// `HashMap::insert` on the index.
pub open spec fn id_insert(idx: IdIndexV, k: Seq<char>, n: NodeId) -> IdIndexV {
    match id_position(idx, k) {
        Some(i) => idx.update(i, (k, n)),
        None => idx.push((k, n)),
    }
}

/// `HashMap::remove` on the index.
pub open spec fn id_remove(idx: IdIndexV, k: Seq<char>) -> IdIndexV {
    match id_position(idx, k) {
        Some(i) => idx.remove(i),
        None => idx,
    }
}

pub open spec fn id_lookup(idx: IdIndexV, k: Seq<char>) -> Option<NodeId> {
    match id_position(idx, k) {
        Some(i) => Some(idx[i].1),
        None => None,
    }
}

/// The `id` attribute of an element node.
pub open spec fn id_attr(n: DomNode) -> Option<Seq<char>> {
    match n.kind {
        NodeKind::Element(e) => header_lookup(e.attributes@, seq!['i', 'd']),
        _ => None,
    }
}

/// The index after indexing `node`.
pub open spec fn index_add(idx: IdIndexV, n: DomNode, node: NodeId) -> IdIndexV {
    match id_attr(n) {
        Some(v) => id_insert(idx, v, node),
        None => idx,
    }
}

/// The index after un-indexing `node`.
pub open spec fn index_drop(idx: IdIndexV, n: DomNode) -> IdIndexV {
    match id_attr(n) {
        Some(v) => id_remove(idx, v),
        None => idx,
    }
}

// ──────────────────────── structural tree operations ────────────────────────

/// `child` taken out of `parent`'s child list: its neighbours are joined and it is
/// left without parent or siblings.
pub open spec fn unlinked(m: Nodes, parent: u64, child: u64) -> Nodes {
    let prev = m[child].prev_sibling;
    let next = m[child].next_sibling;
    let m1 = match prev {
        Some(x) => m.insert(x.0, DomNode { next_sibling: next, ..m[x.0] }),
        None => m.insert(parent, DomNode { first_child: next, ..m[parent] }),
    };
    let m2 = match next {
        Some(y) => m1.insert(y.0, DomNode { prev_sibling: prev, ..m1[y.0] }),
        None => m1.insert(parent, DomNode { last_child: prev, ..m1[parent] }),
    };
    m2.insert(child, DomNode { parent: None, prev_sibling: None, next_sibling: None, ..m2[child] })
}

/// `child` linked in as `parent`'s last child.
pub open spec fn linked_last(m: Nodes, parent: u64, child: u64) -> Nodes {
    let m1 = m.insert(child, DomNode { parent: Some(NodeId(parent)), ..m[child] });
    match m1[parent].last_child {
        Some(l) => {
            let m2 = m1.insert(l.0, DomNode { next_sibling: Some(NodeId(child)), ..m1[l.0] });
            let m3 = m2.insert(child, DomNode { prev_sibling: Some(l), ..m2[child] });
            m3.insert(parent, DomNode { last_child: Some(NodeId(child)), ..m3[parent] })
        },
        None => m1.insert(
            parent,
            DomNode { first_child: Some(NodeId(child)), last_child: Some(NodeId(child)), ..m1[parent] },
        ),
    }
}

/// `child` linked in before `reference` under `parent`.
pub open spec fn linked_before(m: Nodes, parent: u64, child: u64, reference: u64) -> Nodes {
    let prev = m[reference].prev_sibling;
    let m1 = m.insert(
        child,
        DomNode {
            parent: Some(NodeId(parent)),
            next_sibling: Some(NodeId(reference)),
            prev_sibling: prev,
            ..m[child]
        },
    );
    let m2 = m1.insert(reference, DomNode { prev_sibling: Some(NodeId(child)), ..m1[reference] });
    match prev {
        Some(x) => m2.insert(x.0, DomNode { next_sibling: Some(NodeId(child)), ..m2[x.0] }),
        None => m2.insert(parent, DomNode { first_child: Some(NodeId(child)), ..m2[parent] }),
    }
}

/// The tree state: nodes and id index, before detaching `child` from its old parent.
pub open spec fn detached(m: Nodes, idx: IdIndexV, child: u64) -> (Nodes, IdIndexV) {
    match m[child].parent {
        Some(p) => (unlinked(m, p.0, child), index_drop(idx, m[child])),
        None => (m, idx),
    }
}

// ─────────────────────────────── traversals ─────────────────────────────────

/// The sibling chain from `start`, at most `fuel` nodes long.
pub open spec fn sibling_walk(m: Nodes, start: Option<NodeId>, fuel: nat) -> Seq<NodeId>
    decreases fuel,
{
    if fuel == 0 {
        seq![]
    } else {
        match start {
            Some(k) => if m.dom().contains(k.0) {
                seq![k] + sibling_walk(m, m[k.0].next_sibling, (fuel - 1) as nat)
            } else {
                seq![]
            },
            None => seq![],
        }
    }
}

/// The text of the Text nodes under `k` (itself included), in document order, looking
/// at most `depth` levels down and `width` siblings across.
pub open spec fn text_under(m: Nodes, k: u64, depth: nat, width: nat) -> Seq<char>
    decreases depth, 0nat, 0nat,
{
    if depth == 0 || !m.dom().contains(k) {
        seq![]
    } else {
        let own = match m[k].kind {
            NodeKind::Text(t) => t.data@,
            _ => seq![],
        };
        own + text_of_siblings(m, m[k].first_child, (depth - 1) as nat, width, width)
    }
}

/// The text under each node of the sibling chain from `start`, at most `budget` nodes.
pub open spec fn text_of_siblings(
    m: Nodes,
    start: Option<NodeId>,
    depth: nat,
    width: nat,
    budget: nat,
) -> Seq<char>
    decreases depth, 1nat, budget,
{
    if budget == 0 {
        seq![]
    } else {
        match start {
            Some(c) => if m.dom().contains(c.0) {
                text_under(m, c.0, depth, width) + text_of_siblings(
                    m,
                    m[c.0].next_sibling,
                    depth,
                    width,
                    (budget - 1) as nat,
                )
            } else {
                seq![]
            },
            None => seq![],
        }
    }
}

// ──────────────────────────────── the tree ──────────────────────────────────

/// The DOM tree.
pub struct DomTree {
    nodes: NodeSlots,
    id_index: Vec<(String, NodeId)>,
    document_node: NodeId,
    html_node: NodeId,
    head_node: NodeId,
    body_node: NodeId,
}

impl DomTree {
    /// The nodes of the tree, by handle value.
    pub closed spec fn nodes(&self) -> Nodes {
        slot_nodes(self.nodes)
    }

    /// The id index.
    pub closed spec fn index(&self) -> IdIndexV {
        id_index_view(self.id_index@)
    }

    pub closed spec fn document_id(&self) -> NodeId {
        self.document_node
    }

    pub closed spec fn html_id(&self) -> NodeId {
        self.html_node
    }

    pub closed spec fn head_id(&self) -> NodeId {
        self.head_node
    }

    pub closed spec fn body_id(&self) -> NodeId {
        self.body_node
    }

    pub open spec fn contains(&self, n: NodeId) -> bool {
        self.nodes().dom().contains(n.0)
    }

    /// The number of nodes.
    pub open spec fn size(&self) -> nat {
        self.nodes().dom().len()
    }

    /// Well-formed: handles are genuine slot-map keys, the distinguished nodes exist,
    /// and every link names a node of the tree.
    pub closed spec fn wf(&self) -> bool {
        let m = slot_nodes(self.nodes);
        &&& m.dom().finite()
        &&& forall|k: u64| #[trigger] m.dom().contains(k) ==> canonical(k)
        &&& m.dom().contains(self.document_node.0)
        &&& m.dom().contains(self.html_node.0)
        &&& m.dom().contains(self.head_node.0)
        &&& m.dom().contains(self.body_node.0)
        &&& links_closed(m)
        &&& crate::request::distinct_keys(id_keys(id_index_view(self.id_index@)))
    }

    /// The links of the tree agree with each other.
    pub open spec fn consistent(&self) -> bool {
        links_consistent(self.nodes())
    }

    /// The skeleton of a new tree: document, then html, then head and body.
    pub open spec fn is_skeleton(&self) -> bool {
        let m = self.nodes();
        let (d, h, hd, b) = (self.document_id(), self.html_id(), self.head_id(), self.body_id());
        &&& m.dom() == set![d.0, h.0, hd.0, b.0]
        &&& d != h && d != hd && d != b && h != hd && h != b && hd != b
        &&& m[d.0].kind is Document
        &&& m[d.0].parent is None
        &&& m[d.0].first_child == Some(h) && m[d.0].last_child == Some(h)
        &&& m[h.0].parent == Some(d) && m[h.0].first_child == Some(hd) && m[h.0].last_child == Some(
            b,
        )
        &&& m[hd.0].parent == Some(h) && m[hd.0].next_sibling == Some(b)
        &&& m[b.0].parent == Some(h) && m[b.0].prev_sibling == Some(hd)
        &&& m[h.0].kind matches NodeKind::Element(e) && e.tag_name@ == seq!['H', 'T', 'M', 'L']
        &&& m[hd.0].kind matches NodeKind::Element(e) && e.tag_name@ == seq!['H', 'E', 'A', 'D']
        &&& m[b.0].kind matches NodeKind::Element(e) && e.tag_name@ == seq!['B', 'O', 'D', 'Y']
    }
}


/// The class names an element takes from its `class` attribute.
pub open spec fn class_names(attrs: HeadersV) -> Seq<Seq<char>> {
    match header_lookup(attrs, seq!['c', 'l', 'a', 's', 's']) {
        Some(c) => split_ws(c),
        None => seq![],
    }
}

/// The inline style an element takes from its `style` attribute.
pub open spec fn style_of(attrs: HeadersV) -> HeadersV {
    match header_lookup(attrs, seq!['s', 't', 'y', 'l', 'e']) {
        Some(css) => merge_declarations(seq![], split_char(css, ';')),
        None => seq![],
    }
}

// ───────────────────────────── node updates ─────────────────────────────────

/// Every node of `a` has the same kind in `b`.
pub open spec fn same_kinds(a: Nodes, b: Nodes) -> bool {
    forall|j: u64| #![trigger b[j]] a.dom().contains(j) ==> b[j].kind == a[j].kind
}

/// A node of the given kind, linked to nothing.
pub open spec fn fresh(kind: NodeKind) -> DomNode {
    DomNode {
        kind,
        parent: None,
        first_child: None,
        last_child: None,
        next_sibling: None,
        prev_sibling: None,
    }
}

fn set_parent(s: &mut NodeSlots, k: u64, v: Option<NodeId>)
    requires
        canonical(k),
        slot_nodes(*old(s)).dom().contains(k),
    ensures
        slot_nodes(*final(s)) == slot_nodes(*old(s)).insert(
            k,
            DomNode { parent: v, ..slot_nodes(*old(s))[k] },
        ),
        links_closed(slot_nodes(*old(s))) && has(slot_nodes(*old(s)), v) ==> links_closed(
            slot_nodes(*final(s)),
        ),
        same_kinds(slot_nodes(*old(s)), slot_nodes(*final(s))),
{
    let ghost m = slot_nodes(*s);
    let n = slots_get_mut(s, k);
    n.parent = v;
    proof {
        if links_closed(m) && has(m, v) {
            assert(links_in(m, m[k]));
            lemma_closed_insert(m, k, DomNode { parent: v, ..m[k] });
        }
    }
}

fn set_first_child(s: &mut NodeSlots, k: u64, v: Option<NodeId>)
    requires
        canonical(k),
        slot_nodes(*old(s)).dom().contains(k),
    ensures
        slot_nodes(*final(s)) == slot_nodes(*old(s)).insert(
            k,
            DomNode { first_child: v, ..slot_nodes(*old(s))[k] },
        ),
        links_closed(slot_nodes(*old(s))) && has(slot_nodes(*old(s)), v) ==> links_closed(
            slot_nodes(*final(s)),
        ),
        same_kinds(slot_nodes(*old(s)), slot_nodes(*final(s))),
{
    let ghost m = slot_nodes(*s);
    let n = slots_get_mut(s, k);
    n.first_child = v;
    proof {
        if links_closed(m) && has(m, v) {
            assert(links_in(m, m[k]));
            lemma_closed_insert(m, k, DomNode { first_child: v, ..m[k] });
        }
    }
}

fn set_last_child(s: &mut NodeSlots, k: u64, v: Option<NodeId>)
    requires
        canonical(k),
        slot_nodes(*old(s)).dom().contains(k),
    ensures
        slot_nodes(*final(s)) == slot_nodes(*old(s)).insert(
            k,
            DomNode { last_child: v, ..slot_nodes(*old(s))[k] },
        ),
        links_closed(slot_nodes(*old(s))) && has(slot_nodes(*old(s)), v) ==> links_closed(
            slot_nodes(*final(s)),
        ),
        same_kinds(slot_nodes(*old(s)), slot_nodes(*final(s))),
{
    let ghost m = slot_nodes(*s);
    let n = slots_get_mut(s, k);
    n.last_child = v;
    proof {
        if links_closed(m) && has(m, v) {
            assert(links_in(m, m[k]));
            lemma_closed_insert(m, k, DomNode { last_child: v, ..m[k] });
        }
    }
}

fn set_next_sibling(s: &mut NodeSlots, k: u64, v: Option<NodeId>)
    requires
        canonical(k),
        slot_nodes(*old(s)).dom().contains(k),
    ensures
        slot_nodes(*final(s)) == slot_nodes(*old(s)).insert(
            k,
            DomNode { next_sibling: v, ..slot_nodes(*old(s))[k] },
        ),
        links_closed(slot_nodes(*old(s))) && has(slot_nodes(*old(s)), v) ==> links_closed(
            slot_nodes(*final(s)),
        ),
        same_kinds(slot_nodes(*old(s)), slot_nodes(*final(s))),
{
    let ghost m = slot_nodes(*s);
    let n = slots_get_mut(s, k);
    n.next_sibling = v;
    proof {
        if links_closed(m) && has(m, v) {
            assert(links_in(m, m[k]));
            lemma_closed_insert(m, k, DomNode { next_sibling: v, ..m[k] });
        }
    }
}

fn set_prev_sibling(s: &mut NodeSlots, k: u64, v: Option<NodeId>)
    requires
        canonical(k),
        slot_nodes(*old(s)).dom().contains(k),
    ensures
        slot_nodes(*final(s)) == slot_nodes(*old(s)).insert(
            k,
            DomNode { prev_sibling: v, ..slot_nodes(*old(s))[k] },
        ),
        links_closed(slot_nodes(*old(s))) && has(slot_nodes(*old(s)), v) ==> links_closed(
            slot_nodes(*final(s)),
        ),
        same_kinds(slot_nodes(*old(s)), slot_nodes(*final(s))),
{
    let ghost m = slot_nodes(*s);
    let n = slots_get_mut(s, k);
    n.prev_sibling = v;
    proof {
        if links_closed(m) && has(m, v) {
            assert(links_in(m, m[k]));
            lemma_closed_insert(m, k, DomNode { prev_sibling: v, ..m[k] });
        }
    }
}

/// Replacing a node by one whose links name nodes of the tree keeps the links closed.
proof fn lemma_closed_insert(m: Nodes, k: u64, n: DomNode)
    requires
        links_closed(m),
        links_in(m.insert(k, n), n),
    ensures
        links_closed(m.insert(k, n)),
{
    let m2 = m.insert(k, n);
    assert forall|j: u64| #![trigger m2[j]] m2.dom().contains(j) implies links_in(m2, m2[j]) by {
        if j != k {
            assert(links_in(m, m[j]));
        }
    }
}

/// `n` with its kind replaced.
pub open spec fn relabel(n: DomNode, kind: NodeKind) -> DomNode {
    DomNode { kind, ..n }
}

/// Changing the kind of a node keeps the links closed and consistent.
proof fn lemma_relabel(m: Nodes, k: u64)
    requires
        links_closed(m),
        m.dom().contains(k),
    ensures
        forall|kind: NodeKind| #[trigger] links_closed(m.insert(k, relabel(m[k], kind))),
        forall|kind: NodeKind|
            links_consistent(m) ==> #[trigger] links_consistent(m.insert(k, relabel(m[k], kind))),
{
    assert forall|kind: NodeKind| #[trigger] links_closed(m.insert(k, relabel(m[k], kind))) by {
        assert(links_in(m, m[k]));
        lemma_closed_insert(m, k, relabel(m[k], kind));
    }
    assert forall|kind: NodeKind|
        links_consistent(m) implies #[trigger] links_consistent(m.insert(k, relabel(m[k], kind))) by {
        let m2 = m.insert(k, relabel(m[k], kind));
        reveal(links_consistent);
        assert forall|j: u64| #![trigger m2[j]] m2.dom().contains(j) implies m2[j].parent == m[j].parent
            && m2[j].first_child == m[j].first_child && m2[j].last_child == m[j].last_child
            && m2[j].next_sibling == m[j].next_sibling && m2[j].prev_sibling == m[j].prev_sibling by {}
    }
}

/// Adding a node linked to nothing keeps the links consistent.
proof fn lemma_fresh_consistent(m: Nodes, k: u64, kind: NodeKind)
    requires
        links_closed(m),
        links_consistent(m),
        !m.dom().contains(k),
    ensures
        links_consistent(m.insert(k, fresh(kind))),
{
    let m2 = m.insert(k, fresh(kind));
    reveal(links_consistent);
    assert forall|j: u64| #![trigger m2[j]] m2.dom().contains(j) && j != k implies m2[j] == m[j]
        && links_in(m, m[j]) by {}
}

/// Links `c` in as the last child of `p`.
fn link_last(s: &mut NodeSlots, p: u64, c: u64)
    requires
        canonical(p),
        canonical(c),
        slot_nodes(*old(s)).dom().contains(p),
        slot_nodes(*old(s)).dom().contains(c),
        links_closed(slot_nodes(*old(s))),
        forall|k: u64| #[trigger] slot_nodes(*old(s)).dom().contains(k) ==> canonical(k),
    ensures
        slot_nodes(*final(s)) == linked_last(slot_nodes(*old(s)), p, c),
        links_closed(slot_nodes(*final(s))),
        same_kinds(slot_nodes(*old(s)), slot_nodes(*final(s))),
        slot_nodes(*final(s)).dom() == slot_nodes(*old(s)).dom(),
{
    let ghost m = slot_nodes(*s);
    set_parent(s, c, Some(NodeId(p)));
    let last = slots_get(s, p).last_child;
    proof {
        assert(links_in(slot_nodes(*s), slot_nodes(*s)[p]));
    }
    match last {
        Some(l) => {
            set_next_sibling(s, l.0, Some(NodeId(c)));
            set_prev_sibling(s, c, Some(l));
            set_last_child(s, p, Some(NodeId(c)));
        },
        None => {
            set_first_child(s, p, Some(NodeId(c)));
            set_last_child(s, p, Some(NodeId(c)));
        },
    }
    assert(slot_nodes(*s) =~= linked_last(m, p, c));
}

/// Links `c` in before `r`, under `p`.
fn link_before(s: &mut NodeSlots, p: u64, c: u64, r: u64)
    requires
        canonical(p),
        canonical(c),
        canonical(r),
        slot_nodes(*old(s)).dom().contains(p),
        slot_nodes(*old(s)).dom().contains(c),
        slot_nodes(*old(s)).dom().contains(r),
        links_closed(slot_nodes(*old(s))),
        forall|k: u64| #[trigger] slot_nodes(*old(s)).dom().contains(k) ==> canonical(k),
    ensures
        slot_nodes(*final(s)) == linked_before(slot_nodes(*old(s)), p, c, r),
        links_closed(slot_nodes(*final(s))),
        same_kinds(slot_nodes(*old(s)), slot_nodes(*final(s))),
        slot_nodes(*final(s)).dom() == slot_nodes(*old(s)).dom(),
{
    let ghost m = slot_nodes(*s);
    let prev = slots_get(s, r).prev_sibling;
    proof {
        assert(links_in(m, m[r]));
    }
    set_parent(s, c, Some(NodeId(p)));
    set_next_sibling(s, c, Some(NodeId(r)));
    set_prev_sibling(s, c, prev);
    set_prev_sibling(s, r, Some(NodeId(c)));
    match prev {
        Some(x) => set_next_sibling(s, x.0, Some(NodeId(c))),
        None => set_first_child(s, p, Some(NodeId(c))),
    }
    assert(slot_nodes(*s) =~= linked_before(m, p, c, r));
}

// ───────────────────────────── the id index ─────────────────────────────────

/// The position of `key` in the index.
fn index_find(v: &Vec<(String, NodeId)>, key: &str) -> (r: Option<usize>)
    ensures
        match r {
            Some(i) => i < v@.len() && id_position(id_index_view(v@), key@) == Some(i as int),
            None => id_position(id_index_view(v@), key@) is None,
        },
{
    let ghost ks = id_keys(id_index_view(v@));
    let mut i: usize = 0;
    while i < v.len()
        invariant
            i <= v@.len(),
            ks == id_keys(id_index_view(v@)),
            ks.len() == v@.len(),
            forall|j: int| 0 <= j < i ==> ks[j].0 != key@,
        decreases v@.len() - i,
    {
        assert(ks[i as int].0 == v@[i as int].0@);
        if str_eq(v[i].0.as_str(), key) {
            proof {
                lemma_key_index_of(ks, key@, i as int);
            }
            return Some(i);
        }
        i = i + 1;
    }
    proof {
        lemma_key_index_bound(ks, key@);
    }
    None
}

/// `HashMap::insert` on the index.
fn index_insert(v: &mut Vec<(String, NodeId)>, key: &str, node: NodeId)
    ensures
        id_index_view(final(v)@) == id_insert(id_index_view(old(v)@), key@, node),
        crate::request::distinct_keys(id_keys(id_index_view(old(v)@))) ==> crate::request::distinct_keys(
            id_keys(id_index_view(final(v)@)),
        ),
{
    proof {
        lemma_id_insert_keys(id_index_view(v@), key@, node);
        if crate::request::distinct_keys(id_keys(id_index_view(v@))) {
            crate::request::lemma_header_set_get(id_keys(id_index_view(v@)), key@, Seq::empty(), key@);
        }
    }
    let e = (key.to_owned(), node);
    match index_find(v, key) {
        Some(i) => {
            v.set(i, e);
            assert(id_index_view(v@) =~= id_index_view(old(v)@).update(i as int, (key@, node)));
        },
        None => {
            v.push(e);
            assert(id_index_view(v@) =~= id_index_view(old(v)@).push((key@, node)));
        },
    }
}

/// `HashMap::remove` on the index.
fn index_remove(v: &mut Vec<(String, NodeId)>, key: &str)
    ensures
        id_index_view(final(v)@) == id_remove(id_index_view(old(v)@), key@),
        crate::request::distinct_keys(id_keys(id_index_view(old(v)@))) ==> crate::request::distinct_keys(
            id_keys(id_index_view(final(v)@)),
        ),
{
    proof {
        lemma_id_remove_keys(id_index_view(v@), key@);
        if crate::request::distinct_keys(id_keys(id_index_view(v@))) {
            crate::node::lemma_without_key(id_keys(id_index_view(v@)), key@);
        }
    }
    match index_find(v, key) {
        Some(i) => {
            v.remove(i);
            assert(id_index_view(v@) =~= id_index_view(old(v)@).remove(i as int));
        },
        None => {},
    }
}


// ─────────────────────────────── operations ─────────────────────────────────

impl DomTree {
    /// A new tree with the skeleton Document → html → head + body.
    pub fn new() -> (t: Self)
        ensures
            t.wf(),
            t.is_skeleton(),
            t.consistent(),
            t.index().len() == 0,
    {
        let mut nodes = slots_new();
        let d = slots_insert(&mut nodes, DomNode::new(NodeKind::Document(DocumentData::with_url(""))));
        let h = slots_insert(&mut nodes, DomNode::new(NodeKind::Element(ElementData::new("html"))));
        let hd = slots_insert(&mut nodes, DomNode::new(NodeKind::Element(ElementData::new("head"))));
        let b = slots_insert(&mut nodes, DomNode::new(NodeKind::Element(ElementData::new("body"))));
        set_first_child(&mut nodes, d, Some(NodeId(h)));
        set_last_child(&mut nodes, d, Some(NodeId(h)));
        set_parent(&mut nodes, h, Some(NodeId(d)));
        set_first_child(&mut nodes, h, Some(NodeId(hd)));
        set_last_child(&mut nodes, h, Some(NodeId(b)));
        set_parent(&mut nodes, hd, Some(NodeId(h)));
        set_next_sibling(&mut nodes, hd, Some(NodeId(b)));
        set_parent(&mut nodes, b, Some(NodeId(h)));
        set_prev_sibling(&mut nodes, b, Some(NodeId(hd)));
        proof {
            reveal_strlit("html");
            reveal_strlit("head");
            reveal_strlit("body");
            let m = slot_nodes(nodes);
            assert(m.dom() =~= set![d, h, hd, b]);
            assert(upper_seq("html"@) =~= seq!['H', 'T', 'M', 'L']);
            assert(upper_seq("head"@) =~= seq!['H', 'E', 'A', 'D']);
            assert(upper_seq("body"@) =~= seq!['B', 'O', 'D', 'Y']);
            assert(links_closed(m));
            reveal(links_consistent);
            assert(links_consistent(m));
        }
        DomTree {
            nodes,
            id_index: Vec::new(),
            document_node: NodeId(d),
            html_node: NodeId(h),
            head_node: NodeId(hd),
            body_node: NodeId(b),
        }
    }

    /// The Document node.
    pub fn document_node(&self) -> (r: NodeId)
        ensures
            r == self.document_id(),
    {
        self.document_node
    }

    /// The `<html>` element made with the tree.
    pub fn html_node(&self) -> (r: NodeId)
        ensures
            r == self.html_id(),
    {
        self.html_node
    }

    /// The `<head>` element made with the tree.
    pub fn head_node(&self) -> (r: NodeId)
        ensures
            r == self.head_id(),
    {
        self.head_node
    }

    /// The `<body>` element made with the tree.
    pub fn body_node(&self) -> (r: NodeId)
        ensures
            r == self.body_id(),
    {
        self.body_node
    }

    /// The number of nodes, attached or not.
    pub fn node_count(&self) -> (r: usize)
        ensures
            r == self.size(),
    {
        slots_len(&self.nodes)
    }

    /// Whether `id` is a node of this tree.
    pub fn contains_node(&self, id: NodeId) -> (r: bool)
        requires
            self.wf(),
        ensures
            r == self.contains(id),
    {
        if (id.0 / 0x1_0000_0000) % 2 == 1 {
            slots_contains(&self.nodes, id.0)
        } else {
            assert(!canonical(id.0));
            false
        }
    }

    // ── creation ──

    /// Adds a node of the given kind, attached to nothing.
    pub fn create_node(&mut self, kind: NodeKind) -> (r: NodeId)
        requires
            old(self).wf(),
            old(self).size() < 0xffff_fffe,
        ensures
            final(self).wf(),
            !old(self).contains(r),
            final(self).nodes() == old(self).nodes().insert(r.0, fresh(kind)),
            final(self).index() == old(self).index(),
            final(self).document_id() == old(self).document_id(),
            final(self).html_id() == old(self).html_id(),
            final(self).head_id() == old(self).head_id(),
            final(self).body_id() == old(self).body_id(),
            old(self).consistent() ==> final(self).consistent(),
    {
        let ghost m = self.nodes();
        let k = slots_insert(&mut self.nodes, DomNode::new(kind));
        proof {
            let m2 = self.nodes();
            assert(m2 == m.insert(k, fresh(kind)));
            lemma_closed_insert(m, k, fresh(kind));
            assert(m2.dom().len() == m.dom().len() + 1);
            if links_consistent(m) {
                lemma_fresh_consistent(m, k, kind);
            }
        }
        NodeId(k)
    }

    /// Adds a Document node for `url` and makes it the tree's document.
    pub fn create_document(&mut self, url: &str) -> (r: NodeId)
        requires
            old(self).wf(),
            old(self).size() < 0xffff_fffe,
        ensures
            final(self).wf(),
            !old(self).contains(r),
            final(self).nodes() == old(self).nodes().insert(r.0, fresh(final(self).nodes()[r.0].kind)),
            final(self).nodes()[r.0].kind matches NodeKind::Document(d) && d.url@ == url@
                && d.title@.len() == 0 && d.cookie@.len() == 0 && d.ready_state
                == DocumentReadyState::Loading,
            final(self).index() == old(self).index(),
            final(self).document_id() == r,
            final(self).html_id() == old(self).html_id(),
            final(self).head_id() == old(self).head_id(),
            final(self).body_id() == old(self).body_id(),
            old(self).consistent() ==> final(self).consistent(),
    {
        let id = self.create_node(NodeKind::Document(DocumentData::with_url(url)));
        self.document_node = id;
        id
    }

    /// Adds an element with the tag name upper-cased and nothing else set.
    pub fn create_element(&mut self, tag: &str) -> (r: NodeId)
        requires
            old(self).wf(),
            old(self).size() < 0xffff_fffe,
        ensures
            final(self).wf(),
            !old(self).contains(r),
            final(self).nodes() == old(self).nodes().insert(r.0, fresh(final(self).nodes()[r.0].kind)),
            final(self).nodes()[r.0].kind matches NodeKind::Element(e) && e.tag_name@ == upper_seq(
                tag@,
            ) && e.attributes@.len() == 0 && e.class_list@.len() == 0 && e.style@.len() == 0
                && e.listeners@.len() == 0,
            final(self).index() == old(self).index(),
            final(self).document_id() == old(self).document_id(),
            final(self).html_id() == old(self).html_id(),
            final(self).head_id() == old(self).head_id(),
            final(self).body_id() == old(self).body_id(),
            old(self).consistent() ==> final(self).consistent(),
    {
        self.create_node(NodeKind::Element(ElementData::new(tag)))
    }

    /// Adds a Text node.
    pub fn create_text(&mut self, data: &str) -> (r: NodeId)
        requires
            old(self).wf(),
            old(self).size() < 0xffff_fffe,
        ensures
            final(self).wf(),
            !old(self).contains(r),
            final(self).nodes() == old(self).nodes().insert(r.0, fresh(final(self).nodes()[r.0].kind)),
            final(self).nodes()[r.0].kind matches NodeKind::Text(t) && t.data@ == data@,
            final(self).index() == old(self).index(),
            final(self).document_id() == old(self).document_id(),
            final(self).html_id() == old(self).html_id(),
            final(self).head_id() == old(self).head_id(),
            final(self).body_id() == old(self).body_id(),
            old(self).consistent() ==> final(self).consistent(),
    {
        self.create_node(NodeKind::Text(TextData { data: data.to_owned() }))
    }

    /// Adds a Comment node.
    pub fn create_comment(&mut self, data: &str) -> (r: NodeId)
        requires
            old(self).wf(),
            old(self).size() < 0xffff_fffe,
        ensures
            final(self).wf(),
            !old(self).contains(r),
            final(self).nodes() == old(self).nodes().insert(r.0, fresh(final(self).nodes()[r.0].kind)),
            final(self).nodes()[r.0].kind matches NodeKind::Comment(c) && c.data@ == data@,
            final(self).index() == old(self).index(),
            final(self).document_id() == old(self).document_id(),
            final(self).html_id() == old(self).html_id(),
            final(self).head_id() == old(self).head_id(),
            final(self).body_id() == old(self).body_id(),
            old(self).consistent() ==> final(self).consistent(),
    {
        self.create_node(NodeKind::Comment(CommentData { data: data.to_owned() }))
    }

    // ── reading nodes ──

    /// Adds an element whose class list, inline style and id come from its attributes.
    pub fn create_element_with_attrs(&mut self, tag: &str, attributes: NamedNodeMap) -> (r: NodeId)
        requires
            old(self).wf(),
            old(self).size() < 0xffff_fffe,
        ensures
            final(self).wf(),
            !old(self).contains(r),
            final(self).nodes() == old(self).nodes().insert(r.0, fresh(final(self).nodes()[r.0].kind)),
            final(self).nodes()[r.0].kind matches NodeKind::Element(e) && e.tag_name@ == upper_seq(
                tag@,
            ) && e.attributes@ == attributes@ && strings_view(e.class_list@) == class_names(
                attributes@,
            ) && e.style@ == style_of(attributes@) && e.listeners@.len() == 0,
            final(self).index() == match header_lookup(attributes@, seq!['i', 'd']) {
                Some(v) => id_insert(old(self).index(), v, r),
                None => old(self).index(),
            },
            final(self).document_id() == old(self).document_id(),
            final(self).html_id() == old(self).html_id(),
            final(self).head_id() == old(self).head_id(),
            final(self).body_id() == old(self).body_id(),
            old(self).consistent() ==> final(self).consistent(),
    {
        proof {
            reveal_strlit("class");
            reveal_strlit("style");
            reveal_strlit("id");
            assert("class"@ =~= seq!['c', 'l', 'a', 's', 's']);
            assert("style"@ =~= seq!['s', 't', 'y', 'l', 'e']);
            assert("id"@ =~= seq!['i', 'd']);
        }
        let class_list = match attributes.get_value("class") {
            Some(c) => split_words(c),
            None => Vec::new(),
        };
        let mut style = InlineStyle::new();
        assert(style@ =~= seq![]);
        match attributes.get_value("style") {
            Some(css) => style.parse_and_merge(css),
            None => {},
        }
        let id_attr = match attributes.get_value("id") {
            Some(v) => Some(v.to_owned()),
            None => None,
        };
        let el = ElementData {
            tag_name: ascii_upper(tag),
            attributes,
            class_list,
            style,
            listeners: Vec::new(),
        };
        let id = self.create_node(NodeKind::Element(el));
        match id_attr {
            Some(v) => index_insert(&mut self.id_index, v.as_str(), id),
            None => {},
        }
        id
    }

    /// The node `id`.
    pub fn get_node(&self, id: NodeId) -> (r: &DomNode)
        requires
            self.wf(),
            self.contains(id),
        ensures
            *r == self.nodes()[id.0],
    {
        slots_get(&self.nodes, id.0)
    }

    /// The kind of node `id`, to change in place; the node's links stay with the tree.
    pub fn get_node_mut(&mut self, id: NodeId) -> (r: &mut NodeKind)
        requires
            old(self).wf(),
            old(self).contains(id),
        ensures
            *r == old(self).nodes()[id.0].kind,
            final(self).nodes() == old(self).nodes().insert(
                id.0,
                relabel(old(self).nodes()[id.0], *final(r)),
            ),
            final(self).wf(),
            final(self).index() == old(self).index(),
            final(self).document_id() == old(self).document_id(),
            final(self).html_id() == old(self).html_id(),
            final(self).head_id() == old(self).head_id(),
            final(self).body_id() == old(self).body_id(),
            old(self).consistent() ==> final(self).consistent(),
    {
        proof {
            lemma_relabel(self.nodes(), id.0);
        }
        let n = slots_get_mut(&mut self.nodes, id.0);
        &mut n.kind
    }
}


impl DomTree {
    // ── the id index ──

    /// Indexes `node` under its `id` attribute, if it is an element that has one.
    fn index_node(&mut self, node: NodeId)
        requires
            old(self).wf(),
            old(self).contains(node),
        ensures
            final(self).index() == index_add(old(self).index(), old(self).nodes()[node.0], node),
            crate::request::distinct_keys(id_keys(final(self).index())),
            final(self).nodes == old(self).nodes,
            final(self).document_node == old(self).document_node,
            final(self).html_node == old(self).html_node,
            final(self).head_node == old(self).head_node,
            final(self).body_node == old(self).body_node,
    {
        proof {
            reveal_strlit("id");
            assert("id"@ =~= seq!['i', 'd']);
        }
        let n = slots_get(&self.nodes, node.0);
        match &n.kind {
            NodeKind::Element(el) => match el.attributes.get_value("id") {
                Some(v) => index_insert(&mut self.id_index, v, node),
                None => {},
            },
            _ => {},
        }
    }

    /// Drops the index entry under `node`'s `id` attribute, if it is an element that has one.
    fn unindex_node(&mut self, node: NodeId)
        requires
            old(self).wf(),
            old(self).contains(node),
        ensures
            final(self).index() == index_drop(old(self).index(), old(self).nodes()[node.0]),
            crate::request::distinct_keys(id_keys(final(self).index())),
            final(self).nodes == old(self).nodes,
            final(self).document_node == old(self).document_node,
            final(self).html_node == old(self).html_node,
            final(self).head_node == old(self).head_node,
            final(self).body_node == old(self).body_node,
    {
        proof {
            reveal_strlit("id");
            assert("id"@ =~= seq!['i', 'd']);
        }
        let n = slots_get(&self.nodes, node.0);
        match &n.kind {
            NodeKind::Element(el) => match el.attributes.get_value("id") {
                Some(v) => index_remove(&mut self.id_index, v),
                None => {},
            },
            _ => {},
        }
    }

    /// The entries of the id index, in order of first indexing.
    /// The handles of the nodes, in slot order.
    pub fn slot_keys(&self) -> (r: Vec<u64>)
        ensures
            slot_ordered(r@, *self),
    {
        slots_keys(&self.nodes)
    }

    pub fn id_entries(&self) -> (r: &[(String, NodeId)])
        ensures
            id_index_view(r@) == self.index(),
    {
        self.id_index.as_slice()
    }

    /// The element indexed under `id`.
    pub fn get_element_by_id(&self, id: &str) -> (r: Option<NodeId>)
        ensures
            r == id_lookup(self.index(), id@),
    {
        match index_find(&self.id_index, id) {
            Some(i) => Some(self.id_index[i].1),
            None => None,
        }
    }

    // ── structure ──

    /// Takes `child` out of `parent`'s children; `false`, and nothing changed, when
    /// `parent` is not its parent.
    pub fn remove_child(&mut self, parent: NodeId, child: NodeId) -> (r: bool)
        requires
            old(self).wf(),
            old(self).contains(child),
        ensures
            r == (old(self).nodes()[child.0].parent == Some(parent)),
            final(self).nodes().dom() == old(self).nodes().dom(),
            same_kinds(old(self).nodes(), final(self).nodes()),
            r ==> final(self).nodes() == unlinked(old(self).nodes(), parent.0, child.0)
                && final(self).index() == index_drop(old(self).index(), old(self).nodes()[child.0]),
            !r ==> final(self).nodes() == old(self).nodes()
                && final(self).index() == old(self).index(),
            final(self).wf(),
            final(self).document_id() == old(self).document_id(),
            final(self).html_id() == old(self).html_id(),
            final(self).head_id() == old(self).head_id(),
            final(self).body_id() == old(self).body_id(),
            old(self).consistent() ==> final(self).consistent(),
    {
        let ghost m = self.nodes();
        proof {
            assert(links_in(m, m[child.0]));
        }
        let n = slots_get(&self.nodes, child.0);
        let is_child = match n.parent {
            Some(p) => p.0 == parent.0,
            None => false,
        };
        if !is_child {
            return false;
        }
        let prev = n.prev_sibling;
        let next = n.next_sibling;
        match prev {
            Some(x) => set_next_sibling(&mut self.nodes, x.0, next),
            None => set_first_child(&mut self.nodes, parent.0, next),
        }
        match next {
            Some(y) => set_prev_sibling(&mut self.nodes, y.0, prev),
            None => set_last_child(&mut self.nodes, parent.0, prev),
        }
        let ghost m2 = self.nodes();
        set_parent(&mut self.nodes, child.0, None);
        set_prev_sibling(&mut self.nodes, child.0, None);
        set_next_sibling(&mut self.nodes, child.0, None);
        proof {
            assert(self.nodes() =~= unlinked(m, parent.0, child.0));
            assert(self.nodes().dom() =~= m.dom());
            if links_consistent(m) {
                lemma_unlinked_consistent(m, parent.0, child.0);
            }
        }
        self.unindex_node(child);
        true
    }

    /// Makes `child` the last child of `parent`, taking it out of its old parent first.
    pub fn append_child(&mut self, parent: NodeId, child: NodeId)
        requires
            old(self).wf(),
            old(self).contains(parent),
            old(self).contains(child),
        ensures
            final(self).nodes() == linked_last(
                detached(old(self).nodes(), old(self).index(), child.0).0,
                parent.0,
                child.0,
            ),
            final(self).index() == index_add(
                detached(old(self).nodes(), old(self).index(), child.0).1,
                old(self).nodes()[child.0],
                child,
            ),
            final(self).wf(),
            final(self).nodes().dom() == old(self).nodes().dom(),
            same_kinds(old(self).nodes(), final(self).nodes()),
            final(self).document_id() == old(self).document_id(),
            final(self).html_id() == old(self).html_id(),
            final(self).head_id() == old(self).head_id(),
            final(self).body_id() == old(self).body_id(),
            old(self).consistent() && parent != child ==> final(self).consistent(),
    {
        let ghost m0 = self.nodes();
        let cur = slots_get(&self.nodes, child.0).parent;
        match cur {
            Some(cp) => {
                self.remove_child(cp, child);
            },
            None => {},
        }
        let ghost m = self.nodes();
        assert(m == detached(m0, old(self).index(), child.0).0);
        link_last(&mut self.nodes, parent.0, child.0);
        proof {
            if links_consistent(m0) && parent != child {
                lemma_move_last_consistent(m0, old(self).index(), parent.0, child.0);
            }
        }
        self.index_node(child);
    }

    /// Puts `child` just before `reference`, a child of `parent`, taking it out of its
    /// old parent first.
    #[verifier::spinoff_prover]
    pub fn insert_before(&mut self, parent: NodeId, child: NodeId, reference: NodeId)
        requires
            old(self).wf(),
            old(self).contains(child),
            old(self).contains(reference),
            old(self).nodes()[reference.0].parent == Some(parent),
        ensures
            final(self).nodes() == linked_before(
                detached(old(self).nodes(), old(self).index(), child.0).0,
                parent.0,
                child.0,
                reference.0,
            ),
            final(self).index() == index_add(
                detached(old(self).nodes(), old(self).index(), child.0).1,
                old(self).nodes()[child.0],
                child,
            ),
            final(self).wf(),
            final(self).nodes().dom() == old(self).nodes().dom(),
            same_kinds(old(self).nodes(), final(self).nodes()),
            final(self).document_id() == old(self).document_id(),
            final(self).html_id() == old(self).html_id(),
            final(self).head_id() == old(self).head_id(),
            final(self).body_id() == old(self).body_id(),
            old(self).consistent() && child != reference && child != parent
                ==> final(self).consistent(),
    {
        let ghost m0 = self.nodes();
        proof {
            assert(links_in(m0, m0[reference.0]));
            assert(m0.dom().contains(parent.0));
        }
        let cur = slots_get(&self.nodes, child.0).parent;
        match cur {
            Some(cp) => {
                self.remove_child(cp, child);
            },
            None => {},
        }
        let ghost m = self.nodes();
        assert(m == detached(m0, old(self).index(), child.0).0);
        assert(m.dom() == m0.dom());
        link_before(&mut self.nodes, parent.0, child.0, reference.0);
        proof {
            if links_consistent(m0) && child != reference && child != parent {
                lemma_move_before_consistent(m0, old(self).index(), parent.0, child.0, reference.0);
            }
        }
        self.index_node(child);
    }

    /// The children of `parent`, in order.
    pub fn children(&self, parent: NodeId) -> (r: Vec<NodeId>)
        requires
            self.wf(),
            self.contains(parent),
        ensures
            r@ == sibling_walk(self.nodes(), self.nodes()[parent.0].first_child, self.size()),
    {
        let ghost m = self.nodes();
        let count = slots_len(&self.nodes);
        let mut result: Vec<NodeId> = Vec::new();
        let mut cur = slots_get(&self.nodes, parent.0).first_child;
        let mut budget = count;
        proof {
            assert(links_in(m, m[parent.0]));
            assert(result@ + sibling_walk(m, cur, budget as nat) =~= sibling_walk(
                m,
                m[parent.0].first_child,
                self.size(),
            ));
        }
        while budget > 0 && cur.is_some()
            invariant
                self.wf(),
                m == self.nodes(),
                has(m, cur),
                result@ + sibling_walk(m, cur, budget as nat) == sibling_walk(
                    m,
                    m[parent.0].first_child,
                    self.size(),
                ),
            decreases budget,
        {
            let id = cur.unwrap();
            proof {
                assert(links_in(m, m[id.0]));
                assert(result@.push(id) + sibling_walk(m, m[id.0].next_sibling, (budget - 1) as nat)
                    =~= result@ + sibling_walk(m, cur, budget as nat));
            }
            result.push(id);
            cur = slots_get(&self.nodes, id.0).next_sibling;
            budget = budget - 1;
        }
        proof {
            assert(sibling_walk(m, cur, budget as nat) =~= seq![]);
            assert(result@ + seq![] =~= result@);
        }
        result
    }

    /// The text of all Text nodes under `node`, itself included, in document order.
    pub fn text_content(&self, node: NodeId) -> (r: String)
        requires
            self.wf(),
            self.contains(node),
        ensures
            r@ == text_under(self.nodes(), node.0, self.size(), self.size()),
    {
        let count = slots_len(&self.nodes);
        let mut buf = String::new();
        self.collect_text(node, count, count, &mut buf);
        assert(buf@ =~= seq![] + text_under(self.nodes(), node.0, self.size(), self.size()));
        buf
    }

    fn collect_text(&self, node: NodeId, depth: usize, width: usize, buf: &mut String)
        requires
            self.wf(),
            self.contains(node),
        ensures
            final(buf)@ == old(buf)@ + text_under(self.nodes(), node.0, depth as nat, width as nat),
        decreases depth,
    {
        let ghost m = self.nodes();
        if depth == 0 {
            assert(old(buf)@ + seq![] =~= old(buf)@);
            return;
        }
        let n = slots_get(&self.nodes, node.0);
        match &n.kind {
            NodeKind::Text(t) => string_push_str(buf, t.data.as_str()),
            _ => {},
        }
        let mut child = n.first_child;
        let mut budget = width;
        proof {
            assert(links_in(m, m[node.0]));
            let own = match m[node.0].kind {
                NodeKind::Text(t) => t.data@,
                _ => seq![],
            };
            assert(buf@ == old(buf)@ + own);
            assert(old(buf)@ + text_under(m, node.0, depth as nat, width as nat) =~= buf@
                + text_of_siblings(m, child, (depth - 1) as nat, width as nat, budget as nat));
        }
        while budget > 0 && child.is_some()
            invariant
                self.wf(),
                m == self.nodes(),
                depth > 0,
                has(m, child),
                old(buf)@ + text_under(m, node.0, depth as nat, width as nat) == buf@
                    + text_of_siblings(m, child, (depth - 1) as nat, width as nat, budget as nat),
            decreases budget,
        {
            let c = child.unwrap();
            let ghost before = buf@;
            self.collect_text(c, depth - 1, width, buf);
            proof {
                assert(links_in(m, m[c.0]));
                assert(before + text_of_siblings(
                    m,
                    child,
                    (depth - 1) as nat,
                    width as nat,
                    budget as nat,
                ) =~= buf@ + text_of_siblings(
                    m,
                    m[c.0].next_sibling,
                    (depth - 1) as nat,
                    width as nat,
                    (budget - 1) as nat,
                ));
            }
            child = slots_get(&self.nodes, c.0).next_sibling;
            budget = budget - 1;
        }
        assert(buf@ + text_of_siblings(m, child, (depth - 1) as nat, width as nat, budget as nat)
            =~= buf@);
    }
}

impl DomTree {
    /// Indexes `node` under `key`.
    pub(crate) fn index_put(&mut self, key: &str, node: NodeId)
        ensures
            final(self).index() == id_insert(old(self).index(), key@, node),
            final(self).nodes() == old(self).nodes(),
            final(self).document_id() == old(self).document_id(),
            final(self).html_id() == old(self).html_id(),
            final(self).head_id() == old(self).head_id(),
            final(self).body_id() == old(self).body_id(),
            old(self).wf() ==> final(self).wf(),
    {
        index_insert(&mut self.id_index, key, node);
    }

    /// Drops the index entry under `key`.
    pub(crate) fn index_delete(&mut self, key: &str)
        ensures
            final(self).index() == id_remove(old(self).index(), key@),
            final(self).nodes() == old(self).nodes(),
            final(self).document_id() == old(self).document_id(),
            final(self).html_id() == old(self).html_id(),
            final(self).head_id() == old(self).head_id(),
            final(self).body_id() == old(self).body_id(),
            old(self).wf() ==> final(self).wf(),
    {
        index_remove(&mut self.id_index, key);
    }
}

impl DomTree {
    /// The links of a node of a well-formed tree name nodes of the tree.
    pub proof fn lemma_links_in(&self, n: NodeId)
        requires
            self.wf(),
            self.contains(n),
        ensures
            links_in(self.nodes(), self.nodes()[n.0]),
    {
    }

    /// The links of a well-formed tree name nodes of the tree.
    pub proof fn lemma_closed(&self)
        requires
            self.wf(),
        ensures
            links_closed(self.nodes()),
    {
    }

    /// A well-formed tree has finitely many nodes.
    pub proof fn lemma_finite(&self)
        requires
            self.wf(),
        ensures
            self.nodes().dom().finite(),
    {
    }

    /// A tree with a node in it is not empty.
    pub proof fn lemma_size_pos(&self, n: NodeId)
        requires
            self.wf(),
            self.contains(n),
        ensures
            self.size() > 0,
    {
        if self.size() == 0 {
            self.nodes().dom().lemma_len0_is_empty();
        }
    }

    /// The document, html, head and body nodes are in a well-formed tree.
    pub proof fn lemma_roots_in(&self)
        requires
            self.wf(),
        ensures
            self.contains(self.document_id()),
            self.contains(self.html_id()),
            self.contains(self.head_id()),
            self.contains(self.body_id()),
    {
    }
}

/// Every node of a sibling walk is in the tree.
pub proof fn lemma_walk_in(m: Nodes, start: Option<NodeId>, fuel: nat)
    ensures
        forall|i: int| 0 <= i < sibling_walk(m, start, fuel).len() ==> m.dom().contains(
            #[trigger] sibling_walk(m, start, fuel)[i].0,
        ),
    decreases fuel,
{
    if fuel > 0 {
        match start {
            Some(k) => {
                if m.dom().contains(k.0) {
                    lemma_walk_in(m, m[k.0].next_sibling, (fuel - 1) as nat);
                    let w = sibling_walk(m, start, fuel);
                    let rest = sibling_walk(m, m[k.0].next_sibling, (fuel - 1) as nat);
                    assert forall|i: int| 0 <= i < w.len() implies m.dom().contains(#[trigger] w[i].0) by {
                        if i > 0 {
                            assert(w[i] == rest[i - 1]);
                        }
                    }
                }
            },
            None => {},
        }
    }
}

/// `new` is `old` with only the kind of node `k` changed.
pub open spec fn kind_changed(old: Nodes, new: Nodes, k: u64) -> bool {
    new == old.insert(k, relabel(old[k], new[k].kind))
}

/// The element data of node `k`, if it is an element.
pub open spec fn element_of(m: Nodes, k: u64) -> Option<ElementData> {
    match m[k].kind {
        NodeKind::Element(e) => Some(e),
        _ => None,
    }
}

/// `b` is `a` with the same document, html, head and body nodes.
pub open spec fn same_roots(a: DomTree, b: DomTree) -> bool {
    &&& b.document_id() == a.document_id()
    &&& b.html_id() == a.html_id()
    &&& b.head_id() == a.head_id()
    &&& b.body_id() == a.body_id()
}

// ─────────────────────────── keeping links consistent ───────────────────────

/// Taking a child out of its parent's list keeps the links consistent.
proof fn lemma_unlinked_consistent(m: Nodes, p: u64, c: u64)
    requires
        links_closed(m),
        links_consistent(m),
        m.dom().contains(c),
        m[c].parent == Some(NodeId(p)),
    ensures
        links_consistent(unlinked(m, p, c)),
{
    reveal(links_consistent);
    let m3 = unlinked(m, p, c);
    assert(links_in(m, m[c]));
    assert(node_ok(m, c));
    assert(node_ok(m, p));
    match m[c].prev_sibling {
        Some(x) => {
            assert(node_ok(m, x.0));
        },
        None => {},
    }
    match m[c].next_sibling {
        Some(y) => {
            assert(node_ok(m, y.0));
        },
        None => {},
    }
    assert(m3.dom() =~= m.dom());
    assert forall|k: u64| #[trigger] m3.dom().contains(k) implies node_ok(m3, k) by {
        lemma_neighbours_ok(m, k);
    }
}

/// Node `k` and its neighbours are all consistent.
proof fn lemma_neighbours_ok(m: Nodes, k: u64)
    requires
        links_closed(m),
        links_consistent(m),
        m.dom().contains(k),
    ensures
        node_ok(m, k),
        m[k].parent matches Some(j) ==> node_ok(m, j.0),
        m[k].first_child matches Some(j) ==> node_ok(m, j.0),
        m[k].last_child matches Some(j) ==> node_ok(m, j.0),
        m[k].next_sibling matches Some(j) ==> node_ok(m, j.0),
        m[k].prev_sibling matches Some(j) ==> node_ok(m, j.0),
{
    reveal(links_consistent);
    assert(links_in(m, m[k]));
}

/// Detaching a node from its parent keeps the links consistent.
proof fn lemma_detached_consistent(m: Nodes, idx: IdIndexV, c: u64)
    requires
        links_closed(m),
        links_consistent(m),
        m.dom().contains(c),
    ensures
        links_consistent(detached(m, idx, c).0),
        detached(m, idx, c).0[c].parent is None,
        detached(m, idx, c).0.dom() == m.dom(),
{
    match m[c].parent {
        Some(p) => {
            assert(links_in(m, m[c]));
            lemma_unlinked_consistent(m, p.0, c);
            assert(unlinked(m, p.0, c).dom() =~= m.dom());
        },
        None => {},
    }
}

/// Linking a parentless node in as the last child of another node keeps the links
/// consistent.
proof fn lemma_linked_last_consistent(m: Nodes, p: u64, c: u64)
    requires
        links_closed(m),
        links_consistent(m),
        m.dom().contains(p),
        m.dom().contains(c),
        m[c].parent is None,
        p != c,
    ensures
        links_consistent(linked_last(m, p, c)),
{
    reveal(links_consistent);
    let r = linked_last(m, p, c);
    lemma_neighbours_ok(m, c);
    lemma_neighbours_ok(m, p);
    assert(r.dom() =~= m.dom());
    assert forall|k: u64| #[trigger] r.dom().contains(k) implies node_ok(r, k) by {
        lemma_neighbours_ok(m, k);
    }
}

/// Linking a parentless node in before a child of another node keeps the links
/// consistent.
proof fn lemma_linked_before_consistent(m: Nodes, p: u64, c: u64, r: u64)
    requires
        links_closed(m),
        links_consistent(m),
        m.dom().contains(r),
        m.dom().contains(c),
        m[c].parent is None,
        m[r].parent == Some(NodeId(p)),
        c != r,
        c != p,
    ensures
        links_consistent(linked_before(m, p, c, r)),
{
    reveal(links_consistent);
    let res = linked_before(m, p, c, r);
    lemma_neighbours_ok(m, c);
    lemma_neighbours_ok(m, r);
    lemma_neighbours_ok(m, p);
    assert(res.dom() =~= m.dom());
    assert forall|k: u64| #[trigger] res.dom().contains(k) implies node_ok(res, k) by {
        lemma_neighbours_ok(m, k);
    }
}

/// Moving a node to the end of another node's children keeps the links consistent.
proof fn lemma_move_last_consistent(m: Nodes, idx: IdIndexV, p: u64, c: u64)
    requires
        links_closed(m),
        links_consistent(m),
        m.dom().contains(p),
        m.dom().contains(c),
        p != c,
    ensures
        links_consistent(linked_last(detached(m, idx, c).0, p, c)),
{
    lemma_detached_consistent(m, idx, c);
    let d = detached(m, idx, c).0;
    lemma_detached_closed(m, idx, c);
    lemma_linked_last_consistent(d, p, c);
}

/// Moving a node in front of a child of another node keeps the links consistent.
proof fn lemma_move_before_consistent(m: Nodes, idx: IdIndexV, p: u64, c: u64, r: u64)
    requires
        links_closed(m),
        links_consistent(m),
        m.dom().contains(r),
        m.dom().contains(c),
        m[r].parent == Some(NodeId(p)),
        c != r,
        c != p,
    ensures
        links_consistent(linked_before(detached(m, idx, c).0, p, c, r)),
{
    lemma_detached_consistent(m, idx, c);
    let d = detached(m, idx, c).0;
    lemma_detached_closed(m, idx, c);
    assert(d[r].parent == Some(NodeId(p)));
    lemma_linked_before_consistent(d, p, c, r);
}

/// Detaching a node keeps the links closed.
proof fn lemma_detached_closed(m: Nodes, idx: IdIndexV, c: u64)
    requires
        links_closed(m),
        m.dom().contains(c),
    ensures
        links_closed(detached(m, idx, c).0),
{
    match m[c].parent {
        Some(p) => {
            let u = unlinked(m, p.0, c);
            assert(links_in(m, m[c]));
            assert(u.dom() =~= m.dom());
            assert forall|k: u64| #![trigger u[k]] u.dom().contains(k) implies links_in(u, u[k]) by {
                assert(links_in(m, m[k]));
            }
        },
        None => {},
    }
}

// ─────────────────────────────────── laws ───────────────────────────────────

/// Indexing a node under an id, then looking the id up, finds that node.
pub proof fn law_id_read_after_write(idx: IdIndexV, k: Seq<char>, n: NodeId)
    ensures
        id_lookup(id_insert(idx, k, n), k) == Some(n),
{
    let ks = id_keys(idx);
    lemma_key_index_bound(ks, k);
    match key_index(ks, k) {
        Some(i) => {
            let r = id_insert(idx, k, n);
            assert(id_keys(r) =~= ks.update(i, (k, Seq::<char>::empty())));
            lemma_key_index_of(id_keys(r), k, i);
        },
        None => {
            let r = id_insert(idx, k, n);
            assert(id_keys(r) =~= ks.push((k, Seq::<char>::empty())));
            lemma_key_index_of(id_keys(r), k, idx.len() as int);
        },
    }
}

/// Dropping an id from the index, then looking it up, finds nothing.
pub proof fn law_id_removed(idx: IdIndexV, k: Seq<char>)
    requires
        crate::request::distinct_keys(id_keys(idx)),
    ensures
        id_lookup(id_remove(idx, k), k) is None,
{
    let ks = id_keys(idx);
    lemma_key_index_bound(ks, k);
    match key_index(ks, k) {
        Some(i) => {
            let r = id_remove(idx, k);
            assert(id_keys(r) =~= ks.remove(i));
            lemma_key_index_bound(id_keys(r), k);
            if key_index(id_keys(r), k) is Some {
                let j = key_index(id_keys(r), k)->0;
                if j < i {
                    assert(id_keys(r)[j] == ks[j]);
                } else {
                    assert(id_keys(r)[j] == ks[j + 1]);
                }
            }
        },
        None => {},
    }
}

/// Appending a child makes it the parent's last child, with the parent as its parent.
pub proof fn law_append_makes_last_child(m: Nodes, idx: IdIndexV, p: u64, c: u64)
    ensures
        linked_last(detached(m, idx, c).0, p, c)[p].last_child == Some(NodeId(c)),
        linked_last(detached(m, idx, c).0, p, c)[c].parent == Some(NodeId(p)),
{
}

/// Inserting a child before a reference makes it the reference's previous sibling,
/// with the parent as its parent.
pub proof fn law_insert_before_places(m: Nodes, idx: IdIndexV, p: u64, c: u64, r: u64)
    requires
        links_closed(m),
        links_consistent(m),
        m.dom().contains(c),
        m.dom().contains(r),
        c != r,
    ensures
        linked_before(detached(m, idx, c).0, p, c, r)[r].prev_sibling == Some(NodeId(c)),
        linked_before(detached(m, idx, c).0, p, c, r)[c].next_sibling == Some(NodeId(r)),
        linked_before(detached(m, idx, c).0, p, c, r)[c].parent == Some(NodeId(p)),
{
    lemma_detached_consistent(m, idx, c);
    let d = detached(m, idx, c).0;
    reveal(links_consistent);
    assert(node_ok(d, c));
    assert(node_ok(d, r));
}

/// Removing a child leaves it without parent or siblings.
pub proof fn law_removed_is_detached(m: Nodes, p: u64, c: u64)
    ensures
        unlinked(m, p, c)[c].parent is None,
        unlinked(m, p, c)[c].prev_sibling is None,
        unlinked(m, p, c)[c].next_sibling is None,
{
}


/// The handles of the tree's nodes in slot order: each node once, with rising slot
/// indexes (the low half of a handle).
pub open spec fn slot_ordered(keys: Seq<u64>, t: DomTree) -> bool {
    &&& forall|k: u64| t.nodes().dom().contains(k) <==> keys.contains(k)
    &&& forall|i: int, j: int| 0 <= i < j < keys.len() ==> keys[i] % 0x1_0000_0000 < keys[j] % 0x1_0000_0000
}

/// The handles of the tree's nodes in slot order.
pub open spec fn slot_order(t: DomTree) -> Seq<u64> {
    choose|keys: Seq<u64>| slot_ordered(keys, t)
}

/// Two sequences with the same elements, each rising in the slot index, are equal.
pub proof fn lemma_slot_order_unique(a: Seq<u64>, b: Seq<u64>)
    requires
        forall|k: u64| a.contains(k) <==> b.contains(k),
        forall|i: int, j: int| 0 <= i < j < a.len() ==> a[i] % 0x1_0000_0000 < a[j] % 0x1_0000_0000,
        forall|i: int, j: int| 0 <= i < j < b.len() ==> b[i] % 0x1_0000_0000 < b[j] % 0x1_0000_0000,
    ensures
        a == b,
    decreases a.len(),
{
    if a.len() == 0 {
        if b.len() > 0 {
            assert(b.contains(b[0]));
        }
        assert(a =~= b);
    } else {
        assert(a.contains(a.last()));
        assert(b.len() > 0);
        assert(b.contains(b.last()));
        let i = choose|i: int| 0 <= i < a.len() && a[i] == b.last();
        let j = choose|j: int| 0 <= j < b.len() && b[j] == a.last();
        if i < a.len() - 1 {
            assert(a[i] % 0x1_0000_0000 < a.last() % 0x1_0000_0000);
            if j < b.len() - 1 {
                assert(b[j] % 0x1_0000_0000 < b.last() % 0x1_0000_0000);
            }
            assert(false);
        }
        assert(a.last() == b.last());
        let a2 = a.drop_last();
        let b2 = b.drop_last();
        assert forall|k: u64| a2.contains(k) <==> b2.contains(k) by {
            if a2.contains(k) {
                let x = choose|x: int| 0 <= x < a2.len() && a2[x] == k;
                assert(a[x] == k);
                assert(k != a.last());
                assert(a.contains(k));
                let y = choose|y: int| 0 <= y < b.len() && b[y] == k;
                assert(y != b.len() - 1);
                assert(b2[y] == k);
            }
            if b2.contains(k) {
                let x = choose|x: int| 0 <= x < b2.len() && b2[x] == k;
                assert(b[x] == k);
                assert(k != b.last());
                assert(b.contains(k));
                let y = choose|y: int| 0 <= y < a.len() && a[y] == k;
                assert(y != a.len() - 1);
                assert(a2[y] == k);
            }
        }
        lemma_slot_order_unique(a2, b2);
        assert(a =~= a2.push(a.last()));
        assert(b =~= b2.push(b.last()));
    }
}

/// The slot order of a tree is the one sequence of its handles that rises in slot index.
pub proof fn lemma_slot_order_of(keys: Seq<u64>, t: DomTree)
    requires
        slot_ordered(keys, t),
    ensures
        slot_order(t) == keys,
{
    let o = slot_order(t);
    assert(slot_ordered(o, t));
    lemma_slot_order_unique(o, keys);
}


/// The keys of the index after an insertion are the keys with that name set.
pub proof fn lemma_id_insert_keys(idx: IdIndexV, k: Seq<char>, n: NodeId)
    ensures
        id_keys(id_insert(idx, k, n)) == crate::request::header_set(id_keys(idx), k, Seq::empty()),
{
    let ks = id_keys(idx);
    match key_index(ks, k) {
        Some(i) => {
            lemma_key_index_bound(ks, k);
            assert(id_keys(id_insert(idx, k, n)) =~= ks.update(i, (k, Seq::<char>::empty())));
        },
        None => {
            assert(id_keys(id_insert(idx, k, n)) =~= ks.push((k, Seq::<char>::empty())));
        },
    }
}

/// The keys of the index after a removal are the keys without that name.
pub proof fn lemma_id_remove_keys(idx: IdIndexV, k: Seq<char>)
    ensures
        id_keys(id_remove(idx, k)) == crate::node::without_key(id_keys(idx), k),
{
    let ks = id_keys(idx);
    match key_index(ks, k) {
        Some(i) => {
            lemma_key_index_bound(ks, k);
            assert(id_keys(id_remove(idx, k)) =~= ks.remove(i));
        },
        None => {},
    }
}


impl DomTree {
    /// In a well-formed tree no id has two index entries.
    pub proof fn lemma_index_distinct(&self)
        requires
            self.wf(),
        ensures
            crate::request::distinct_keys(id_keys(self.index())),
    {
    }
}

/// Indexing under one id leaves the lookup of any other id as it was.
pub proof fn lemma_id_insert_other(idx: IdIndexV, k: Seq<char>, n: NodeId, o: Seq<char>)
    requires
        o != k,
    ensures
        id_lookup(id_insert(idx, k, n), o) == id_lookup(idx, o),
{
    let ks = id_keys(idx);
    let r = id_insert(idx, k, n);
    lemma_id_insert_keys(idx, k, n);
    let rs = id_keys(r);
    lemma_key_index_bound(ks, k);
    lemma_key_index_bound(ks, o);
    lemma_key_index_bound(rs, o);
    match key_index(ks, o) {
        Some(j) => {
            assert(rs[j] == ks[j]) by {
                match key_index(ks, k) {
                    Some(i) => {
                        assert(i != j);
                    },
                    None => {},
                }
            }
            assert forall|x: int| 0 <= x < j implies rs[x].0 != o by {
                assert(rs[x].0 == ks[x].0 || rs[x].0 == k);
            }
            lemma_key_index_of(rs, o, j);
            assert(r[j] == idx[j]) by {
                match key_index(ks, k) {
                    Some(i) => {
                        assert(i != j);
                    },
                    None => {},
                }
            }
        },
        None => {
            if key_index(rs, o) is Some {
                let x = key_index(rs, o)->0;
                assert(rs[x].0 == o);
                match key_index(ks, k) {
                    Some(i) => {
                        if x != i {
                            assert(rs[x] == ks[x]);
                        }
                    },
                    None => {
                        if x < ks.len() {
                            assert(rs[x] == ks[x]);
                        }
                    },
                }
            }
        },
    }
}

} // verus!

//! Changes that scripts make to the DOM, and how they are applied to a tree.
use vstd::prelude::*;
use crate::html::{HtmlParser, html5_nodes, parsed_into};
use crate::node::{DocumentData, DocumentReadyState, ElementData, NodeId, NodeKind};
use crate::element::listeners_view;
use crate::tree::{Nodes, sibling_walk, links_closed, links_consistent, links_in, node_ok, has};
use crate::request::header_set;
use crate::node::without_key;
use crate::tree::{DomTree, element_of, kind_changed, same_roots};
use crate::text::string_push_str;

verus! {

/// A change to the DOM requested by a script.
pub struct Mutation {
    pub kind: MutationKind,
}

/// The kinds of change; nodes are named by their handle values.
pub enum MutationKind {
    SetAttribute { node_id: u64, name: String, value: String },
    RemoveAttribute { node_id: u64, name: String },
    SetTextContent { node_id: u64, text: String },
    AppendChild { parent_id: u64, child_tag: String },
    RemoveChild { parent_id: u64, child_id: u64 },
    SetInnerHTML { node_id: u64, html: String },
}

/// A timer callback waiting to run.
pub struct PendingCallback {
    pub timer_id: u32,
    pub delay_ms: u32,
    pub repeating: bool,
}

/// The node a handle value names: `slotmap::KeyData::from_ffi` makes the version odd.
pub open spec fn node_named(k: u64) -> NodeId {
    NodeId(k | 0x1_0000_0000)
}

/// The node a handle value names.
pub fn node_id_from_ffi(k: u64) -> (r: NodeId)
    ensures
        r == node_named(k),
{
    NodeId(k | 0x1_0000_0000)
}

/// Whether the tree holds the node named by `k`.
fn holds(dom: &DomTree, k: u64) -> (r: (bool, NodeId))
    requires
        dom.wf(),
    ensures
        r.1 == node_named(k),
        r.0 == dom.contains(r.1),
{
    let nid = node_id_from_ffi(k);
    (dom.contains_node(nid), nid)
}

/// The children of node `k`, as a walk along its child chain finds them.
pub open spec fn children_of(t: DomTree, k: NodeId) -> Seq<NodeId> {
    sibling_walk(t.nodes(), t.nodes()[k.0].first_child, t.size())
}

/// Removes every child of `node`, in order; in a consistent tree the node is left
/// without children and each former child without a parent.
fn clear_children(dom: &mut DomTree, node: NodeId)
    requires
        old(dom).wf(),
        old(dom).contains(node),
    ensures
        final(dom).wf(),
        same_roots(*old(dom), *final(dom)),
        final(dom).nodes().dom() == old(dom).nodes().dom(),
        crate::tree::same_kinds(old(dom).nodes(), final(dom).nodes()),
        old(dom).consistent() ==> final(dom).consistent(),
        old(dom).consistent() ==> {
            &&& final(dom).nodes()[node.0].first_child is None
            &&& final(dom).nodes()[node.0].last_child is None
            &&& forall|j: int| 0 <= j < children_of(*old(dom), node).len() ==> (#[trigger] final(dom).nodes()[children_of(*old(dom), node)[j].0]).parent is None
        },
{
    let children = dom.children(node);
    let ghost w = children@;
    proof {
        dom.lemma_links_in(node);
        crate::tree::lemma_walk_in(dom.nodes(), dom.nodes()[node.0].first_child, dom.size());
        if dom.consistent() {
            lemma_children_chain(*dom, node);
            assert(w.skip(0) =~= w);
        }
    }
    let mut i: usize = 0;
    while i < children.len()
        invariant
            dom.wf(),
            same_roots(*old(dom), *dom),
            dom.nodes().dom() == old(dom).nodes().dom(),
            crate::tree::same_kinds(old(dom).nodes(), dom.nodes()),
            old(dom).consistent() ==> dom.consistent(),
            w == children@,
            w == children_of(*old(dom), node),
            old(dom).contains(node),
            i <= w.len(),
            forall|j: int| 0 <= j < children@.len() ==> old(dom).contains(#[trigger] children@[j]),
            old(dom).consistent() ==> {
                &&& w.no_duplicates()
                &&& chain_is(dom.nodes(), dom.nodes()[node.0].first_child, w.skip(i as int))
                &&& forall|j: int| i <= j < w.len() ==> (#[trigger] dom.nodes()[w[j].0]).parent == Some(node)
                &&& forall|j: int| 0 <= j < i ==> (#[trigger] dom.nodes()[w[j].0]).parent is None
            },
        decreases children@.len() - i,
    {
        let ghost before = dom.nodes();
        proof {
            if old(dom).consistent() {
                reveal(links_consistent);
                assert(before.dom().contains(node.0));
                assert(node_ok(before, node.0));
                assert(w.skip(i as int)[0] == w[i as int]);
                assert(chain_is(before, before[w[i as int].0].next_sibling, w.skip(i as int).drop_first()));
                assert(w.skip(i as int).drop_first() =~= w.skip(i + 1));
            }
        }
        dom.remove_child(node, children[i]);
        proof {
            if old(dom).consistent() {
                let after = dom.nodes();
                let c = w[i as int].0;
                assert(before[c].parent == Some(node));
                assert(after == crate::tree::unlinked(before, node.0, c));
                assert(before[c].prev_sibling is None);
                assert(after[node.0].first_child == before[c].next_sibling);
                assert forall|j: int| 0 <= j < w.skip(i + 1).len() implies after.dom().contains(
                    #[trigger] w.skip(i + 1)[j].0,
                ) && after[w.skip(i + 1)[j].0].next_sibling == before[w.skip(i + 1)[j].0].next_sibling by {
                    assert(w.skip(i + 1)[j] == w[i + 1 + j]);
                    assert(w[i + 1 + j] != w[i as int]);
                }
                lemma_chain_frame(before, after, after[node.0].first_child, w.skip(i + 1));
                assert forall|j: int| i + 1 <= j < w.len() implies (#[trigger] after[w[j].0]).parent == Some(node) by {
                    assert(w[j] != w[i as int]);
                    assert(before[w[j].0].parent == Some(node));
                }
                assert forall|j: int| 0 <= j < i + 1 implies (#[trigger] after[w[j].0]).parent is None by {
                    if j < i {
                        assert(w[j] != w[i as int]);
                        assert(before[w[j].0].parent is None);
                    }
                }
            }
        }
        i = i + 1;
    }
    proof {
        if old(dom).consistent() {
            reveal(links_consistent);
            assert(w.skip(w.len() as int).len() == 0);
            assert(dom.nodes().dom().contains(node.0));
            assert(node_ok(dom.nodes(), node.0));
        }
    }
}

/// The markup an inner-HTML change is parsed from: the HTML inside a `body` element.
pub open spec fn body_wrapped(html: Seq<char>) -> Seq<char> {
    "<body>"@ + html + "</body>"@
}

/// Applies a script's change to the tree, which stays consistent; a change naming a
/// node the tree does not hold does nothing. Attributes are set and removed on the attribute map alone; text
/// content and inner HTML replace the node's children (text content by one new text
/// node without children), the HTML parsed as a document body at `url`.
pub fn apply_mutation(dom: &mut DomTree, m: Mutation, url: &str)
    requires
        old(dom).wf(),
        old(dom).consistent(),
    ensures
        final(dom).wf(),
        same_roots(*old(dom), *final(dom)),
        final(dom).consistent(),
        match m.kind {
            MutationKind::SetAttribute { node_id, name, value } => {
                let k = node_named(node_id).0;
                if old(dom).contains(node_named(node_id)) && element_of(old(dom).nodes(), k) is Some {
                    let e = element_of(old(dom).nodes(), k)->0;
                    &&& kind_changed(old(dom).nodes(), final(dom).nodes(), k)
                    &&& final(dom).nodes()[k].kind matches NodeKind::Element(e2)
                    &&& e2.tag_name == e.tag_name
                    &&& e2.class_list == e.class_list
                    &&& e2.style == e.style
                    &&& e2.listeners == e.listeners
                    &&& e2.attributes@ == header_set(e.attributes@, name@, value@)
                    &&& crate::request::header_lookup(e2.attributes@, name@) == Some(value@)
                } else {
                    final(dom).nodes() == old(dom).nodes()
                }
            },
            MutationKind::RemoveAttribute { node_id, name } => {
                let k = node_named(node_id).0;
                if old(dom).contains(node_named(node_id)) && element_of(old(dom).nodes(), k) is Some {
                    let e = element_of(old(dom).nodes(), k)->0;
                    &&& kind_changed(old(dom).nodes(), final(dom).nodes(), k)
                    &&& final(dom).nodes()[k].kind matches NodeKind::Element(e2)
                    &&& e2.tag_name == e.tag_name
                    &&& e2.class_list == e.class_list
                    &&& e2.style == e.style
                    &&& e2.listeners == e.listeners
                    &&& e2.attributes@ == without_key(e.attributes@, name@)
                    &&& crate::request::key_index(e2.attributes@, name@) is None
                } else {
                    final(dom).nodes() == old(dom).nodes()
                }
            },
            MutationKind::SetTextContent { node_id, text } => {
                let k = node_named(node_id);
                if old(dom).contains(k) && old(dom).size() < 0xffff_fffe {
                    &&& exists|t: u64|
                        {
                            &&& !old(dom).nodes().dom().contains(t)
                            &&& final(dom).nodes()[t].parent == Some(k)
                            &&& final(dom).nodes()[t].kind matches NodeKind::Text(d) && d.data@ == text@
                            &&& final(dom).nodes()[t].first_child is None
                            &&& final(dom).nodes()[t].last_child is None
                            &&& final(dom).nodes()[k.0].last_child == Some(NodeId(t))
                            &&& chain_is(final(dom).nodes(), final(dom).nodes()[k.0].first_child, seq![NodeId(t)])
                        }
                    &&& forall|j: int|
                        0 <= j < children_of(*old(dom), k).len() ==> (#[trigger] final(dom).nodes()[children_of(
                            *old(dom),
                            k,
                        )[j].0]).parent is None
                } else {
                    final(dom).nodes() == old(dom).nodes()
                }
            },
            MutationKind::AppendChild { parent_id, child_tag } => {
                let k = node_named(parent_id);
                if old(dom).contains(k) && old(dom).size() < 0xffff_fffe {
                    exists|t: u64|
                        {
                            &&& !old(dom).nodes().dom().contains(t)
                            &&& final(dom).nodes()[t].parent == Some(k)
                            &&& final(dom).nodes()[t].kind matches NodeKind::Element(e) && e.tag_name@
                                == crate::text::upper_seq(child_tag@) && e.attributes@.len() == 0
                            &&& final(dom).nodes()[k.0].last_child == Some(NodeId(t))
                            &&& chain_is(
                                final(dom).nodes(),
                                final(dom).nodes()[k.0].first_child,
                                children_of(*old(dom), k).push(NodeId(t)),
                            )
                        }
                } else {
                    final(dom).nodes() == old(dom).nodes()
                }
            },
            MutationKind::RemoveChild { parent_id, child_id } => {
                let p = node_named(parent_id);
                let c = node_named(child_id);
                if old(dom).contains(p) && old(dom).contains(c) && old(dom).nodes()[c.0].parent == Some(p) {
                    final(dom).nodes() == crate::tree::unlinked(old(dom).nodes(), p.0, c.0)
                } else {
                    final(dom).nodes() == old(dom).nodes()
                }
            },
            MutationKind::SetInnerHTML { node_id, html } => {
                let k = node_named(node_id);
                if old(dom).contains(k) {
                    {
                        &&& forall|j: int|
                            0 <= j < children_of(*old(dom), k).len() ==> (#[trigger] final(dom).nodes()[children_of(
                                *old(dom),
                                k,
                            )[j].0]).parent is None
                        &&& html@.len() == 0 ==> final(dom).nodes()[k.0].first_child is None
                        &&& html@.len() > 0 && final(dom).size() < 0xffff_fffd ==> exists|frag: DomTree|
                            {
                                &&& frag.wf()
                                &&& frag.consistent()
                                &&& frag.nodes()[frag.document_id().0].kind matches NodeKind::Document(fd) && fd.url@
                                    == url@
                                &&& html5_nodes(body_wrapped(html@)).len() < 0xffff_fff0 ==> exists|ids: Seq<u64>|
                                    parsed_into(frag, html5_nodes(body_wrapped(html@)), ids)
                                &&& kids_copy(
                                    frag.nodes(),
                                    children_of(frag, frag.body_id()),
                                    final(dom).nodes(),
                                    final(dom).nodes()[k.0].first_child,
                                    0xffff_ffff_ffff_ffff,
                                    frag.size(),
                                    final(dom).nodes().dom().difference(old(dom).nodes().dom()),
                                )
                            }
                    }
                } else {
                    final(dom).nodes() == old(dom).nodes()
                }
            },
        },
{
    match m.kind {
        MutationKind::SetAttribute { node_id, name, value } => {
            let (present, nid) = holds(dom, node_id);
            if present {
                let ghost before = dom.nodes();
                match dom.get_node_mut(nid) {
                    NodeKind::Element(el) => el.attributes.set(name, value),
                    _ => {},
                }
                proof {
                    if !(element_of(before, nid.0) is Some) {
                        assert(dom.nodes() =~= before);
                    }
                }
            }
        },
        MutationKind::RemoveAttribute { node_id, name } => {
            let (present, nid) = holds(dom, node_id);
            if present {
                let ghost before = dom.nodes();
                match dom.get_node_mut(nid) {
                    NodeKind::Element(el) => {
                        el.attributes.remove(name.as_str());
                    },
                    _ => {},
                }
                proof {
                    if !(element_of(before, nid.0) is Some) {
                        assert(dom.nodes() =~= before);
                    }
                }
            }
        },
        MutationKind::SetTextContent { node_id, text } => {
            let (present, nid) = holds(dom, node_id);
            if present && dom.node_count() < 0xffff_fffe {
                let ghost w = children_of(*old(dom), nid);
                proof {
                    dom.lemma_links_in(nid);
                    crate::tree::lemma_walk_in(dom.nodes(), dom.nodes()[nid.0].first_child, dom.size());
                }
                clear_children(dom, nid);
                let ghost cleared = dom.nodes();
                let t = dom.create_text(text.as_str());
                let ghost made = dom.nodes();
                dom.append_child(nid, t);
                proof {
                    let fin = dom.nodes();
                    assert(fin == crate::tree::linked_last(made, nid.0, t.0));
                    assert(!old(dom).nodes().dom().contains(t.0));
                    assert(fin[t.0].parent == Some(nid));
                    assert(fin[nid.0].last_child == Some(t));
                    assert(fin[t.0].first_child is None);
                    assert(fin[t.0].last_child is None);
                    if old(dom).consistent() {
                        assert(made[nid.0] == cleared[nid.0]);
                        assert(fin[nid.0].first_child == Some(t));
                        assert(seq![t].drop_first() =~= Seq::<NodeId>::empty());
                        assert(chain_is(fin, fin[t.0].next_sibling, seq![t].drop_first()));
                        assert(chain_is(fin, fin[nid.0].first_child, seq![t]));
                        assert forall|j: int| 0 <= j < w.len() implies (#[trigger] fin[w[j].0]).parent is None by {
                            assert(cleared[w[j].0].parent is None);
                            assert(w[j].0 != t.0);
                        }
                    }
                }
            }
        },
        MutationKind::SetInnerHTML { node_id, html } => {
            let (present, nid) = holds(dom, node_id);
            if present {
                let ghost w = children_of(*old(dom), nid);
                proof {
                    dom.lemma_links_in(nid);
                    crate::tree::lemma_walk_in(dom.nodes(), dom.nodes()[nid.0].first_child, dom.size());
                }
                clear_children(dom, nid);
                let ghost cleared = dom.nodes();
                let ghost o = cleared.dom();
                if !html.as_str().is_empty() {
                    let mut doc = String::new();
                    string_push_str(&mut doc, "<body>");
                    string_push_str(&mut doc, html.as_str());
                    string_push_str(&mut doc, "</body>");
                    let fragment = HtmlParser::parse(doc.as_str(), url);
                    proof {
                        fragment.lemma_roots_in();
                        assert(doc@ =~= body_wrapped(html@));
                    }
                    let frag_children = fragment.children(fragment.body_node());
                    let ghost fm = fragment.nodes();
                    proof {
                        crate::tree::lemma_walk_in(
                            fragment.nodes(),
                            fragment.nodes()[fragment.body_id().0].first_child,
                            fragment.size(),
                        );
                    }
                    let ghost mut copies: Seq<NodeId> = seq![];
                    let ghost mut sets: Seq<Set<u64>> = seq![];
                    let ghost mut whole: bool = old(dom).consistent();
                    let mut i: usize = 0;
                    while i < frag_children.len()
                        invariant
                            dom.wf(),
                            fragment.wf(),
                            fm == fragment.nodes(),
                            frag_children@ == children_of(fragment, fragment.body_id()),
                            same_roots(*old(dom), *dom),
                            old(dom).consistent() ==> dom.consistent(),
                            old(dom).contains(nid),
                            o == old(dom).nodes().dom(),
                            o.subset_of(dom.nodes().dom()),
                            i <= frag_children@.len(),
                            forall|j: int| 0 <= j < frag_children@.len() ==> fragment.contains(
                                #[trigger] frag_children@[j],
                            ),
                            old(dom).consistent() ==> {
                                &&& forall|k: u64| #[trigger] o.contains(k) && k != nid.0 ==> dom.nodes()[k] == cleared[k]
                                &&& dom.nodes()[nid.0].parent == cleared[nid.0].parent
                                &&& dom.nodes()[nid.0].last_child matches Some(l) ==> !o.contains(l.0)
                            },
                            whole ==> copies.len() == i,
                            whole ==> copies_ok(
                                dom.nodes(),
                                o,
                                fm,
                                frag_children@,
                                nid.0,
                                copies,
                                sets,
                                0xffff_ffff_ffff_ffff,
                                fragment.size(),
                            ),
                            !whole ==> dom.size() >= 0xffff_fffd || !old(dom).consistent(),
                        decreases frag_children@.len() - i,
                    {
                        let ghost before = dom.nodes();
                        if dom.node_count() < 0xffff_fffd {
                            let copied = deep_copy_node(dom, &fragment, frag_children[i], 0xffff_ffff_ffff_ffff);
                            match copied {
                                Some(c) => {
                                    let ghost mid = dom.nodes();
                                    let ghost ci = mid.dom().difference(before.dom());
                                    dom.append_child(nid, c);
                                    proof {
                                        assert(dom.nodes() == crate::tree::linked_last(mid, nid.0, c.0));
                                        assert(mid[nid.0] == before[nid.0]);
                                        if old(dom).consistent() {
                                            assert forall|k: u64| #[trigger] o.contains(k) && k != nid.0 implies dom.nodes()[k]
                                                == cleared[k] by {
                                                assert(mid[k] == before[k]);
                                            }
                                        }
                                        if whole && dom.size() < 0xffff_fffd {
                                            lemma_copy_step(
                                                before,
                                                mid,
                                                dom.nodes(),
                                                o,
                                                fm,
                                                frag_children@,
                                                nid.0,
                                                copies,
                                                sets,
                                                c,
                                                ci,
                                                0xffff_ffff_ffff_ffff,
                                                fragment.size(),
                                            );
                                            copies = copies.push(c);
                                            sets = sets.push(ci);
                                        } else {
                                            whole = false;
                                        }
                                    }
                                },
                                None => {
                                    proof {
                                        whole = false;
                                    }
                                },
                            }
                        } else {
                            proof {
                                whole = false;
                            }
                        }
                        i = i + 1;
                    }
                    proof {
                        let dm = dom.nodes();
                        let all = dm.dom().difference(o);
                        if old(dom).consistent() && dom.size() < 0xffff_fffd {
                            assert(whole);
                            assert forall|j: int| 0 <= j < frag_children@.len() implies #[trigger] subtree_copy(
                                fm,
                                frag_children@[j].0,
                                dm,
                                copies[j].0,
                                0xffff_ffff_ffff_ffff,
                                fragment.size(),
                                all,
                            ) by {
                                assert(subtree_copy(
                                    fm,
                                    frag_children@[j].0,
                                    dm,
                                    copies[j].0,
                                    0xffff_ffff_ffff_ffff,
                                    fragment.size(),
                                    sets[j],
                                ));
                                assert forall|k: u64| sets[j].contains(k) implies all.contains(k) by {}
                                lemma_copy_wider(
                                    fm,
                                    frag_children@[j].0,
                                    dm,
                                    copies[j].0,
                                    0xffff_ffff_ffff_ffff,
                                    fragment.size(),
                                    sets[j],
                                    all,
                                );
                            }
                            lemma_kids_of_chain(
                                fm,
                                frag_children@,
                                dm,
                                dm[nid.0].first_child,
                                copies,
                                0xffff_ffff_ffff_ffff,
                                fragment.size(),
                                all,
                            );
                        }
                        if old(dom).consistent() {
                            assert forall|j: int| 0 <= j < w.len() implies (#[trigger] dm[w[j].0]).parent is None by {
                                assert(cleared[w[j].0].parent is None);
                                assert(o.contains(w[j].0));
                            }
                        }
                    }
                }
            }
        },
        MutationKind::AppendChild { parent_id, child_tag } => {
            let (present, pid) = holds(dom, parent_id);
            if present && dom.node_count() < 0xffff_fffe {
                let ghost w = children_of(*old(dom), pid);
                proof {
                    if old(dom).consistent() {
                        lemma_children_chain(*old(dom), pid);
                    }
                }
                let child = dom.create_element(child_tag.as_str());
                let ghost made = dom.nodes();
                dom.append_child(pid, child);
                proof {
                    let m0 = old(dom).nodes();
                    let fin = dom.nodes();
                    assert(fin == crate::tree::linked_last(made, pid.0, child.0));
                    assert(!m0.dom().contains(child.0));
                    assert(fin[child.0].parent == Some(pid));
                    assert(fin[pid.0].last_child == Some(child));
                    if old(dom).consistent() {
                        assert forall|j: int| 0 <= j < w.len() implies made.dom().contains(#[trigger] w[j].0)
                            && made[w[j].0].next_sibling == m0[w[j].0].next_sibling by {
                            assert(w[j].0 != child.0);
                        }
                        lemma_chain_frame(m0, made, m0[pid.0].first_child, w);
                        if w.len() == 0 {
                            assert(w.push(child) =~= seq![child]);
                            assert(seq![child].drop_first() =~= Seq::<NodeId>::empty());
                            assert(chain_is(fin, fin[child.0].next_sibling, seq![child].drop_first()));
                        } else {
                            assert forall|j: int| 0 <= j < w.len() - 1 implies fin.dom().contains(#[trigger] w[j].0)
                                && fin[w[j].0].next_sibling == made[w[j].0].next_sibling by {
                                assert(w[j] != w.last());
                                assert(w[j].0 != child.0);
                            }
                            assert(fin[pid.0].first_child == made[pid.0].first_child);
                            lemma_chain_extend(made, fin, made[pid.0].first_child, w, child);
                        }
                    }
                }
            }
        },
        MutationKind::RemoveChild { parent_id, child_id } => {
            let (p_present, pid) = holds(dom, parent_id);
            let (c_present, cid) = holds(dom, child_id);
            if p_present && c_present {
                dom.remove_child(pid, cid);
            }
        },
    }
}

/// Copies node `src_id` of `src`, with what is under it down to `depth` levels (a
/// document without its children), into `dom`, attached to nothing. The nodes `dom`
/// had stay as they were. The copy is `None` when `dom` is at the slot map's limit; a
/// copy that ends below the limit is whole.
pub fn deep_copy_node(dom: &mut DomTree, src: &DomTree, src_id: NodeId, depth: u64) -> (r: Option<NodeId>)
    requires
        old(dom).wf(),
        src.wf(),
        src.contains(src_id),
    ensures
        final(dom).wf(),
        same_roots(*old(dom), *final(dom)),
        old(dom).consistent() ==> final(dom).consistent(),
        old(dom).nodes().dom().subset_of(final(dom).nodes().dom()),
        forall|k: u64| #[trigger] old(dom).nodes().dom().contains(k) ==> final(dom).nodes()[k] == old(
            dom,
        ).nodes()[k],
        old(dom).size() <= final(dom).size(),
        r matches Some(n) ==> {
            &&& !old(dom).nodes().dom().contains(n.0)
            &&& final(dom).contains(n)
            &&& final(dom).nodes()[n.0].parent is None
            &&& final(dom).nodes()[n.0].prev_sibling is None
            &&& final(dom).nodes()[n.0].next_sibling is None
        },
        final(dom).size() < 0xffff_fffd ==> (r matches Some(n) && subtree_copy(
            src.nodes(),
            src_id.0,
            final(dom).nodes(),
            n.0,
            depth as nat,
            src.size(),
            final(dom).nodes().dom().difference(old(dom).nodes().dom()),
        )),
    decreases depth,
{
    if dom.node_count() >= 0xffff_fffd {
        return None;
    }
    proof {
        src.lemma_links_in(src_id);
    }
    let ghost o = dom.nodes();
    let ghost sm = src.nodes();
    let ghost w = src.size();
    let src_node = src.get_node(src_id);
    let new_id = match &src_node.kind {
        NodeKind::Element(el) => dom.create_node(NodeKind::Element(copy_element(el))),
        NodeKind::Text(t) => dom.create_text(t.data.as_str()),
        NodeKind::Comment(c) => dom.create_comment(c.data.as_str()),
        NodeKind::Document(_) => {
            proof {
                reveal_strlit("");
            }
            let n = dom.create_node(NodeKind::Document(DocumentData::with_url("")));
            proof {
                let c = dom.nodes().dom().difference(o.dom());
                assert(c.contains(n.0));
                assert(o.dom().insert(n.0) =~= dom.nodes().dom());
                dom.lemma_finite();
                vstd::set_lib::lemma_len_subset(o.dom(), dom.nodes().dom());
            }
            return Some(n);
        },
    };
    let ghost kind = dom.nodes()[new_id.0].kind;
    assert(copy_of(sm[src_id.0].kind, kind));
    assert(o.dom().insert(new_id.0) =~= dom.nodes().dom());
    if depth == 0 {
        assert(dom.nodes().dom().difference(o.dom()).contains(new_id.0));
        proof {
            dom.lemma_finite();
            vstd::set_lib::lemma_len_subset(o.dom(), dom.nodes().dom());
        }
        return Some(new_id);
    }
    let kids = src.children(src_id);
    proof {
        crate::tree::lemma_walk_in(sm, sm[src_id.0].first_child, w);
    }
    let ghost mut copies: Seq<NodeId> = seq![];
    let ghost mut sets: Seq<Set<u64>> = seq![];
    let ghost mut whole: bool = true;
    let mut i: usize = 0;
    while i < kids.len()
        invariant
            dom.wf(),
            src.wf(),
            sm == src.nodes(),
            w == src.size(),
            src.contains(src_id),
            kids@ == sibling_walk(sm, sm[src_id.0].first_child, w),
            forall|j: int| 0 <= j < kids@.len() ==> sm.dom().contains(#[trigger] kids@[j].0),
            i <= kids@.len(),
            depth > 0,
            same_roots(*old(dom), *dom),
            old(dom).consistent() ==> dom.consistent(),
            o == old(dom).nodes(),
            o.dom().subset_of(dom.nodes().dom()),
            forall|k: u64| #[trigger] o.dom().contains(k) ==> dom.nodes()[k] == o[k],
            !o.dom().contains(new_id.0),
            dom.nodes().dom().contains(new_id.0),
            dom.nodes()[new_id.0].kind == kind,
            dom.nodes()[new_id.0].parent is None,
            dom.nodes()[new_id.0].prev_sibling is None,
            dom.nodes()[new_id.0].next_sibling is None,
            dom.nodes()[new_id.0].last_child matches Some(l) ==> !o.dom().contains(l.0),
            dom.nodes()[new_id.0].last_child != Some(new_id),
            whole ==> copies.len() == i,
            whole ==> copies_ok(dom.nodes(), o.dom(), sm, kids@, new_id.0, copies, sets, (depth - 1) as nat, w),
            !whole ==> dom.size() >= 0xffff_fffd,
        decreases kids@.len() - i,
    {
        let ghost before = dom.nodes();
        let ghost before_size = dom.size();
        let copied = deep_copy_node(dom, src, kids[i], depth - 1);
        match copied {
            Some(c) => {
                let ghost mid = dom.nodes();
                let ghost ci = mid.dom().difference(before.dom());
                dom.append_child(new_id, c);
                proof {
                    assert(dom.nodes() == crate::tree::linked_last(mid, new_id.0, c.0));
                    assert(mid[new_id.0] == before[new_id.0]);
                    assert forall|k: u64| #[trigger] o.dom().contains(k) implies dom.nodes()[k] == o[k] by {
                        assert(mid[k] == before[k]);
                    }
                    if whole && dom.size() < 0xffff_fffd {
                        lemma_copy_step(
                            before,
                            mid,
                            dom.nodes(),
                            o.dom(),
                            sm,
                            kids@,
                            new_id.0,
                            copies,
                            sets,
                            c,
                            ci,
                            (depth - 1) as nat,
                            w,
                        );
                        copies = copies.push(c);
                        sets = sets.push(ci);
                    } else {
                        whole = false;
                    }
                }
            },
            None => {
                proof {
                    whole = false;
                }
            },
        }
        i = i + 1;
    }
    proof {
        let dm = dom.nodes();
        let all = dm.dom().difference(o.dom());
        if dom.size() < 0xffff_fffd {
            assert(whole);
            assert forall|j: int| 0 <= j < kids@.len() implies #[trigger] subtree_copy(
                sm,
                kids@[j].0,
                dm,
                copies[j].0,
                (depth - 1) as nat,
                w,
                all.remove(new_id.0),
            ) by {
                assert(subtree_copy(sm, kids@[j].0, dm, copies[j].0, (depth - 1) as nat, w, sets[j]));
                assert forall|k: u64| sets[j].contains(k) implies all.remove(new_id.0).contains(k) by {}
                lemma_copy_wider(sm, kids@[j].0, dm, copies[j].0, (depth - 1) as nat, w, sets[j], all.remove(new_id.0));
            }
            lemma_kids_of_chain(
                sm,
                kids@,
                dm,
                dm[new_id.0].first_child,
                copies,
                (depth - 1) as nat,
                w,
                all.remove(new_id.0),
            );
            assert(all.contains(new_id.0));
        }
        dom.lemma_finite();
        vstd::set_lib::lemma_len_subset(o.dom(), dom.nodes().dom());
    }
    Some(new_id)
}

// ─────────────────────────────── subtree copies ─────────────────────────────

/// `b` carries what `a` holds: tag, attributes, classes, style and listeners.
pub open spec fn same_element(a: ElementData, b: ElementData) -> bool {
    &&& b.tag_name@ == a.tag_name@
    &&& b.attributes@ == a.attributes@
    &&& b.class_list@ == a.class_list@
    &&& b.style@ == a.style@
    &&& listeners_view(b.listeners@) == listeners_view(a.listeners@)
}

/// `dst` is what copying a node of kind `src` gives: an element with the same data, a
/// text or comment with the same text, an empty loading document for a document.
pub open spec fn copy_of(src: NodeKind, dst: NodeKind) -> bool {
    match src {
        NodeKind::Element(a) => dst matches NodeKind::Element(b) && same_element(a, b),
        NodeKind::Text(a) => dst matches NodeKind::Text(b) && b.data@ == a.data@,
        NodeKind::Comment(a) => dst matches NodeKind::Comment(b) && b.data@ == a.data@,
        NodeKind::Document(_) => dst matches NodeKind::Document(d) && d.url@.len() == 0
            && d.title@.len() == 0 && d.cookie@.len() == 0 && d.ready_state
            == DocumentReadyState::Loading,
    }
}

/// Node `d` of `dm` is a copy of node `s` of `sm` down to `depth` levels: a copy of its
/// kind whose children, but for a document or at depth 0 where there are none, copy
/// the children of `s` (at most `width` of them) in order. The nodes of the copy are
/// in `c`, the root's descendants apart from the root.
pub open spec fn subtree_copy(
    sm: Nodes,
    s: u64,
    dm: Nodes,
    d: u64,
    depth: nat,
    width: nat,
    c: Set<u64>,
) -> bool
    decreases depth, 0nat, 0nat,
{
    &&& c.contains(d)
    &&& sm.dom().contains(s)
    &&& dm.dom().contains(d)
    &&& copy_of(sm[s].kind, dm[d].kind)
    &&& if depth == 0 || sm[s].kind is Document {
        dm[d].first_child is None
    } else {
        kids_copy(
            sm,
            sibling_walk(sm, sm[s].first_child, width),
            dm,
            dm[d].first_child,
            (depth - 1) as nat,
            width,
            c.remove(d),
        )
    }
}

/// The sibling chain from `dc` in `dm` copies the nodes `xs` of `sm`, one each, and ends.
pub open spec fn kids_copy(
    sm: Nodes,
    xs: Seq<NodeId>,
    dm: Nodes,
    dc: Option<NodeId>,
    depth: nat,
    width: nat,
    c: Set<u64>,
) -> bool
    decreases depth, 1nat, xs.len(),
{
    if xs.len() == 0 {
        dc is None
    } else {
        match dc {
            Some(y) => subtree_copy(sm, xs[0].0, dm, y.0, depth, width, c) && kids_copy(
                sm,
                xs.drop_first(),
                dm,
                dm[y.0].next_sibling,
                depth,
                width,
                c,
            ),
            None => false,
        }
    }
}

/// The sibling chain from `start` is exactly `ys`.
pub open spec fn chain_is(m: Nodes, start: Option<NodeId>, ys: Seq<NodeId>) -> bool
    decreases ys.len(),
{
    if ys.len() == 0 {
        start is None
    } else {
        &&& start == Some(ys[0])
        &&& m.dom().contains(ys[0].0)
        &&& chain_is(m, m[ys[0].0].next_sibling, ys.drop_first())
    }
}

/// `b` keeps the kinds, first children and next siblings that `a` has on the nodes of `s`.
pub open spec fn keeps_shape(a: Nodes, b: Nodes, s: Set<u64>) -> bool {
    forall|k: u64|
        #![trigger s.contains(k), b[k]]
        s.contains(k) && a.dom().contains(k) ==> {
            &&& b.dom().contains(k)
            &&& b[k].kind == a[k].kind
            &&& b[k].first_child == a[k].first_child
            &&& b[k].next_sibling == a[k].next_sibling
        }
}

/// A copy stays a copy while its nodes keep their shape, the root's sibling links aside.
proof fn lemma_copy_frame(
    sm: Nodes,
    s: u64,
    dm1: Nodes,
    dm2: Nodes,
    d: u64,
    depth: nat,
    width: nat,
    c: Set<u64>,
)
    requires
        subtree_copy(sm, s, dm1, d, depth, width, c),
        keeps_shape(dm1, dm2, c.remove(d)),
        dm2.dom().contains(d),
        dm2[d].kind == dm1[d].kind,
        dm2[d].first_child == dm1[d].first_child,
    ensures
        subtree_copy(sm, s, dm2, d, depth, width, c),
    decreases depth, 0nat, 0nat,
{
    if !(depth == 0 || sm[s].kind is Document) {
        lemma_kids_frame(
            sm,
            sibling_walk(sm, sm[s].first_child, width),
            dm1,
            dm2,
            dm1[d].first_child,
            (depth - 1) as nat,
            width,
            c.remove(d),
        );
    }
}

proof fn lemma_kids_frame(
    sm: Nodes,
    xs: Seq<NodeId>,
    dm1: Nodes,
    dm2: Nodes,
    dc: Option<NodeId>,
    depth: nat,
    width: nat,
    c: Set<u64>,
)
    requires
        kids_copy(sm, xs, dm1, dc, depth, width, c),
        keeps_shape(dm1, dm2, c),
    ensures
        kids_copy(sm, xs, dm2, dc, depth, width, c),
    decreases depth, 1nat, xs.len(),
{
    if xs.len() > 0 {
        let y = dc->0;
        assert(subtree_copy(sm, xs[0].0, dm1, y.0, depth, width, c));
        assert(c.contains(y.0) && dm1.dom().contains(y.0));
        assert(dm2[y.0].kind == dm1[y.0].kind);
        assert(keeps_shape(dm1, dm2, c.remove(y.0)));
        lemma_copy_frame(sm, xs[0].0, dm1, dm2, y.0, depth, width, c);
        lemma_kids_frame(sm, xs.drop_first(), dm1, dm2, dm1[y.0].next_sibling, depth, width, c);
    }
}

/// A copy within `c` is a copy within any larger set.
proof fn lemma_copy_wider(
    sm: Nodes,
    s: u64,
    dm: Nodes,
    d: u64,
    depth: nat,
    width: nat,
    c: Set<u64>,
    c2: Set<u64>,
)
    requires
        subtree_copy(sm, s, dm, d, depth, width, c),
        c.subset_of(c2),
    ensures
        subtree_copy(sm, s, dm, d, depth, width, c2),
    decreases depth, 0nat, 0nat,
{
    if !(depth == 0 || sm[s].kind is Document) {
        assert(c.remove(d).subset_of(c2.remove(d)));
        lemma_kids_wider(
            sm,
            sibling_walk(sm, sm[s].first_child, width),
            dm,
            dm[d].first_child,
            (depth - 1) as nat,
            width,
            c.remove(d),
            c2.remove(d),
        );
    }
}

proof fn lemma_kids_wider(
    sm: Nodes,
    xs: Seq<NodeId>,
    dm: Nodes,
    dc: Option<NodeId>,
    depth: nat,
    width: nat,
    c: Set<u64>,
    c2: Set<u64>,
)
    requires
        kids_copy(sm, xs, dm, dc, depth, width, c),
        c.subset_of(c2),
    ensures
        kids_copy(sm, xs, dm, dc, depth, width, c2),
    decreases depth, 1nat, xs.len(),
{
    if xs.len() > 0 {
        let y = dc->0;
        lemma_copy_wider(sm, xs[0].0, dm, y.0, depth, width, c, c2);
        lemma_kids_wider(sm, xs.drop_first(), dm, dm[y.0].next_sibling, depth, width, c, c2);
    }
}

/// A chain of copies, one per source node, is a copy of the source chain.
proof fn lemma_kids_of_chain(
    sm: Nodes,
    xs: Seq<NodeId>,
    dm: Nodes,
    dc: Option<NodeId>,
    ys: Seq<NodeId>,
    depth: nat,
    width: nat,
    c: Set<u64>,
)
    requires
        chain_is(dm, dc, ys),
        ys.len() == xs.len(),
        forall|j: int| 0 <= j < xs.len() ==> #[trigger] subtree_copy(sm, xs[j].0, dm, ys[j].0, depth, width, c),
    ensures
        kids_copy(sm, xs, dm, dc, depth, width, c),
    decreases xs.len(),
{
    if xs.len() > 0 {
        assert(subtree_copy(sm, xs[0].0, dm, ys[0].0, depth, width, c));
        assert forall|j: int| 0 <= j < xs.drop_first().len() implies #[trigger] subtree_copy(
            sm,
            xs.drop_first()[j].0,
            dm,
            ys.drop_first()[j].0,
            depth,
            width,
            c,
        ) by {
            assert(subtree_copy(sm, xs[j + 1].0, dm, ys[j + 1].0, depth, width, c));
        }
        lemma_kids_of_chain(sm, xs.drop_first(), dm, dm[ys[0].0].next_sibling, ys.drop_first(), depth, width, c);
    }
}

/// A chain stays the same while its nodes keep their next siblings.
pub(crate) proof fn lemma_chain_frame(m: Nodes, m2: Nodes, start: Option<NodeId>, ys: Seq<NodeId>)
    requires
        chain_is(m, start, ys),
        forall|j: int| 0 <= j < ys.len() ==> m2.dom().contains(#[trigger] ys[j].0) && m2[ys[j].0].next_sibling
            == m[ys[j].0].next_sibling,
    ensures
        chain_is(m2, start, ys),
    decreases ys.len(),
{
    if ys.len() > 0 {
        assert(m2.dom().contains(ys[0].0));
        assert forall|j: int| 0 <= j < ys.drop_first().len() implies m2.dom().contains(
            #[trigger] ys.drop_first()[j].0,
        ) && m2[ys.drop_first()[j].0].next_sibling == m[ys.drop_first()[j].0].next_sibling by {
            assert(ys.drop_first()[j] == ys[j + 1]);
        }
        lemma_chain_frame(m, m2, m[ys[0].0].next_sibling, ys.drop_first());
    }
}

/// A chain whose last node gains a next sibling `c` that ends it grows by `c`.
pub(crate) proof fn lemma_chain_extend(m: Nodes, m2: Nodes, start: Option<NodeId>, ys: Seq<NodeId>, c: NodeId)
    requires
        chain_is(m, start, ys),
        ys.len() > 0,
        forall|j: int| 0 <= j < ys.len() - 1 ==> m2.dom().contains(#[trigger] ys[j].0) && m2[ys[j].0].next_sibling
            == m[ys[j].0].next_sibling,
        m2.dom().contains(ys.last().0),
        m2[ys.last().0].next_sibling == Some(c),
        m2.dom().contains(c.0),
        m2[c.0].next_sibling is None,
    ensures
        chain_is(m2, start, ys.push(c)),
    decreases ys.len(),
{
    if ys.len() == 1 {
        assert(ys.push(c).drop_first() =~= seq![c]);
        assert(seq![c].drop_first() =~= Seq::<NodeId>::empty());
        assert(chain_is(m2, m2[c.0].next_sibling, seq![c].drop_first()));
        assert(chain_is(m2, Some(c), seq![c]));
    } else {
        assert(ys.push(c).drop_first() =~= ys.drop_first().push(c));
        assert forall|j: int| 0 <= j < ys.drop_first().len() - 1 implies m2.dom().contains(
            #[trigger] ys.drop_first()[j].0,
        ) && m2[ys.drop_first()[j].0].next_sibling == m[ys.drop_first()[j].0].next_sibling by {
            assert(ys.drop_first()[j] == ys[j + 1]);
        }
        assert(m2[ys[0].0].next_sibling == m[ys[0].0].next_sibling);
        lemma_chain_extend(m, m2, m[ys[0].0].next_sibling, ys.drop_first(), c);
    }
}

/// A copy of an element's data.
fn copy_element(e: &ElementData) -> (r: ElementData)
    ensures
        same_element(*e, r),
{
    let mut classes: Vec<String> = Vec::new();
    let mut i: usize = 0;
    while i < e.class_list.len()
        invariant
            i <= e.class_list@.len(),
            classes@ == e.class_list@.take(i as int),
        decreases e.class_list@.len() - i,
    {
        classes.push(e.class_list[i].clone());
        assert(classes@ =~= e.class_list@.take(i + 1));
        i = i + 1;
    }
    assert(e.class_list@.take(e.class_list@.len() as int) =~= e.class_list@);
    let mut listeners: Vec<(String, Vec<crate::node::EventListener>)> = Vec::new();
    let mut j: usize = 0;
    while j < e.listeners.len()
        invariant
            j <= e.listeners@.len(),
            listeners@.len() == j,
            listeners_view(listeners@) == listeners_view(e.listeners@).take(j as int),
        decreases e.listeners@.len() - j,
    {
        let mut ls: Vec<crate::node::EventListener> = Vec::new();
        let mut k: usize = 0;
        while k < e.listeners[j].1.len()
            invariant
                j < e.listeners@.len(),
                k <= e.listeners@[j as int].1@.len(),
                ls@ == e.listeners@[j as int].1@.take(k as int),
            decreases e.listeners@[j as int].1@.len() - k,
        {
            ls.push(e.listeners[j].1[k]);
            assert(ls@ =~= e.listeners@[j as int].1@.take(k + 1));
            k = k + 1;
        }
        assert(e.listeners@[j as int].1@.take(e.listeners@[j as int].1@.len() as int) =~= e.listeners@[j as int].1@);
        listeners.push((e.listeners[j].0.clone(), ls));
        assert(listeners_view(listeners@) =~= listeners_view(e.listeners@).take(j + 1));
        j = j + 1;
    }
    assert(listeners_view(e.listeners@).take(e.listeners@.len() as int) =~= listeners_view(e.listeners@));
    ElementData {
        tag_name: e.tag_name.clone(),
        attributes: e.attributes.duplicate(),
        class_list: classes,
        style: e.style.duplicate(),
        listeners,
    }
}

/// What the copies made so far under node `n` are: its children in order, each a copy
/// of the source child at its position whose nodes lie in its own set, the sets apart
/// from each other, from `n` and from the nodes `o` that were there before.
pub open spec fn copies_ok(
    dm: Nodes,
    o: Set<u64>,
    sm: Nodes,
    kids: Seq<NodeId>,
    n: u64,
    copies: Seq<NodeId>,
    sets: Seq<Set<u64>>,
    depth: nat,
    w: nat,
) -> bool {
    &&& copies.len() == sets.len()
    &&& copies.len() <= kids.len()
    &&& dm.dom().contains(n)
    &&& chain_is(dm, dm[n].first_child, copies)
    &&& dm[n].last_child == (if copies.len() == 0 {
        None
    } else {
        Some(copies.last())
    })
    &&& forall|j: int| 0 <= j < copies.len() ==> #[trigger] subtree_copy(sm, kids[j].0, dm, copies[j].0, depth, w, sets[j])
    &&& forall|j: int, k: u64|
        0 <= j < copies.len() && #[trigger] sets[j].contains(k) ==> dm.dom().contains(k) && !o.contains(k) && k != n
    &&& forall|j: int, k: int|
        0 <= j < copies.len() && 0 <= k < copies.len() && j != k ==> !#[trigger] sets[j].contains(
            #[trigger] copies[k].0,
        )
}

/// One more child copy, appended to `n`, keeps the copies in order.
proof fn lemma_copy_step(
    before: Nodes,
    mid: Nodes,
    after: Nodes,
    o: Set<u64>,
    sm: Nodes,
    kids: Seq<NodeId>,
    n: u64,
    copies: Seq<NodeId>,
    sets: Seq<Set<u64>>,
    c: NodeId,
    ci: Set<u64>,
    depth: nat,
    w: nat,
)
    requires
        copies_ok(before, o, sm, kids, n, copies, sets, depth, w),
        copies.len() < kids.len(),
        before.dom().subset_of(mid.dom()),
        forall|k: u64| #[trigger] before.dom().contains(k) ==> mid[k] == before[k],
        o.subset_of(before.dom()),
        !before.dom().contains(c.0),
        mid.dom().contains(c.0),
        mid[c.0].parent is None,
        mid[c.0].next_sibling is None,
        ci == mid.dom().difference(before.dom()),
        subtree_copy(sm, kids[copies.len() as int].0, mid, c.0, depth, w, ci),
        after == crate::tree::linked_last(mid, n, c.0),
    ensures
        copies_ok(after, o, sm, kids, n, copies.push(c), sets.push(ci), depth, w),
{
    let i = copies.len() as int;
    let cs2 = copies.push(c);
    let ss2 = sets.push(ci);
    assert(before.dom().contains(n));
    assert(mid[n] == before[n]);
    if i > 0 {
        assert(subtree_copy(sm, kids[i - 1].0, before, copies[i - 1].0, depth, w, sets[i - 1]));
    }
    assert(after.dom() =~= mid.dom());
    // the nodes an append touches
    assert forall|k: u64| mid.dom().contains(k) && k != n && k != c.0 && (i == 0 || k != copies[i - 1].0) implies
        #[trigger] after[k] == mid[k] by {}
    // earlier copies keep their shape
    assert forall|j: int| 0 <= j < cs2.len() implies #[trigger] subtree_copy(sm, kids[j].0, after, cs2[j].0, depth, w, ss2[j]) by {
        if j < i {
            assert(subtree_copy(sm, kids[j].0, before, copies[j].0, depth, w, sets[j]));
            assert(sets[j].contains(copies[j].0));
            assert forall|k: u64| #![trigger ss2[j].remove(cs2[j].0).contains(k), after[k]]
                ss2[j].remove(cs2[j].0).contains(k) && before.dom().contains(k) implies {
                    &&& after.dom().contains(k)
                    &&& after[k].kind == before[k].kind
                    &&& after[k].first_child == before[k].first_child
                    &&& after[k].next_sibling == before[k].next_sibling
                } by {
                assert(sets[j].contains(k));
                if i > 0 && k == copies[i - 1].0 {
                    assert(sets[j].contains(copies[i - 1].0));
                }
                assert(mid[k] == before[k]);
            }
            lemma_copy_frame(sm, kids[j].0, before, after, copies[j].0, depth, w, sets[j]);
        } else {
            assert forall|k: u64| #![trigger ci.remove(c.0).contains(k), after[k]]
                ci.remove(c.0).contains(k) && mid.dom().contains(k) implies {
                    &&& after.dom().contains(k)
                    &&& after[k].kind == mid[k].kind
                    &&& after[k].first_child == mid[k].first_child
                    &&& after[k].next_sibling == mid[k].next_sibling
                } by {
                if i > 0 {
                    assert(sets[i - 1].contains(copies[i - 1].0)) by {
                        assert(subtree_copy(sm, kids[i - 1].0, before, copies[i - 1].0, depth, w, sets[i - 1]));
                    }
                }
            }
            lemma_copy_frame(sm, kids[j].0, mid, after, c.0, depth, w, ci);
        }
    }
    // the sets stay apart
    assert forall|j: int, k: u64| 0 <= j < cs2.len() && #[trigger] ss2[j].contains(k) implies after.dom().contains(k)
        && !o.contains(k) && k != n by {
        if j < i {
            assert(sets[j].contains(k));
        }
    }
    assert forall|j: int, k: int| 0 <= j < cs2.len() && 0 <= k < cs2.len() && j != k implies !#[trigger] ss2[j].contains(
        #[trigger] cs2[k].0,
    ) by {
        if j < i && k < i {
            assert(!sets[j].contains(copies[k].0));
        } else if j < i {
            assert(sets[j].contains(cs2[k].0) ==> before.dom().contains(cs2[k].0));
        } else {
            assert(subtree_copy(sm, kids[k].0, before, copies[k].0, depth, w, sets[k]));
            assert(sets[k].contains(copies[k].0));
        }
    }
    // the chain of children
    assert forall|j: int| 0 <= j < copies.len() implies mid.dom().contains(#[trigger] copies[j].0)
        && mid[copies[j].0].next_sibling == before[copies[j].0].next_sibling by {
        assert(subtree_copy(sm, kids[j].0, before, copies[j].0, depth, w, sets[j]));
    }
    lemma_chain_frame(before, mid, before[n].first_child, copies);
    if i == 0 {
        assert(after[n].first_child == Some(c));
        assert(cs2 =~= seq![c]);
        assert(cs2.drop_first() =~= Seq::<NodeId>::empty());
        assert(chain_is(after, after[c.0].next_sibling, cs2.drop_first()));
    } else {
        let last = copies[i - 1];
        assert(subtree_copy(sm, kids[i - 1].0, before, last.0, depth, w, sets[i - 1]));
        assert(sets[i - 1].contains(last.0));
        assert forall|j: int| 0 <= j < copies.len() - 1 implies after.dom().contains(#[trigger] copies[j].0)
            && after[copies[j].0].next_sibling == mid[copies[j].0].next_sibling by {
            assert(subtree_copy(sm, kids[j].0, before, copies[j].0, depth, w, sets[j]));
            assert(sets[j].contains(copies[j].0));
            assert(!sets[i - 1].contains(copies[j].0) || j == i - 1);
        }
        assert(after[n].first_child == mid[n].first_child);
        lemma_chain_extend(mid, after, mid[n].first_child, copies, c);
    }
}

// ──────────────────────────────── child chains ──────────────────────────────

/// Along a sibling walk each node's previous sibling is the node before it, and all
/// share the first one's parent.
proof fn lemma_walk_prev(m: Nodes, start: Option<NodeId>, f: nat)
    requires
        links_closed(m),
        links_consistent(m),
        has(m, start),
    ensures
        forall|j: int|
            0 < j < sibling_walk(m, start, f).len() ==> m[#[trigger] sibling_walk(m, start, f)[j].0].prev_sibling
                == Some(sibling_walk(m, start, f)[j - 1]),
        forall|j: int|
            0 <= j < sibling_walk(m, start, f).len() ==> m[#[trigger] sibling_walk(m, start, f)[j].0].parent
                == m[sibling_walk(m, start, f)[0].0].parent,
        sibling_walk(m, start, f).len() > 0 ==> start == Some(sibling_walk(m, start, f)[0]),
    decreases f,
{
    reveal(links_consistent);
    if f > 0 {
        match start {
            Some(s) => {
                if m.dom().contains(s.0) {
                    assert(links_in(m, m[s.0]));
                    assert(node_ok(m, s.0));
                    let next = m[s.0].next_sibling;
                    lemma_walk_prev(m, next, (f - 1) as nat);
                    let w = sibling_walk(m, start, f);
                    let t = sibling_walk(m, next, (f - 1) as nat);
                    assert(w =~= seq![s] + t);
                    assert forall|j: int| 0 < j < w.len() implies m[#[trigger] w[j].0].prev_sibling == Some(w[j - 1]) by {
                        assert(w[j] == t[j - 1]);
                        if j > 1 {
                            assert(w[j - 1] == t[j - 2]);
                        }
                    }
                    assert forall|j: int| 0 <= j < w.len() implies m[#[trigger] w[j].0].parent == m[w[0].0].parent by {
                        if j > 0 {
                            assert(w[j] == t[j - 1]);
                        }
                    }
                }
            },
            None => {},
        }
    }
}

/// A walk whose first node has no previous sibling never comes back to a node.
proof fn lemma_no_repeat(m: Nodes, w: Seq<NodeId>, a: int, b: int)
    requires
        0 <= a < b < w.len(),
        m[w[0].0].prev_sibling is None,
        forall|j: int| 0 < j < w.len() ==> m[#[trigger] w[j].0].prev_sibling == Some(w[j - 1]),
    ensures
        w[a] != w[b],
    decreases a,
{
    assert(m[w[b].0].prev_sibling == Some(w[b - 1]));
    if a > 0 {
        assert(m[w[a].0].prev_sibling == Some(w[a - 1]));
        lemma_no_repeat(m, w, a - 1, b - 1);
    }
}

/// A walk that stops short of its fuel has reached the end of its chain.
proof fn lemma_short_walk_ends(m: Nodes, start: Option<NodeId>, f: nat)
    requires
        links_closed(m),
        has(m, start),
        sibling_walk(m, start, f).len() < f,
    ensures
        chain_is(m, start, sibling_walk(m, start, f)),
    decreases f,
{
    match start {
        Some(s) => {
            assert(links_in(m, m[s.0]));
            let w = sibling_walk(m, start, f);
            let t = sibling_walk(m, m[s.0].next_sibling, (f - 1) as nat);
            assert(w =~= seq![s] + t);
            lemma_short_walk_ends(m, m[s.0].next_sibling, (f - 1) as nat);
            assert(w.drop_first() =~= t);
        },
        None => {},
    }
}

/// A walk given one more step than it takes is the same walk.
proof fn lemma_walk_more_fuel(m: Nodes, start: Option<NodeId>, f: nat)
    requires
        sibling_walk(m, start, f + 1).len() <= f,
    ensures
        sibling_walk(m, start, f) == sibling_walk(m, start, f + 1),
    decreases f,
{
    if f > 0 {
        match start {
            Some(s) => {
                if m.dom().contains(s.0) {
                    lemma_walk_more_fuel(m, m[s.0].next_sibling, (f - 1) as nat);
                }
            },
            None => {},
        }
    }
}

/// In a consistent tree the children walk of `p` is the whole chain of its children,
/// without repeats, each child of `p`, the last one `p`'s last child.
pub proof fn lemma_children_chain(t: DomTree, p: NodeId)
    requires
        t.wf(),
        t.consistent(),
        t.contains(p),
    ensures
        ({
            let m = t.nodes();
            let w = sibling_walk(m, m[p.0].first_child, t.size());
            &&& chain_is(m, m[p.0].first_child, w)
            &&& w.no_duplicates()
            &&& forall|j: int| 0 <= j < w.len() ==> m.dom().contains(#[trigger] w[j].0) && m[w[j].0].parent == Some(p)
            &&& m[p.0].last_child == (if w.len() == 0 {
                None
            } else {
                Some(w.last())
            })
        }),
{
    let m = t.nodes();
    let first = m[p.0].first_child;
    let n = t.size();
    t.lemma_closed();
    t.lemma_finite();
    t.lemma_links_in(p);
    reveal(links_consistent);
    assert(node_ok(m, p.0));
    let w1 = sibling_walk(m, first, n + 1);
    lemma_walk_prev(m, first, n + 1);
    crate::tree::lemma_walk_in(m, first, n + 1);
    if w1.len() > 0 {
        assert forall|a: int, b: int| 0 <= a < w1.len() && 0 <= b < w1.len() && a != b implies w1[a] != w1[b] by {
            if a < b {
                lemma_no_repeat(m, w1, a, b);
            } else {
                lemma_no_repeat(m, w1, b, a);
            }
        }
    }
    assert(w1.no_duplicates());
    assert(w1.len() <= n) by {
        let ks = w1.map_values(|x: NodeId| x.0);
        assert forall|a: int, b: int| 0 <= a < ks.len() && 0 <= b < ks.len() && a != b implies ks[a] != ks[b] by {
            assert(w1[a] != w1[b]);
        }
        assert(ks.no_duplicates());
        ks.unique_seq_to_set();
        assert forall|x: u64| #[trigger] ks.to_set().contains(x) implies m.dom().contains(x) by {
            let j = choose|j: int| 0 <= j < ks.len() && ks[j] == x;
            assert(m.dom().contains(w1[j].0));
        }
        vstd::set_lib::lemma_len_subset(ks.to_set(), m.dom());
    }
    lemma_walk_more_fuel(m, first, n);
    lemma_short_walk_ends(m, first, n + 1);
    let w = sibling_walk(m, first, n);
    lemma_walk_prev(m, first, n);
    crate::tree::lemma_walk_in(m, first, n);
    if w.len() > 0 {
        assert(node_ok(m, w[0].0));
        assert(m[w[0].0].parent == Some(p));
        lemma_chain_last(m, first, w);
        assert(node_ok(m, w.last().0));
    }
}

/// The last node of a chain has no next sibling.
pub(crate) proof fn lemma_chain_last(m: Nodes, start: Option<NodeId>, ys: Seq<NodeId>)
    requires
        chain_is(m, start, ys),
        ys.len() > 0,
    ensures
        m[ys.last().0].next_sibling is None,
    decreases ys.len(),
{
    assert(chain_is(m, m[ys[0].0].next_sibling, ys.drop_first()));
    if ys.len() > 1 {
        lemma_chain_last(m, m[ys[0].0].next_sibling, ys.drop_first());
        assert(ys.drop_first().last() == ys.last());
    } else {
        assert(ys.drop_first().len() == 0);
        assert(ys.last() == ys[0]);
    }
}


// ───────────────────────────── recorded mutations ───────────────────────────

/// A change as a script records it: its kind name and its fields, a missing number
/// read as 0 and a missing text as empty.
pub struct MutationRecord {
    pub kind: String,
    pub node_id: u64,
    pub parent_id: u64,
    pub child_id: u64,
    pub name: String,
    pub value: String,
    pub text: String,
    pub html: String,
    pub child_tag: String,
}

/// Whether a record names a change that is applied: a known kind whose node handles
/// are set, with a name for the attribute changes.
pub open spec fn record_accepted(r: MutationRecord) -> bool {
    ||| r.kind@ == "setAttribute"@ && r.node_id > 0 && r.name@.len() > 0
    ||| r.kind@ == "removeAttribute"@ && r.node_id > 0 && r.name@.len() > 0
    ||| r.kind@ == "textContent"@ && r.node_id > 0
    ||| r.kind@ == "innerHTML"@ && r.node_id > 0
    ||| r.kind@ == "appendChild"@ && r.parent_id > 0
    ||| r.kind@ == "removeChild"@ && r.parent_id > 0 && r.child_id > 0
}

/// The change `k` is the one the record describes.
pub open spec fn record_describes(r: MutationRecord, k: MutationKind) -> bool {
    match k {
        MutationKind::SetAttribute { node_id, name, value } => r.kind@ == "setAttribute"@ && node_id
            == r.node_id && name@ == r.name@ && value@ == r.value@,
        MutationKind::RemoveAttribute { node_id, name } => r.kind@ == "removeAttribute"@ && node_id
            == r.node_id && name@ == r.name@,
        MutationKind::SetTextContent { node_id, text } => r.kind@ == "textContent"@ && node_id
            == r.node_id && text@ == r.text@,
        MutationKind::SetInnerHTML { node_id, html } => r.kind@ == "innerHTML"@ && node_id == r.node_id
            && html@ == r.html@,
        MutationKind::AppendChild { parent_id, child_tag } => r.kind@ == "appendChild"@ && parent_id
            == r.parent_id && child_tag@ == r.child_tag@,
        MutationKind::RemoveChild { parent_id, child_id } => r.kind@ == "removeChild"@ && parent_id
            == r.parent_id && child_id == r.child_id,
    }
}

/// The change a script's record describes, or `None` for a record that names no
/// change to apply.
pub fn mutation_of_record(r: &MutationRecord) -> (m: Option<Mutation>)
    ensures
        m is Some <==> record_accepted(*r),
        m matches Some(x) ==> record_describes(*r, x.kind),
{
    proof {
        reveal_strlit("setAttribute");
        reveal_strlit("removeAttribute");
        reveal_strlit("textContent");
        reveal_strlit("innerHTML");
        reveal_strlit("appendChild");
        reveal_strlit("removeChild");
        assert("setAttribute"@ =~= seq!['s', 'e', 't', 'A', 't', 't', 'r', 'i', 'b', 'u', 't', 'e']);
        assert("removeAttribute"@ =~= seq!['r', 'e', 'm', 'o', 'v', 'e', 'A', 't', 't', 'r', 'i', 'b', 'u', 't', 'e']);
        assert("textContent"@ =~= seq!['t', 'e', 'x', 't', 'C', 'o', 'n', 't', 'e', 'n', 't']);
        assert("innerHTML"@ =~= seq!['i', 'n', 'n', 'e', 'r', 'H', 'T', 'M', 'L']);
        assert("appendChild"@ =~= seq!['a', 'p', 'p', 'e', 'n', 'd', 'C', 'h', 'i', 'l', 'd']);
        assert("removeChild"@ =~= seq!['r', 'e', 'm', 'o', 'v', 'e', 'C', 'h', 'i', 'l', 'd']);
        assert("setAttribute"@ != "removeAttribute"@) by { if "setAttribute"@.len() == "removeAttribute"@.len() { assert("setAttribute"@[0] != "removeAttribute"@[0] || "setAttribute"@[1] != "removeAttribute"@[1] || "setAttribute"@[2] != "removeAttribute"@[2]); } }
        assert("setAttribute"@ != "textContent"@) by { if "setAttribute"@.len() == "textContent"@.len() { assert("setAttribute"@[0] != "textContent"@[0] || "setAttribute"@[1] != "textContent"@[1] || "setAttribute"@[2] != "textContent"@[2]); } }
        assert("setAttribute"@ != "innerHTML"@) by { if "setAttribute"@.len() == "innerHTML"@.len() { assert("setAttribute"@[0] != "innerHTML"@[0] || "setAttribute"@[1] != "innerHTML"@[1] || "setAttribute"@[2] != "innerHTML"@[2]); } }
        assert("setAttribute"@ != "appendChild"@) by { if "setAttribute"@.len() == "appendChild"@.len() { assert("setAttribute"@[0] != "appendChild"@[0] || "setAttribute"@[1] != "appendChild"@[1] || "setAttribute"@[2] != "appendChild"@[2]); } }
        assert("setAttribute"@ != "removeChild"@) by { if "setAttribute"@.len() == "removeChild"@.len() { assert("setAttribute"@[0] != "removeChild"@[0] || "setAttribute"@[1] != "removeChild"@[1] || "setAttribute"@[2] != "removeChild"@[2]); } }
        assert("removeAttribute"@ != "textContent"@) by { if "removeAttribute"@.len() == "textContent"@.len() { assert("removeAttribute"@[0] != "textContent"@[0] || "removeAttribute"@[1] != "textContent"@[1] || "removeAttribute"@[2] != "textContent"@[2]); } }
        assert("removeAttribute"@ != "innerHTML"@) by { if "removeAttribute"@.len() == "innerHTML"@.len() { assert("removeAttribute"@[0] != "innerHTML"@[0] || "removeAttribute"@[1] != "innerHTML"@[1] || "removeAttribute"@[2] != "innerHTML"@[2]); } }
        assert("removeAttribute"@ != "appendChild"@) by { if "removeAttribute"@.len() == "appendChild"@.len() { assert("removeAttribute"@[0] != "appendChild"@[0] || "removeAttribute"@[1] != "appendChild"@[1] || "removeAttribute"@[2] != "appendChild"@[2]); } }
        assert("removeAttribute"@ != "removeChild"@) by { if "removeAttribute"@.len() == "removeChild"@.len() { assert("removeAttribute"@[0] != "removeChild"@[0] || "removeAttribute"@[1] != "removeChild"@[1] || "removeAttribute"@[2] != "removeChild"@[2]); } }
        assert("textContent"@ != "innerHTML"@) by { if "textContent"@.len() == "innerHTML"@.len() { assert("textContent"@[0] != "innerHTML"@[0] || "textContent"@[1] != "innerHTML"@[1] || "textContent"@[2] != "innerHTML"@[2]); } }
        assert("textContent"@ != "appendChild"@) by { if "textContent"@.len() == "appendChild"@.len() { assert("textContent"@[0] != "appendChild"@[0] || "textContent"@[1] != "appendChild"@[1] || "textContent"@[2] != "appendChild"@[2]); } }
        assert("textContent"@ != "removeChild"@) by { if "textContent"@.len() == "removeChild"@.len() { assert("textContent"@[0] != "removeChild"@[0] || "textContent"@[1] != "removeChild"@[1] || "textContent"@[2] != "removeChild"@[2]); } }
        assert("innerHTML"@ != "appendChild"@) by { if "innerHTML"@.len() == "appendChild"@.len() { assert("innerHTML"@[0] != "appendChild"@[0] || "innerHTML"@[1] != "appendChild"@[1] || "innerHTML"@[2] != "appendChild"@[2]); } }
        assert("innerHTML"@ != "removeChild"@) by { if "innerHTML"@.len() == "removeChild"@.len() { assert("innerHTML"@[0] != "removeChild"@[0] || "innerHTML"@[1] != "removeChild"@[1] || "innerHTML"@[2] != "removeChild"@[2]); } }
        assert("appendChild"@ != "removeChild"@) by { if "appendChild"@.len() == "removeChild"@.len() { assert("appendChild"@[0] != "removeChild"@[0] || "appendChild"@[1] != "removeChild"@[1] || "appendChild"@[2] != "removeChild"@[2]); } }
    }
    let k = r.kind.as_str();
    if crate::text::str_eq(k, "setAttribute") {
        if r.node_id > 0 && !r.name.as_str().is_empty() {
            return Some(Mutation { kind: MutationKind::SetAttribute { node_id: r.node_id, name: r.name.clone(), value: r.value.clone() } });
        }
    } else if crate::text::str_eq(k, "removeAttribute") {
        if r.node_id > 0 && !r.name.as_str().is_empty() {
            return Some(Mutation { kind: MutationKind::RemoveAttribute { node_id: r.node_id, name: r.name.clone() } });
        }
    } else if crate::text::str_eq(k, "textContent") {
        if r.node_id > 0 {
            return Some(Mutation { kind: MutationKind::SetTextContent { node_id: r.node_id, text: r.text.clone() } });
        }
    } else if crate::text::str_eq(k, "innerHTML") {
        if r.node_id > 0 {
            return Some(Mutation { kind: MutationKind::SetInnerHTML { node_id: r.node_id, html: r.html.clone() } });
        }
    } else if crate::text::str_eq(k, "appendChild") {
        if r.parent_id > 0 {
            return Some(Mutation { kind: MutationKind::AppendChild { parent_id: r.parent_id, child_tag: r.child_tag.clone() } });
        }
    } else if crate::text::str_eq(k, "removeChild") {
        if r.parent_id > 0 && r.child_id > 0 {
            return Some(Mutation { kind: MutationKind::RemoveChild { parent_id: r.parent_id, child_id: r.child_id } });
        }
    }
    None
}

} // verus!

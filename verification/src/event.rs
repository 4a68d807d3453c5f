//! Event targets and three-phase dispatch: capture from the outermost ancestor down,
//! then the target, then bubbling back up.
use vstd::prelude::*;
use crate::node::{Event, EventListener, EventPhase, NodeId, NodeKind};
use crate::request::key_index;
use crate::element::{find_type, listener_types, listeners_view, listener_added, listener_removed, ListenersV};
use crate::tree::{DomTree, Nodes, element_of, kind_changed, same_roots};

verus! {

/// Calls the functions that listeners were registered with, by handle.
pub trait ListenerCall {
    /// Calls the function registered under `callback` with `event`.
    fn call(&mut self, callback: u64, event: &mut Event);
}

/// Something that keeps listeners and dispatches events to them.
pub trait EventTarget {
    /// Whether `node` can take listeners and events here.
    spec fn holds_node(&self, node: NodeId) -> bool;

    fn add_event_listener(&mut self, node_id: NodeId, event_type: &str, callback: u64, capture: bool)
        requires
            old(self).holds_node(node_id),
    ;

    fn remove_event_listener(&mut self, node_id: NodeId, event_type: &str, callback: u64) -> bool
        requires
            old(self).holds_node(node_id),
    ;

    fn dispatch_event<C: ListenerCall>(&mut self, target: NodeId, event: &mut Event, calls: &mut C) -> bool
        requires
            old(self).holds_node(target),
    ;
}

/// The ancestors from `start` up, stopping before a Document node, at most `fuel`.
pub open spec fn ancestors(m: Nodes, start: Option<NodeId>, fuel: nat) -> Seq<NodeId>
    decreases fuel,
{
    if fuel == 0 {
        seq![]
    } else {
        match start {
            Some(a) => if m.dom().contains(a.0) && !(m[a.0].kind is Document) {
                seq![a] + ancestors(m, m[a.0].parent, (fuel - 1) as nat)
            } else {
                seq![]
            },
            None => seq![],
        }
    }
}

/// The handles of the listeners for `event_type` whose capture flag is `capture`, in
/// order of registration.
pub open spec fn handles_for(ls: ListenersV, event_type: Seq<char>, capture: bool) -> Seq<u64> {
    match key_index(listener_types(ls), event_type) {
        Some(i) => ls[i].1.filter(|l: EventListener| l.capture == capture).map_values(
            |l: EventListener| l.callback,
        ),
        None => seq![],
    }
}

/// The ancestors of `target` that an event passes through, innermost first, up to but
/// not including the document.
pub fn propagation_path(tree: &DomTree, target: NodeId) -> (r: Vec<NodeId>)
    requires
        tree.wf(),
        tree.contains(target),
    ensures
        r@ == ancestors(tree.nodes(), tree.nodes()[target.0].parent, tree.size()),
{
    let ghost m = tree.nodes();
    let mut path: Vec<NodeId> = Vec::new();
    let mut cur = tree.get_node(target).parent;
    let mut budget = tree.node_count();
    proof {
        tree.lemma_links_in(target);
        assert(path@ + ancestors(m, cur, budget as nat) =~= ancestors(m, cur, budget as nat));
    }
    let ghost whole = ancestors(m, cur, budget as nat);
    loop
        invariant
            tree.wf(),
            m == tree.nodes(),
            crate::tree::has(m, cur),
            path@ + ancestors(m, cur, budget as nat) == whole,
        ensures
            path@ == whole,
        decreases budget,
    {
        if budget == 0 {
            assert(path@ + ancestors(m, cur, budget as nat) =~= path@);
            break;
        }
        match cur {
            Some(id) => {
                let n = tree.get_node(id);
                let is_doc = match &n.kind {
                    NodeKind::Document(_) => true,
                    _ => false,
                };
                if is_doc {
                    assert(path@ + ancestors(m, cur, budget as nat) =~= path@);
                    break;
                }
                proof {
                    tree.lemma_links_in(id);
                    assert(path@.push(id) + ancestors(m, m[id.0].parent, (budget - 1) as nat) =~= path@
                        + ancestors(m, cur, budget as nat));
                }
                path.push(id);
                cur = n.parent;
                budget = budget - 1;
            },
            None => {
                assert(path@ + ancestors(m, cur, budget as nat) =~= path@);
                break;
            },
        }
    }
    path
}

/// The handles of the listeners on `node` for `event_type` whose capture flag is
/// `capture`, in order of registration; none for a node that is not an element.
pub fn listeners_for(tree: &DomTree, node: NodeId, event_type: &str, capture: bool) -> (r: Vec<u64>)
    requires
        tree.wf(),
        tree.contains(node),
    ensures
        r@ == match element_of(tree.nodes(), node.0) {
            Some(e) => handles_for(listeners_view(e.listeners@), event_type@, capture),
            None => seq![],
        },
{
    match &tree.get_node(node).kind {
        NodeKind::Element(el) => match find_type(&el.listeners, event_type) {
            Some(i) => {
                let list = &el.listeners[i].1;
                let ghost s = list@;
                let mut out: Vec<u64> = Vec::new();
                let mut j: usize = 0;
                while j < list.len()
                    invariant
                        j <= s.len(),
                        s == list@,
                        out@ == s.take(j as int).filter(|l: EventListener| l.capture == capture).map_values(
                            |l: EventListener| l.callback,
                        ),
                    decreases s.len() - j,
                {
                    proof {
                        reveal(Seq::filter);
                        assert(s.take(j + 1).drop_last() =~= s.take(j as int));
                        assert(s.take(j + 1).last() == s[j as int]);
                    }
                    let ghost prefix = s.take(j as int).filter(|l: EventListener| l.capture == capture);
                    let ghost next = s.take(j + 1).filter(|l: EventListener| l.capture == capture);
                    if list[j].capture == capture {
                        proof {
                            assert(next == prefix.push(s[j as int]));
                            assert(next.map_values(|l: EventListener| l.callback) =~= prefix.map_values(
                                |l: EventListener| l.callback,
                            ).push(s[j as int].callback));
                        }
                        out.push(list[j].callback);
                    } else {
                        proof {
                            assert(next == prefix);
                        }
                    }
                    j = j + 1;
                }
                assert(s.take(s.len() as int) =~= s);
                assert(listeners_view(el.listeners@)[i as int].1 == s);
                out
            },
            None => Vec::new(),
        },
        _ => Vec::new(),
    }
}

/// The handles a node calls for an event type and capture flag.
pub open spec fn node_handles(m: Nodes, n: NodeId, event_type: Seq<char>, capture: bool) -> Seq<u64> {
    match element_of(m, n.0) {
        Some(e) => handles_for(listeners_view(e.listeners@), event_type, capture),
        None => seq![],
    }
}

/// The handles the nodes `ns` call, node after node.
pub open spec fn handles_along(m: Nodes, ns: Seq<NodeId>, event_type: Seq<char>, capture: bool) -> Seq<u64>
    decreases ns.len(),
{
    if ns.len() == 0 {
        seq![]
    } else {
        handles_along(m, ns.drop_last(), event_type, capture) + node_handles(m, ns.last(), event_type, capture)
    }
}

/// A path outermost first.
pub open spec fn outermost_first(path: Seq<NodeId>) -> Seq<NodeId> {
    Seq::new(path.len(), |i: int| path[path.len() - 1 - i])
}

/// The listener calls of a dispatch at `target`, in order, when no listener stops it:
/// the capturing listeners of the ancestors below the document, outermost first; the
/// target's capturing, then non-capturing listeners; and, if the event bubbles, the
/// ancestors' non-capturing listeners, innermost first.
pub open spec fn dispatch_plan(m: Nodes, target: NodeId, size: nat, event_type: Seq<char>, bubbles: bool) -> Seq<
    u64,
> {
    let path = ancestors(m, m[target.0].parent, size);
    handles_along(m, outermost_first(path), event_type, true) + node_handles(m, target, event_type, true)
        + node_handles(m, target, event_type, false) + if bubbles {
        handles_along(m, path, event_type, false)
    } else {
        seq![]
    }
}

/// The stop flags `s` gained after its first `base`: all clear but the last, and the
/// last, if there is one, as `now`.
pub open spec fn stops_since(s: Seq<bool>, base: int, now: bool) -> bool {
    &&& forall|j: int| base <= j < s.len() - 1 ==> !#[trigger] s[j]
    &&& s.len() > base ==> s.last() == now
}

/// Calls the listeners behind `handles` in order, stopping once the event is stopped:
/// a prefix of them is called, all of them unless the event ends stopped, and at least
/// the first. The event's delivery record grows by the handles called, and its stop
/// record by one flag per call, every flag clear but the last.
fn invoke<C: ListenerCall>(handles: &Vec<u64>, event: &mut Event, calls: &mut C) -> (n: usize)
    ensures
        n <= handles@.len(),
        handles@.len() > 0 ==> n > 0,
        final(event).delivered@ == old(event).delivered@ + handles@.take(n as int),
        n < handles@.len() ==> final(event).stopped,
        final(event).stopped_after@.len() == old(event).stopped_after@.len() + n,
        n == 0 ==> final(event).stopped == old(event).stopped,
        final(event).stopped_after@.take(old(event).stopped_after@.len() as int) == old(event).stopped_after@,
        stops_since(final(event).stopped_after@, old(event).stopped_after@.len() as int, final(event).stopped),
{
    let ghost base = event.stopped_after@.len() as int;
    let ghost flags0 = event.stopped_after@;
    let mut i: usize = 0;
    while i < handles.len()
        invariant_except_break
            event.delivered@ == old(event).delivered@ + handles@.take(i as int),
            event.stopped_after@.len() == base + i,
            forall|j: int| base <= j < event.stopped_after@.len() ==> !#[trigger] event.stopped_after@[j],
            i > 0 ==> !event.stopped,
        invariant
            i <= handles@.len(),
            base == old(event).stopped_after@.len(),
            flags0 == old(event).stopped_after@,
            event.stopped_after@.take(base) == flags0,
            i == 0 ==> event.stopped == old(event).stopped,
        ensures
            i == 0 ==> event.stopped == old(event).stopped,
            i <= handles@.len(),
            handles@.len() > 0 ==> i > 0,
            event.delivered@ == old(event).delivered@ + handles@.take(i as int),
            i < handles@.len() ==> event.stopped,
            event.stopped_after@.len() == base + i,
            stops_since(event.stopped_after@, base, event.stopped),
        decreases handles@.len() - i,
    {
        let ghost sent = event.delivered@;
        let ghost flags = event.stopped_after@;
        calls.call(handles[i], event);
        event.delivered = Ghost(sent.push(handles@[i as int]));
        event.stopped_after = Ghost(flags.push(event.stopped));
        assert(handles@.take(i + 1) =~= handles@.take(i as int).push(handles@[i as int]));
        assert(event.stopped_after@.take(base) =~= flags.take(base));
        i = i + 1;
        if event.stopped {
            break;
        }
    }
    i
}

impl EventTarget for DomTree {
    open spec fn holds_node(&self, node: NodeId) -> bool {
        self.wf() && self.contains(node)
    }

    /// Registers a listener with handle `callback` for `event_type` on the element
    /// `node_id`.
    fn add_event_listener(&mut self, node_id: NodeId, event_type: &str, callback: u64, capture: bool)
        ensures
            final(self).wf(),
            same_roots(*old(self), *final(self)),
            old(self).consistent() ==> final(self).consistent(),
            final(self).index() == old(self).index(),
            match element_of(old(self).nodes(), node_id.0) {
                Some(e) => {
                    &&& kind_changed(old(self).nodes(), final(self).nodes(), node_id.0)
                    &&& final(self).nodes()[node_id.0].kind matches NodeKind::Element(e2)
                    &&& e2.tag_name == e.tag_name
                    &&& e2.attributes == e.attributes
                    &&& e2.class_list == e.class_list
                    &&& e2.style == e.style
                    &&& listeners_view(e2.listeners@) == listener_added(
                        listeners_view(e.listeners@),
                        event_type@,
                        EventListener { callback, once: false, capture, passive: false },
                    )
                },
                None => final(self).nodes() == old(self).nodes(),
            },
    {
        crate::element::add_event_listener(self, node_id, event_type, callback, capture);
    }

    /// Removes the first listener with handle `callback` for `event_type` from the
    /// element `node_id`; whether one was removed.
    fn remove_event_listener(&mut self, node_id: NodeId, event_type: &str, callback: u64) -> (r: bool)
        ensures
            final(self).wf(),
            same_roots(*old(self), *final(self)),
            old(self).consistent() ==> final(self).consistent(),
            final(self).index() == old(self).index(),
            match element_of(old(self).nodes(), node_id.0) {
                Some(e) => {
                    let (ls, removed) = listener_removed(
                        listeners_view(e.listeners@),
                        event_type@,
                        callback,
                    );
                    &&& r == removed
                    &&& kind_changed(old(self).nodes(), final(self).nodes(), node_id.0)
                    &&& final(self).nodes()[node_id.0].kind matches NodeKind::Element(e2)
                    &&& e2.tag_name == e.tag_name
                    &&& e2.attributes == e.attributes
                    &&& e2.class_list == e.class_list
                    &&& e2.style == e.style
                    &&& listeners_view(e2.listeners@) == ls
                },
                None => !r && final(self).nodes() == old(self).nodes(),
            },
    {
        crate::element::remove_event_listener(self, node_id, event_type, callback)
    }

    /// Dispatches `event` at `target`: capturing listeners on the ancestors below the
    /// document, outermost first; the target's capturing, then non-capturing listeners;
    /// and, if the event bubbles, the ancestors' non-capturing listeners, innermost first,
    /// for the event's type and bubbling flag as they are when it is dispatched. The calls
    /// made, which the event's delivery record gains, are a prefix of that plan: all of it
    /// unless the event ends stopped, none if it was stopped already; a listener that
    /// stops the event is the last one called: the event's stop record gains one flag
    /// per call, whether the event was stopped when that listener returned, and every
    /// flag but the last is clear.
    /// The result is whether the default action was not prevented.
    fn dispatch_event<C: ListenerCall>(&mut self, target: NodeId, event: &mut Event, calls: &mut C) -> (r:
        bool)
        ensures
            *final(self) == *old(self),
            final(event).target == Some(target),
            final(event).phase == EventPhase::Inactive,
            final(event).current_target is None,
            r == !final(event).prevented,
            ({
                let plan = dispatch_plan(
                    old(self).nodes(),
                    target,
                    old(self).size(),
                    old(event).event_type@,
                    old(event).bubbles,
                );
                exists|n: int|
                    0 <= n <= plan.len() && final(event).delivered@ == old(event).delivered@ + plan.take(n as int) && (n
                        < plan.len() ==> final(event).stopped) && (old(event).stopped ==> n == 0)
                        && final(event).stopped_after@.len() == old(event).stopped_after@.len() + n
            }),
            final(event).stopped_after@.take(old(event).stopped_after@.len() as int) == old(event).stopped_after@,
            stops_since(final(event).stopped_after@, old(event).stopped_after@.len() as int, final(event).stopped),
    {
        let ghost base0 = event.stopped_after@.len() as int;
        let ghost flags0 = event.stopped_after@;
        let ghost m = self.nodes();
        let ghost log0 = event.delivered@;
        let ghost stopped0 = event.stopped;
        let ty = event.event_type.clone();
        let bubbles = event.bubbles;
        let ghost tyv = ty@;
        let ghost plan = dispatch_plan(m, target, self.size(), tyv, bubbles);
        event.target = Some(target);
        let path = propagation_path(self, target);
        let ghost outer = outermost_first(path@);
        let ghost cap = handles_along(m, outer, tyv, true);
        let ghost at1 = node_handles(m, target, tyv, true);
        let ghost at2 = node_handles(m, target, tyv, false);
        let ghost bub = if bubbles {
            handles_along(m, path@, tyv, false)
        } else {
            seq![]
        };
        assert(plan == cap + at1 + at2 + bub);
        let ghost mut off: int = 0;
        event.phase = EventPhase::Capturing;
        let mut k: usize = 0;
        loop
            invariant
                self.wf(),
                self.contains(target),
                m == self.nodes(),
                ty@ == tyv,
                path@ == ancestors(self.nodes(), self.nodes()[target.0].parent, self.size()),
                outer == outermost_first(path@),
                cap == handles_along(m, outer, tyv, true),
                k <= path@.len(),
                0 <= off <= handles_along(m, outer.take(k as int), tyv, true).len(),
                event.delivered@ == log0 + handles_along(m, outer.take(k as int), tyv, true).take(off),
                off < handles_along(m, outer.take(k as int), tyv, true).len() ==> event.stopped,
                stopped0 ==> off == 0 && event.stopped,
                event.stopped_after@.len() == base0 + off,
                event.stopped_after@.take(base0) == flags0,
                stops_since(event.stopped_after@, base0, event.stopped),
                0 <= base0,
            ensures
                event.stopped_after@.len() == base0 + off,
                event.stopped_after@.take(base0) == flags0,
                stops_since(event.stopped_after@, base0, event.stopped),
                0 <= off <= cap.len(),
                event.delivered@ == log0 + cap.take(off),
                off < cap.len() ==> event.stopped,
                stopped0 ==> off == 0 && event.stopped,
            decreases path@.len() - k,
        {
            let ghost done = handles_along(m, outer.take(k as int), tyv, true);
            if k >= path.len() {
                proof {
                    assert(outer.take(k as int) =~= outer);
                }
                break;
            }
            if event.stopped {
                proof {
                    lemma_along_prefix(m, outer, k as int, tyv, true);
                    assert(cap.take(off) =~= done.take(off));
                }
                break;
            }
            let ancestor = path[path.len() - 1 - k];
            proof {
                lemma_ancestors_in(self.nodes(), self.nodes()[target.0].parent, self.size(), path@.len() - 1 - k);
                assert(outer[k as int] == ancestor);
            }
            event.current_target = Some(ancestor);
            let hs = listeners_for(self, ancestor, ty.as_str(), true);
            let ghost fl = event.stopped_after@;
            let n = invoke(&hs, event, calls);
            proof {
                lemma_stops_extend(fl, event.stopped_after@, base0, event.stopped);
                assert(outer.take(k + 1).drop_last() =~= outer.take(k as int));
                assert(outer.take(k + 1).last() == ancestor);
                let nd = handles_along(m, outer.take(k + 1), tyv, true);
                assert(nd == done + hs@);
                assert(off == done.len());
                assert(done.take(off) + hs@.take(n as int) =~= nd.take(off + n));
                assert(event.delivered@ =~= log0 + nd.take(off + n));
                off = off + n;
            }
            k = k + 1;
        }
        let ghost before_at = off;
        if !event.stopped {
            event.phase = EventPhase::AtTarget;
            event.current_target = Some(target);
            let hs = listeners_for(self, target, ty.as_str(), true);
            assert(hs@ == at1);
            let ghost fl = event.stopped_after@;
            let n = invoke(&hs, event, calls);
            proof {
                lemma_stops_extend(fl, event.stopped_after@, base0, event.stopped);
                assert(off == cap.len());
                assert(cap.take(off) + hs@.take(n as int) =~= (cap + at1).take(off + n));
                assert(event.delivered@ =~= log0 + (cap + at1).take(off + n));
                off = off + n;
            }
            if !event.stopped {
                let hs2 = listeners_for(self, target, ty.as_str(), false);
                assert(hs2@ == at2);
                let ghost fl = event.stopped_after@;
                let n = invoke(&hs2, event, calls);
                proof {
                    lemma_stops_extend(fl, event.stopped_after@, base0, event.stopped);
                    assert(off == (cap + at1).len());
                    assert((cap + at1).take(off) + hs2@.take(n as int) =~= (cap + at1 + at2).take(off + n));
                    assert(event.delivered@ =~= log0 + (cap + at1 + at2).take(off + n));
                    off = off + n;
                }
            }
        }
        proof {
            let pre = cap + at1 + at2;
            assert(0 <= off);
            if off <= cap.len() {
                assert(cap.take(off) =~= pre.take(off));
            } else if off <= (cap + at1).len() {
                assert((cap + at1).take(off) =~= pre.take(off));
            }
            assert(off <= pre.len());
            assert(off < pre.len() ==> event.stopped);
            assert(event.delivered@ == log0 + pre.take(off));
        }
        let ghost pre = cap + at1 + at2;
        if !event.stopped && bubbles {
            event.phase = EventPhase::Bubbling;
            let mut j: usize = 0;
            loop
                invariant
                    self.wf(),
                    self.contains(target),
                    m == self.nodes(),
                    ty@ == tyv,
                    bubbles,
                    path@ == ancestors(self.nodes(), self.nodes()[target.0].parent, self.size()),
                    bub == handles_along(m, path@, tyv, false),
                    j <= path@.len(),
                    pre.len() <= off <= pre.len() + handles_along(m, path@.take(j as int), tyv, false).len(),
                    event.delivered@ == log0 + (pre + handles_along(m, path@.take(j as int), tyv, false)).take(off),
                    off < pre.len() + handles_along(m, path@.take(j as int), tyv, false).len() ==> event.stopped,
                    !stopped0,
                    event.stopped_after@.len() == base0 + off,
                    event.stopped_after@.take(base0) == flags0,
                    stops_since(event.stopped_after@, base0, event.stopped),
                    0 <= base0,
                ensures
                    event.stopped_after@.len() == base0 + off,
                    event.stopped_after@.take(base0) == flags0,
                    stops_since(event.stopped_after@, base0, event.stopped),

                    pre.len() <= off <= (pre + bub).len(),
                    event.delivered@ == log0 + (pre + bub).take(off),
                    off < (pre + bub).len() ==> event.stopped,
                decreases path@.len() - j,
            {
                let ghost done = handles_along(m, path@.take(j as int), tyv, false);
                if j >= path.len() {
                    proof {
                        assert(path@.take(j as int) =~= path@);
                    }
                    break;
                }
                if event.stopped {
                    proof {
                        lemma_along_prefix(m, path@, j as int, tyv, false);
                        assert((pre + bub).take(off) =~= (pre + done).take(off));
                    }
                    break;
                }
                let ancestor = path[j];
                proof {
                    lemma_ancestors_in(self.nodes(), self.nodes()[target.0].parent, self.size(), j as int);
                }
                event.current_target = Some(ancestor);
                let hs = listeners_for(self, ancestor, ty.as_str(), false);
                let ghost fl = event.stopped_after@;
                let n = invoke(&hs, event, calls);
                proof {
                    lemma_stops_extend(fl, event.stopped_after@, base0, event.stopped);
                    assert(path@.take(j + 1).drop_last() =~= path@.take(j as int));
                    assert(path@.take(j + 1).last() == ancestor);
                    let nd = handles_along(m, path@.take(j + 1), tyv, false);
                    assert(nd == done + hs@);
                    assert(off == (pre + done).len());
                    assert((pre + done).take(off) + hs@.take(n as int) =~= (pre + nd).take(off + n));
                    assert(event.delivered@ =~= log0 + (pre + nd).take(off + n));
                    off = off + n;
                }
                j = j + 1;
            }
        } else {
            proof {
                if !bubbles {
                    assert(pre + bub =~= pre);
                } else {
                    assert(pre.take(off) =~= (pre + bub).take(off));
                }
            }
        }
        assert(plan == pre + bub);
        event.phase = EventPhase::Inactive;
        event.current_target = None;
        event.target = Some(target);
        !event.prevented
    }
}

/// The handles along a prefix of a path are a prefix of the handles along it.
proof fn lemma_along_prefix(m: Nodes, ns: Seq<NodeId>, k: int, event_type: Seq<char>, capture: bool)
    requires
        0 <= k <= ns.len(),
    ensures
        handles_along(m, ns.take(k), event_type, capture).len() <= handles_along(m, ns, event_type, capture).len(),
        handles_along(m, ns, event_type, capture).take(handles_along(m, ns.take(k), event_type, capture).len() as int)
            == handles_along(m, ns.take(k), event_type, capture),
    decreases ns.len(),
{
    if k == ns.len() {
        assert(ns.take(k) =~= ns);
        assert(handles_along(m, ns, event_type, capture).take(handles_along(m, ns, event_type, capture).len() as int)
            =~= handles_along(m, ns, event_type, capture));
    } else {
        assert(ns.drop_last().take(k) =~= ns.take(k));
        lemma_along_prefix(m, ns.drop_last(), k, event_type, capture);
        let a = handles_along(m, ns.drop_last(), event_type, capture);
        let b = node_handles(m, ns.last(), event_type, capture);
        let p = handles_along(m, ns.take(k), event_type, capture);
        assert((a + b).take(p.len() as int) =~= a.take(p.len() as int));
    }
}

/// Every node on an ancestor path is in the tree.
proof fn lemma_ancestors_in(m: Nodes, start: Option<NodeId>, fuel: nat, i: int)
    requires
        0 <= i < ancestors(m, start, fuel).len(),
    ensures
        m.dom().contains(ancestors(m, start, fuel)[i].0),
    decreases fuel,
{
    if fuel > 0 {
        match start {
            Some(a) => {
                if m.dom().contains(a.0) && !(m[a.0].kind is Document) && i > 0 {
                    lemma_ancestors_in(m, m[a.0].parent, (fuel - 1) as nat, i - 1);
                }
            },
            None => {},
        }
    }
}


/// Flags appended by calls made while the event was not stopped keep the stop record
/// clear but for its last flag.
proof fn lemma_stops_extend(s: Seq<bool>, s2: Seq<bool>, base: int, now2: bool)
    requires
        0 <= base <= s.len(),
        stops_since(s, base, false),
        s2.len() >= s.len(),
        s2.take(s.len() as int) == s,
        stops_since(s2, s.len() as int, now2),
        s2.len() == s.len() ==> !now2,
    ensures
        stops_since(s2, base, now2),
        s2.take(base) == s.take(base),
{
    assert forall|j: int| base <= j < s2.len() - 1 implies !#[trigger] s2[j] by {
        if j < s.len() {
            if j == s.len() - 1 {
                assert(s[j] == s.last());
            }
            assert(s2[j] == s2.take(s.len() as int)[j]);
        }
    }
    assert(s2.take(base) =~= s.take(base));
}


/// The `n` nearest nodes from `start` up the parent links, `start` first, when each of
/// them is a node of the tree and not the document.
pub open spec fn up_chain(m: Nodes, start: Option<NodeId>, n: nat) -> Option<Seq<NodeId>>
    decreases n,
{
    if n == 0 {
        Some(seq![])
    } else {
        match start {
            Some(a) => if m.dom().contains(a.0) && !(m[a.0].kind is Document) {
                match up_chain(m, m[a.0].parent, (n - 1) as nat) {
                    Some(r) => Some(seq![a] + r),
                    None => None,
                }
            } else {
                None
            },
            None => None,
        }
    }
}

proof fn lemma_up_chain_prefix(m: Nodes, start: Option<NodeId>, n: nat, f: nat, c: Seq<NodeId>)
    requires
        n <= f,
        up_chain(m, start, n) == Some(c),
    ensures
        ancestors(m, start, f).len() >= n,
        ancestors(m, start, f).take(n as int) == c,
    decreases n,
{
    if n > 0 {
        let a = start->0;
        let r = up_chain(m, m[a.0].parent, (n - 1) as nat)->0;
        lemma_up_chain_prefix(m, m[a.0].parent, (n - 1) as nat, (f - 1) as nat, r);
        let rest = ancestors(m, m[a.0].parent, (f - 1) as nat);
        assert(ancestors(m, start, f) == seq![a] + rest);
        assert((seq![a] + rest).take(n as int) =~= seq![a] + rest.take(n - 1));
    } else {
        assert(ancestors(m, start, f).take(0) =~= Seq::<NodeId>::empty());
    }
}

/// The handles along two runs of nodes, one after the other, are those along the first,
/// then those along the second.
pub proof fn law_handles_along_concat(m: Nodes, a: Seq<NodeId>, b: Seq<NodeId>, event_type: Seq<char>, capture: bool)
    ensures
        handles_along(m, a + b, event_type, capture) == handles_along(m, a, event_type, capture) + handles_along(
            m,
            b,
            event_type,
            capture,
        ),
    decreases b.len(),
{
    if b.len() == 0 {
        assert(a + b =~= a);
        assert(handles_along(m, a, event_type, capture) + Seq::<u64>::empty() =~= handles_along(m, a, event_type, capture));
    } else {
        law_handles_along_concat(m, a, b.drop_last(), event_type, capture);
        assert((a + b).drop_last() =~= a + b.drop_last());
        assert((a + b).last() == b.last());
    }
}

/// The handles along a run of nodes begin with those of its first node.
pub proof fn law_handles_along_first(m: Nodes, a: NodeId, rest: Seq<NodeId>, event_type: Seq<char>, capture: bool)
    ensures
        handles_along(m, seq![a] + rest, event_type, capture) == node_handles(m, a, event_type, capture)
            + handles_along(m, rest, event_type, capture),
{
    law_handles_along_concat(m, seq![a], rest, event_type, capture);
    assert(seq![a].drop_last() =~= Seq::<NodeId>::empty());
    assert(handles_along(m, Seq::<NodeId>::empty(), event_type, capture) == Seq::<u64>::empty());
    assert(Seq::<u64>::empty() + node_handles(m, a, event_type, capture) =~= node_handles(m, a, event_type, capture));
}

/// A bubbling event goes on, after everything a non-bubbling one calls, to the
/// non-capturing listeners of the target's parent, grandparent and so on, nearest
/// first, for as many ancestors below the document as the tree holds nodes: every such
/// ancestor is reached, not only the parent.
pub proof fn law_bubbling_reaches_ancestors(
    m: Nodes,
    target: NodeId,
    size: nat,
    event_type: Seq<char>,
    n: nat,
    chain: Seq<NodeId>,
)
    requires
        n <= size,
        up_chain(m, m[target.0].parent, n) == Some(chain),
    ensures
        exists|rest: Seq<u64>|
            dispatch_plan(m, target, size, event_type, true) == dispatch_plan(m, target, size, event_type, false)
                + handles_along(m, chain, event_type, false) + rest,
{
    let path = ancestors(m, m[target.0].parent, size);
    lemma_up_chain_prefix(m, m[target.0].parent, n, size, chain);
    assert(path =~= chain + path.skip(n as int));
    law_handles_along_concat(m, chain, path.skip(n as int), event_type, false);
    let base = handles_along(m, outermost_first(path), event_type, true) + node_handles(m, target, event_type, true)
        + node_handles(m, target, event_type, false);
    assert(dispatch_plan(m, target, size, event_type, false) =~= base);
    let rest = handles_along(m, path.skip(n as int), event_type, false);
    assert(dispatch_plan(m, target, size, event_type, true) =~= dispatch_plan(m, target, size, event_type, false)
        + handles_along(m, chain, event_type, false) + rest);
}

/// A chain of nodes up from `start` ends below the document: the next step up from its
/// last node (from `start` when it is empty) is no node of the tree, or the document.
pub open spec fn chain_complete(m: Nodes, start: Option<NodeId>, chain: Seq<NodeId>) -> bool {
    let next = if chain.len() == 0 {
        start
    } else {
        m[chain.last().0].parent
    };
    match next {
        Some(a) => !m.dom().contains(a.0) || m[a.0].kind is Document,
        None => true,
    }
}

proof fn lemma_up_chain_complete(m: Nodes, start: Option<NodeId>, n: nat, f: nat, c: Seq<NodeId>)
    requires
        n <= f,
        up_chain(m, start, n) == Some(c),
        chain_complete(m, start, c),
    ensures
        ancestors(m, start, f) == c,
    decreases n,
{
    if n == 0 {
        assert(c == Seq::<NodeId>::empty());
    } else {
        let a = start->0;
        let r = up_chain(m, m[a.0].parent, (n - 1) as nat)->0;
        assert(c == seq![a] + r);
        if r.len() > 0 {
            assert(c.last() == r.last());
        }
        lemma_up_chain_complete(m, m[a.0].parent, (n - 1) as nat, (f - 1) as nat, r);
    }
}

/// When no listener stops it, a dispatch at `target` whose ancestors below the document
/// are `chain` (nearest first) calls: the capturing listeners of `chain`, outermost
/// first; the target's capturing listeners, then its non-capturing ones; and, for a
/// bubbling event only, the non-capturing listeners of `chain`, nearest first.
pub proof fn law_dispatch_order(
    m: Nodes,
    target: NodeId,
    size: nat,
    event_type: Seq<char>,
    n: nat,
    chain: Seq<NodeId>,
)
    requires
        n <= size,
        up_chain(m, m[target.0].parent, n) == Some(chain),
        chain_complete(m, m[target.0].parent, chain),
    ensures
        dispatch_plan(m, target, size, event_type, false) == handles_along(m, chain.reverse(), event_type, true)
            + node_handles(m, target, event_type, true) + node_handles(m, target, event_type, false),
        dispatch_plan(m, target, size, event_type, true) == dispatch_plan(m, target, size, event_type, false)
            + handles_along(m, chain, event_type, false),
{
    lemma_up_chain_complete(m, m[target.0].parent, n, size, chain);
    assert(outermost_first(chain) =~= chain.reverse());
    let base = handles_along(m, chain.reverse(), event_type, true) + node_handles(m, target, event_type, true)
        + node_handles(m, target, event_type, false);
    assert(dispatch_plan(m, target, size, event_type, false) =~= base);
}

} // verus!

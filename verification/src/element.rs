//! Element operations on a tree: attributes, class list and listeners, keeping the id
//! index, the class list and the inline style in step with the attributes.
use vstd::prelude::*;
use crate::node::{NodeId, NodeKind, EventListener, merge_declarations, without_key};
use crate::request::{header_lookup, header_set, HeadersV, key_index, lemma_key_index_bound, lemma_key_index_of};
use crate::text::{eq_ignore_case, split_ws, split_char, split_words, strings_view, str_eq, str_eq_ignore_case, join, join_strings};
use crate::tree::{DomTree, element_of, kind_changed, same_roots, id_insert, index_drop, id_lookup, id_attr, id_remove, law_id_read_after_write, law_id_removed, lemma_id_insert_other};

verus! {

pub open spec fn id_name() -> Seq<char> {
    seq!['i', 'd']
}

pub open spec fn class_name() -> Seq<char> {
    seq!['c', 'l', 'a', 's', 's']
}

pub open spec fn style_name() -> Seq<char> {
    seq!['s', 't', 'y', 'l', 'e']
}

/// The value of attribute `name` of the element `node`.
pub fn get_attribute(tree: &DomTree, node: NodeId, name: &str) -> (r: Option<String>)
    requires
        tree.wf(),
        tree.contains(node),
    ensures
        match element_of(tree.nodes(), node.0) {
            Some(e) => match header_lookup(e.attributes@, name@) {
                Some(v) => r matches Some(s) && s@ == v,
                None => r is None,
            },
            None => r is None,
        },
{
    match &tree.get_node(node).kind {
        NodeKind::Element(el) => match el.attributes.get_value(name) {
            Some(v) => Some(v.to_owned()),
            None => None,
        },
        _ => None,
    }
}

/// Whether the element `node` has attribute `name`.
pub fn has_attribute(tree: &DomTree, node: NodeId, name: &str) -> (r: bool)
    requires
        tree.wf(),
        tree.contains(node),
    ensures
        r == match element_of(tree.nodes(), node.0) {
            Some(e) => key_index(e.attributes@, name@) is Some,
            None => false,
        },
{
    match &tree.get_node(node).kind {
        NodeKind::Element(el) => el.attributes.has(name),
        _ => false,
    }
}

/// The text of the Text nodes under `node`.
pub fn text_content(tree: &DomTree, node: NodeId) -> (r: String)
    requires
        tree.wf(),
        tree.contains(node),
    ensures
        r@ == crate::tree::text_under(tree.nodes(), node.0, tree.size(), tree.size()),
{
    tree.text_content(node)
}

/// The id index after the `id` attribute of `node` changed to `value`.
pub open spec fn reindexed(t: DomTree, node: NodeId, value: Seq<char>) -> crate::tree::IdIndexV {
    id_insert(index_drop(t.index(), t.nodes()[node.0]), value, node)
}

/// Sets attribute `name` to `value` on the element `node`. An `id` (in any case) moves
/// the element's index entry to `value`; a `class` replaces the class list by the words
/// of `value`; a `style` merges the declarations of `value` into the inline style.
pub fn set_attribute(tree: &mut DomTree, node: NodeId, name: &str, value: &str)
    requires
        old(tree).wf(),
        old(tree).contains(node),
    ensures
        final(tree).wf(),
        same_roots(*old(tree), *final(tree)),
        old(tree).consistent() ==> final(tree).consistent(),
        match element_of(old(tree).nodes(), node.0) {
            Some(e) => {
                &&& kind_changed(old(tree).nodes(), final(tree).nodes(), node.0)
                &&& final(tree).nodes()[node.0].kind matches NodeKind::Element(e2)
                &&& e2.tag_name == e.tag_name
                &&& e2.listeners == e.listeners
                &&& e2.attributes@ == header_set(e.attributes@, name@, value@)
                &&& header_lookup(e2.attributes@, name@) == Some(value@)
                &&& strings_view(e2.class_list@) == if eq_ignore_case(name@, class_name()) {
                    split_ws(value@)
                } else {
                    strings_view(e.class_list@)
                }
                &&& e2.style@ == if eq_ignore_case(name@, style_name()) {
                    merge_declarations(e.style@, split_char(value@, ';'))
                } else {
                    e.style@
                }
                &&& final(tree).index() == if eq_ignore_case(name@, id_name()) {
                    reindexed(*old(tree), node, value@)
                } else {
                    old(tree).index()
                }
                &&& eq_ignore_case(name@, id_name()) ==> id_lookup(final(tree).index(), value@) == Some(node)
                &&& eq_ignore_case(name@, id_name()) ==> forall|o: Seq<char>|
                    id_attr(old(tree).nodes()[node.0]) == Some(o) && o != value@ ==> #[trigger] id_lookup(
                        final(tree).index(),
                        o,
                    ) is None
            },
            None => final(tree).nodes() == old(tree).nodes() && final(tree).index() == old(
                tree,
            ).index(),
        },
{
    proof {
        old(tree).lemma_index_distinct();
        let idx = old(tree).index();
        law_id_read_after_write(index_drop(idx, old(tree).nodes()[node.0]), value@, node);
        match id_attr(old(tree).nodes()[node.0]) {
            Some(o) => {
                law_id_removed(idx, o);
                if o != value@ {
                    lemma_id_insert_other(id_remove(idx, o), value@, node, o);
                }
            },
            None => {},
        }
        reveal_strlit("id");
        reveal_strlit("class");
        reveal_strlit("style");
        assert("id"@ =~= id_name());
        assert("class"@ =~= class_name());
        assert("style"@ =~= style_name());
    }
    let is_element = tree.get_node(node).is_element();
    if !is_element {
        return;
    }
    if str_eq_ignore_case(name, "id") {
        match &tree.get_node(node).kind {
            NodeKind::Element(el) => match el.attributes.get_value("id") {
                Some(old_id) => {
                    let k = old_id.to_owned();
                    tree.index_delete(k.as_str());
                },
                None => {},
            },
            _ => {},
        }
        tree.index_put(value, node);
    }
    let is_class = str_eq_ignore_case(name, "class");
    let is_style = str_eq_ignore_case(name, "style");
    let kind = tree.get_node_mut(node);
    match kind {
        NodeKind::Element(el) => {
            if is_class {
                el.class_list = split_words(value);
            }
            if is_style {
                el.style.parse_and_merge(value);
            }
            el.attributes.set(name.to_owned(), value.to_owned());
        },
        _ => {},
    }
}

/// Removes attribute `name` from the element `node`. An `id` (in any case) drops the
/// element's index entry; a `class` empties the class list.
pub fn remove_attribute(tree: &mut DomTree, node: NodeId, name: &str)
    requires
        old(tree).wf(),
        old(tree).contains(node),
    ensures
        final(tree).wf(),
        same_roots(*old(tree), *final(tree)),
        old(tree).consistent() ==> final(tree).consistent(),
        match element_of(old(tree).nodes(), node.0) {
            Some(e) => {
                &&& kind_changed(old(tree).nodes(), final(tree).nodes(), node.0)
                &&& final(tree).nodes()[node.0].kind matches NodeKind::Element(e2)
                &&& e2.tag_name == e.tag_name
                &&& e2.listeners == e.listeners
                &&& e2.style == e.style
                &&& e2.attributes@ == without_key(e.attributes@, name@)
                &&& key_index(e2.attributes@, name@) is None
                &&& strings_view(e2.class_list@) == if eq_ignore_case(name@, class_name()) {
                    seq![]
                } else {
                    strings_view(e.class_list@)
                }
                &&& final(tree).index() == if eq_ignore_case(name@, id_name()) {
                    index_drop(old(tree).index(), old(tree).nodes()[node.0])
                } else {
                    old(tree).index()
                }
                &&& eq_ignore_case(name@, id_name()) ==> forall|o: Seq<char>|
                    id_attr(old(tree).nodes()[node.0]) == Some(o) ==> #[trigger] id_lookup(
                        final(tree).index(),
                        o,
                    ) is None
            },
            None => final(tree).nodes() == old(tree).nodes() && final(tree).index() == old(
                tree,
            ).index(),
        },
{
    proof {
        reveal_strlit("id");
        reveal_strlit("class");
        assert("id"@ =~= id_name());
        assert("class"@ =~= class_name());
        old(tree).lemma_index_distinct();
        match id_attr(old(tree).nodes()[node.0]) {
            Some(o) => {
                law_id_removed(old(tree).index(), o);
            },
            None => {},
        }
    }
    let is_element = tree.get_node(node).is_element();
    if !is_element {
        return;
    }
    if str_eq_ignore_case(name, "id") {
        match &tree.get_node(node).kind {
            NodeKind::Element(el) => match el.attributes.get_value("id") {
                Some(old_id) => {
                    let k = old_id.to_owned();
                    tree.index_delete(k.as_str());
                },
                None => {},
            },
            _ => {},
        }
    }
    let is_class = str_eq_ignore_case(name, "class");
    let kind = tree.get_node_mut(node);
    match kind {
        NodeKind::Element(el) => {
            if is_class {
                el.class_list.clear();
                assert(strings_view(el.class_list@) =~= seq![]);
            }
            el.attributes.remove(name);
        },
        _ => {},
    }
}

/// Whether `class` is among `v`.
pub(crate) fn has_string(v: &Vec<String>, class: &str) -> (r: bool)
    ensures
        r == strings_view(v@).contains(class@),
{
    let mut i: usize = 0;
    while i < v.len()
        invariant
            i <= v@.len(),
            forall|j: int| 0 <= j < i ==> v@[j]@ != class@,
        decreases v@.len() - i,
    {
        if str_eq(v[i].as_str(), class) {
            assert(strings_view(v@)[i as int] == class@);
            return true;
        }
        i = i + 1;
    }
    assert forall|j: int| 0 <= j < strings_view(v@).len() implies strings_view(v@)[j] != class@ by {
        assert(strings_view(v@)[j] == v@[j]@);
    }
    false
}

/// The class list with `class` added at the end, unless it is there.
pub open spec fn classes_added(cl: Seq<Seq<char>>, class: Seq<char>) -> Seq<Seq<char>> {
    if cl.contains(class) {
        cl
    } else {
        cl.push(class)
    }
}

/// The class list without `class`.
pub open spec fn classes_removed(cl: Seq<Seq<char>>, class: Seq<char>) -> Seq<Seq<char>> {
    cl.filter(|c: Seq<char>| c != class)
}

/// Whether the element `node` has class `class`.
pub fn class_list_contains(tree: &DomTree, node: NodeId, class: &str) -> (r: bool)
    requires
        tree.wf(),
        tree.contains(node),
    ensures
        r == match element_of(tree.nodes(), node.0) {
            Some(e) => strings_view(e.class_list@).contains(class@),
            None => false,
        },
{
    match &tree.get_node(node).kind {
        NodeKind::Element(el) => has_string(&el.class_list, class),
        _ => false,
    }
}

/// Adds `class` to the element's class list, unless it is there, and writes the list,
/// space-separated, to the `class` attribute.
pub fn class_list_add(tree: &mut DomTree, node: NodeId, class: &str)
    requires
        old(tree).wf(),
        old(tree).contains(node),
    ensures
        final(tree).wf(),
        same_roots(*old(tree), *final(tree)),
        old(tree).consistent() ==> final(tree).consistent(),
        final(tree).index() == old(tree).index(),
        match element_of(old(tree).nodes(), node.0) {
            Some(e) => {
                let cl = classes_added(strings_view(e.class_list@), class@);
                &&& kind_changed(old(tree).nodes(), final(tree).nodes(), node.0)
                &&& final(tree).nodes()[node.0].kind matches NodeKind::Element(e2)
                &&& e2.tag_name == e.tag_name
                &&& e2.listeners == e.listeners
                &&& e2.style == e.style
                &&& strings_view(e2.class_list@) == cl
                &&& e2.attributes@ == header_set(e.attributes@, class_name(), join(cl, seq![' ']))
            },
            None => final(tree).nodes() == old(tree).nodes(),
        },
{
    proof {
        reveal_strlit("class");
        reveal_strlit(" ");
        assert("class"@ =~= class_name());
        assert(" "@ =~= seq![' ']);
    }
    let kind = tree.get_node_mut(node);
    match kind {
        NodeKind::Element(el) => {
            if !has_string(&el.class_list, class) {
                let ghost before = el.class_list@;
                el.class_list.push(class.to_owned());
                assert(strings_view(el.class_list@) =~= strings_view(before).push(class@));
            }
            let val = join_strings(el.class_list.as_slice(), " ");
            el.attributes.set("class".to_owned(), val);
        },
        _ => {},
    }
}

/// Drops `class` from the element's class list; the `class` attribute becomes the
/// remaining list, space-separated, or is removed when that is empty.
pub fn class_list_remove(tree: &mut DomTree, node: NodeId, class: &str)
    requires
        old(tree).wf(),
        old(tree).contains(node),
    ensures
        final(tree).wf(),
        same_roots(*old(tree), *final(tree)),
        old(tree).consistent() ==> final(tree).consistent(),
        final(tree).index() == old(tree).index(),
        match element_of(old(tree).nodes(), node.0) {
            Some(e) => {
                let cl = classes_removed(strings_view(e.class_list@), class@);
                let val = join(cl, seq![' ']);
                &&& kind_changed(old(tree).nodes(), final(tree).nodes(), node.0)
                &&& final(tree).nodes()[node.0].kind matches NodeKind::Element(e2)
                &&& e2.tag_name == e.tag_name
                &&& e2.listeners == e.listeners
                &&& e2.style == e.style
                &&& strings_view(e2.class_list@) == cl
                &&& !cl.contains(class@)
                &&& e2.attributes@ == if val.len() == 0 {
                    without_key(e.attributes@, class_name())
                } else {
                    header_set(e.attributes@, class_name(), val)
                }
                &&& (val.len() == 0 ==> key_index(e2.attributes@, class_name()) is None)
                &&& (val.len() > 0 ==> header_lookup(e2.attributes@, class_name()) == Some(val))
            },
            None => final(tree).nodes() == old(tree).nodes(),
        },
{
    proof {
        match element_of(old(tree).nodes(), node.0) {
            Some(e) => {
                let cl = classes_removed(strings_view(e.class_list@), class@);
                let pred = |c: Seq<char>| c != class@;
                if cl.contains(class@) {
                    let i = choose|i: int| 0 <= i < cl.len() && cl[i] == class@;
                    strings_view(e.class_list@).lemma_filter_pred(pred, i);
                }
            },
            None => {},
        }
        reveal_strlit("class");
        reveal_strlit(" ");
        assert("class"@ =~= class_name());
        assert(" "@ =~= seq![' ']);
    }
    let kind = tree.get_node_mut(node);
    match kind {
        NodeKind::Element(el) => {
            let ghost cl = strings_view(el.class_list@);
            let mut kept: Vec<String> = Vec::new();
            let mut i: usize = 0;
            while i < el.class_list.len()
                invariant
                    i <= el.class_list@.len(),
                    cl == strings_view(el.class_list@),
                    strings_view(kept@) == classes_removed(cl.take(i as int), class@),
                decreases el.class_list@.len() - i,
            {
                proof {
                    reveal(Seq::filter);
                    assert(cl.take(i + 1).drop_last() =~= cl.take(i as int));
                    assert(cl.take(i + 1).last() == el.class_list@[i as int]@);
                }
                if !str_eq(el.class_list[i].as_str(), class) {
                    let ghost before = kept@;
                    kept.push(el.class_list[i].clone());
                    assert(strings_view(kept@) =~= strings_view(before).push(el.class_list@[i as int]@));
                }
                i = i + 1;
            }
            assert(cl.take(el.class_list@.len() as int) =~= cl);
            el.class_list = kept;
            let val = join_strings(el.class_list.as_slice(), " ");
            if val.as_str().is_empty() {
                el.attributes.remove("class");
            } else {
                el.attributes.set("class".to_owned(), val);
            }
        },
        _ => {},
    }
}

/// Toggles `class` on the element and returns whether it is now present.
pub fn class_list_toggle(tree: &mut DomTree, node: NodeId, class: &str) -> (r: bool)
    requires
        old(tree).wf(),
        old(tree).contains(node),
    ensures
        final(tree).wf(),
        same_roots(*old(tree), *final(tree)),
        old(tree).consistent() ==> final(tree).consistent(),
        final(tree).index() == old(tree).index(),
        r == !match element_of(old(tree).nodes(), node.0) {
            Some(e) => strings_view(e.class_list@).contains(class@),
            None => false,
        },
        match element_of(old(tree).nodes(), node.0) {
            Some(e) => {
                let cl = strings_view(e.class_list@);
                &&& kind_changed(old(tree).nodes(), final(tree).nodes(), node.0)
                &&& final(tree).nodes()[node.0].kind matches NodeKind::Element(e2)
                &&& e2.tag_name == e.tag_name
                &&& e2.listeners == e.listeners
                &&& e2.style == e.style
                &&& strings_view(e2.class_list@) == if r {
                    classes_added(cl, class@)
                } else {
                    classes_removed(cl, class@)
                }
                &&& strings_view(e2.class_list@).contains(class@) == r
            },
            None => final(tree).nodes() == old(tree).nodes(),
        },
{
    if class_list_contains(tree, node, class) {
        class_list_remove(tree, node, class);
        proof {
            match element_of(old(tree).nodes(), node.0) {
                Some(e) => lemma_removed_lacks(strings_view(e.class_list@), class@),
                None => {},
            }
        }
        false
    } else {
        class_list_add(tree, node, class);
        proof {
            match element_of(old(tree).nodes(), node.0) {
                Some(e) => {
                    let cl = strings_view(e.class_list@);
                    assert(cl.push(class@)[cl.len() as int] == class@);
                },
                None => {},
            }
        }
        true
    }
}

/// After removing a class, it is not in the list.
pub proof fn lemma_removed_lacks(cl: Seq<Seq<char>>, class: Seq<char>)
    ensures
        !classes_removed(cl, class).contains(class),
{
    broadcast use vstd::seq_lib::group_filter_ensures;
    let f = classes_removed(cl, class);
    if f.contains(class) {
        let j = choose|j: int| 0 <= j < f.len() && f[j] == class;
        assert((|c: Seq<char>| c != class)(f[j]));
    }
}

// ──────────────────────────────── listeners ─────────────────────────────────

/// Listeners per event type.
pub type ListenersV = Seq<(Seq<char>, Seq<EventListener>)>;

pub open spec fn listeners_view(v: Seq<(String, Vec<EventListener>)>) -> ListenersV {
    v.map_values(|e: (String, Vec<EventListener>)| (e.0@, e.1@))
}

/// The event types, to search by.
pub open spec fn listener_types(ls: ListenersV) -> HeadersV {
    ls.map_values(|e: (Seq<char>, Seq<EventListener>)| (e.0, Seq::<char>::empty()))
}

/// `entry(event_type).or_default().push(l)`.
pub open spec fn listener_added(ls: ListenersV, event_type: Seq<char>, l: EventListener) -> ListenersV {
    match key_index(listener_types(ls), event_type) {
        Some(i) => ls.update(i, (event_type, ls[i].1.push(l))),
        None => ls.push((event_type, seq![l])),
    }
}

/// The first listener in `s` with handle `callback`.
pub open spec fn callback_position(s: Seq<EventListener>, callback: u64) -> Option<int>
    decreases s.len(),
{
    if s.len() == 0 {
        None
    } else if s[0].callback == callback {
        Some(0)
    } else {
        match callback_position(s.drop_first(), callback) {
            Some(i) => Some(i + 1),
            None => None,
        }
    }
}

proof fn lemma_callback_position(s: Seq<EventListener>, callback: u64, i: int)
    requires
        0 <= i <= s.len(),
        forall|j: int| 0 <= j < i ==> s[j].callback != callback,
    ensures
        i < s.len() && s[i].callback == callback ==> callback_position(s, callback) == Some(i),
        i == s.len() ==> callback_position(s, callback) is None,
    decreases s.len(),
{
    if s.len() > 0 && i > 0 {
        assert forall|j: int| 0 <= j < i - 1 implies s.drop_first()[j].callback != callback by {
            assert(s.drop_first()[j] == s[j + 1]);
        }
        lemma_callback_position(s.drop_first(), callback, i - 1);
    }
}

/// The listeners after removing the first with handle `callback` for `event_type`, and
/// whether one was removed.
pub open spec fn listener_removed(ls: ListenersV, event_type: Seq<char>, callback: u64) -> (
    ListenersV,
    bool,
) {
    match key_index(listener_types(ls), event_type) {
        Some(i) => match callback_position(ls[i].1, callback) {
            Some(p) => (ls.update(i, (event_type, ls[i].1.remove(p))), true),
            None => (ls, false),
        },
        None => (ls, false),
    }
}

/// The position of `event_type` among the listener lists.
pub(crate) fn find_type(v: &Vec<(String, Vec<EventListener>)>, event_type: &str) -> (r: Option<usize>)
    ensures
        match r {
            Some(i) => i < v@.len() && key_index(listener_types(listeners_view(v@)), event_type@)
                == Some(i as int) && v@[i as int].0@ == event_type@,
            None => key_index(listener_types(listeners_view(v@)), event_type@) is None,
        },
{
    let ghost ks = listener_types(listeners_view(v@));
    let mut i: usize = 0;
    while i < v.len()
        invariant
            i <= v@.len(),
            ks == listener_types(listeners_view(v@)),
            ks.len() == v@.len(),
            forall|j: int| 0 <= j < i ==> ks[j].0 != event_type@,
        decreases v@.len() - i,
    {
        assert(ks[i as int].0 == v@[i as int].0@);
        if str_eq(v[i].0.as_str(), event_type) {
            proof {
                lemma_key_index_of(ks, event_type@, i as int);
            }
            return Some(i);
        }
        i = i + 1;
    }
    proof {
        lemma_key_index_bound(ks, event_type@);
    }
    None
}

/// Registers a listener with handle `callback` for `event_type` on the element `node`.
pub fn add_event_listener(
    tree: &mut DomTree,
    node: NodeId,
    event_type: &str,
    callback: u64,
    capture: bool,
)
    requires
        old(tree).wf(),
        old(tree).contains(node),
    ensures
        final(tree).wf(),
        same_roots(*old(tree), *final(tree)),
        old(tree).consistent() ==> final(tree).consistent(),
        final(tree).index() == old(tree).index(),
        match element_of(old(tree).nodes(), node.0) {
            Some(e) => {
                &&& kind_changed(old(tree).nodes(), final(tree).nodes(), node.0)
                &&& final(tree).nodes()[node.0].kind matches NodeKind::Element(e2)
                &&& e2.tag_name == e.tag_name
                &&& e2.attributes == e.attributes
                &&& e2.class_list == e.class_list
                &&& e2.style == e.style
                &&& listeners_view(e2.listeners@) == listener_added(
                    listeners_view(e.listeners@),
                    event_type@,
                    EventListener { callback, once: false, capture, passive: false },
                )
            },
            None => final(tree).nodes() == old(tree).nodes(),
        },
{
    let l = EventListener { callback, once: false, capture, passive: false };
    let kind = tree.get_node_mut(node);
    match kind {
        NodeKind::Element(el) => {
            let ghost before = listeners_view(el.listeners@);
            match find_type(&el.listeners, event_type) {
                Some(i) => {
                    let mut entry = el.listeners.remove(i);
                    assert(entry.0@ == event_type@ && entry.1@ == before[i as int].1);
                    entry.1.push(l);
                    el.listeners.insert(i, entry);
                    assert(listeners_view(el.listeners@) =~= before.update(
                        i as int,
                        (event_type@, before[i as int].1.push(l)),
                    ));
                },
                None => {
                    let mut one: Vec<EventListener> = Vec::new();
                    one.push(l);
                    assert(one@ =~= seq![l]);
                    el.listeners.push((event_type.to_owned(), one));
                    assert(listeners_view(el.listeners@) =~= before.push((event_type@, seq![l])));
                },
            }
        },
        _ => {},
    }
}

/// Removes the first listener with handle `callback` for `event_type` from the element
/// `node`; whether one was removed.
pub fn remove_event_listener(tree: &mut DomTree, node: NodeId, event_type: &str, callback: u64) -> (r:
    bool)
    requires
        old(tree).wf(),
        old(tree).contains(node),
    ensures
        final(tree).wf(),
        same_roots(*old(tree), *final(tree)),
        old(tree).consistent() ==> final(tree).consistent(),
        final(tree).index() == old(tree).index(),
        match element_of(old(tree).nodes(), node.0) {
            Some(e) => {
                let (ls, removed) = listener_removed(
                    listeners_view(e.listeners@),
                    event_type@,
                    callback,
                );
                &&& r == removed
                &&& kind_changed(old(tree).nodes(), final(tree).nodes(), node.0)
                &&& final(tree).nodes()[node.0].kind matches NodeKind::Element(e2)
                &&& e2.tag_name == e.tag_name
                &&& e2.attributes == e.attributes
                &&& e2.class_list == e.class_list
                &&& e2.style == e.style
                &&& listeners_view(e2.listeners@) == ls
            },
            None => !r && final(tree).nodes() == old(tree).nodes(),
        },
{
    let kind = tree.get_node_mut(node);
    match kind {
        NodeKind::Element(el) => {
            let ghost before = listeners_view(el.listeners@);
            match find_type(&el.listeners, event_type) {
                Some(i) => {
                    let mut p: usize = 0;
                    let n = el.listeners[i].1.len();
                    while p < n && el.listeners[i].1[p].callback != callback
                        invariant
                            i < el.listeners@.len(),
                            before == listeners_view(el.listeners@),
                            n == el.listeners@[i as int].1@.len(),
                            p <= n,
                            forall|j: int| 0 <= j < p ==> el.listeners@[i as int].1@[j].callback != callback,
                        decreases n - p,
                    {
                        p = p + 1;
                    }
                    proof {
                        assert(before[i as int].1 == el.listeners@[i as int].1@);
                        lemma_callback_position(before[i as int].1, callback, p as int);
                    }
                    if p < n {
                        let mut entry = el.listeners.remove(i);
                        assert(entry.0@ == event_type@ && entry.1@ == before[i as int].1);
                        entry.1.remove(p);
                        el.listeners.insert(i, entry);
                        assert(listeners_view(el.listeners@) =~= before.update(
                            i as int,
                            (event_type@, before[i as int].1.remove(p as int)),
                        ));
                        true
                    } else {
                        false
                    }
                },
                None => false,
            }
        },
        _ => false,
    }
}

// ─────────────────────────────────── laws ───────────────────────────────────

/// Setting an attribute, then reading it, gives the value set.
pub proof fn law_attribute_read_after_write(attrs: HeadersV, name: Seq<char>, value: Seq<char>)
    ensures
        header_lookup(header_set(attrs, name, value), name) == Some(value),
{
    lemma_key_index_bound(attrs, name);
    match key_index(attrs, name) {
        Some(i) => {
            lemma_key_index_of(header_set(attrs, name, value), name, i);
        },
        None => {
            lemma_key_index_of(header_set(attrs, name, value), name, attrs.len() as int);
        },
    }
}

/// Adding a class, then removing it, leaves a list without it; adding puts it in.
pub proof fn law_class_add_remove(cl: Seq<Seq<char>>, class: Seq<char>)
    ensures
        classes_added(cl, class).contains(class),
        !classes_removed(classes_added(cl, class), class).contains(class),
{
    if !cl.contains(class) {
        assert(cl.push(class)[cl.len() as int] == class);
    }
    lemma_removed_lacks(classes_added(cl, class), class);
}

/// A listener just added for an event type is found and removed by its handle.
pub proof fn law_listener_add_then_remove(ls: ListenersV, event_type: Seq<char>, l: EventListener)
    ensures
        listener_removed(listener_added(ls, event_type, l), event_type, l.callback).1,
{
    let ks = listener_types(ls);
    lemma_key_index_bound(ks, event_type);
    let added = listener_added(ls, event_type, l);
    match key_index(ks, event_type) {
        Some(i) => {
            assert(listener_types(added) =~= ks.update(i, (event_type, Seq::<char>::empty())));
            lemma_key_index_of(listener_types(added), event_type, i);
            let s = ls[i].1.push(l);
            assert(added[i].1 == s);
            lemma_callback_found(s, l.callback, s.len() - 1);
        },
        None => {
            assert(listener_types(added) =~= ks.push((event_type, Seq::<char>::empty())));
            lemma_key_index_of(listener_types(added), event_type, ls.len() as int);
            lemma_callback_found(seq![l], l.callback, 0);
        },
    }
}

/// A handle at position `i` is found at `i` or before.
proof fn lemma_callback_found(s: Seq<EventListener>, callback: u64, i: int)
    requires
        0 <= i < s.len(),
        s[i].callback == callback,
    ensures
        callback_position(s, callback) is Some,
    decreases s.len(),
{
    if s[0].callback != callback {
        assert(s.drop_first()[i - 1] == s[i]);
        lemma_callback_found(s.drop_first(), callback, i - 1);
    }
}


/// Adding a class a second time changes nothing: the class list and the class
/// attribute are as after the first time.
pub proof fn law_class_add_twice(cl: Seq<Seq<char>>, attrs: HeadersV, class: Seq<char>)
    ensures
        ({
            let once = classes_added(cl, class);
            let attrs1 = header_set(attrs, class_name(), join(once, seq![' ']));
            &&& classes_added(once, class) == once
            &&& header_set(attrs1, class_name(), join(classes_added(once, class), seq![' '])) == attrs1
        }),
{
    let once = classes_added(cl, class);
    if !cl.contains(class) {
        assert(cl.push(class)[cl.len() as int] == class);
    }
    assert(once.contains(class));
    crate::request::lemma_header_set_twice(attrs, class_name(), join(once, seq![' ']));
}

} // verus!

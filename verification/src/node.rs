//! DOM node types and their attribute, style and event records.
use vstd::prelude::*;
use crate::request::{HeadersV, key_index, header_set, lemma_key_index_bound, distinct_keys, header_lookup};
use crate::text::{chars_of, string_of, string_push, string_push_str, char_upper, upper_seq, split_chars, trim_chars, split_once_chars, split_char, split_once, trim, join, str_eq, lemma_map_push, lemma_map_update, lemma_split_join, lemma_first_index_after, lemma_trim_around};

verus! {

/// The handle of a node in a [`crate::tree::DomTree`].
#[derive(Debug, Clone, Copy, PartialEq, Eq, Hash, Structural)]
pub struct NodeId(pub u64);

/// A single node of the DOM tree: its kind and its links to neighbours.
#[derive(Debug, Clone)]
pub struct DomNode {
    pub kind: NodeKind,
    pub parent: Option<NodeId>,
    pub first_child: Option<NodeId>,
    pub last_child: Option<NodeId>,
    pub next_sibling: Option<NodeId>,
    pub prev_sibling: Option<NodeId>,
}

impl DomNode {
    /// A node of the given kind, linked to nothing.
    pub fn new(kind: NodeKind) -> (r: Self)
        ensures
            r.kind == kind,
            r.parent is None,
            r.first_child is None,
            r.last_child is None,
            r.next_sibling is None,
            r.prev_sibling is None,
    {
        DomNode {
            kind,
            parent: None,
            first_child: None,
            last_child: None,
            next_sibling: None,
            prev_sibling: None,
        }
    }

    pub fn is_element(&self) -> (r: bool)
        ensures
            r == self.kind is Element,
    {
        match self.kind {
            NodeKind::Element(_) => true,
            _ => false,
        }
    }

    pub fn is_text(&self) -> (r: bool)
        ensures
            r == self.kind is Text,
    {
        match self.kind {
            NodeKind::Text(_) => true,
            _ => false,
        }
    }

    /// The tag name of an element node.
    pub fn tag_name(&self) -> (r: Option<&str>)
        ensures
            match self.kind {
                NodeKind::Element(e) => r matches Some(t) && t@ == e.tag_name@,
                _ => r is None,
            },
    {
        match &self.kind {
            NodeKind::Element(data) => Some(data.tag_name.as_str()),
            _ => None,
        }
    }

    pub fn element_data(&self) -> (r: Option<&ElementData>)
        ensures
            match self.kind {
                NodeKind::Element(e) => r == Some(&e),
                _ => r is None,
            },
    {
        match &self.kind {
            NodeKind::Element(data) => Some(data),
            _ => None,
        }
    }

    pub fn text_data(&self) -> (r: Option<&TextData>)
        ensures
            match self.kind {
                NodeKind::Text(t) => r == Some(&t),
                _ => r is None,
            },
    {
        match &self.kind {
            NodeKind::Text(data) => Some(data),
            _ => None,
        }
    }
}

/// The four fundamental DOM node kinds.
#[derive(Debug, Clone)]
pub enum NodeKind {
    Document(DocumentData),
    Element(ElementData),
    Text(TextData),
    Comment(CommentData),
}

/// The DOM `nodeName` of a node kind.
pub open spec fn node_name_of(k: NodeKind) -> Seq<char> {
    match k {
        NodeKind::Document(_) => seq!['#', 'd', 'o', 'c', 'u', 'm', 'e', 'n', 't'],
        NodeKind::Element(e) => e.tag_name@,
        NodeKind::Text(_) => seq!['#', 't', 'e', 'x', 't'],
        NodeKind::Comment(_) => seq!['#', 'c', 'o', 'm', 'm', 'e', 'n', 't'],
    }
}

impl NodeKind {
    /// The DOM `nodeType` number: 9, 1, 3 or 8.
    pub fn node_type(&self) -> (r: u16)
        ensures
            r == match *self {
                NodeKind::Document(_) => 9u16,
                NodeKind::Element(_) => 1u16,
                NodeKind::Text(_) => 3u16,
                NodeKind::Comment(_) => 8u16,
            },
    {
        match self {
            NodeKind::Document(_) => 9,
            NodeKind::Element(_) => 1,
            NodeKind::Text(_) => 3,
            NodeKind::Comment(_) => 8,
        }
    }

    /// The DOM `nodeName`.
    pub fn node_name(&self) -> (r: &str)
        ensures
            r@ == node_name_of(*self),
    {
        match self {
            NodeKind::Document(_) => {
                proof {
                    reveal_strlit("#document");
                }
                "#document"
            },
            NodeKind::Element(e) => e.tag_name.as_str(),
            NodeKind::Text(_) => {
                proof {
                    reveal_strlit("#text");
                }
                "#text"
            },
            NodeKind::Comment(_) => {
                proof {
                    reveal_strlit("#comment");
                }
                "#comment"
            },
        }
    }

    pub fn as_document_mut(&mut self) -> (r: Option<&mut DocumentData>)
        ensures
            match *old(self) {
                NodeKind::Document(d) => r matches Some(x) && *x == d && *final(self)
                    == NodeKind::Document(*final(x)),
                _ => r is None && *final(self) == *old(self),
            },
    {
        match self {
            NodeKind::Document(d) => Some(d),
            _ => None,
        }
    }

    pub fn as_element_mut(&mut self) -> (r: Option<&mut ElementData>)
        ensures
            match *old(self) {
                NodeKind::Element(e) => r matches Some(x) && *x == e && *final(self)
                    == NodeKind::Element(*final(x)),
                _ => r is None && *final(self) == *old(self),
            },
    {
        match self {
            NodeKind::Element(e) => Some(e),
            _ => None,
        }
    }

    pub fn as_element(&self) -> (r: Option<&ElementData>)
        ensures
            match *self {
                NodeKind::Element(e) => r == Some(&e),
                _ => r is None,
            },
    {
        match self {
            NodeKind::Element(e) => Some(e),
            _ => None,
        }
    }

    pub fn as_text(&self) -> (r: Option<&TextData>)
        ensures
            match *self {
                NodeKind::Text(t) => r == Some(&t),
                _ => r is None,
            },
    {
        match self {
            NodeKind::Text(t) => Some(t),
            _ => None,
        }
    }
}

// ──────────────────────────────── document ──────────────────────────────────

#[derive(Debug, Clone)]
pub struct DocumentData {
    pub url: String,
    pub title: String,
    pub cookie: String,
    pub ready_state: DocumentReadyState,
}

impl DocumentData {
    /// A document for `url` with no title or cookie, still loading.
    pub fn with_url(url: &str) -> (r: Self)
        ensures
            r.url@ == url@,
            r.title@.len() == 0,
            r.cookie@.len() == 0,
            r.ready_state == DocumentReadyState::Loading,
    {
        DocumentData {
            url: url.to_owned(),
            title: String::new(),
            cookie: String::new(),
            ready_state: DocumentReadyState::Loading,
        }
    }
}

#[derive(Debug, Clone, Copy, PartialEq, Eq, Structural)]
pub enum DocumentReadyState {
    Loading,
    Interactive,
    Complete,
}

impl Default for DocumentReadyState {
    fn default() -> (r: Self)
        ensures
            r == DocumentReadyState::Loading,
    {
        DocumentReadyState::Loading
    }
}

impl DocumentReadyState {
    /// The DOM `readyState` text: `loading`, `interactive` or `complete`.
    pub fn as_str(&self) -> (r: &'static str)
        ensures
            r@ == match *self {
                DocumentReadyState::Loading => seq!['l', 'o', 'a', 'd', 'i', 'n', 'g'],
                DocumentReadyState::Interactive => seq![
                    'i',
                    'n',
                    't',
                    'e',
                    'r',
                    'a',
                    'c',
                    't',
                    'i',
                    'v',
                    'e',
                ],
                DocumentReadyState::Complete => seq!['c', 'o', 'm', 'p', 'l', 'e', 't', 'e'],
            },
    {
        match self {
            DocumentReadyState::Loading => {
                proof {
                    reveal_strlit("loading");
                }
                "loading"
            },
            DocumentReadyState::Interactive => {
                proof {
                    reveal_strlit("interactive");
                }
                "interactive"
            },
            DocumentReadyState::Complete => {
                proof {
                    reveal_strlit("complete");
                }
                "complete"
            },
        }
    }
}

// ──────────────────────────────── elements ──────────────────────────────────

#[derive(Debug, Clone)]
pub struct ElementData {
    /// Tag name in upper case (e.g. `DIV`).
    pub tag_name: String,
    pub attributes: NamedNodeMap,
    pub class_list: Vec<String>,
    pub style: InlineStyle,
    /// Listeners per event type, types in order of first registration.
    pub listeners: Vec<(String, Vec<EventListener>)>,
}

impl ElementData {
    /// An element with the tag name upper-cased and nothing else set.
    pub fn new(tag_name: &str) -> (r: Self)
        ensures
            r.tag_name@ == upper_seq(tag_name@),
            r.attributes@.len() == 0,
            r.class_list@.len() == 0,
            r.style@.len() == 0,
            r.listeners@.len() == 0,
    {
        ElementData {
            tag_name: ascii_upper(tag_name),
            attributes: NamedNodeMap::new(),
            class_list: Vec::new(),
            style: InlineStyle::new(),
            listeners: Vec::new(),
        }
    }
}

/// `str::to_ascii_uppercase`.
pub fn ascii_upper(s: &str) -> (r: String)
    ensures
        r@ == upper_seq(s@),
{
    let cs = chars_of(s);
    let mut out = String::new();
    let mut i: usize = 0;
    while i < cs.len()
        invariant
            i <= cs@.len(),
            out@ == upper_seq(cs@.take(i as int)),
        decreases cs@.len() - i,
    {
        string_push(&mut out, char_upper(cs[i]));
        assert(upper_seq(cs@.take(i + 1)) =~= upper_seq(cs@.take(i as int)).push(
            crate::text::upper(cs@[i as int]),
        ));
        i = i + 1;
    }
    assert(cs@.take(cs@.len() as int) =~= cs@);
    out
}

#[derive(Debug, Clone)]
pub struct TextData {
    pub data: String,
}

#[derive(Debug, Clone)]
pub struct CommentData {
    pub data: String,
}

// ───────────────────────────── attribute maps ───────────────────────────────

/// An attribute.
#[derive(Debug, Clone)]
pub struct Attr {
    pub name: String,
    pub value: String,
}

/// Attributes in insertion order, each name at most once.
#[derive(Debug)]
pub struct NamedNodeMap {
    entries: Vec<Attr>,
}

pub open spec fn attrs_view(v: Seq<Attr>) -> HeadersV {
    v.map_values(|a: Attr| (a.name@, a.value@))
}

impl View for NamedNodeMap {
    type V = HeadersV;

    closed spec fn view(&self) -> HeadersV {
        attrs_view(self.entries@)
    }
}

/// The entries with the one named `k` removed.
pub open spec fn without_key(hs: HeadersV, k: Seq<char>) -> HeadersV {
    match key_index(hs, k) {
        Some(i) => hs.remove(i),
        None => hs,
    }
}

impl Clone for NamedNodeMap {
    fn clone(&self) -> (r: Self)
        ensures
            r@ == self@,
    {
        self.duplicate()
    }
}

impl NamedNodeMap {
    /// No name occurs twice.
    #[verifier::type_invariant]
    spec fn names_distinct(self) -> bool {
        distinct_keys(attrs_view(self.entries@))
    }

    pub fn new() -> (r: Self)
        ensures
            r@.len() == 0,
    {
        NamedNodeMap { entries: Vec::new() }
    }

    /// Attributes in the given order; a later entry of a name replaces an earlier one.
    pub fn from_pairs(pairs: Vec<(String, String)>) -> (r: Self)
        ensures
            r@ == crate::interceptor::headers_replayed(crate::request::headers_view(pairs@)),
    {
        let ghost pv = crate::request::headers_view(pairs@);
        let mut m = NamedNodeMap::new();
        let mut i: usize = 0;
        assert(m@ =~= crate::interceptor::headers_replayed(pv.take(0)));
        while i < pairs.len()
            invariant
                i <= pairs@.len(),
                pv == crate::request::headers_view(pairs@),
                m@ == crate::interceptor::headers_replayed(pv.take(i as int)),
            decreases pairs@.len() - i,
        {
            assert(pv.take(i + 1).drop_last() =~= pv.take(i as int));
            assert(pv.take(i + 1).last() == pv[i as int]);
            m.set(pairs[i].0.clone(), pairs[i].1.clone());
            i = i + 1;
        }
        assert(pv.take(pairs@.len() as int) =~= pv);
        m
    }

    pub fn len(&self) -> (r: usize)
        ensures
            r == self@.len(),
    {
        self.entries.len()
    }

    pub fn is_empty(&self) -> (r: bool)
        ensures
            r == (self@.len() == 0),
    {
        self.entries.len() == 0
    }

    fn position(&self, name: &str) -> (r: Option<usize>)
        ensures
            match r {
                Some(i) => key_index(self@, name@) == Some(i as int) && i < self@.len(),
                None => key_index(self@, name@) is None,
            },
    {
        let ghost v = self@;
        let mut i: usize = 0;
        assert(v.skip(0) =~= v);
        while i < self.entries.len()
            invariant
                i <= self.entries@.len(),
                v == self@,
                v.len() == self.entries@.len(),
                key_index(v, name@) == match key_index(v.skip(i as int), name@) {
                    Some(x) => Some(x + i),
                    None => None::<int>,
                },
            decreases self.entries@.len() - i,
        {
            assert(v.skip(i as int).drop_first() =~= v.skip(i + 1));
            assert(v[i as int].0 == self.entries@[i as int].name@);
            if str_eq(self.entries[i].name.as_str(), name) {
                return Some(i);
            }
            i = i + 1;
        }
        None
    }

    /// The attribute named `name`.
    pub fn get(&self, name: &str) -> (r: Option<&Attr>)
        ensures
            match key_index(self@, name@) {
                Some(i) => r matches Some(a) && (a.name@, a.value@) == self@[i],
                None => r is None,
            },
    {
        match self.position(name) {
            Some(i) => {
                assert(self@[i as int] == (self.entries@[i as int].name@, self.entries@[i as int].value@));
                Some(&self.entries[i])
            },
            None => None,
        }
    }

    /// The value of the attribute named `name`.
    pub fn get_value(&self, name: &str) -> (r: Option<&str>)
        ensures
            match header_lookup(self@, name@) {
                Some(v) => r matches Some(x) && x@ == v,
                None => r is None,
            },
    {
        match self.get(name) {
            Some(a) => Some(a.value.as_str()),
            None => None,
        }
    }

    /// Set `name` to `value`, keeping the position of an existing attribute.
    pub fn set(&mut self, name: String, value: String)
        ensures
            final(self)@ == header_set(old(self)@, name@, value@),
            header_lookup(final(self)@, name@) == Some(value@),
            distinct_keys(final(self)@),
    {
        proof {
            use_type_invariant(&*self);
            crate::request::lemma_header_set_get(self@, name@, value@, name@);
        }
        let ghost old_entries = self.entries@;
        let a = Attr { name, value };
        let pos = self.position(a.name.as_str());
        let mut entries: Vec<Attr> = Vec::new();
        std::mem::swap(&mut entries, &mut self.entries);
        match pos {
            Some(i) => {
                entries.set(i, a);
                proof {
                    lemma_map_update(old_entries, i as int, a, |x: Attr| (x.name@, x.value@));
                }
            },
            None => {
                entries.push(a);
                proof {
                    lemma_map_push(old_entries, a, |x: Attr| (x.name@, x.value@));
                }
            },
        }
        self.entries = entries;
    }

    /// Remove the attribute named `name`, returning it.
    pub fn remove(&mut self, name: &str) -> (r: Option<Attr>)
        ensures
            final(self)@ == without_key(old(self)@, name@),
            key_index(final(self)@, name@) is None,
            distinct_keys(final(self)@),
            match key_index(old(self)@, name@) {
                Some(i) => r matches Some(a) && (a.name@, a.value@) == old(self)@[i],
                None => r is None,
            },
    {
        proof {
            use_type_invariant(&*self);
            lemma_without_key(self@, name@);
        }
        match self.position(name) {
            Some(i) => {
                let mut entries: Vec<Attr> = Vec::new();
                std::mem::swap(&mut entries, &mut self.entries);
                let a = entries.remove(i);
                assert(attrs_view(entries@) =~= old(self)@.remove(i as int));
                self.entries = entries;
                Some(a)
            },
            None => None,
        }
    }

    /// Whether an attribute named `name` is set.
    pub fn has(&self, name: &str) -> (r: bool)
        ensures
            r == (key_index(self@, name@) is Some),
    {
        self.position(name).is_some()
    }

    /// A copy of the map.
    pub(crate) fn duplicate(&self) -> (r: Self)
        ensures
            r@ == self@,
    {
        proof {
            use_type_invariant(self);
        }
        let mut entries: Vec<Attr> = Vec::new();
        let mut i: usize = 0;
        while i < self.entries.len()
            invariant
                i <= self.entries@.len(),
                entries@.len() == i,
                attrs_view(entries@) == attrs_view(self.entries@).take(i as int),
            decreases self.entries@.len() - i,
        {
            let a = Attr { name: self.entries[i].name.clone(), value: self.entries[i].value.clone() };
            entries.push(a);
            assert(attrs_view(entries@) =~= attrs_view(self.entries@).take(i + 1));
            i = i + 1;
        }
        assert(attrs_view(self.entries@).take(self.entries@.len() as int) =~= attrs_view(self.entries@));
        NamedNodeMap { entries }
    }

    /// The attributes in order, each name once.
    pub fn iter(&self) -> (r: &[Attr])
        ensures
            attrs_view(r@) == self@,
            distinct_keys(self@),
    {
        proof {
            use_type_invariant(self);
        }
        self.entries.as_slice()
    }
}

/// Removing an attribute keeps the names distinct and leaves no entry of that name.
pub proof fn lemma_without_key(hs: HeadersV, k: Seq<char>)
    requires
        distinct_keys(hs),
    ensures
        distinct_keys(without_key(hs, k)),
        key_index(without_key(hs, k), k) is None,
{
    lemma_key_index_bound(hs, k);
    let r = without_key(hs, k);
    match key_index(hs, k) {
        Some(i) => {
            assert forall|a: int, b: int| 0 <= a < b < r.len() implies #[trigger] r[a].0
                != #[trigger] r[b].0 by {
                let a2 = if a < i { a } else { a + 1 };
                let b2 = if b < i { b } else { b + 1 };
                assert(r[a] == hs[a2] && r[b] == hs[b2]);
            }
            lemma_key_index_bound(r, k);
            if key_index(r, k) is Some {
                let j = key_index(r, k)->0;
                let j2 = if j < i { j } else { j + 1 };
                assert(r[j] == hs[j2]);
            }
        },
        None => {
            lemma_key_index_bound(r, k);
        },
    }
}

// ─────────────────────────────── inline style ───────────────────────────────

/// Inline style declarations, property name to value, in order of first setting.
#[derive(Debug)]
pub struct InlineStyle {
    props: Vec<(String, String)>,
}

impl View for InlineStyle {
    type V = HeadersV;

    closed spec fn view(&self) -> HeadersV {
        crate::request::headers_view(self.props@)
    }
}

/// The style after merging the declarations of `css` (`prop: value`, `;`-separated,
/// trimmed; declarations without `:` or empty are skipped).
pub open spec fn merge_declarations(props: HeadersV, decls: Seq<Seq<char>>) -> HeadersV
    decreases decls.len(),
{
    if decls.len() == 0 {
        props
    } else {
        let before = merge_declarations(props, decls.drop_last());
        let d = trim(decls.last());
        if d.len() == 0 {
            before
        } else {
            match split_once(d, ':') {
                Some((p, v)) => header_set(before, trim(p), trim(v)),
                None => before,
            }
        }
    }
}

/// `prop:value` declarations joined by `;`.
pub open spec fn css_text(props: HeadersV) -> Seq<char> {
    join(props.map_values(|p: (Seq<char>, Seq<char>)| p.0 + seq![':'] + p.1), seq![';'])
}

impl Clone for InlineStyle {
    fn clone(&self) -> (r: Self)
        ensures
            r@ == self@,
    {
        self.duplicate()
    }
}

impl InlineStyle {
    /// No property is declared twice.
    #[verifier::type_invariant]
    spec fn props_distinct(self) -> bool {
        distinct_keys(crate::request::headers_view(self.props@))
    }

    pub fn new() -> (r: Self)
        ensures
            r@.len() == 0,
    {
        InlineStyle { props: Vec::new() }
    }

    /// The value of `prop`.
    pub fn get(&self, prop: &str) -> (r: Option<&str>)
        ensures
            match header_lookup(self@, prop@) {
                Some(v) => r matches Some(x) && x@ == v,
                None => r is None,
            },
    {
        match crate::request::find_key(&self.props, prop) {
            Some(i) => {
                assert(self@[i as int].1 == self.props@[i as int].1@);
                Some(self.props[i].1.as_str())
            },
            None => None,
        }
    }

    /// Set `prop` to `value`.
    pub fn set(&mut self, prop: String, value: String)
        ensures
            final(self)@ == header_set(old(self)@, prop@, value@),
            header_lookup(final(self)@, prop@) == Some(value@),
            distinct_keys(final(self)@),
    {
        proof {
            use_type_invariant(&*self);
            crate::request::lemma_header_set_get(self@, prop@, value@, prop@);
        }
        let mut props: Vec<(String, String)> = Vec::new();
        std::mem::swap(&mut props, &mut self.props);
        crate::request::set_header(&mut props, prop.as_str(), value.as_str());
        self.props = props;
    }

    /// Remove `prop`, returning its value.
    pub fn remove(&mut self, prop: &str) -> (r: Option<String>)
        ensures
            final(self)@ == without_key(old(self)@, prop@),
            key_index(final(self)@, prop@) is None,
            distinct_keys(final(self)@),
            match key_index(old(self)@, prop@) {
                Some(i) => r matches Some(v) && v@ == old(self)@[i].1,
                None => r is None,
            },
    {
        proof {
            use_type_invariant(&*self);
            lemma_without_key(self@, prop@);
        }
        match crate::request::find_key(&self.props, prop) {
            Some(i) => {
                let mut props: Vec<(String, String)> = Vec::new();
                std::mem::swap(&mut props, &mut self.props);
                let (_, v) = props.remove(i);
                assert(crate::request::headers_view(props@) =~= old(self)@.remove(i as int));
                self.props = props;
                Some(v)
            },
            None => None,
        }
    }

    /// A copy of the declarations.
    pub(crate) fn duplicate(&self) -> (r: Self)
        ensures
            r@ == self@,
    {
        proof {
            use_type_invariant(self);
        }
        let mut props: Vec<(String, String)> = Vec::new();
        let mut i: usize = 0;
        while i < self.props.len()
            invariant
                i <= self.props@.len(),
                props@.len() == i,
                crate::request::headers_view(props@) == crate::request::headers_view(self.props@).take(
                    i as int,
                ),
            decreases self.props@.len() - i,
        {
            props.push((self.props[i].0.clone(), self.props[i].1.clone()));
            assert(crate::request::headers_view(props@) =~= crate::request::headers_view(self.props@).take(
                i + 1,
            ));
            i = i + 1;
        }
        assert(crate::request::headers_view(self.props@).take(self.props@.len() as int)
            =~= crate::request::headers_view(self.props@));
        InlineStyle { props }
    }

    /// The declarations in order.
    pub fn iter(&self) -> (r: &[(String, String)])
        ensures
            crate::request::headers_view(r@) == self@,
            distinct_keys(self@),
    {
        proof {
            use_type_invariant(self);
        }
        self.props.as_slice()
    }

    /// Parse an inline style string such as `color:red;font-size:12px` and merge it.
    pub fn parse_and_merge(&mut self, css: &str)
        ensures
            final(self)@ == merge_declarations(old(self)@, split_char(css@, ';')),
    {
        let all = chars_of(css);
        let decls = split_chars(&all, ';');
        let ghost dv = decls@.map_values(|v: Vec<char>| v@);
        let mut i: usize = 0;
        while i < decls.len()
            invariant
                i <= decls@.len(),
                dv == decls@.map_values(|v: Vec<char>| v@),
                dv == split_char(css@, ';'),
                self@ == merge_declarations(old(self)@, dv.take(i as int)),
            decreases decls@.len() - i,
        {
            assert(dv.take(i + 1).drop_last() =~= dv.take(i as int));
            assert(dv.take(i + 1).last() == decls@[i as int]@);
            let d = trim_chars(&decls[i]);
            if d.len() > 0 {
                match split_once_chars(&d, ':') {
                    Some((p, v)) => {
                        let pt = trim_chars(&p);
                        let vt = trim_chars(&v);
                        self.set(string_of(&pt), string_of(&vt));
                    },
                    None => {},
                }
            }
            i = i + 1;
        }
        assert(dv.take(decls@.len() as int) =~= dv);
    }

    /// The declarations as a CSS inline style string. Where names and values are
    /// trimmed, names hold neither `:` nor `;` and values no `;`, parsing the string
    /// into an empty style gives these declarations back, in order.
    pub fn to_css_string(&self) -> (r: String)
        ensures
            r@ == css_text(self@),
            (forall|i: int|
                0 <= i < self@.len() ==> trim(#[trigger] self@[i].0) == self@[i].0 && trim(self@[i].1)
                    == self@[i].1 && !self@[i].0.contains(':') && !self@[i].0.contains(';')
                    && !self@[i].1.contains(';')) ==> merge_declarations(Seq::empty(), split_char(r@, ';'))
                == self@,
    {
        proof {
            use_type_invariant(self);
            if forall|i: int|
                0 <= i < self@.len() ==> trim(#[trigger] self@[i].0) == self@[i].0 && trim(self@[i].1)
                    == self@[i].1 && !self@[i].0.contains(':') && !self@[i].0.contains(';')
                    && !self@[i].1.contains(';') {
                law_css_text_round_trip(self@);
            }
        }
        let ghost pieces = self@.map_values(|p: (Seq<char>, Seq<char>)| p.0 + seq![':'] + p.1);
        let mut out = String::new();
        let mut i: usize = 0;
        while i < self.props.len()
            invariant
                i <= self.props@.len(),
                self@.len() == self.props@.len(),
                pieces == self@.map_values(|p: (Seq<char>, Seq<char>)| p.0 + seq![':'] + p.1),
                out@ == join(pieces.take(i as int), seq![';']),
            decreases self.props@.len() - i,
        {
            assert(pieces.take(i + 1).drop_last() =~= pieces.take(i as int));
            assert(self@[i as int] == (self.props@[i as int].0@, self.props@[i as int].1@));
            if i > 0 {
                string_push(&mut out, ';');
            }
            string_push_str(&mut out, self.props[i].0.as_str());
            string_push(&mut out, ':');
            string_push_str(&mut out, self.props[i].1.as_str());
            proof {
                if i == 0 {
                    assert(pieces.take(1) =~= seq![pieces[0]]);
                }
            }
            assert(out@ =~= join(pieces.take(i + 1), seq![';']));
            i = i + 1;
        }
        assert(pieces.take(self@.len() as int) =~= pieces);
        out
    }
}

// ───────────────────────────────── events ───────────────────────────────────

/// A registered event listener. `callback` is the handle under which the embedder
/// keeps the function to call.
#[derive(Debug, Clone, Copy, PartialEq, Eq, Structural)]
pub struct EventListener {
    pub callback: u64,
    pub once: bool,
    pub capture: bool,
    pub passive: bool,
}

/// The event object passed to listeners.
#[derive(Clone)]
pub struct Event {
    pub event_type: String,
    pub bubbles: bool,
    pub cancelable: bool,
    pub target: Option<NodeId>,
    pub current_target: Option<NodeId>,
    pub phase: EventPhase,
    pub stopped: bool,
    pub prevented: bool,
    /// The handles of the listeners the event has been delivered to, in order; it
    /// exists only for proofs.
    pub delivered: Ghost<Seq<u64>>,
    /// For each delivery, whether the event was stopped once that listener returned;
    /// it exists only for proofs.
    pub stopped_after: Ghost<Seq<bool>>,
}

impl Event {
    pub fn new(event_type: &str, bubbles: bool, cancelable: bool) -> (r: Self)
        ensures
            r.event_type@ == event_type@,
            r.bubbles == bubbles,
            r.cancelable == cancelable,
            r.target is None,
            r.current_target is None,
            r.phase == EventPhase::Inactive,
            !r.stopped,
            !r.prevented,
            r.delivered@ == Seq::<u64>::empty(),
            r.stopped_after@ == Seq::<bool>::empty(),
    {
        Event {
            event_type: event_type.to_owned(),
            bubbles,
            cancelable,
            target: None,
            current_target: None,
            phase: EventPhase::Inactive,
            stopped: false,
            prevented: false,
            delivered: Ghost(Seq::empty()),
            stopped_after: Ghost(Seq::empty()),
        }
    }

    pub fn stop_propagation(&mut self)
        ensures
            final(self).stopped,
            *final(self) == (Event { stopped: true, ..*old(self) }),
    {
        self.stopped = true;
    }

    /// Marks the default action as prevented, if the event is cancelable.
    pub fn prevent_default(&mut self)
        ensures
            *final(self) == (Event { prevented: old(self).prevented || old(self).cancelable, ..*old(self) }),
    {
        if self.cancelable {
            self.prevented = true;
        }
    }
}

#[derive(Debug, Clone, Copy, PartialEq, Eq, Structural)]
pub enum EventPhase {
    /// Not being dispatched.
    Inactive,
    Capturing,
    AtTarget,
    Bubbling,
}


/// Attribute names stay unique: a new map has none, and setting or removing a name
/// keeps every name at most once; so a name is present exactly when a lookup finds
/// an entry for it, and that entry is the only one of that name.
pub proof fn law_attribute_names_unique(hs: HeadersV, k: Seq<char>, v: Seq<char>)
    requires
        distinct_keys(hs),
    ensures
        distinct_keys(Seq::<(Seq<char>, Seq<char>)>::empty()),
        distinct_keys(header_set(hs, k, v)),
        distinct_keys(without_key(hs, k)),
        (key_index(hs, k) is Some) == (header_lookup(hs, k) is Some),
        forall|i: int| 0 <= i < hs.len() && #[trigger] hs[i].0 == k ==> key_index(hs, k) == Some(i),
{
    crate::request::lemma_header_set_get(hs, k, v, k);
    lemma_without_key(hs, k);
    lemma_key_index_bound(hs, k);
    assert forall|i: int| 0 <= i < hs.len() && #[trigger] hs[i].0 == k implies key_index(hs, k) == Some(i) by {
        assert forall|j: int| 0 <= j < i implies hs[j].0 != k by {}
        crate::request::lemma_key_index_of(hs, k, i);
    }
}


/// Writing a style as CSS text and parsing that text into an empty style gives the
/// same declarations back, in the same order, provided that names and values are
/// trimmed, names are distinct and hold neither `:` nor `;`, and values hold no `;`.
pub proof fn law_css_text_round_trip(s: HeadersV)
    requires
        distinct_keys(s),
        forall|i: int|
            0 <= i < s.len() ==> trim(#[trigger] s[i].0) == s[i].0 && trim(s[i].1) == s[i].1
                && !s[i].0.contains(':') && !s[i].0.contains(';') && !s[i].1.contains(';'),
    ensures
        merge_declarations(Seq::empty(), split_char(css_text(s), ';')) == s,
{
    let pieces = s.map_values(|p: (Seq<char>, Seq<char>)| p.0 + seq![':'] + p.1);
    if s.len() == 0 {
        assert(pieces =~= Seq::<Seq<char>>::empty());
        let e: Seq<char> = seq![];
        assert(css_text(s) == e);
        assert(split_char(e, ';') == seq![e]);
        assert(seq![e].drop_last() =~= Seq::<Seq<char>>::empty());
        assert(trim(e) =~= e);
        let none: HeadersV = Seq::empty();
        assert(merge_declarations(none, Seq::<Seq<char>>::empty()) == none);
        assert(merge_declarations(none, seq![e]) == none);
        assert(s =~= none);
    } else {
        assert forall|i: int| 0 <= i < pieces.len() implies !(#[trigger] pieces[i]).contains(';') by {
            let x = pieces[i];
            assert(x == s[i].0 + seq![':'] + s[i].1);
            if x.contains(';') {
                let j = choose|j: int| 0 <= j < x.len() && x[j] == ';';
                if j < s[i].0.len() {
                    assert(s[i].0[j] == ';');
                } else if j > s[i].0.len() {
                    assert(s[i].1[j - s[i].0.len() - 1] == ';');
                }
            }
        }
        lemma_split_join(pieces, ';');
        assert(css_text(s) == join(pieces, seq![';']));
        lemma_merge_pieces(s, pieces, s.len() as int);
        assert(pieces.take(s.len() as int) =~= pieces);
        assert(s.take(s.len() as int) =~= s);
        assert(split_char(css_text(s), ';') == pieces);
        assert(merge_declarations(Seq::empty(), pieces) == s);
    }
}

proof fn lemma_merge_pieces(s: HeadersV, pieces: Seq<Seq<char>>, n: int)
    requires
        0 <= n <= s.len(),
        distinct_keys(s),
        forall|i: int|
            0 <= i < s.len() ==> trim(#[trigger] s[i].0) == s[i].0 && trim(s[i].1) == s[i].1
                && !s[i].0.contains(':') && !s[i].0.contains(';') && !s[i].1.contains(';'),
        pieces == s.map_values(|p: (Seq<char>, Seq<char>)| p.0 + seq![':'] + p.1),
    ensures
        merge_declarations(Seq::empty(), pieces.take(n)) == s.take(n),
    decreases n,
{
    if n == 0 {
        assert(pieces.take(0) =~= Seq::<Seq<char>>::empty());
        assert(s.take(0) =~= Seq::<(Seq<char>, Seq<char>)>::empty());
    } else {
        lemma_merge_pieces(s, pieces, n - 1);
        let decls = pieces.take(n);
        assert(decls.drop_last() =~= pieces.take(n - 1));
        let k = s[n - 1].0;
        let v = s[n - 1].1;
        assert(decls.last() == k + seq![':'] + v);
        assert(trim(s[n - 1].0) == k);
        lemma_trim_around(k, ':', v);
        lemma_first_index_after(k, ':', v);
        let x = k + seq![':'] + v;
        assert(x.take(k.len() as int) =~= k);
        assert(x.skip(k.len() as int + 1) =~= v);
        assert(split_once(x, ':') == Some((k, v)));
        let before = s.take(n - 1);
        lemma_key_index_bound(before, k);
        assert(key_index(before, k) is None) by {
            if key_index(before, k) is Some {
                let i = key_index(before, k)->0;
                assert(before[i] == s[i]);
            }
        }
        assert(before.push((k, v)) =~= s.take(n));
    }
}

} // verus!

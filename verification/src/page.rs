//! What a page computes from its DOM and URL: its title, text and attributes picked by
//! selectors, the URLs of its scripts, and where a reload goes.
use vstd::prelude::*;
use crate::node::NodeId;
use crate::request::header_lookup;
use crate::selector::{dfs, dfs_kids, first_of, parse_v, parsable};
use crate::cookie::opt_view;
use crate::text::{join, join_strings, string_push_str, starts_with, chars_of, str_eq, strings_view};
use crate::tree::{DomTree, Nodes, element_of, text_under};
use crate::html::{ScriptInfo, script_view, ScriptV};

verus! {

/// The errors of the browser.
pub enum MbError {
    Network(String),
    Parse(String),
    Js(String),
    Storage(String),
    Navigation(String),
}

/// The text of an error: its kind, a colon and its detail.
pub open spec fn error_text(e: MbError) -> Seq<char> {
    match e {
        MbError::Network(s) => seq!['N', 'e', 't', 'w', 'o', 'r', 'k', ' ', 'e', 'r', 'r', 'o', 'r', ':', ' '] + s@,
        MbError::Parse(s) => seq!['P', 'a', 'r', 's', 'e', ' ', 'e', 'r', 'r', 'o', 'r', ':', ' '] + s@,
        MbError::Js(s) => seq![
            'J', 'S', ' ', 'e', 'x', 'e', 'c', 'u', 't', 'i', 'o', 'n', ' ', 'e', 'r', 'r', 'o', 'r', ':', ' '
        ] + s@,
        MbError::Storage(s) => seq!['S', 't', 'o', 'r', 'a', 'g', 'e', ' ', 'e', 'r', 'r', 'o', 'r', ':', ' '] + s@,
        MbError::Navigation(s) => seq![
            'N', 'a', 'v', 'i', 'g', 'a', 't', 'i', 'o', 'n', ' ', 'e', 'r', 'r', 'o', 'r', ':', ' '
        ] + s@,
    }
}

impl MbError {
    /// The error as text, such as `Network error: timed out`.
    pub fn message(&self) -> (r: String)
        ensures
            r@ == error_text(*self),
    {
        let (prefix, detail) = match self {
            MbError::Network(s) => {
                proof {
                    reveal_strlit("Network error: ");
                }
                ("Network error: ", s)
            },
            MbError::Parse(s) => {
                proof {
                    reveal_strlit("Parse error: ");
                }
                ("Parse error: ", s)
            },
            MbError::Js(s) => {
                proof {
                    reveal_strlit("JS execution error: ");
                }
                ("JS execution error: ", s)
            },
            MbError::Storage(s) => {
                proof {
                    reveal_strlit("Storage error: ");
                }
                ("Storage error: ", s)
            },
            MbError::Navigation(s) => {
                proof {
                    reveal_strlit("Navigation error: ");
                }
                ("Navigation error: ", s)
            },
        };
        let mut out = String::new();
        string_push_str(&mut out, prefix);
        string_push_str(&mut out, detail.as_str());
        assert(out@ =~= error_text(*self));
        out
    }
}

/// What to extract from each page of a batch.
pub struct ExtractionConfig {
    /// A CSS selector.
    pub selector: Option<String>,
    /// Every matching element rather than the first.
    pub select_all: bool,
    /// A JavaScript expression, evaluated before any selector.
    pub eval: Option<String>,
    /// An attribute to read from the selected elements, in place of their text.
    pub attr: Option<String>,
}

impl Default for ExtractionConfig {
    fn default() -> (r: Self)
        ensures
            r.selector is None,
            !r.select_all,
            r.eval is None,
            r.attr is None,
    {
        ExtractionConfig { selector: None, select_all: false, eval: None, attr: None }
    }
}

/// The outcome of one page of a batch.
pub struct BatchResult {
    pub url: String,
    pub status: u16,
    pub title: String,
    pub extracted: Option<String>,
    pub error: Option<String>,
}

/// The text under node `k`, as `DomTree::text_content` gives it.
pub open spec fn text_of(t: DomTree, k: NodeId) -> Seq<char> {
    text_under(t.nodes(), k.0, t.size(), t.size())
}

/// The first element strictly under the html element that `sel` matches.
pub open spec fn first_match(t: DomTree, sel: Seq<char>) -> Option<NodeId> {
    first_of(
        dfs_kids(
            parse_v(sel),
            t.nodes(),
            t.nodes()[t.html_id().0].first_child,
            (t.size() - 1) as nat,
            t.size(),
            t.size(),
        ),
    )
}

/// Every element under the html element, itself included, that `sel` matches.
pub open spec fn all_matches(t: DomTree, sel: Seq<char>) -> Seq<NodeId> {
    dfs(parse_v(sel), t.nodes(), t.html_id().0, t.size(), t.size())
}

pub open spec fn title_name() -> Seq<char> {
    seq!['t', 'i', 't', 'l', 'e']
}

/// The text of the first `<title>` element, or nothing.
pub open spec fn title_text(t: DomTree) -> Seq<char> {
    match first_match(t, title_name()) {
        Some(n) => text_of(t, n),
        None => seq![],
    }
}

/// The page title: the text of the first `<title>` element, or nothing.
pub fn page_title(dom: &DomTree) -> (r: String)
    requires
        dom.wf(),
    ensures
        r@ == match first_match(*dom, title_name()) {
            Some(n) => text_of(*dom, n),
            None => seq![],
        },
{
    proof {
        reveal_strlit("title");
        assert("title"@ =~= title_name());
        lemma_title_parsable();
    }
    match dom.query_selector("title") {
        Some(node) => {
            proof {
                lemma_first_match_in(*dom, title_name());
            }
            dom.text_content(node)
        },
        None => String::new(),
    }
}

/// `title` is a selector that reads to its end.
proof fn lemma_title_parsable()
    ensures
        parsable(title_name()),
{
    let t = title_name();
    crate::text::lemma_split_no_sep(t, ',', seq![]);
    assert(seq![] + t =~= t);
    assert(crate::text::trim_start(t) == t);
    assert(crate::text::trim_end(t) == t);
    assert(crate::selector::selector_pieces(t) =~= seq![t]);
    assert(crate::selector::ident_end(t, 5) == 5);
    assert(crate::selector::ident_end(t, 4) == 5);
    assert(crate::selector::ident_end(t, 3) == 5);
    assert(crate::selector::ident_end(t, 2) == 5);
    assert(crate::selector::ident_end(t, 1) == 5);
    assert(crate::selector::ident_end(t, 0) == 5);
    let toks = seq![crate::selector::TokV::Tag(t.subrange(0, 5))];
    assert(crate::selector::lex(t, 5, toks) == Some(toks));
    assert(crate::selector::lex(t, 0, seq![]) == Some(toks));
    assert(crate::selector::tokenize(t) is Some);
}

/// A node that a query finds is in the tree.
pub proof fn lemma_first_match_in(t: DomTree, sel: Seq<char>)
    requires
        t.wf(),
    ensures
        first_match(t, sel) matches Some(n) ==> t.contains(n),
{
    crate::selector::lemma_kids_in(
        parse_v(sel),
        t.nodes(),
        t.nodes()[t.html_id().0].first_child,
        (t.size() - 1) as nat,
        t.size(),
        t.size(),
    );
}

/// The text of the first element that `selector` matches.
pub fn query_text(dom: &DomTree, selector: &str) -> (r: Option<String>)
    requires
        dom.wf(),
        parsable(selector@),
    ensures
        match first_match(*dom, selector@) {
            Some(n) => r matches Some(s) && s@ == text_of(*dom, n),
            None => r is None,
        },
{
    match dom.query_selector(selector) {
        Some(node) => {
            proof {
                lemma_first_match_in(*dom, selector@);
            }
            Some(dom.text_content(node))
        },
        None => None,
    }
}

/// The value of attribute `a` of the element `k`.
pub open spec fn attr_of(m: Nodes, k: u64, a: Seq<char>) -> Option<Seq<char>> {
    match element_of(m, k) {
        Some(e) => header_lookup(e.attributes@, a),
        None => None,
    }
}

/// What is read from node `n`: attribute `attr` (empty when missing), or its text.
pub open spec fn value_of(t: DomTree, n: NodeId, attr: Option<Seq<char>>) -> Seq<char> {
    match attr {
        Some(a) => match attr_of(t.nodes(), n.0, a) {
            Some(v) => v,
            None => seq![],
        },
        None => text_of(t, n),
    }
}

/// What a selector extracts from a page: with `select_all`, the values of all matches
/// one per line, or nothing when there is none; else the first match's attribute
/// `attr`, or its text.
pub open spec fn extraction(t: DomTree, sel: Seq<char>, select_all: bool, attr: Option<Seq<char>>) -> Option<Seq<char>> {
    if select_all {
        let nodes = all_matches(t, sel);
        if nodes.len() == 0 {
            None
        } else {
            Some(join(nodes.map_values(|n: NodeId| value_of(t, n, attr)), seq!['\n']))
        }
    } else {
        match first_match(t, sel) {
            Some(n) => match attr {
                Some(a) => attr_of(t.nodes(), n.0, a),
                None => Some(text_of(t, n)),
            },
            None => None,
        }
    }
}

/// Extracts content from a page's DOM with a selector.
pub fn extract_from_dom(dom: &DomTree, selector: &str, select_all: bool, attr: Option<&str>) -> (r: Option<
    String,
>)
    requires
        dom.wf(),
        parsable(selector@),
    ensures
        opt_view(r) == extraction(
            *dom,
            selector@,
            select_all,
            match attr {
                Some(a) => Some(a@),
                None => None,
            },
        ),
{
    let ghost av = match attr {
        Some(a) => Some(a@),
        None => None::<Seq<char>>,
    };
    if select_all {
        let nodes = dom.query_selector_all(selector);
        if nodes.len() == 0 {
            return None;
        }
        proof {
            dom.lemma_roots_in();
            crate::selector::lemma_dfs_in(
                parse_v(selector@),
                dom.nodes(),
                dom.html_id().0,
                dom.size(),
                dom.size(),
            );
        }
        let ghost vals = nodes@.map_values(|n: NodeId| value_of(*dom, n, av));
        let mut values: Vec<String> = Vec::new();
        let mut i: usize = 0;
        while i < nodes.len()
            invariant
                dom.wf(),
                i <= nodes@.len(),
                nodes@ == all_matches(*dom, selector@),
                vals == nodes@.map_values(|n: NodeId| value_of(*dom, n, av)),
                av == match attr {
                    Some(a) => Some(a@),
                    None => None::<Seq<char>>,
                },
                forall|j: int| 0 <= j < nodes@.len() ==> dom.contains(#[trigger] nodes@[j]),
                strings_view(values@) == vals.take(i as int),
            decreases nodes@.len() - i,
        {
            let n = nodes[i];
            assert(dom.contains(nodes@[i as int]));
            let v = match attr {
                Some(a) => match crate::element::get_attribute(dom, n, a) {
                    Some(x) => x,
                    None => String::new(),
                },
                None => dom.text_content(n),
            };
            assert(v@ == vals[i as int]);
            let ghost before = strings_view(values@);
            let ghost vv = v@;
            values.push(v);
            assert(strings_view(values@) =~= before.push(vv));
            assert(vals.take(i + 1) =~= vals.take(i as int).push(vals[i as int]));
            i = i + 1;
        }
        assert(vals.take(nodes@.len() as int) =~= vals);
        proof {
            reveal_strlit("\n");
            assert("\n"@ =~= seq!['\n']);
        }
        Some(join_strings(values.as_slice(), "\n"))
    } else {
        match dom.query_selector(selector) {
            Some(n) => {
                proof {
                    lemma_first_match_in(*dom, selector@);
                }
                match attr {
                    Some(a) => crate::element::get_attribute(dom, n, a),
                    None => Some(dom.text_content(n)),
                }
            },
            None => None,
        }
    }
}

/// What an extraction configuration takes from a page's DOM once no script is to be
/// evaluated: the selector's extraction, or nothing without a selector.
pub fn extract_selection(dom: &DomTree, config: &ExtractionConfig) -> (r: Option<String>)
    requires
        dom.wf(),
        config.selector matches Some(s) ==> parsable(s@),
    ensures
        opt_view(r) == match config.selector {
            Some(s) => extraction(*dom, s@, config.select_all, opt_view(config.attr)),
            None => None,
        },
{
    match &config.selector {
        Some(sel) => {
            let attr = match &config.attr {
                Some(a) => Some(a.as_str()),
                None => None,
            };
            extract_from_dom(dom, sel.as_str(), config.select_all, attr)
        },
        None => None,
    }
}

// ──────────────────────────────── script URLs ───────────────────────────────

/// What `url::Url::parse` gives for `s`, read by `Url::scheme` and `Url::host_str`.
pub uninterp spec fn url_scheme_host(s: Seq<char>) -> Option<(Seq<char>, Option<Seq<char>>)>;

/// What `url::Url::parse(base)` then `Url::join(relative)` gives, as a string.
pub uninterp spec fn url_joined(base: Seq<char>, relative: Seq<char>) -> Option<Seq<char>>;

/// `url::Url::parse`, then `Url::scheme` and `Url::host_str` of the parsed URL;
/// `None` where parsing fails.
#[verifier::external_body]
pub(crate) fn parse_scheme_host(s: &str) -> (r: Option<(String, Option<String>)>)
    ensures
        match r {
            Some((a, b)) => url_scheme_host(s@) == Some((a@, opt_view(b))),
            None => url_scheme_host(s@) is None,
        },
{
    match url::Url::parse(s) {
        Ok(u) => Some((u.scheme().to_string(), u.host_str().map(|h| h.to_string()))),
        Err(_) => None,
    }
}

/// `url::Url::parse(base)`, then `Url::join(relative)`, as a string; `None` where
/// either fails.
#[verifier::external_body]
pub(crate) fn join_url(base: &str, relative: &str) -> (r: Option<String>)
    ensures
        opt_view(r) == url_joined(base@, relative@),
{
    match url::Url::parse(base) {
        Ok(b) => match b.join(relative) {
            Ok(j) => Some(j.to_string()),
            Err(_) => None,
        },
        Err(_) => None,
    }
}

pub open spec fn http_prefix() -> Seq<char> {
    seq!['h', 't', 't', 'p', ':', '/', '/']
}

pub open spec fn https_prefix() -> Seq<char> {
    seq!['h', 't', 't', 'p', 's', ':', '/', '/']
}

/// The URL a script's `src` names, relative to the page URL `base`: an absolute
/// `http(s)://` URL as it is; a scheme-relative `//` one with `https:`; a path from
/// `/` on the base's scheme and host; anything else joined to the base, or kept as it
/// is where the base does not parse or the join fails.
pub open spec fn resolved_url(base: Seq<char>, relative: Seq<char>) -> Seq<char> {
    if relative.len() >= 7 && relative.take(7) == http_prefix() || relative.len() >= 8 && relative.take(8)
        == https_prefix() {
        relative
    } else if relative.len() >= 2 && relative.take(2) == seq!['/', '/'] {
        seq!['h', 't', 't', 'p', 's', ':'] + relative
    } else if relative.len() >= 1 && relative[0] == '/' && url_scheme_host(base) is Some {
        let (scheme, host) = url_scheme_host(base)->0;
        scheme + seq![':', '/', '/'] + match host {
            Some(h) => h,
            None => seq![],
        } + relative
    } else {
        match url_joined(base, relative) {
            Some(j) => j,
            None => relative,
        }
    }
}

/// Resolves a script URL relative to a base URL.
pub fn resolve_script_url(base: &str, relative: &str) -> (r: String)
    ensures
        r@ == resolved_url(base@, relative@),
{
    proof {
        reveal_strlit("http://");
        reveal_strlit("https://");
        reveal_strlit("//");
        reveal_strlit("https:");
        reveal_strlit("://");
        assert("http://"@ =~= http_prefix());
        assert("https://"@ =~= https_prefix());
        assert("//"@ =~= seq!['/', '/']);
    }
    let rc = chars_of(relative);
    let hp = chars_of("http://");
    let hsp = chars_of("https://");
    let ss = chars_of("//");
    if starts_with(&rc, &hp) || starts_with(&rc, &hsp) {
        return relative.to_owned();
    }
    if starts_with(&rc, &ss) {
        let mut out = String::new();
        string_push_str(&mut out, "https:");
        string_push_str(&mut out, relative);
        return out;
    }
    if rc.len() >= 1 && rc[0] == '/' {
        match parse_scheme_host(base) {
            Some((scheme, host)) => {
                let mut out = String::new();
                string_push_str(&mut out, scheme.as_str());
                string_push_str(&mut out, "://");
                match &host {
                    Some(h) => string_push_str(&mut out, h.as_str()),
                    None => {},
                }
                string_push_str(&mut out, relative);
                proof {
                    assert("://"@ =~= seq![':', '/', '/']);
                }
                return out;
            },
            None => {},
        }
    }
    match join_url(base, relative) {
        Some(j) => j,
        None => relative.to_owned(),
    }
}

/// The URLs of the external scripts, those with a `src` and no inline text, in order,
/// resolved against the page URL.
pub open spec fn external_urls(scripts: Seq<ScriptV>, page_url: Seq<char>) -> Seq<Seq<char>>
    decreases scripts.len(),
{
    if scripts.len() == 0 {
        seq![]
    } else {
        let before = external_urls(scripts.drop_last(), page_url);
        let s = scripts.last();
        match (s.inline_content, s.src) {
            (None, Some(src)) => before.push(resolved_url(page_url, src)),
            _ => before,
        }
    }
}

/// The URLs of the external scripts to download.
pub fn external_script_urls(scripts: &Vec<ScriptInfo>, page_url: &str) -> (r: Vec<String>)
    ensures
        strings_view(r@) == external_urls(crate::html::scripts_view(scripts@), page_url@),
{
    let ghost sv = crate::html::scripts_view(scripts@);
    let mut out: Vec<String> = Vec::new();
    let mut i: usize = 0;
    while i < scripts.len()
        invariant
            i <= scripts@.len(),
            sv == crate::html::scripts_view(scripts@),
            strings_view(out@) == external_urls(sv.take(i as int), page_url@),
        decreases scripts@.len() - i,
    {
        assert(sv.take(i + 1).drop_last() =~= sv.take(i as int));
        assert(sv.take(i + 1).last() == script_view(scripts@[i as int]));
        let s = &scripts[i];
        if s.inline_content.is_none() {
            match &s.src {
                Some(src) => {
                    let u = resolve_script_url(page_url, src.as_str());
                    let ghost before = strings_view(out@);
                    out.push(u);
                    assert(strings_view(out@) =~= before.push(u@));
                },
                None => {},
            }
        }
        i = i + 1;
    }
    assert(sv.take(scripts@.len() as int) =~= sv);
    out
}

// ────────────────────────────────── reloads ─────────────────────────────────

/// Where a reload goes: the target a script set, unless it is empty, `undefined` or
/// `null`, else the current URL.
pub open spec fn reload_url(target: Seq<char>, current: Seq<char>) -> Seq<char> {
    if target.len() != 0 && target != seq!['u', 'n', 'd', 'e', 'f', 'i', 'n', 'e', 'd'] && target
        != seq!['n', 'u', 'l', 'l'] {
        target
    } else {
        current
    }
}

/// Where a reload that a script asked for goes.
pub fn reload_target(target: &str, current: &str) -> (r: String)
    ensures
        r@ == reload_url(target@, current@),
{
    proof {
        reveal_strlit("undefined");
        reveal_strlit("null");
        assert("undefined"@ =~= seq!['u', 'n', 'd', 'e', 'f', 'i', 'n', 'e', 'd']);
        assert("null"@ =~= seq!['n', 'u', 'l', 'l']);
    }
    if !target.is_empty() && !str_eq(target, "undefined") && !str_eq(target, "null") {
        target.to_owned()
    } else {
        current.to_owned()
    }
}


/// How many reloads, one after another, a page's scripts may ask for.
pub const MAX_RELOAD_ROUNDS: usize = 5;

/// A step of the reload loop after `round` reloads: a script's reload flag as the
/// engine prints it, and the target it set. The next URL to load when the flag is
/// `true` and rounds are left; `None`, ending the loop, otherwise.
pub fn next_reload(round: usize, flag: &str, target: &str, current: &str) -> (r: Option<String>)
    ensures
        match r {
            Some(u) => round < MAX_RELOAD_ROUNDS && flag@ == "true"@ && u@ == reload_url(target@, current@),
            None => !(round < MAX_RELOAD_ROUNDS && flag@ == "true"@),
        },
{
    if round < MAX_RELOAD_ROUNDS && str_eq(flag, "true") {
        Some(reload_target(target, current))
    } else {
        None
    }
}

} // verus!

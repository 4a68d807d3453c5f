//! The work behind the command line: custom headers, cookies given as a string or in
//! a Netscape cookie file, and the links of a page.
use vstd::prelude::*;
use crate::cookie::{Cookie, CookieJar, CookieV, JarV, jar_insert};
use crate::request::{HttpRequest, HeadersV, header_set};
use crate::text::{
    chars_of, eq_ignore_case, join, parse_i64, parse_i64_chars, split_char, split_chars, split_once,
    split_once_chars, string_of, strings_view, trim, trim_chars, chars_eq_ignore_case,
};

verus! {

// ─────────────────────────────────── headers ────────────────────────────────

/// A `Name: Value` header: the text around the first colon, trimmed.
pub open spec fn header_parts(h: Seq<char>) -> Option<(Seq<char>, Seq<char>)> {
    match split_once(h, ':') {
        Some((k, v)) => Some((trim(k), trim(v))),
        None => None,
    }
}

/// Parses a `Name: Value` header.
pub fn parse_header(h: &str) -> (r: Option<(String, String)>)
    ensures
        match r {
            Some((k, v)) => header_parts(h@) == Some((k@, v@)),
            None => header_parts(h@) is None,
        },
{
    let cs = chars_of(h);
    match split_once_chars(&cs, ':') {
        Some((k, v)) => {
            let kt = trim_chars(&k);
            let vt = trim_chars(&v);
            Some((string_of(&kt), string_of(&vt)))
        },
        None => None,
    }
}

/// The headers after adding each well-formed custom header in turn.
pub open spec fn with_custom_headers(base: HeadersV, headers: Seq<Seq<char>>) -> HeadersV
    decreases headers.len(),
{
    if headers.len() == 0 {
        base
    } else {
        let before = with_custom_headers(base, headers.drop_last());
        match header_parts(headers.last()) {
            Some((k, v)) => header_set(before, k, v),
            None => before,
        }
    }
}

/// The headers a top-level navigation sends.
pub open spec fn navigation_headers() -> HeadersV {
    header_set(
        header_set(
            seq![],
            seq!['s', 'e', 'c', '-', 'f', 'e', 't', 'c', 'h', '-', 'u', 's', 'e', 'r'],
            seq!['?', '1'],
        ),
        seq![
            'u', 'p', 'g', 'r', 'a', 'd', 'e', '-', 'i', 'n', 's', 'e', 'c', 'u', 'r', 'e', '-', 'r',
            'e', 'q', 'u', 'e', 's', 't', 's'
        ],
        seq!['1'],
    )
}

/// A GET request for `url` with the navigation headers and the custom `headers`
/// (`Name: Value`; others are skipped).
pub fn build_request_with_headers(url: &str, headers: &Vec<String>) -> (r: HttpRequest)
    ensures
        r.method == crate::request::Method::Get,
        r.url@ == url@,
        r.body@.len() == 0,
        r.headers_v() == with_custom_headers(navigation_headers(), strings_view(headers@)),
{
    proof {
        reveal_strlit("sec-fetch-user");
        reveal_strlit("?1");
        reveal_strlit("upgrade-insecure-requests");
        reveal_strlit("1");
        assert("sec-fetch-user"@ =~= seq!['s', 'e', 'c', '-', 'f', 'e', 't', 'c', 'h', '-', 'u', 's', 'e', 'r']);
        assert("?1"@ =~= seq!['?', '1']);
        assert("upgrade-insecure-requests"@ =~= seq![
            'u', 'p', 'g', 'r', 'a', 'd', 'e', '-', 'i', 'n', 's', 'e', 'c', 'u', 'r', 'e', '-', 'r',
            'e', 'q', 'u', 'e', 's', 't', 's'
        ]);
        assert("1"@ =~= seq!['1']);
    }
    let req0 = HttpRequest::get(url);
    assert(req0.headers_v() =~= seq![]);
    let mut req = req0.header("sec-fetch-user", "?1").header("upgrade-insecure-requests", "1");
    let ghost hv = strings_view(headers@);
    let mut i: usize = 0;
    while i < headers.len()
        invariant
            i <= headers@.len(),
            hv == strings_view(headers@),
            req.method == crate::request::Method::Get,
            req.url@ == url@,
            req.body@.len() == 0,
            req.headers_v() == with_custom_headers(navigation_headers(), hv.take(i as int)),
        decreases headers@.len() - i,
    {
        assert(hv.take(i + 1).drop_last() =~= hv.take(i as int));
        assert(hv.take(i + 1).last() == headers@[i as int]@);
        match parse_header(headers[i].as_str()) {
            Some((k, v)) => {
                req = req.header(k.as_str(), v.as_str());
            },
            None => {},
        }
        i = i + 1;
    }
    assert(hv.take(headers@.len() as int) =~= hv);
    req
}

// ─────────────────────────────────── cookies ────────────────────────────────

/// A session cookie for `domain` at path `/`.
pub open spec fn session_cookie(name: Seq<char>, value: Seq<char>, domain: Seq<char>) -> CookieV {
    CookieV {
        name,
        value,
        domain: Some(domain),
        path: seq!['/'],
        expires: None,
        secure: false,
        http_only: false,
    }
}

/// The jar after the `name=value` pairs of `pieces` (each trimmed, split at the first
/// `=`, name and value trimmed; pairs without `=` or with an empty name skipped) are
/// inserted in turn as session cookies for `domain`.
pub open spec fn jar_with_pairs(jar: JarV, pieces: Seq<Seq<char>>, domain: Seq<char>) -> JarV
    decreases pieces.len(),
{
    if pieces.len() == 0 {
        jar
    } else {
        let before = jar_with_pairs(jar, pieces.drop_last(), domain);
        match split_once(trim(pieces.last()), '=') {
            Some((n, v)) => if trim(n).len() != 0 {
                jar_insert(before, session_cookie(trim(n), trim(v), domain))
            } else {
                before
            },
            None => before,
        }
    }
}

/// Inserts the cookies of a `name1=val1; name2=val2` string as session cookies for
/// `domain`.
pub fn inject_cookie_string(jar: &mut CookieJar, cookie_str: &str, domain: &str)
    ensures
        final(jar)@ == jar_with_pairs(old(jar)@, split_char(cookie_str@, ';'), domain@),
{
    let cs = chars_of(cookie_str);
    let pieces = split_chars(&cs, ';');
    let ghost pv = pieces@.map_values(|v: Vec<char>| v@);
    let mut i: usize = 0;
    while i < pieces.len()
        invariant
            i <= pieces@.len(),
            pv == pieces@.map_values(|v: Vec<char>| v@),
            pv == split_char(cookie_str@, ';'),
            jar@ == jar_with_pairs(old(jar)@, pv.take(i as int), domain@),
        decreases pieces@.len() - i,
    {
        assert(pv.take(i + 1).drop_last() =~= pv.take(i as int));
        assert(pv.take(i + 1).last() == pieces@[i as int]@);
        let pair = trim_chars(&pieces[i]);
        match split_once_chars(&pair, '=') {
            Some((n, v)) => {
                let name = trim_chars(&n);
                let value = trim_chars(&v);
                if name.len() > 0 {
                    let slash = ['/'];
                    assert(slash@ =~= seq!['/']);
                    let c = Cookie {
                        name: string_of(&name),
                        value: string_of(&value),
                        domain: Some(domain.to_owned()),
                        path: string_of(&slash),
                        expires: None,
                        secure: false,
                        http_only: false,
                    };
                    assert(c@ == session_cookie(name@, value@, domain@));
                    jar.insert(c);
                }
            },
            None => {},
        }
        i = i + 1;
    }
    assert(pv.take(pieces@.len() as int) =~= pv);
}

/// `s` without its leading dots.
pub open spec fn strip_dots(s: Seq<char>) -> Seq<char>
    decreases s.len(),
{
    if s.len() > 0 && s[0] == '.' {
        strip_dots(s.drop_first())
    } else {
        s
    }
}

/// The cookie of a Netscape cookie-file line, if it has at least seven tab-separated
/// fields: domain (leading dots dropped), flag, path, secure (`TRUE` in any case),
/// expiry (a positive Unix time, else a session cookie), name and value.
pub open spec fn cookie_of_line(line: Seq<char>) -> Option<CookieV> {
    let f = split_char(line, '\t');
    if f.len() >= 7 {
        Some(
            CookieV {
                name: f[5],
                value: f[6],
                domain: Some(strip_dots(f[0])),
                path: f[2],
                expires: match parse_i64(f[4]) {
                    Some(e) => if e > 0 {
                        Some(e)
                    } else {
                        None
                    },
                    None => None,
                },
                secure: eq_ignore_case(f[3], seq!['T', 'R', 'U', 'E']),
                http_only: false,
            },
        )
    } else {
        None
    }
}

/// The jar after the cookies of the lines of a Netscape cookie file are inserted in
/// turn; lines are trimmed, and empty ones and `#` comments skipped.
pub open spec fn jar_with_lines(jar: JarV, lines: Seq<Seq<char>>) -> JarV
    decreases lines.len(),
{
    if lines.len() == 0 {
        jar
    } else {
        let before = jar_with_lines(jar, lines.drop_last());
        let l = trim(lines.last());
        if l.len() == 0 || l[0] == '#' {
            before
        } else {
            match cookie_of_line(l) {
                Some(c) => jar_insert(before, c),
                None => before,
            }
        }
    }
}

fn strip_leading_dots(s: &Vec<char>) -> (r: Vec<char>)
    ensures
        r@ == strip_dots(s@),
{
    let mut i: usize = 0;
    assert(s@.skip(0) =~= s@);
    while i < s.len() && s[i] == '.'
        invariant
            i <= s@.len(),
            strip_dots(s@) == strip_dots(s@.skip(i as int)),
        decreases s@.len() - i,
    {
        assert(s@.skip(i as int).drop_first() =~= s@.skip(i + 1));
        i = i + 1;
    }
    let mut out: Vec<char> = Vec::new();
    let mut j = i;
    while j < s.len()
        invariant
            i <= j <= s@.len(),
            out@ == s@.subrange(i as int, j as int),
        decreases s@.len() - j,
    {
        out.push(s[j]);
        assert(out@ =~= s@.subrange(i as int, j + 1));
        j = j + 1;
    }
    assert(s@.skip(i as int) =~= s@.subrange(i as int, s@.len() as int));
    out
}

/// Inserts the cookies of the content of a Netscape cookie file.
pub fn inject_cookie_lines(jar: &mut CookieJar, content: &str)
    ensures
        final(jar)@ == jar_with_lines(old(jar)@, split_char(content@, '\n')),
{
    let cs = chars_of(content);
    let lines = split_chars(&cs, '\n');
    let ghost lv = lines@.map_values(|v: Vec<char>| v@);
    let truth = ['T', 'R', 'U', 'E'];
    assert(truth@ =~= seq!['T', 'R', 'U', 'E']);
    let mut i: usize = 0;
    while i < lines.len()
        invariant
            i <= lines@.len(),
            lv == lines@.map_values(|v: Vec<char>| v@),
            lv == split_char(content@, '\n'),
            truth@ == seq!['T', 'R', 'U', 'E'],
            jar@ == jar_with_lines(old(jar)@, lv.take(i as int)),
        decreases lines@.len() - i,
    {
        assert(lv.take(i + 1).drop_last() =~= lv.take(i as int));
        assert(lv.take(i + 1).last() == lines@[i as int]@);
        let line = trim_chars(&lines[i]);
        if line.len() > 0 && line[0] != '#' {
            let fields = split_chars(&line, '\t');
            let ghost fv = fields@.map_values(|v: Vec<char>| v@);
            assert(fv == split_char(line@, '\t'));
            if fields.len() >= 7 {
                assert(fv[0] == fields@[0]@ && fv[2] == fields@[2]@ && fv[3] == fields@[3]@);
                assert(fv[4] == fields@[4]@ && fv[5] == fields@[5]@ && fv[6] == fields@[6]@);
                let domain = strip_leading_dots(&fields[0]);
                let expires = match parse_i64_chars(&fields[4]) {
                    Some(e) => if e > 0 {
                        Some(e)
                    } else {
                        None
                    },
                    None => None,
                };
                let c = Cookie {
                    name: string_of(&fields[5]),
                    value: string_of(&fields[6]),
                    domain: Some(string_of(&domain)),
                    path: string_of(&fields[2]),
                    expires,
                    secure: chars_eq_ignore_case(&fields[3], &truth),
                    http_only: false,
                };
                assert(cookie_of_line(line@) == Some(c@));
                jar.insert(c);
            }
        }
        i = i + 1;
    }
    assert(lv.take(lines@.len() as int) =~= lv);
}

// ──────────────────────────────────── links ─────────────────────────────────

/// `a` comes before `b`: character by character, a proper prefix first.
pub open spec fn str_lt(a: Seq<char>, b: Seq<char>) -> bool
    decreases a.len(),
{
    if a.len() == 0 {
        b.len() > 0
    } else if b.len() == 0 {
        false
    } else if a[0] != b[0] {
        a[0] < b[0]
    } else {
        str_lt(a.drop_first(), b.drop_first())
    }
}

pub proof fn lemma_str_lt_irreflexive(a: Seq<char>)
    ensures
        !str_lt(a, a),
    decreases a.len(),
{
    if a.len() > 0 {
        lemma_str_lt_irreflexive(a.drop_first());
    }
}

pub proof fn lemma_str_lt_total(a: Seq<char>, b: Seq<char>)
    ensures
        a == b || str_lt(a, b) || str_lt(b, a),
    decreases a.len(),
{
    if a.len() > 0 && b.len() > 0 && a[0] == b[0] {
        lemma_str_lt_total(a.drop_first(), b.drop_first());
        if a.drop_first() == b.drop_first() {
            assert(a =~= seq![a[0]] + a.drop_first());
            assert(b =~= seq![b[0]] + b.drop_first());
        }
    } else if a.len() == 0 && b.len() == 0 {
        assert(a =~= b);
    }
}

pub proof fn lemma_str_lt_transitive(a: Seq<char>, b: Seq<char>, c: Seq<char>)
    requires
        str_lt(a, b),
        str_lt(b, c),
    ensures
        str_lt(a, c),
    decreases a.len(),
{
    if a.len() > 0 && b.len() > 0 && c.len() > 0 && a[0] == b[0] && b[0] == c[0] {
        lemma_str_lt_transitive(a.drop_first(), b.drop_first(), c.drop_first());
    }
}

pub proof fn lemma_str_lt_asymmetric(a: Seq<char>, b: Seq<char>)
    requires
        str_lt(a, b),
    ensures
        !str_lt(b, a),
{
    if str_lt(b, a) {
        lemma_str_lt_transitive(a, b, a);
        lemma_str_lt_irreflexive(a);
    }
}

/// Whether `a` comes before `b`.
pub fn str_less(a: &str, b: &str) -> (r: bool)
    ensures
        r == str_lt(a@, b@),
{
    let ac = chars_of(a);
    let bc = chars_of(b);
    let mut i: usize = 0;
    assert(ac@.skip(0) =~= ac@);
    assert(bc@.skip(0) =~= bc@);
    while i < ac.len() && i < bc.len() && ac[i] == bc[i]
        invariant
            i <= ac@.len(),
            i <= bc@.len(),
            str_lt(a@, b@) == str_lt(ac@.skip(i as int), bc@.skip(i as int)),
            ac@ == a@,
            bc@ == b@,
        decreases ac@.len() - i,
    {
        assert(ac@.skip(i as int).drop_first() =~= ac@.skip(i + 1));
        assert(bc@.skip(i as int).drop_first() =~= bc@.skip(i + 1));
        i = i + 1;
    }
    if i == ac.len() {
        i < bc.len()
    } else if i == bc.len() {
        false
    } else {
        ac[i] < bc[i]
    }
}

/// Strictly increasing: every string before every later one.
pub open spec fn sorted_strict(s: Seq<Seq<char>>) -> bool {
    forall|i: int, j: int| 0 <= i < j < s.len() ==> str_lt(#[trigger] s[i], #[trigger] s[j])
}

/// Inserts `x` into the strictly increasing `v`, unless it is there.
fn insert_sorted(v: &mut Vec<String>, x: String)
    requires
        sorted_strict(strings_view(old(v)@)),
    ensures
        sorted_strict(strings_view(final(v)@)),
        forall|y: Seq<char>| strings_view(final(v)@).contains(y) <==> (strings_view(old(v)@).contains(y)
            || y == x@),
{
    let ghost s = strings_view(v@);
    let mut i: usize = 0;
    while i < v.len() && str_less(v[i].as_str(), x.as_str())
        invariant
            i <= v@.len(),
            s == strings_view(v@),
            forall|j: int| 0 <= j < i ==> str_lt(#[trigger] s[j], x@),
        decreases v@.len() - i,
    {
        assert(s[i as int] == v@[i as int]@);
        i = i + 1;
    }
    if i < v.len() && crate::text::str_eq(v[i].as_str(), x.as_str()) {
        assert(s[i as int] == x@);
        return;
    }
    proof {
        if i < s.len() {
            assert(s[i as int] == v@[i as int]@);
            lemma_str_lt_total(s[i as int], x@);
        }
    }
    let ghost xv = x@;
    v.insert(i, x);
    let ghost t = strings_view(v@);
    assert(t =~= s.insert(i as int, xv));
    assert forall|a: int, b: int| 0 <= a < b < t.len() implies str_lt(#[trigger] t[a], #[trigger] t[b]) by {
        if b < i {
        } else if a < i && b == i {
        } else if a < i && b > i {
            assert(t[b] == s[b - 1]);
            if b - 1 > i {
                lemma_str_lt_transitive(xv, s[i as int], s[b - 1]);
            }
            lemma_str_lt_transitive(s[a], xv, s[b - 1]);
        } else if a == i {
            assert(t[b] == s[b - 1]);
            if b - 1 > i {
                lemma_str_lt_transitive(xv, s[i as int], s[b - 1]);
            }
        } else {
            assert(t[a] == s[a - 1]);
            assert(t[b] == s[b - 1]);
        }
    }
    assert forall|y: Seq<char>| t.contains(y) <==> (s.contains(y) || y == xv) by {
        if t.contains(y) {
            let k = choose|k: int| 0 <= k < t.len() && t[k] == y;
            if k < i {
                assert(s[k] == y);
            } else if k > i {
                assert(s[k - 1] == y);
            }
        }
        if s.contains(y) {
            let k = choose|k: int| 0 <= k < s.len() && s[k] == y;
            if k < i {
                assert(t[k] == y);
            } else {
                assert(t[k + 1] == y);
            }
        }
        if y == xv {
            assert(t[i as int] == y);
        }
    }
}

/// Whether `p` occurs in `s`.
pub open spec fn contains_str(s: Seq<char>, p: Seq<char>) -> bool {
    exists|i: int| 0 <= i && i + p.len() <= s.len() && #[trigger] s.subrange(i, i + p.len()) == p
}

/// Whether `pc` occurs in `sc` at `i`.
fn matches_at(sc: &Vec<char>, pc: &Vec<char>, i: usize) -> (r: bool)
    requires
        i + pc@.len() <= sc@.len(),
    ensures
        r == (sc@.subrange(i as int, i + pc@.len()) == pc@),
{
    let n = sc.len();
    let mut k: usize = 0;
    while k < pc.len()
        invariant
            n == sc@.len(),
            i + pc@.len() <= sc@.len(),
            k <= pc@.len(),
            forall|q: int| 0 <= q < k ==> sc@[i + q] == pc@[q],
        decreases pc@.len() - k,
    {
        if sc[i + k] != pc[k] {
            assert(sc@.subrange(i as int, i + pc@.len())[k as int] != pc@[k as int]);
            return false;
        }
        k = k + 1;
    }
    assert(sc@.subrange(i as int, i + pc@.len()) =~= pc@);
    true
}

/// Whether `p` occurs in `s`.
pub fn str_contains(s: &str, p: &str) -> (r: bool)
    ensures
        r == contains_str(s@, p@),
{
    let sc = chars_of(s);
    let pc = chars_of(p);
    if pc.len() > sc.len() {
        return false;
    }
    let last = sc.len() - pc.len();
    let mut i: usize = 0;
    while i <= last
        invariant
            last == sc@.len() - pc@.len(),
            last <= sc@.len(),
            sc@ == s@,
            pc@ == p@,
            forall|j: int| 0 <= j < i ==> #[trigger] s@.subrange(j, j + p@.len()) != p@,
        decreases last + 1 - i,
    {
        if matches_at(&sc, &pc, i) {
            return true;
        }
        if i == last {
            assert forall|j: int| 0 <= j && j + p@.len() <= s@.len() implies #[trigger] s@.subrange(j, j + p@.len()) != p@ by {
                assert(j <= i);
            }
            return false;
        }
        i = i + 1;
    }
    false
}

/// Whether an `href` is skipped: empty, `javascript:`, `mailto:`, `tel:` or a fragment.
pub open spec fn skipped_href(h: Seq<char>) -> bool {
    ||| h.len() == 0
    ||| seq!['j', 'a', 'v', 'a', 's', 'c', 'r', 'i', 'p', 't', ':'].is_prefix_of(h)
    ||| seq!['m', 'a', 'i', 'l', 't', 'o', ':'].is_prefix_of(h)
    ||| seq!['t', 'e', 'l', ':'].is_prefix_of(h)
    ||| h[0] == '#'
}

/// The absolute form of an `href` on a page: joined to the page URL where that works.
pub open spec fn absolute_href(page_url: Seq<char>, h: Seq<char>) -> Seq<char> {
    match crate::page::url_joined(page_url, h) {
        Some(j) => j,
        None => h,
    }
}

/// The host of a URL, empty when it has none.
pub open spec fn host_of(u: Seq<char>) -> Option<Seq<char>> {
    match crate::page::url_scheme_host(u) {
        Some((_, h)) => Some(
            match h {
                Some(x) => x,
                None => seq![],
            },
        ),
        None => None,
    }
}

/// Whether a link stays: on the page's host when asked (and the page URL parses), and
/// holding `filter` when one is given.
pub open spec fn keeps_link(
    link: Seq<char>,
    page_url: Seq<char>,
    same_domain: bool,
    filter: Option<Seq<char>>,
) -> bool {
    &&& (same_domain && host_of(page_url) is Some ==> host_of(link) == host_of(page_url))
    &&& (filter matches Some(p) ==> contains_str(link, p))
}

/// The absolute forms of the `href`s that are not skipped, trimmed.
pub open spec fn link_candidates(hrefs: Seq<Seq<char>>, page_url: Seq<char>) -> Seq<Seq<char>>
    decreases hrefs.len(),
{
    if hrefs.len() == 0 {
        seq![]
    } else {
        let before = link_candidates(hrefs.drop_last(), page_url);
        let h = trim(hrefs.last());
        if skipped_href(h) {
            before
        } else {
            before.push(absolute_href(page_url, h))
        }
    }
}

/// The links of a page from the `href`s of its anchors, in order: sorted, without
/// repeats, and kept by [`keeps_link`].
pub fn collect_links(hrefs: &Vec<String>, page_url: &str, same_domain: bool, filter: Option<&str>) -> (r:
    Vec<String>)
    ensures
        sorted_strict(strings_view(r@)),
        forall|y: Seq<char>|
            strings_view(r@).contains(y) <==> (link_candidates(strings_view(hrefs@), page_url@).contains(
                y,
            ) && keeps_link(
                y,
                page_url@,
                same_domain,
                match filter {
                    Some(p) => Some(p@),
                    None => None,
                },
            )),
{
    proof {
        reveal_strlit("javascript:");
        reveal_strlit("mailto:");
        reveal_strlit("tel:");
        assert("javascript:"@ =~= seq!['j', 'a', 'v', 'a', 's', 'c', 'r', 'i', 'p', 't', ':']);
        assert("mailto:"@ =~= seq!['m', 'a', 'i', 'l', 't', 'o', ':']);
        assert("tel:"@ =~= seq!['t', 'e', 'l', ':']);
    }
    let ghost hv = strings_view(hrefs@);
    let ghost fv = match filter {
        Some(p) => Some(p@),
        None => None::<Seq<char>>,
    };
    let js = chars_of("javascript:");
    let mt = chars_of("mailto:");
    let tl = chars_of("tel:");
    let mut links: Vec<String> = Vec::new();
    let mut i: usize = 0;
    while i < hrefs.len()
        invariant
            i <= hrefs@.len(),
            hv == strings_view(hrefs@),
            js@ == seq!['j', 'a', 'v', 'a', 's', 'c', 'r', 'i', 'p', 't', ':'],
            mt@ == seq!['m', 'a', 'i', 'l', 't', 'o', ':'],
            tl@ == seq!['t', 'e', 'l', ':'],
            sorted_strict(strings_view(links@)),
            forall|y: Seq<char>|
                strings_view(links@).contains(y) <==> link_candidates(hv.take(i as int), page_url@).contains(y),
        decreases hrefs@.len() - i,
    {
        assert(hv.take(i + 1).drop_last() =~= hv.take(i as int));
        assert(hv.take(i + 1).last() == hrefs@[i as int]@);
        let hc = chars_of(hrefs[i].as_str());
        let h = trim_chars(&hc);
        let skip = h.len() == 0 || crate::text::starts_with(&h, &js) || crate::text::starts_with(&h, &mt)
            || crate::text::starts_with(&h, &tl) || h[0] == '#';
        proof {
            assert(h@ == trim(hv.take(i + 1).last()));
        }
        if skip {
            assert(link_candidates(hv.take(i + 1), page_url@) == link_candidates(hv.take(i as int), page_url@));
        }
        if !skip {
            let hs = string_of(&h);
            let absolute = match crate::page::join_url(page_url, hs.as_str()) {
                Some(j) => j,
                None => hs,
            };
            let ghost av = absolute@;
            insert_sorted(&mut links, absolute);
            proof {
                assert(link_candidates(hv.take(i + 1), page_url@) == link_candidates(hv.take(i as int), page_url@).push(av));
                assert forall|y: Seq<char>| #![auto] link_candidates(hv.take(i as int), page_url@).push(av).contains(y) <==> (link_candidates(hv.take(i as int), page_url@).contains(y) || y == av) by {
                    let c = link_candidates(hv.take(i as int), page_url@);
                    if c.push(av).contains(y) {
                        let k = choose|k: int| 0 <= k < c.push(av).len() && c.push(av)[k] == y;
                        if k < c.len() {
                            assert(c[k] == y);
                        }
                    }
                    if c.contains(y) {
                        let k = choose|k: int| 0 <= k < c.len() && c[k] == y;
                        assert(c.push(av)[k] == y);
                    }
                    if y == av {
                        assert(c.push(av)[c.len() as int] == y);
                    }
                }
            }
        }
        assert forall|y: Seq<char>| strings_view(links@).contains(y) <==> link_candidates(hv.take(i + 1), page_url@).contains(y) by {}
        i = i + 1;
    }
    assert(hv.take(hrefs@.len() as int) =~= hv);
    let ghost cands = link_candidates(hv, page_url@);
    let base_host = match crate::page::parse_scheme_host(page_url) {
        Some((_, h)) => Some(
            match h {
                Some(x) => x,
                None => String::new(),
            },
        ),
        None => None,
    };
    let mut kept: Vec<String> = Vec::new();
    let mut j: usize = 0;
    while j < links.len()
        invariant
            j <= links@.len(),
            sorted_strict(strings_view(links@)),
            forall|y: Seq<char>| strings_view(links@).contains(y) <==> cands.contains(y),
            crate::cookie::opt_view(base_host) == host_of(page_url@),
            fv == match filter {
                Some(p) => Some(p@),
                None => None::<Seq<char>>,
            },
            strings_view(kept@) == strings_view(links@).take(j as int).filter(
                |y: Seq<char>| keeps_link(y, page_url@, same_domain, fv),
            ),
        decreases links@.len() - j,
    {
        let l = &links[j];
        let mut keep = true;
        if same_domain {
            match &base_host {
                Some(bh) => {
                    let lh = match crate::page::parse_scheme_host(l.as_str()) {
                        Some((_, h)) => Some(
                            match h {
                                Some(x) => x,
                                None => String::new(),
                            },
                        ),
                        None => None,
                    };
                    keep = match &lh {
                        Some(x) => crate::text::str_eq(x.as_str(), bh.as_str()),
                        None => false,
                    };
                },
                None => {},
            }
        }
        match filter {
            Some(p) => {
                if !str_contains(l.as_str(), p) {
                    keep = false;
                }
            },
            None => {},
        }
        let ghost sv = strings_view(links@);
        proof {
            reveal(Seq::filter);
            assert(sv.take(j + 1).drop_last() =~= sv.take(j as int));
            assert(sv[j as int] == links@[j as int]@);
            assert(keep == keeps_link(sv[j as int], page_url@, same_domain, fv));
        }
        if keep {
            let ghost before = strings_view(kept@);
            kept.push(l.clone());
            assert(strings_view(kept@) =~= before.push(sv[j as int]));
        }
        j = j + 1;
    }
    let ghost sv = strings_view(links@);
    let ghost pred = |y: Seq<char>| keeps_link(y, page_url@, same_domain, fv);
    assert(sv.take(links@.len() as int) =~= sv);
    proof {
        broadcast use vstd::seq_lib::group_filter_ensures;
        lemma_filter_sorted(sv, pred);
        assert(strings_view(kept@) == sv.filter(pred));
        assert forall|y: Seq<char>| strings_view(kept@).contains(y) <==> (cands.contains(y) && pred(y)) by {
            if sv.contains(y) && pred(y) {
                let k = choose|k: int| 0 <= k < sv.len() && sv[k] == y;
                assert(sv.filter(pred).contains(sv[k]));
            }
            if sv.filter(pred).contains(y) {
                sv.lemma_filter_contains_rev(pred, y);
                let k = choose|k: int| 0 <= k < sv.filter(pred).len() && sv.filter(pred)[k] == y;
                assert(pred(sv.filter(pred)[k]));
            }
        }
    }
    kept
}

/// Keeping some strings of a strictly increasing sequence keeps it strictly increasing.
pub proof fn lemma_filter_sorted(s: Seq<Seq<char>>, pred: spec_fn(Seq<char>) -> bool)
    requires
        sorted_strict(s),
    ensures
        sorted_strict(s.filter(pred)),
    decreases s.len(),
{
    reveal(Seq::filter);
    if s.len() > 0 {
        let d = s.drop_last();
        assert(sorted_strict(d)) by {
            assert forall|i: int, j: int| 0 <= i < j < d.len() implies str_lt(#[trigger] d[i], #[trigger] d[j]) by {
                assert(d[i] == s[i] && d[j] == s[j]);
            }
        }
        lemma_filter_sorted(d, pred);
        let f = d.filter(pred);
        if pred(s.last()) {
            broadcast use vstd::seq_lib::group_filter_ensures;
            let g = f.push(s.last());
            assert forall|i: int, j: int| 0 <= i < j < g.len() implies str_lt(#[trigger] g[i], #[trigger] g[j]) by {
                if j == g.len() - 1 {
                    assert(f.contains(f[i]));
                    d.lemma_filter_contains_rev(pred, f[i]);
                    assert(d.contains(f[i]));
                    let k = choose|k: int| 0 <= k < d.len() && d[k] == f[i];
                    assert(s[k] == d[k]);
                    assert(str_lt(s[k], s[s.len() - 1]));
                }
            }
        }
    }
}

// ───────────────────────────────── DOM dump ─────────────────────────────────

/// The number of bytes of `c` in UTF-8.
pub open spec fn utf8_len(c: char) -> nat {
    if (c as u32) < 0x80 {
        1
    } else if (c as u32) < 0x800 {
        2
    } else if (c as u32) < 0x10000 {
        3
    } else {
        4
    }
}

/// The number of bytes of `s` in UTF-8.
pub open spec fn byte_len(s: Seq<char>) -> nat
    decreases s.len(),
{
    if s.len() == 0 {
        0
    } else {
        utf8_len(s[0]) + byte_len(s.drop_first())
    }
}

/// The longest prefix of `s` of at most `budget` bytes.
pub open spec fn prefix_within(s: Seq<char>, budget: nat) -> Seq<char>
    decreases s.len(),
{
    if s.len() == 0 || utf8_len(s[0]) > budget {
        seq![]
    } else {
        seq![s[0]] + prefix_within(s.drop_first(), (budget - utf8_len(s[0])) as nat)
    }
}

/// A text of more than 80 bytes is cut to its longest prefix of at most 80 bytes (or
/// to 20 characters where that prefix is empty), followed by `...`.
pub open spec fn text_preview(t: Seq<char>) -> Seq<char> {
    if byte_len(t) > 80 {
        let p = prefix_within(t, 80);
        (if p.len() == 0 {
            t.take(if t.len() < 20 {
                t.len() as int
            } else {
                20
            })
        } else {
            p
        }) + seq!['.', '.', '.']
    } else {
        t
    }
}

/// Two spaces per level.
pub open spec fn indent(d: nat) -> Seq<char>
    decreases d,
{
    if d == 0 {
        seq![]
    } else {
        indent((d - 1) as nat) + seq![' ', ' ']
    }
}

/// `name="value"` for each attribute.
pub open spec fn attr_pieces(attrs: HeadersV) -> Seq<Seq<char>> {
    attrs.map_values(|a: (Seq<char>, Seq<char>)| a.0 + seq!['=', '"'] + a.1 + seq!['"'])
}

/// The line a node prints as at depth `d`; none for a blank Text node.
pub open spec fn node_line(n: crate::node::DomNode, d: nat) -> Option<Seq<char>> {
    match n.kind {
        crate::node::NodeKind::Document(_) => Some(
            indent(d) + seq!['[', 'D', 'o', 'c', 'u', 'm', 'e', 'n', 't', ']'],
        ),
        crate::node::NodeKind::Element(e) => Some(
            indent(d) + seq!['<'] + crate::html::lowercased(e.tag_name@) + (if e.attributes@.len()
                == 0 {
                seq![]
            } else {
                seq![' '] + join(attr_pieces(e.attributes@), seq![' '])
            }) + seq!['>'],
        ),
        crate::node::NodeKind::Text(t) => {
            let s = trim(t.data@);
            if s.len() == 0 {
                None
            } else {
                Some(indent(d) + seq!['"'] + text_preview(s) + seq!['"'])
            }
        },
        crate::node::NodeKind::Comment(c) => Some(
            indent(d) + seq!['<', '!', '-', '-', ' '] + c.data@ + seq![' ', '-', '-', '>'],
        ),
    }
}

/// The lines of the subtree at `k`, depth `d`, at most `fuel` levels down and `width`
/// siblings across.
pub open spec fn tree_lines(m: crate::tree::Nodes, k: u64, d: nat, fuel: nat, width: nat) -> Seq<
    Seq<char>,
>
    decreases fuel, 0nat, 0nat,
{
    if fuel == 0 || !m.dom().contains(k) {
        seq![]
    } else {
        (match node_line(m[k], d) {
            Some(l) => seq![l],
            None => seq![],
        }) + kids_lines(m, m[k].first_child, d + 1, (fuel - 1) as nat, width, width)
    }
}

/// The lines of the subtrees of the sibling chain from `c`, at most `budget` of them.
pub open spec fn kids_lines(
    m: crate::tree::Nodes,
    c: Option<crate::node::NodeId>,
    d: nat,
    fuel: nat,
    width: nat,
    budget: nat,
) -> Seq<Seq<char>>
    decreases fuel, 1nat, budget,
{
    if budget == 0 {
        seq![]
    } else {
        match c {
            Some(x) => if m.dom().contains(x.0) {
                tree_lines(m, x.0, d, fuel, width) + kids_lines(
                    m,
                    m[x.0].next_sibling,
                    d,
                    fuel,
                    width,
                    (budget - 1) as nat,
                )
            } else {
                seq![]
            },
            None => seq![],
        }
    }
}

fn utf8_len_exec(c: char) -> (r: usize)
    ensures
        r == utf8_len(c),
{
    if (c as u32) < 0x80 {
        1
    } else if (c as u32) < 0x800 {
        2
    } else if (c as u32) < 0x10000 {
        3
    } else {
        4
    }
}

/// The preview of a text.
fn preview(t: &Vec<char>) -> (r: String)
    ensures
        r@ == text_preview(t@),
{
    let mut total: usize = 0;
    let mut i: usize = 0;
    let mut over = false;
    assert(t@.skip(0) =~= t@);
    while i < t.len() && !over
        invariant
            i <= t@.len(),
            total <= 80,
            !over ==> byte_len(t@) == total + byte_len(t@.skip(i as int)),
            over ==> byte_len(t@) > 80,
        decreases t@.len() - i + (if over { 0int } else { 1int }),
    {
        assert(t@.skip(i as int).drop_first() =~= t@.skip(i + 1));
        let l = utf8_len_exec(t[i]);
        if total + l > 80 {
            over = true;
        } else {
            total = total + l;
            i = i + 1;
        }
    }
    if !over {
        assert(t@.skip(i as int) =~= seq![]);
        return string_of(t.as_slice());
    }
    let mut budget: usize = 80;
    let mut k: usize = 0;
    assert(t@.skip(0) =~= t@);
    while k < t.len() && utf8_len_exec(t[k]) <= budget
        invariant
            k <= t@.len(),
            budget <= 80,
            prefix_within(t@, 80) == t@.take(k as int) + prefix_within(t@.skip(k as int), budget as nat),
        decreases t@.len() - k,
    {
        assert(t@.skip(k as int).drop_first() =~= t@.skip(k + 1));
        assert(t@.take(k as int) + seq![t@[k as int]] =~= t@.take(k + 1));
        budget = budget - utf8_len_exec(t[k]);
        k = k + 1;
    }
    assert(prefix_within(t@.skip(k as int), budget as nat) =~= seq![]);
    assert(prefix_within(t@, 80) =~= t@.take(k as int));
    let n = if k == 0 {
        if t.len() < 20 {
            t.len()
        } else {
            20
        }
    } else {
        k
    };
    let mut out: Vec<char> = Vec::new();
    let mut j: usize = 0;
    while j < n
        invariant
            j <= n <= t@.len(),
            out@ == t@.take(j as int),
        decreases n - j,
    {
        out.push(t[j]);
        assert(out@ =~= t@.take(j + 1));
        j = j + 1;
    }
    out.push('.');
    out.push('.');
    out.push('.');
    assert(out@ =~= t@.take(n as int) + seq!['.', '.', '.']);
    string_of(out.as_slice())
}

fn push_indent(out: &mut String, d: usize)
    ensures
        final(out)@ == old(out)@ + indent(d as nat),
    decreases d,
{
    if d > 0 {
        push_indent(out, d - 1);
        crate::text::string_push_str(out, "  ");
        proof {
            reveal_strlit("  ");
            assert("  "@ =~= seq![' ', ' ']);
        }
        assert(final(out)@ =~= old(out)@ + indent(d as nat)) by {
            assert(indent(d as nat) == indent((d - 1) as nat) + seq![' ', ' ']);
        }
    } else {
        assert(old(out)@ + seq![] =~= old(out)@);
    }
}

/// `name="value"` for each attribute.
fn attr_strings(attrs: &[crate::node::Attr]) -> (r: Vec<String>)
    ensures
        strings_view(r@) == attr_pieces(crate::node::attrs_view(attrs@)),
{
    let ghost av = crate::node::attrs_view(attrs@);
    let mut pieces: Vec<String> = Vec::new();
    let mut i: usize = 0;
    while i < attrs.len()
        invariant
            i <= attrs@.len(),
            av == crate::node::attrs_view(attrs@),
            strings_view(pieces@) == attr_pieces(av).take(i as int),
        decreases attrs@.len() - i,
    {
        proof {
            reveal_strlit("=\"");
            reveal_strlit("\"");
        }
        let mut p = String::new();
        crate::text::string_push_str(&mut p, attrs[i].name.as_str());
        crate::text::string_push_str(&mut p, "=\"");
        crate::text::string_push_str(&mut p, attrs[i].value.as_str());
        crate::text::string_push_str(&mut p, "\"");
        assert(av[i as int] == (attrs@[i as int].name@, attrs@[i as int].value@));
        assert(p@ =~= attr_pieces(av)[i as int]);
        let ghost before = strings_view(pieces@);
        let ghost pv = p@;
        pieces.push(p);
        assert(strings_view(pieces@) =~= before.push(pv));
        assert(attr_pieces(av).take(i + 1) =~= attr_pieces(av).take(i as int).push(attr_pieces(av)[i as int]));
        i = i + 1;
    }
    assert(attr_pieces(av).take(attrs@.len() as int) =~= attr_pieces(av));
    pieces
}

/// The line node `n` prints as at depth `d`.
fn node_line_of(n: &crate::node::DomNode, d: usize) -> (r: Option<String>)
    ensures
        crate::cookie::opt_view(r) == node_line(*n, d as nat),
{
    proof {
        reveal_strlit("[Document]");
        reveal_strlit("<");
        reveal_strlit(">");
        reveal_strlit(" ");
        reveal_strlit("=\"");
        reveal_strlit("\"");
        reveal_strlit("<!-- ");
        reveal_strlit(" -->");
        assert("<"@ =~= seq!['<']);
        assert(">"@ =~= seq!['>']);
        assert(" "@ =~= seq![' ']);
        assert("\""@ =~= seq!['"']);
    }
    let mut out = String::new();
    push_indent(&mut out, d);
    let ghost ind = out@;
    match &n.kind {
        crate::node::NodeKind::Document(_) => {
            crate::text::string_push_str(&mut out, "[Document]");
            assert(out@ =~= indent(d as nat) + seq!['[', 'D', 'o', 'c', 'u', 'm', 'e', 'n', 't', ']']);
            Some(out)
        },
        crate::node::NodeKind::Element(e) => {
            crate::text::string_push_str(&mut out, "<");
            let tag = crate::html::to_lowercase(e.tag_name.as_str());
            crate::text::string_push_str(&mut out, tag.as_str());
            let attrs = e.attributes.iter();
            if attrs.len() > 0 {
                let pieces = attr_strings(attrs);
                crate::text::string_push_str(&mut out, " ");
                let joined = crate::text::join_strings(pieces.as_slice(), " ");
                crate::text::string_push_str(&mut out, joined.as_str());
            }
            crate::text::string_push_str(&mut out, ">");
            assert(out@ =~= node_line(*n, d as nat)->0);
            Some(out)
        },
        crate::node::NodeKind::Text(t) => {
            let cs = chars_of(t.data.as_str());
            let tr = trim_chars(&cs);
            if tr.len() == 0 {
                None
            } else {
                crate::text::string_push_str(&mut out, "\"");
                let pv = preview(&tr);
                crate::text::string_push_str(&mut out, pv.as_str());
                crate::text::string_push_str(&mut out, "\"");
                assert(out@ =~= node_line(*n, d as nat)->0);
                Some(out)
            }
        },
        crate::node::NodeKind::Comment(c) => {
            crate::text::string_push_str(&mut out, "<!-- ");
            crate::text::string_push_str(&mut out, c.data.as_str());
            crate::text::string_push_str(&mut out, " -->");
            assert(out@ =~= node_line(*n, d as nat)->0);
            Some(out)
        },
    }
}

/// The lines of the DOM tree under `node`, one per node (none for blank text), each
/// indented by two spaces per level.
pub fn dom_tree_lines(dom: &crate::tree::DomTree, node: crate::node::NodeId) -> (r: Vec<String>)
    requires
        dom.wf(),
        dom.contains(node),
    ensures
        strings_view(r@) == tree_lines(dom.nodes(), node.0, 0, dom.size(), dom.size()),
{
    let n = dom.node_count();
    let mut out: Vec<String> = Vec::new();
    lines_at(dom, node, 0, n, &mut out);
    assert(strings_view(out@) =~= seq![] + tree_lines(dom.nodes(), node.0, 0, dom.size(), dom.size()));
    out
}

fn lines_at(dom: &crate::tree::DomTree, node: crate::node::NodeId, d: usize, fuel: usize, out: &mut Vec<String>)
    requires
        dom.wf(),
        dom.contains(node),
        d + fuel <= dom.size(),
    ensures
        strings_view(final(out)@) == strings_view(old(out)@) + tree_lines(
            dom.nodes(),
            node.0,
            d as nat,
            fuel as nat,
            dom.size(),
        ),
    decreases fuel,
{
    let ghost m = dom.nodes();
    let ghost w = dom.size();
    if fuel == 0 {
        assert(strings_view(old(out)@) + seq![] =~= strings_view(old(out)@));
        return;
    }
    proof {
        dom.lemma_links_in(node);
    }
    let ghost before = strings_view(out@);
    let n = dom.get_node(node);
    match node_line_of(n, d) {
        Some(l) => {
            let ghost lv = l@;
            out.push(l);
            assert(strings_view(out@) =~= before.push(lv));
        },
        None => {},
    }
    let width = dom.node_count();
    let mut child = n.first_child;
    let mut budget = width;
    assert(width == w);
    proof {
        let own = match node_line(m[node.0], d as nat) {
            Some(l) => seq![l],
            None => seq![],
        };
        assert(strings_view(out@) =~= before + own);
        assert(before + tree_lines(m, node.0, d as nat, fuel as nat, w) =~= strings_view(out@)
            + kids_lines(m, child, (d + 1) as nat, (fuel - 1) as nat, w, budget as nat));
    }
    while budget > 0 && child.is_some()
        invariant
            dom.wf(),
            m == dom.nodes(),
            w == dom.size(),
            fuel > 0,
            d + fuel <= w,
            width == w,
            crate::tree::has(m, child),
            strings_view(old(out)@) + tree_lines(m, node.0, d as nat, fuel as nat, w) == strings_view(
                out@,
            ) + kids_lines(m, child, (d + 1) as nat, (fuel - 1) as nat, w, budget as nat),
        decreases budget,
    {
        let c = child.unwrap();
        proof {
            dom.lemma_links_in(c);
        }
        let ghost b2 = strings_view(out@);
        lines_at(dom, c, d + 1, fuel - 1, out);
        assert(b2 + kids_lines(m, child, (d + 1) as nat, (fuel - 1) as nat, w, budget as nat) =~= strings_view(
            out@,
        ) + kids_lines(m, m[c.0].next_sibling, (d + 1) as nat, (fuel - 1) as nat, w, (budget - 1) as nat));
        child = dom.get_node(c).next_sibling;
        budget = budget - 1;
    }
    assert(strings_view(out@) + kids_lines(m, child, (d + 1) as nat, (fuel - 1) as nat, w, budget as nat)
        =~= strings_view(out@));
}

// ─────────────────────────────── batch output ───────────────────────────────

/// `s` with each newline written as a backslash and `n`.
pub open spec fn escape_newlines(s: Seq<char>) -> Seq<char>
    decreases s.len(),
{
    if s.len() == 0 {
        seq![]
    } else {
        escape_newlines(s.drop_last()) + if s.last() == '\n' {
            seq!['\\', 'n']
        } else {
            seq![s.last()]
        }
    }
}

fn push_escaped_newlines(out: &mut String, s: &str)
    ensures
        final(out)@ == old(out)@ + escape_newlines(s@),
{
    let cs = chars_of(s);
    let mut i: usize = 0;
    while i < cs.len()
        invariant
            i <= cs@.len(),
            cs@ == s@,
            out@ == old(out)@ + escape_newlines(cs@.take(i as int)),
        decreases cs@.len() - i,
    {
        assert(cs@.take(i + 1).drop_last() =~= cs@.take(i as int));
        if cs[i] == '\n' {
            crate::text::string_push(out, '\\');
            crate::text::string_push(out, 'n');
        } else {
            crate::text::string_push(out, cs[i]);
        }
        assert(out@ =~= old(out)@ + escape_newlines(cs@.take(i + 1)));
        i = i + 1;
    }
    assert(cs@.take(cs@.len() as int) =~= cs@);
}

/// The text line of a batch result: for a failure the URL, two tabs, `0`, a tab and
/// `ERROR: ` with the error; else the URL, a backslash and `t`, the title, a tab and the
/// extracted value (newlines escaped) when there is one, a tab and the status.
pub open spec fn batch_line_text(r: crate::page::BatchResult) -> Seq<char> {
    match r.error {
        Some(e) => r.url@ + seq!['\t', '\t', '0', '\t', 'E', 'R', 'R', 'O', 'R', ':', ' '] + e@ + seq!['\n'],
        None => r.url@ + seq!['\\', 't'] + r.title@ + (match r.extracted {
            Some(v) => seq!['\t'] + escape_newlines(v@),
            None => seq![],
        }) + seq!['\t'] + crate::interceptor::decimal(r.status as nat) + seq!['\n'],
    }
}

/// The text line of a batch result.
pub fn batch_line(r: &crate::page::BatchResult) -> (s: String)
    ensures
        s@ == batch_line_text(*r),
{
    let mut out = String::new();
    crate::text::string_push_str(&mut out, r.url.as_str());
    match &r.error {
        Some(e) => {
            proof {
                reveal_strlit("\t\t0\tERROR: ");
                reveal_strlit("\n");
            }
            crate::text::string_push_str(&mut out, "\t\t0\tERROR: ");
            crate::text::string_push_str(&mut out, e.as_str());
            crate::text::string_push_str(&mut out, "\n");
            assert(out@ =~= batch_line_text(*r));
        },
        None => {
            crate::text::string_push(&mut out, '\\');
            crate::text::string_push(&mut out, 't');
            crate::text::string_push_str(&mut out, r.title.as_str());
            match &r.extracted {
                Some(v) => {
                    crate::text::string_push(&mut out, '\t');
                    push_escaped_newlines(&mut out, v.as_str());
                },
                None => {},
            }
            crate::text::string_push(&mut out, '\t');
            crate::interceptor::push_decimal(&mut out, r.status as usize);
            crate::text::string_push(&mut out, '\n');
            assert(out@ =~= batch_line_text(*r));
        },
    }
    out
}

/// The URLs of a URL list: its lines trimmed, empty lines and `#` comments skipped.
pub open spec fn url_list(lines: Seq<Seq<char>>) -> Seq<Seq<char>>
    decreases lines.len(),
{
    if lines.len() == 0 {
        seq![]
    } else {
        let before = url_list(lines.drop_last());
        let t = trim(lines.last());
        if t.len() == 0 || t[0] == '#' {
            before
        } else {
            before.push(t)
        }
    }
}

/// The URLs listed in the content of a URL file.
pub fn urls_from_list(content: &str) -> (r: Vec<String>)
    ensures
        strings_view(r@) == url_list(split_char(content@, '\n')),
{
    let cs = chars_of(content);
    let lines = split_chars(&cs, '\n');
    let ghost lv = lines@.map_values(|v: Vec<char>| v@);
    let mut out: Vec<String> = Vec::new();
    let mut i: usize = 0;
    while i < lines.len()
        invariant
            i <= lines@.len(),
            lv == lines@.map_values(|v: Vec<char>| v@),
            lv == split_char(content@, '\n'),
            strings_view(out@) == url_list(lv.take(i as int)),
        decreases lines@.len() - i,
    {
        assert(lv.take(i + 1).drop_last() =~= lv.take(i as int));
        assert(lv.take(i + 1).last() == lines@[i as int]@);
        let t = trim_chars(&lines[i]);
        if t.len() > 0 && t[0] != '#' {
            let ghost before = strings_view(out@);
            let u = string_of(&t);
            out.push(u);
            assert(strings_view(out@) =~= before.push(t@));
        }
        i = i + 1;
    }
    assert(lv.take(lines@.len() as int) =~= lv);
    out
}

/// The host of a URL, for cookies given on the command line; empty when the URL does
/// not parse or has no host.
pub fn cookie_domain(url: &str) -> (r: String)
    ensures
        r@ == match host_of(url@) {
            Some(h) => h,
            None => seq![],
        },
{
    match crate::page::parse_scheme_host(url) {
        Some((_, Some(h))) => h,
        _ => String::new(),
    }
}

} // verus!

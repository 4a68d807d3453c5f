//! Cookie management (RFC 6265): `Set-Cookie` parsing, HTTP dates, and a cookie jar.
use vstd::prelude::*;
use crate::clock::unix_now_secs;
use crate::text::{lower, string_push, string_push_str, chars_eq, starts_with_ignore_case, lemma_split_acc_nonempty, string_of, starts_with, ends_with, eq_ignore_case, split_once, split_once_chars, chars_of, trim_chars, find_char, slice_skip, split_ws_chars, split_chars, parse_i64_chars, chars_eq_ignore_case, lemma_first_index_bound, lower_seq, trim, first_index, split_ws, split_char, parse_i64};

verus! {

/// A single HTTP cookie.
pub struct Cookie {
    pub name: String,
    pub value: String,
    pub domain: Option<String>,
    pub path: String,
    /// Expiration as a Unix timestamp in seconds; `None` is a session cookie.
    pub expires: Option<i64>,
    pub secure: bool,
    pub http_only: bool,
}

/// The mathematical value of a cookie.
pub struct CookieV {
    pub name: Seq<char>,
    pub value: Seq<char>,
    pub domain: Option<Seq<char>>,
    pub path: Seq<char>,
    pub expires: Option<i64>,
    pub secure: bool,
    pub http_only: bool,
}

pub open spec fn opt_view(o: Option<String>) -> Option<Seq<char>> {
    match o {
        Some(s) => Some(s@),
        None => None,
    }
}

impl View for Cookie {
    type V = CookieV;

    open spec fn view(&self) -> CookieV {
        CookieV {
            name: self.name@,
            value: self.value@,
            domain: opt_view(self.domain),
            path: self.path@,
            expires: self.expires,
            secure: self.secure,
            http_only: self.http_only,
        }
    }
}

// ─────────────────────────────── HTTP dates ─────────────────────────────────

/// The month number of an English three-letter month abbreviation, any case.
pub open spec fn month_number(m: Seq<char>) -> Option<int> {
    let l = lower_seq(m);
    if l == seq!['j', 'a', 'n'] {
        Some(1)
    } else if l == seq!['f', 'e', 'b'] {
        Some(2)
    } else if l == seq!['m', 'a', 'r'] {
        Some(3)
    } else if l == seq!['a', 'p', 'r'] {
        Some(4)
    } else if l == seq!['m', 'a', 'y'] {
        Some(5)
    } else if l == seq!['j', 'u', 'n'] {
        Some(6)
    } else if l == seq!['j', 'u', 'l'] {
        Some(7)
    } else if l == seq!['a', 'u', 'g'] {
        Some(8)
    } else if l == seq!['s', 'e', 'p'] {
        Some(9)
    } else if l == seq!['o', 'c', 't'] {
        Some(10)
    } else if l == seq!['n', 'o', 'v'] {
        Some(11)
    } else if l == seq!['d', 'e', 'c'] {
        Some(12)
    } else {
        None
    }
}

/// Days from 1970-01-01 to the given proleptic Gregorian date (Hinnant's `days_from_civil`).
pub open spec fn days_from_civil(year: int, month: int, day: int) -> int {
    let y = if month <= 2 {
        year - 1
    } else {
        year
    };
    let era = if y >= 0 {
        y / 400
    } else {
        -((399 - y) / 400)
    };
    let yoe = y - era * 400;
    let adjusted_m = if month > 2 {
        month - 3
    } else {
        month + 9
    };
    let doy = (153 * adjusted_m + 2) / 5 + day - 1;
    let doe = yoe * 365 + yoe / 4 - yoe / 100 + doy;
    era * 146097 + doe - 719468
}

/// The date part after an optional `Day,` prefix.
pub open spec fn date_body(d: Seq<char>) -> Seq<char> {
    let s = trim(d);
    match first_index(s, ',') {
        Some(p) => trim(s.skip(p + 1)),
        None => s,
    }
}

/// The Unix timestamp an HTTP date such as `Wed, 21 Oct 2025 07:28:00 GMT` names,
/// wrapped into `i64`.
pub open spec fn http_date(d: Seq<char>) -> Option<i64> {
    let parts = split_ws(date_body(d));
    if parts.len() < 5 {
        None
    } else {
        let time = split_char(parts[3], ':');
        if time.len() < 3 {
            None
        } else {
            match (
                parse_i64(parts[0]),
                month_number(parts[1]),
                parse_i64(parts[2]),
                parse_i64(time[0]),
                parse_i64(time[1]),
                parse_i64(time[2]),
            ) {
                (Some(day), Some(month), Some(year), Some(h), Some(mi), Some(sec)) => {
                    let days = days_from_civil(year as int, month, day as int);
                    Some((days * 86400 + h * 3600 + mi * 60 + sec) as i64)
                },
                _ => None,
            }
        }
    }
}

fn month_of(m: &[char]) -> (r: Option<i64>)
    ensures
        match r {
            Some(v) => month_number(m@) == Some(v as int),
            None => month_number(m@) is None,
        },
{
    let names: [[char; 3]; 12] = [
        ['j', 'a', 'n'],
        ['f', 'e', 'b'],
        ['m', 'a', 'r'],
        ['a', 'p', 'r'],
        ['m', 'a', 'y'],
        ['j', 'u', 'n'],
        ['j', 'u', 'l'],
        ['a', 'u', 'g'],
        ['s', 'e', 'p'],
        ['o', 'c', 't'],
        ['n', 'o', 'v'],
        ['d', 'e', 'c'],
    ];
    let ghost specs = seq![
        seq!['j', 'a', 'n'],
        seq!['f', 'e', 'b'],
        seq!['m', 'a', 'r'],
        seq!['a', 'p', 'r'],
        seq!['m', 'a', 'y'],
        seq!['j', 'u', 'n'],
        seq!['j', 'u', 'l'],
        seq!['a', 'u', 'g'],
        seq!['s', 'e', 'p'],
        seq!['o', 'c', 't'],
        seq!['n', 'o', 'v'],
        seq!['d', 'e', 'c'],
    ];
    assert forall|k: int| 0 <= k < 12 implies #[trigger] names@[k]@ == specs[k] by {
        assert(names@[k]@ =~= specs[k]);
    }
    assert forall|k: int| 0 <= k < 12 implies lower_seq(#[trigger] specs[k]) == specs[k] by {
        assert(lower_seq(specs[k]) =~= specs[k]);
    }
    let mut k: usize = 0;
    while k < 12
        invariant
            k <= 12,
            forall|j: int| 0 <= j < 12 ==> #[trigger] names@[j]@ == specs[j],
            forall|j: int| 0 <= j < 12 ==> lower_seq(#[trigger] specs[j]) == specs[j],
            specs == seq![
                seq!['j', 'a', 'n'],
                seq!['f', 'e', 'b'],
                seq!['m', 'a', 'r'],
                seq!['a', 'p', 'r'],
                seq!['m', 'a', 'y'],
                seq!['j', 'u', 'n'],
                seq!['j', 'u', 'l'],
                seq!['a', 'u', 'g'],
                seq!['s', 'e', 'p'],
                seq!['o', 'c', 't'],
                seq!['n', 'o', 'v'],
                seq!['d', 'e', 'c'],
            ],
            forall|j: int| 0 <= j < k ==> lower_seq(m@) != #[trigger] specs[j],
        decreases 12 - k,
    {
        let name: &[char] = &names[k];
        if chars_eq_ignore_case(m, name) {
            assert(lower_seq(m@) == specs[k as int]);
            return Some((k + 1) as i64);
        }
        k = k + 1;
    }
    None
}

fn civil_days(year: i64, month: i64, day: i64) -> (r: i128)
    requires
        1 <= month <= 12,
    ensures
        r == days_from_civil(year as int, month as int, day as int),
        -20000000000000000000000i128 <= r <= 20000000000000000000000i128,
{
    let y: i128 = if month <= 2 {
        year as i128 - 1
    } else {
        year as i128
    };
    let era: i128 = if y >= 0 {
        y / 400
    } else {
        -((399 - y) / 400)
    };
    assert(era * 400 <= y + 400 && era * 400 >= y - 400) by (nonlinear_arith)
        requires
            era == (if y >= 0 {
                y / 400
            } else {
                -((399 - y) / 400)
            }),
    ;
    let yoe: i128 = y - era * 400;
    let adjusted_m: i128 = if month > 2 {
        month as i128 - 3
    } else {
        month as i128 + 9
    };
    let doy: i128 = (153 * adjusted_m + 2) / 5 + day as i128 - 1;
    let doe: i128 = yoe * 365 + yoe / 4 - yoe / 100 + doy;
    assert(-10000000000000000000000i128 <= era * 146097 <= 10000000000000000000000i128) by (
    nonlinear_arith)
        requires
            era * 400 <= y + 400,
            era * 400 >= y - 400,
            -9223372036854775810 <= y <= 9223372036854775810,
    ;
    era * 146097 + doe - 719468
}

/// Parse an HTTP date string into a Unix timestamp (seconds).
/// Supports the common form `Wed, 21 Oct 2025 07:28:00 GMT`.
pub fn parse_http_date(date_str: &str) -> (r: Option<i64>)
    ensures
        r == http_date(date_str@),
{
    let all = chars_of(date_str);
    let s0 = trim_chars(&all);
    let s = match find_char(&s0, ',') {
        Some(p) => {
            proof {
                lemma_first_index_bound(s0@, ',');
            }
            assert(p < s0.len());
            let rest = slice_skip(&s0, p + 1);
            trim_chars(&rest)
        },
        None => s0,
    };
    let parts = split_ws_chars(&s);
    proof {
        assert(s@ == date_body(date_str@));
    }
    let ghost ps = parts@.map_values(|v: Vec<char>| v@);
    if parts.len() < 5 {
        return None;
    }
    assert(ps[3] == parts@[3]@);
    let time = split_chars(&parts[3], ':');
    let ghost ts = time@.map_values(|v: Vec<char>| v@);
    if time.len() < 3 {
        return None;
    }
    assert(ps[0] == parts@[0]@ && ps[1] == parts@[1]@ && ps[2] == parts@[2]@);
    assert(ts[0] == time@[0]@ && ts[1] == time@[1]@ && ts[2] == time@[2]@);
    let day = parse_i64_chars(&parts[0]);
    let month = month_of(&parts[1]);
    let year = parse_i64_chars(&parts[2]);
    let hour = parse_i64_chars(&time[0]);
    let minute = parse_i64_chars(&time[1]);
    let second = parse_i64_chars(&time[2]);
    match (day, month, year, hour, minute, second) {
        (Some(d), Some(mo), Some(y), Some(h), Some(mi), Some(sec)) => {
            let days = civil_days(y, mo, d);
            let total: i128 = days * 86400 + h as i128 * 3600 + mi as i128 * 60 + sec as i128;
            Some(#[verifier::truncate] (total as i64))
        },
        _ => None,
    }
}


// ────────────────────────────── Set-Cookie ──────────────────────────────────

/// The attributes read so far while parsing a `Set-Cookie` header.
pub struct CookieAttrs {
    pub domain: Option<Seq<char>>,
    pub path: Seq<char>,
    pub secure: bool,
    pub http_only: bool,
    /// Expiration from `Max-Age` or `Expires`.
    pub max_age: Option<i64>,
}

/// `s` starts with `p`, ignoring ASCII case.
pub open spec fn starts_ic(s: Seq<char>, p: Seq<char>) -> bool {
    p.len() <= s.len() && eq_ignore_case(s.take(p.len() as int), p)
}

/// `str::trim_start_matches('.')`.
pub open spec fn trim_dots(s: Seq<char>) -> Seq<char>
    decreases s.len(),
{
    if s.len() > 0 && s[0] == '.' {
        trim_dots(s.drop_first())
    } else {
        s
    }
}

/// The effect of one attribute (already trimmed) of a `Set-Cookie` header.
/// `Max-Age` takes priority over `Expires`; `Max-Age <= 0` expires at once.
pub open spec fn apply_attr(st: CookieAttrs, part: Seq<char>, now: i64) -> CookieAttrs {
    if starts_ic(part, seq!['d', 'o', 'm', 'a', 'i', 'n', '=']) {
        CookieAttrs { domain: Some(trim_dots(part.skip(7))), ..st }
    } else if starts_ic(part, seq!['p', 'a', 't', 'h', '=']) {
        CookieAttrs { path: part.skip(5), ..st }
    } else if eq_ignore_case(part, seq!['s', 'e', 'c', 'u', 'r', 'e']) {
        CookieAttrs { secure: true, ..st }
    } else if eq_ignore_case(part, seq!['h', 't', 't', 'p', 'o', 'n', 'l', 'y']) {
        CookieAttrs { http_only: true, ..st }
    } else if starts_ic(part, seq!['m', 'a', 'x', '-', 'a', 'g', 'e', '=']) {
        match parse_i64(trim(part.skip(8))) {
            Some(seconds) => CookieAttrs {
                max_age: Some(
                    if seconds <= 0 {
                        0
                    } else {
                        (now + seconds) as i64
                    },
                ),
                ..st
            },
            None => st,
        }
    } else if starts_ic(part, seq!['e', 'x', 'p', 'i', 'r', 'e', 's', '=']) {
        if st.max_age is None {
            match http_date(trim(part.skip(8))) {
                Some(ts) => CookieAttrs { max_age: Some(ts), ..st },
                None => st,
            }
        } else {
            st
        }
    } else {
        st
    }
}

pub open spec fn apply_attrs(st: CookieAttrs, parts: Seq<Seq<char>>, now: i64) -> CookieAttrs
    decreases parts.len(),
{
    if parts.len() == 0 {
        st
    } else {
        apply_attr(apply_attrs(st, parts.drop_last(), now), parts.last(), now)
    }
}

pub open spec fn initial_attrs() -> CookieAttrs {
    CookieAttrs { domain: None, path: seq!['/'], secure: false, http_only: false, max_age: None }
}

/// The cookie that the `Set-Cookie` header `h`, received from `request_domain` at time
/// `now`, describes; `None` when its first part holds no `=`.
pub open spec fn set_cookie_value(h: Seq<char>, request_domain: Seq<char>, now: i64) -> Option<
    CookieV,
> {
    let parts = split_char(h, ';').map_values(|p: Seq<char>| trim(p));
    match split_once(parts[0], '=') {
        Some((name, value)) => {
            let st = apply_attrs(initial_attrs(), parts.drop_first(), now);
            Some(
                CookieV {
                    name,
                    value,
                    domain: Some(
                        match st.domain {
                            Some(d) => d,
                            None => request_domain,
                        },
                    ),
                    path: st.path,
                    expires: st.max_age,
                    secure: st.secure,
                    http_only: st.http_only,
                },
            )
        },
        None => None,
    }
}

struct AttrState {
    domain: Option<Vec<char>>,
    path: Vec<char>,
    secure: bool,
    http_only: bool,
    max_age: Option<i64>,
}

impl AttrState {
    spec fn model(&self) -> CookieAttrs {
        CookieAttrs {
            domain: match self.domain {
                Some(d) => Some(d@),
                None => None,
            },
            path: self.path@,
            secure: self.secure,
            http_only: self.http_only,
            max_age: self.max_age,
        }
    }
}

fn skip_dots(s: &[char]) -> (r: Vec<char>)
    ensures
        r@ == trim_dots(s@),
{
    let mut i: usize = 0;
    assert(s@.skip(0) =~= s@);
    while i < s.len() && s[i] == '.'
        invariant
            i <= s@.len(),
            trim_dots(s@) == trim_dots(s@.skip(i as int)),
        decreases s@.len() - i,
    {
        assert(s@.skip(i as int).drop_first() =~= s@.skip(i + 1));
        i = i + 1;
    }
    slice_skip(s, i)
}

fn apply_attr_exec(st: &mut AttrState, part: &[char], now: i64)
    ensures
        final(st).model() == apply_attr(old(st).model(), part@, now),
{
    let domain_kw = ['d', 'o', 'm', 'a', 'i', 'n', '='];
    let path_kw = ['p', 'a', 't', 'h', '='];
    let secure_kw = ['s', 'e', 'c', 'u', 'r', 'e'];
    let http_only_kw = ['h', 't', 't', 'p', 'o', 'n', 'l', 'y'];
    let max_age_kw = ['m', 'a', 'x', '-', 'a', 'g', 'e', '='];
    let expires_kw = ['e', 'x', 'p', 'i', 'r', 'e', 's', '='];
    assert(domain_kw@ =~= seq!['d', 'o', 'm', 'a', 'i', 'n', '=']);
    assert(path_kw@ =~= seq!['p', 'a', 't', 'h', '=']);
    assert(secure_kw@ =~= seq!['s', 'e', 'c', 'u', 'r', 'e']);
    assert(http_only_kw@ =~= seq!['h', 't', 't', 'p', 'o', 'n', 'l', 'y']);
    assert(max_age_kw@ =~= seq!['m', 'a', 'x', '-', 'a', 'g', 'e', '=']);
    assert(expires_kw@ =~= seq!['e', 'x', 'p', 'i', 'r', 'e', 's', '=']);
    if starts_with_ignore_case(part, &domain_kw) {
        let v = slice_skip(part, 7);
        st.domain = Some(skip_dots(&v));
    } else if starts_with_ignore_case(part, &path_kw) {
        st.path = slice_skip(part, 5);
    } else if chars_eq_ignore_case(part, &secure_kw) {
        st.secure = true;
    } else if chars_eq_ignore_case(part, &http_only_kw) {
        st.http_only = true;
    } else if starts_with_ignore_case(part, &max_age_kw) {
        let rest = slice_skip(part, 8);
        let v = trim_chars(&rest);
        match parse_i64_chars(&v) {
            Some(seconds) => {
                if seconds <= 0 {
                    st.max_age = Some(0);
                } else {
                    let at: i128 = now as i128 + seconds as i128;
                    st.max_age = Some(#[verifier::truncate] (at as i64));
                }
            },
            None => {},
        }
    } else if starts_with_ignore_case(part, &expires_kw) {
        if st.max_age.is_none() {
            let rest = slice_skip(part, 8);
            let v = trim_chars(&rest);
            let date = string_of(&v);
            match parse_http_date(date.as_str()) {
                Some(ts) => {
                    st.max_age = Some(ts);
                },
                None => {},
            }
        }
    }
}

/// Parse a single `Set-Cookie` header value received at time `now` into a cookie.
pub fn parse_set_cookie_at(header: &str, request_domain: &str, now: i64) -> (r: Option<Cookie>)
    ensures
        match r {
            Some(c) => set_cookie_value(header@, request_domain@, now) == Some(c@),
            None => set_cookie_value(header@, request_domain@, now) is None,
        },
{
    let all = chars_of(header);
    let raw = split_chars(&all, ';');
    let ghost raw_v = raw@.map_values(|v: Vec<char>| v@);
    let ghost parts = split_char(header@, ';').map_values(|p: Seq<char>| trim(p));
    proof {
        lemma_split_acc_nonempty(header@, ';', seq![]);
    }
    assert(raw_v.len() >= 1);
    assert(raw_v[0] == raw@[0]@);
    let first = trim_chars(&raw[0]);
    assert(first@ == parts[0]);
    let (name, value) = match split_once_chars(&first, '=') {
        Some(nv) => nv,
        None => {
            return None;
        },
    };
    let mut st = AttrState {
        domain: None,
        path: vec!['/'],
        secure: false,
        http_only: false,
        max_age: None,
    };
    assert(st.model().path =~= seq!['/']);
    let mut i: usize = 1;
    assert(parts.drop_first().take(0) =~= Seq::<Seq<char>>::empty());
    while i < raw.len()
        invariant
            1 <= i <= raw@.len(),
            raw_v == raw@.map_values(|v: Vec<char>| v@),
            raw_v == split_char(header@, ';'),
            parts == raw_v.map_values(|p: Seq<char>| trim(p)),
            st.model() == apply_attrs(initial_attrs(), parts.drop_first().take(i - 1), now),
        decreases raw@.len() - i,
    {
        assert(raw_v[i as int] == raw@[i as int]@);
        let part = trim_chars(&raw[i]);
        assert(part@ == parts.drop_first()[i - 1]);
        assert(parts.drop_first().take(i as int).drop_last() =~= parts.drop_first().take(i - 1));
        apply_attr_exec(&mut st, &part, now);
        i = i + 1;
    }
    assert(parts.drop_first().take(i - 1) =~= parts.drop_first());
    let domain = match st.domain {
        Some(d) => string_of(&d),
        None => request_domain.to_owned(),
    };
    Some(
        Cookie {
            name: string_of(&name),
            value: string_of(&value),
            domain: Some(domain),
            path: string_of(&st.path),
            expires: st.max_age,
            secure: st.secure,
            http_only: st.http_only,
        },
    )
}


/// Parse a single `Set-Cookie` header value into a cookie, reading the clock for `Max-Age`.
pub fn parse_set_cookie(header: &str, request_domain: &str) -> (r: Option<Cookie>)
    ensures
        exists|now: i64|
            match r {
                Some(c) => #[trigger] set_cookie_value(header@, request_domain@, now) == Some(c@),
                None => #[trigger] set_cookie_value(header@, request_domain@, now) is None,
            },
{
    let now = unix_now_secs();
    let r = parse_set_cookie_at(header, request_domain, now);
    assert(match r {
        Some(c) => set_cookie_value(header@, request_domain@, now) == Some(c@),
        None => set_cookie_value(header@, request_domain@, now) is None,
    });
    r
}

// ─────────────────────────────── cookie jar ─────────────────────────────────

/// The jar as a sequence of groups `(domain key, cookies)`, in insertion order.
pub type JarV = Seq<(Seq<char>, Seq<CookieV>)>;

/// Cookie jar: stores and retrieves cookies by domain and path.
pub struct CookieJar {
    cookies: Vec<(String, Vec<Cookie>)>,
}

pub open spec fn group_view(g: (String, Vec<Cookie>)) -> (Seq<char>, Seq<CookieV>) {
    (g.0@, g.1@.map_values(|c: Cookie| c@))
}

impl View for CookieJar {
    type V = JarV;

    closed spec fn view(&self) -> JarV {
        self.cookies@.map_values(|g: (String, Vec<Cookie>)| group_view(g))
    }
}

/// The group a cookie belongs to: its domain, or `unknown`.
pub open spec fn domain_key(c: CookieV) -> Seq<char> {
    match c.domain {
        Some(d) => d,
        None => seq!['u', 'n', 'k', 'n', 'o', 'w', 'n'],
    }
}

pub open spec fn group_index(groups: JarV, key: Seq<char>) -> Option<int>
    decreases groups.len(),
{
    if groups.len() == 0 {
        None
    } else if groups[0].0 == key {
        Some(0)
    } else {
        match group_index(groups.drop_first(), key) {
            Some(i) => Some(i + 1),
            None => None,
        }
    }
}

pub open spec fn name_index(cs: Seq<CookieV>, name: Seq<char>) -> Option<int>
    decreases cs.len(),
{
    if cs.len() == 0 {
        None
    } else if cs[0].name == name {
        Some(0)
    } else {
        match name_index(cs.drop_first(), name) {
            Some(i) => Some(i + 1),
            None => None,
        }
    }
}

/// A group's cookies with `c` added, replacing the first one of the same name.
pub open spec fn replace_or_push(cs: Seq<CookieV>, c: CookieV) -> Seq<CookieV> {
    match name_index(cs, c.name) {
        Some(p) => cs.update(p, c),
        None => cs.push(c),
    }
}

/// The jar after inserting `c`.
pub open spec fn jar_insert(groups: JarV, c: CookieV) -> JarV {
    let key = domain_key(c);
    match group_index(groups, key) {
        Some(g) => groups.update(g, (key, replace_or_push(groups[g].1, c))),
        None => groups.push((key, seq![c])),
    }
}

/// No two groups share a key; within a group, every cookie has the group's key and
/// no two cookies share a name.
pub open spec fn jar_unique(groups: JarV) -> bool {
    &&& forall|i: int, j: int|
        0 <= i < j < groups.len() ==> #[trigger] groups[i].0 != #[trigger] groups[j].0
    &&& forall|i: int, a: int|
        0 <= i < groups.len() && 0 <= a < groups[i].1.len() ==> domain_key(
            #[trigger] groups[i].1[a],
        ) == groups[i].0
    &&& forall|i: int, a: int, b: int|
        0 <= i < groups.len() && 0 <= a < b < groups[i].1.len() ==> #[trigger] groups[i].1[a].name
            != #[trigger] groups[i].1[b].name
}

/// `query` is `d` or a subdomain of it.
pub open spec fn domain_matches(query: Seq<char>, d: Seq<char>) -> bool {
    query == d || (seq!['.'] + d).is_suffix_of(query)
}

/// The cookie applies to `path` and has not expired at `now`.
pub open spec fn cookie_visible(c: CookieV, path: Seq<char>, now: i64) -> bool {
    c.path.is_prefix_of(path) && !(c.expires matches Some(e) && now > e)
}

pub open spec fn visible_in(cs: Seq<CookieV>, path: Seq<char>, now: i64) -> Seq<CookieV>
    decreases cs.len(),
{
    if cs.len() == 0 {
        seq![]
    } else {
        let rest = visible_in(cs.drop_last(), path, now);
        if cookie_visible(cs.last(), path, now) {
            rest.push(cs.last())
        } else {
            rest
        }
    }
}

/// The cookies sent to `domain` and `path` at time `now`, group by group.
pub open spec fn matching(groups: JarV, domain: Seq<char>, path: Seq<char>, now: i64) -> Seq<
    CookieV,
>
    decreases groups.len(),
{
    if groups.len() == 0 {
        seq![]
    } else {
        let g = groups.last();
        matching(groups.drop_last(), domain, path, now) + if domain_matches(domain, g.0) {
            visible_in(g.1, path, now)
        } else {
            seq![]
        }
    }
}

/// All cookies of the jar, group by group.
pub open spec fn all_of(groups: JarV) -> Seq<CookieV>
    decreases groups.len(),
{
    if groups.len() == 0 {
        seq![]
    } else {
        all_of(groups.drop_last()) + groups.last().1
    }
}

/// `name=value` pairs joined by `; `.
pub open spec fn header_of(cs: Seq<CookieV>) -> Seq<char>
    decreases cs.len(),
{
    if cs.len() == 0 {
        seq![]
    } else if cs.len() == 1 {
        cs[0].name + seq!['='] + cs[0].value
    } else {
        header_of(cs.drop_last()) + seq![';', ' '] + cs.last().name + seq!['='] + cs.last().value
    }
}

pub open spec fn refs_view(v: Seq<&Cookie>) -> Seq<CookieV> {
    v.map_values(|c: &Cookie| c@)
}

impl CookieJar {
    /// No domain key has two groups, each cookie sits under its own domain key, and no
    /// group has two cookies of one name.
    #[verifier::type_invariant]
    spec fn groups_unique(self) -> bool {
        jar_unique(self.cookies@.map_values(|g: (String, Vec<Cookie>)| group_view(g)))
    }

    pub fn new() -> (r: Self)
        ensures
            r@ == Seq::<(Seq<char>, Seq<CookieV>)>::empty(),
    {
        let r = CookieJar { cookies: Vec::new() };
        assert(r@ =~= Seq::<(Seq<char>, Seq<CookieV>)>::empty());
        r
    }

    fn find_group(&self, key: &String) -> (r: Option<usize>)
        ensures
            match r {
                Some(i) => group_index(self@, key@) == Some(i as int) && i < self@.len(),
                None => group_index(self@, key@) is None,
            },
    {
        let mut i: usize = 0;
        assert(self@.skip(0) =~= self@);
        while i < self.cookies.len()
            invariant
                i <= self.cookies@.len(),
                self@.len() == self.cookies@.len(),
                group_index(self@, key@) == match group_index(self@.skip(i as int), key@) {
                    Some(k) => Some(k + i),
                    None => None::<int>,
                },
            decreases self.cookies@.len() - i,
        {
            assert(self@.skip(i as int).drop_first() =~= self@.skip(i + 1));
            assert(self@[i as int] == group_view(self.cookies@[i as int]));
            if self.cookies[i].0 == *key {
                return Some(i);
            }
            i = i + 1;
        }
        None
    }

    /// Insert a cookie, keyed by its domain; a cookie of the same name in that domain
    /// is replaced in place, or else the cookie is appended to that domain's cookies;
    /// other domains keep theirs.
    pub fn insert(&mut self, cookie: Cookie)
        ensures
            final(self)@ == jar_insert(old(self)@, cookie@),
            jar_unique(final(self)@),
            ({
                let key = domain_key(cookie@);
                let before = cookies_under(old(self)@, key);
                let after = cookies_under(final(self)@, key);
                &&& match name_index(before, cookie@.name) {
                    Some(i) => after == before.update(i, cookie@) && after.len() == before.len(),
                    None => after == before.push(cookie@),
                }
                &&& forall|other: Seq<char>|
                    other != key ==> #[trigger] cookies_under(final(self)@, other) == cookies_under(
                        old(self)@,
                        other,
                    )
            }),
    {
        proof {
            use_type_invariant(&*self);
            lemma_jar_insert_unique(self@, cookie@);
            assert forall|other: Seq<char>| other != domain_key(cookie@) implies #[trigger] cookies_under(
                jar_insert(self@, cookie@),
                other,
            ) == cookies_under(self@, other) by {
                law_insert_replaces_or_appends(self@, cookie@, other);
            }
            law_insert_replaces_or_appends(self@, cookie@, domain_key(cookie@));
        }
        let key: String = match &cookie.domain {
            Some(d) => d.clone(),
            None => string_of(&['u', 'n', 'k', 'n', 'o', 'w', 'n']),
        };
        assert(key@ == domain_key(cookie@));
        let ghost old_v = self@;
        let found_group = self.find_group(&key);
        let mut groups: Vec<(String, Vec<Cookie>)> = Vec::new();
        std::mem::swap(&mut groups, &mut self.cookies);
        assert(groups@.map_values(|g: (String, Vec<Cookie>)| group_view(g)) == old_v);
        match found_group {
            Some(gi) => {
                let ghost old_cookies = groups@;
                let (k, mut cs) = groups.remove(gi);
                let ghost cs0 = cs@.map_values(|c: Cookie| c@);
                assert(group_view((k, cs)) == old_v[gi as int]);
                proof {
                    lemma_group_index_bound(old_v, key@);
                }
                assert(k@ == key@);
                let found = find_name(&cs, &cookie.name);
                let ghost cv = cookie@;
                match found {
                    Some(p) => {
                        cs.set(p, cookie);
                        assert(cs@.map_values(|c: Cookie| c@) =~= cs0.update(p as int, cv));
                    },
                    None => {
                        cs.push(cookie);
                        assert(cs@.map_values(|c: Cookie| c@) =~= cs0.push(cv));
                    },
                }
                let ghost ncs = cs@.map_values(|c: Cookie| c@);
                assert(ncs == replace_or_push(cs0, cv));
                groups.insert(gi, (k, cs));
                assert(groups@ =~= old_cookies.update(gi as int, (k, cs)));
                assert(group_view((k, cs)) == (key@, ncs));
                assert(groups@.map_values(|g: (String, Vec<Cookie>)| group_view(g)) =~= old_v.update(
                    gi as int,
                    (key@, ncs),
                ));
                assert(groups@.map_values(|g: (String, Vec<Cookie>)| group_view(g)) =~= jar_insert(
                    old_v,
                    cv,
                ));
            },
            None => {
                let ghost cv = cookie@;
                let ghost old_cookies = groups@;
                let mut cs: Vec<Cookie> = Vec::new();
                cs.push(cookie);
                groups.push((key, cs));
                assert(group_view((key, cs)) == (key@, seq![cv])) by {
                    assert(cs@.map_values(|c: Cookie| c@) =~= seq![cv]);
                }
                assert(groups@ =~= old_cookies.push((key, cs)));
                assert(groups@.map_values(|g: (String, Vec<Cookie>)| group_view(g)) =~= jar_insert(
                    old_v,
                    cv,
                ));
            },
        }
        self.cookies = groups;
    }

    /// All cookies matching `domain` and `path` that have not expired at `now`.
    /// Domain matching accepts the cookie's domain itself and its subdomains.
    pub fn get_matching_at(&self, domain: &str, path: &str, now: i64) -> (r: Vec<&Cookie>)
        ensures
            refs_view(r@) == matching(self@, domain@, path@, now),
    {
        let qd = chars_of(domain);
        let qp = chars_of(path);
        let mut result: Vec<&Cookie> = Vec::new();
        let mut i: usize = 0;
        while i < self.cookies.len()
            invariant
                i <= self.cookies@.len(),
                qd@ == domain@,
                qp@ == path@,
                self@.len() == self.cookies@.len(),
                refs_view(result@) == matching(self@.take(i as int), domain@, path@, now),
            decreases self.cookies@.len() - i,
        {
            let ghost before = result@;
            let group = &self.cookies[i];
            assert(self@[i as int] == group_view(*group));
            let gd = chars_of(group.0.as_str());
            let mut dotted: Vec<char> = vec!['.'];
            let mut k: usize = 0;
            while k < gd.len()
                invariant
                    k <= gd@.len(),
                    dotted@ == seq!['.'] + gd@.take(k as int),
                decreases gd@.len() - k,
            {
                dotted.push(gd[k]);
                assert(gd@.take(k as int).push(gd@[k as int]) =~= gd@.take(k + 1));
                k = k + 1;
            }
            assert(gd@.take(gd@.len() as int) =~= gd@);
            let dm = chars_eq(&gd, domain) || ends_with(&qd, &dotted);
            assert(dm == domain_matches(domain@, group.0@));
            let ghost cs = group.1@.map_values(|c: Cookie| c@);
            if dm {
                let mut j: usize = 0;
                while j < group.1.len()
                    invariant
                        j <= group.1@.len(),
                        qp@ == path@,
                        cs == group.1@.map_values(|c: Cookie| c@),
                        refs_view(result@) == refs_view(before) + visible_in(
                            cs.take(j as int),
                            path@,
                            now,
                        ),
                    decreases group.1@.len() - j,
                {
                    let c = &group.1[j];
                    let cp = chars_of(c.path.as_str());
                    let path_ok = starts_with(&qp, &cp);
                    let expired = match c.expires {
                        Some(e) => now > e,
                        None => false,
                    };
                    assert(cs.take(j + 1).drop_last() =~= cs.take(j as int));
                    let ghost prev = result@;
                    if path_ok && !expired {
                        result.push(c);
                        assert(refs_view(result@) =~= refs_view(prev).push(c@));
                    }
                    j = j + 1;
                }
                assert(cs.take(group.1@.len() as int) =~= cs);
            } else {
                assert(refs_view(result@) =~= refs_view(before) + Seq::<CookieV>::empty());
            }
            assert(self@.take(i + 1).drop_last() =~= self@.take(i as int));
            i = i + 1;
        }
        assert(self@.take(self@.len() as int) =~= self@);
        result
    }

    /// All cookies matching `domain` and `path` that have not expired now.
    pub fn get_matching(&self, domain: &str, path: &str) -> (r: Vec<&Cookie>)
        ensures
            exists|now: i64| refs_view(r@) == #[trigger] matching(self@, domain@, path@, now),
    {
        let now = unix_now_secs();
        let r = self.get_matching_at(domain, path, now);
        assert(refs_view(r@) == matching(self@, domain@, path@, now));
        r
    }

    /// All cookies as a flat list.
    pub fn all_cookies(&self) -> (r: Vec<&Cookie>)
        ensures
            refs_view(r@) == all_of(self@),
    {
        let mut result: Vec<&Cookie> = Vec::new();
        let mut i: usize = 0;
        while i < self.cookies.len()
            invariant
                i <= self.cookies@.len(),
                self@.len() == self.cookies@.len(),
                refs_view(result@) == all_of(self@.take(i as int)),
            decreases self.cookies@.len() - i,
        {
            let ghost before = result@;
            let group = &self.cookies[i];
            assert(self@[i as int] == group_view(*group));
            let ghost cs = group.1@.map_values(|c: Cookie| c@);
            let mut j: usize = 0;
            while j < group.1.len()
                invariant
                    j <= group.1@.len(),
                    cs == group.1@.map_values(|c: Cookie| c@),
                    refs_view(result@) == refs_view(before) + cs.take(j as int),
                decreases group.1@.len() - j,
            {
                let ghost prev = result@;
                result.push(&group.1[j]);
                assert(refs_view(result@) =~= refs_view(prev).push(cs[j as int]));
                assert(cs.take(j + 1) =~= cs.take(j as int).push(cs[j as int]));
                j = j + 1;
            }
            assert(cs.take(group.1@.len() as int) =~= cs);
            assert(self@.take(i + 1).drop_last() =~= self@.take(i as int));
            i = i + 1;
        }
        assert(self@.take(self@.len() as int) =~= self@);
        result
    }

    /// Remove all cookies.
    pub fn clear(&mut self)
        ensures
            final(self)@ == Seq::<(Seq<char>, Seq<CookieV>)>::empty(),
    {
        self.cookies = Vec::new();
        assert(self@ =~= Seq::<(Seq<char>, Seq<CookieV>)>::empty());
    }

    /// Parse a `Set-Cookie` header value received at `now` and add the cookie to the jar.
    pub fn parse_set_cookie_at(&mut self, header: &str, request_domain: &str, now: i64)
        ensures
            final(self)@ == match set_cookie_value(header@, request_domain@, now) {
                Some(c) => jar_insert(old(self)@, c),
                None => old(self)@,
            },
    {
        match parse_set_cookie_at(header, request_domain, now) {
            Some(c) => self.insert(c),
            None => {},
        }
    }

    /// Parse a `Set-Cookie` header value and add the cookie to the jar.
    pub fn parse_set_cookie(&mut self, header: &str, request_domain: &str)
        ensures
            exists|now: i64|
                final(self)@ == match #[trigger] set_cookie_value(header@, request_domain@, now) {
                    Some(c) => jar_insert(old(self)@, c),
                    None => old(self)@,
                },
    {
        let now = unix_now_secs();
        self.parse_set_cookie_at(header, request_domain, now);
    }

    /// Parse several `Set-Cookie` header values, in order, received at `now`.
    pub fn parse_set_cookies_at(&mut self, headers: &[&str], request_domain: &str, now: i64)
        ensures
            final(self)@ == insert_all(old(self)@, strs_view(headers@), request_domain@, now),
    {
        let ghost hs = strs_view(headers@);
        let mut i: usize = 0;
        while i < headers.len()
            invariant
                i <= headers@.len(),
                hs == strs_view(headers@),
                self@ == insert_all(old(self)@, hs.take(i as int), request_domain@, now),
            decreases headers@.len() - i,
        {
            assert(hs.take(i + 1).drop_last() =~= hs.take(i as int));
            self.parse_set_cookie_at(headers[i], request_domain, now);
            i = i + 1;
        }
        assert(hs.take(headers@.len() as int) =~= hs);
    }

    /// Parse several `Set-Cookie` header values, in order.
    pub fn parse_set_cookies(&mut self, headers: &[&str], request_domain: &str)
        ensures
            exists|now: i64|
                final(self)@ == #[trigger] insert_all(old(self)@, strs_view(headers@), request_domain@, now),
    {
        let now = unix_now_secs();
        self.parse_set_cookies_at(headers, request_domain, now);
    }

    /// The `Cookie` header value for `domain` and `path` at `now`, or `None` if no
    /// cookie matches.
    pub fn cookie_header_at(&self, domain: &str, path: &str, now: i64) -> (r: Option<String>)
        ensures
            match r {
                Some(h) => matching(self@, domain@, path@, now).len() > 0 && h@ == header_of(
                    matching(self@, domain@, path@, now),
                ),
                None => matching(self@, domain@, path@, now).len() == 0,
            },
    {
        let matched = self.get_matching_at(domain, path, now);
        if matched.len() == 0 {
            return None;
        }
        let ghost ms = refs_view(matched@);
        let mut out = String::new();
        let mut i: usize = 0;
        while i < matched.len()
            invariant
                i <= matched@.len(),
                ms == refs_view(matched@),
                out@ == header_of(ms.take(i as int)),
            decreases matched@.len() - i,
        {
            let c = matched[i];
            assert(ms.take(i + 1).drop_last() =~= ms.take(i as int));
            assert(ms[i as int] == c@);
            if i > 0 {
                string_push_str(&mut out, "; ");
                proof { reveal_strlit("; "); }
            }
            string_push_str(&mut out, c.name.as_str());
            string_push(&mut out, '=');
            string_push_str(&mut out, c.value.as_str());
            assert(out@ =~= header_of(ms.take(i + 1)));
            i = i + 1;
        }
        assert(ms.take(matched@.len() as int) =~= ms);
        Some(out)
    }

    /// The `Cookie` header value for `domain` and `path`, or `None` if no cookie matches.
    pub fn cookie_header(&self, domain: &str, path: &str) -> (r: Option<String>)
        ensures
            exists|now: i64|
                match r {
                    Some(h) => #[trigger] matching(self@, domain@, path@, now).len() > 0 && h@
                        == header_of(matching(self@, domain@, path@, now)),
                    None => #[trigger] matching(self@, domain@, path@, now).len() == 0,
                },
    {
        let now = unix_now_secs();
        self.cookie_header_at(domain, path, now)
    }
}

pub open spec fn strs_view(v: Seq<&str>) -> Seq<Seq<char>> {
    v.map_values(|h: &str| h@)
}

/// The jar after parsing each header in turn.
pub open spec fn insert_all(groups: JarV, headers: Seq<Seq<char>>, domain: Seq<char>, now: i64) -> JarV
    decreases headers.len(),
{
    if headers.len() == 0 {
        groups
    } else {
        let before = insert_all(groups, headers.drop_last(), domain, now);
        match set_cookie_value(headers.last(), domain, now) {
            Some(c) => jar_insert(before, c),
            None => before,
        }
    }
}

fn find_name(cs: &Vec<Cookie>, name: &String) -> (r: Option<usize>)
    ensures
        match r {
            Some(p) => name_index(cs@.map_values(|c: Cookie| c@), name@) == Some(p as int)
                && p < cs@.len(),
            None => name_index(cs@.map_values(|c: Cookie| c@), name@) is None,
        },
{
    let ghost cs0 = cs@.map_values(|c: Cookie| c@);
    let mut p: usize = 0;
    assert(cs0.skip(0) =~= cs0);
    while p < cs.len()
        invariant
            p <= cs@.len(),
            cs0 == cs@.map_values(|c: Cookie| c@),
            name_index(cs0, name@) == match name_index(cs0.skip(p as int), name@) {
                Some(x) => Some(x + p),
                None => None::<int>,
            },
        decreases cs@.len() - p,
    {
        assert(cs0.skip(p as int).drop_first() =~= cs0.skip(p + 1));
        if cs[p].name == *name {
            return Some(p);
        }
        p = p + 1;
    }
    None
}

/// Inserting keeps domain keys and cookie names unique.
pub proof fn lemma_jar_insert_unique(groups: JarV, c: CookieV)
    requires
        jar_unique(groups),
    ensures
        jar_unique(jar_insert(groups, c)),
{
    let key = domain_key(c);
    lemma_group_index_bound(groups, key);
    let r = jar_insert(groups, c);
    match group_index(groups, key) {
        Some(g) => {
            let cs = groups[g].1;
            lemma_name_index_bound(cs, c.name);
            let ncs = replace_or_push(cs, c);
            assert forall|a: int| 0 <= a < ncs.len() implies domain_key(#[trigger] ncs[a]) == key by {
                if a < cs.len() && a != name_index(cs, c.name).unwrap_or(-1) {
                    assert(domain_key(groups[g].1[a]) == groups[g].0);
                }
            }
            assert forall|a: int, b: int| 0 <= a < b < ncs.len() implies #[trigger] ncs[a].name
                != #[trigger] ncs[b].name by {
                assert(a < cs.len());
                if b < cs.len() {
                    assert(groups[g].1[a].name != groups[g].1[b].name);
                }
            }
            assert forall|i: int, a: int|
                0 <= i < r.len() && 0 <= a < r[i].1.len() implies domain_key(
                #[trigger] r[i].1[a],
            ) == r[i].0 by {
                if i == g {
                    assert(r[i].1 == ncs);
                }
            }
            assert forall|i: int, a: int, b: int|
                0 <= i < r.len() && 0 <= a < b < r[i].1.len() implies #[trigger] r[i].1[a].name
                != #[trigger] r[i].1[b].name by {
                if i == g {
                    assert(r[i].1 == ncs);
                }
            }
        },
        None => {},
    }
}

pub proof fn lemma_group_index_bound(groups: JarV, key: Seq<char>)
    ensures
        group_index(groups, key) matches Some(i) ==> 0 <= i < groups.len() && groups[i].0 == key,
        group_index(groups, key) is None ==> forall|j: int|
            0 <= j < groups.len() ==> groups[j].0 != key,
    decreases groups.len(),
{
    if groups.len() > 0 {
        lemma_group_index_bound(groups.drop_first(), key);
        if groups[0].0 != key {
            assert forall|j: int| 1 <= j < groups.len() implies groups[j] == groups.drop_first()[j
                - 1] by {}
        }
    }
}

pub proof fn lemma_name_index_bound(cs: Seq<CookieV>, name: Seq<char>)
    ensures
        name_index(cs, name) matches Some(i) ==> 0 <= i < cs.len() && cs[i].name == name,
        name_index(cs, name) is None ==> forall|j: int| 0 <= j < cs.len() ==> cs[j].name != name,
    decreases cs.len(),
{
    if cs.len() > 0 {
        lemma_name_index_bound(cs.drop_first(), name);
        if cs[0].name != name {
            assert forall|j: int| 1 <= j < cs.len() implies cs[j] == cs.drop_first()[j - 1] by {}
        }
    }
}

impl Default for CookieJar {
    fn default() -> (r: Self)
        ensures
            r@ == Seq::<(Seq<char>, Seq<CookieV>)>::empty(),
    {
        CookieJar::new()
    }
}


/// The cookies stored under a domain key.
pub open spec fn cookies_under(groups: JarV, key: Seq<char>) -> Seq<CookieV> {
    match group_index(groups, key) {
        Some(g) => groups[g].1,
        None => seq![],
    }
}

proof fn lemma_group_index_of(groups: JarV, key: Seq<char>, i: int)
    requires
        0 <= i < groups.len(),
        groups[i].0 == key,
        forall|j: int| 0 <= j < i ==> groups[j].0 != key,
    ensures
        group_index(groups, key) == Some(i),
    decreases groups.len(),
{
    if i > 0 {
        assert(groups.drop_first()[i - 1] == groups[i]);
        assert forall|j: int| 0 <= j < i - 1 implies groups.drop_first()[j].0 != key by {
            assert(groups.drop_first()[j] == groups[j + 1]);
        }
        lemma_group_index_of(groups.drop_first(), key, i - 1);
    }
}

/// Inserting a cookie replaces the one of the same name under its domain key in place,
/// or appends it there; other keys keep their cookies.
pub proof fn law_insert_replaces_or_appends(groups: JarV, c: CookieV, other: Seq<char>)
    requires
        jar_unique(groups),
    ensures
        ({
            let key = domain_key(c);
            let before = cookies_under(groups, key);
            let after = cookies_under(jar_insert(groups, c), key);
            &&& match name_index(before, c.name) {
                Some(i) => after == before.update(i, c) && after.len() == before.len(),
                None => after == before.push(c),
            }
            &&& other != key ==> cookies_under(jar_insert(groups, c), other) == cookies_under(groups, other)
        }),
{
    let key = domain_key(c);
    let r = jar_insert(groups, c);
    lemma_name_index_bound(cookies_under(groups, key), c.name);
    lemma_group_index_bound(groups, key);
    lemma_group_index_bound(groups, other);
    match group_index(groups, key) {
        Some(g) => {
            assert forall|j: int| 0 <= j < g implies r[j].0 != key by {}
            lemma_group_index_of(r, key, g);
            assert(cookies_under(r, key) == replace_or_push(groups[g].1, c));
            match group_index(groups, other) {
                Some(h) => {
                    if other != key {
                        assert forall|j: int| 0 <= j < h implies r[j].0 != other by {}
                        lemma_group_index_of(r, other, h);
                    }
                },
                None => {
                    if other != key {
                        lemma_group_index_bound(r, other);
                        if group_index(r, other) is Some {
                            let h = group_index(r, other)->0;
                            assert(r[h].0 == other);
                        }
                    }
                },
            }
        },
        None => {
            let g = groups.len() as int;
            assert forall|j: int| 0 <= j < g implies r[j].0 != key by {}
            lemma_group_index_of(r, key, g);
            assert(cookies_under(groups, key) =~= Seq::<CookieV>::empty());
            assert(name_index(Seq::<CookieV>::empty(), c.name) is None);
            assert(seq![c] =~= Seq::<CookieV>::empty().push(c));
            assert(cookies_under(r, key) == seq![c]);
            match group_index(groups, other) {
                Some(h) => {
                    assert forall|j: int| 0 <= j < h implies r[j].0 != other by {}
                    lemma_group_index_of(r, other, h);
                },
                None => {
                    if other != key {
                        lemma_group_index_bound(r, other);
                        if group_index(r, other) is Some {
                            let h = group_index(r, other)->0;
                            assert(r[h].0 == other);
                        }
                    }
                },
            }
        },
    }
}


/// The trimmed parts of a `Set-Cookie` header.
pub open spec fn header_parts(h: Seq<char>) -> Seq<Seq<char>> {
    split_char(h, ';').map_values(|p: Seq<char>| trim(p))
}

/// Appending `; z` to a header, with `z` free of `;` and of white space at its ends,
/// adds `z` as one more attribute after those already there.
proof fn lemma_append_attr(x: Seq<char>, z: Seq<char>, now: i64)
    requires
        z.len() > 0,
        !z.contains(';'),
        !crate::text::is_ws(z[0]),
        !crate::text::is_ws(z.last()),
    ensures
        header_parts(x + seq![';', ' '] + z)[0] == header_parts(x)[0],
        apply_attrs(initial_attrs(), header_parts(x + seq![';', ' '] + z).drop_first(), now) == apply_attr(
            apply_attrs(initial_attrs(), header_parts(x).drop_first(), now),
            z,
            now,
        ),
{
    let b = seq![' '] + z;
    let h2 = x + seq![';', ' '] + z;
    assert(h2 =~= x + seq![';'] + b);
    assert(!b.contains(';')) by {
        if b.contains(';') {
            let i = choose|i: int| 0 <= i < b.len() && b[i] == ';';
            assert(z[i - 1] == ';');
        }
    }
    crate::text::lemma_split_around_sep(x, ';', b, seq![]);
    crate::text::lemma_split_no_sep(b, ';', seq![]);
    assert(Seq::<char>::empty() + b =~= b);
    lemma_split_acc_nonempty(x, ';', seq![]);
    let sx = split_char(x, ';');
    let s2 = split_char(h2, ';');
    assert(s2 == sx + seq![b]);
    assert(b.drop_first() =~= z);
    assert(crate::text::trim_start(b) == crate::text::trim_start(z));
    crate::text::lemma_trim_start_len(z);
    crate::text::lemma_trim_end_len(z);
    assert(trim(b) == z);
    let px = header_parts(x);
    let p2 = header_parts(h2);
    assert(p2 =~= px + seq![z]);
    assert(p2[0] == px[0]);
    assert(p2.drop_first() =~= px.drop_first().push(z));
    assert(p2.drop_first().drop_last() =~= px.drop_first());
}

/// Appending a `Path` attribute to a `Set-Cookie` header that describes a cookie gives
/// the same cookie with that path: `n=v; Path=/app` is sent on `/app` alone, whatever
/// the header said before. (The path is written without `;` and without trailing white
/// space, as it stands in a header.)
pub proof fn law_set_cookie_path(x: Seq<char>, p: Seq<char>, request_domain: Seq<char>, now: i64)
    requires
        !p.contains(';'),
        p.len() == 0 || !crate::text::is_ws(p.last()),
    ensures
        set_cookie_value(x, request_domain, now) is Some ==> set_cookie_value(
            x + seq![';', ' ', 'P', 'a', 't', 'h', '='] + p,
            request_domain,
            now,
        ) == Some(CookieV { path: p, ..set_cookie_value(x, request_domain, now)->0 }),
{
    let z = seq!['P', 'a', 't', 'h', '='] + p;
    assert(x + seq![';', ' ', 'P', 'a', 't', 'h', '='] + p =~= x + seq![';', ' '] + z);
    assert(!z.contains(';')) by {
        if z.contains(';') {
            let i = choose|i: int| 0 <= i < z.len() && z[i] == ';';
            assert(p[i - 5] == ';');
        }
    }
    assert(z.last() == if p.len() == 0 { '=' } else { p.last() });
    lemma_append_attr(x, z, now);
    let st = apply_attrs(initial_attrs(), header_parts(x).drop_first(), now);
    // `Path=p` is a path attribute and nothing else
    assert(lower('P') == 'p');
    assert(lower('a') == 'a');
    assert(lower('t') == 't');
    assert(lower('h') == 'h');
    assert(lower('=') == '=');
    assert(!starts_ic(z, seq!['d', 'o', 'm', 'a', 'i', 'n', '='])) by {
        if starts_ic(z, seq!['d', 'o', 'm', 'a', 'i', 'n', '=']) {
            assert(lower_seq(z.take(7))[0] == lower_seq(seq!['d', 'o', 'm', 'a', 'i', 'n', '='])[0]);
            assert(z.take(7)[0] == 'P');
        }
    }
    assert(lower_seq(z.take(5)) =~= seq!['p', 'a', 't', 'h', '=']);
    assert(lower_seq(seq!['p', 'a', 't', 'h', '=']) =~= seq!['p', 'a', 't', 'h', '=']);
    assert(starts_ic(z, seq!['p', 'a', 't', 'h', '=']));
    assert(z.skip(5) =~= p);
    assert(apply_attr(st, z, now) == CookieAttrs { path: p, ..st });
}

/// The word `Secure`.
pub open spec fn secure_word() -> Seq<char> {
    seq!['S', 'e', 'c', 'u', 'r', 'e']
}

/// The word `HttpOnly`.
pub open spec fn http_only_word() -> Seq<char> {
    seq!['H', 't', 't', 'p', 'O', 'n', 'l', 'y']
}

/// Appending `; Secure` to a `Set-Cookie` header that describes a cookie gives the same
/// cookie, marked secure.
pub proof fn law_set_cookie_secure(x: Seq<char>, request_domain: Seq<char>, now: i64)
    ensures
        set_cookie_value(x, request_domain, now) is Some ==> set_cookie_value(
            x + seq![';', ' '] + secure_word(),
            request_domain,
            now,
        ) == Some(CookieV { secure: true, ..set_cookie_value(x, request_domain, now)->0 }),
{
    let z = secure_word();
    assert(!z.contains(';')) by {
        if z.contains(';') {
            let i = choose|i: int| 0 <= i < z.len() && z[i] == ';';
        }
    }
    lemma_append_attr(x, z, now);
    let st = apply_attrs(initial_attrs(), header_parts(x).drop_first(), now);
    assert(lower('S') == 's');
    assert(lower('e') == 'e');
    assert(!starts_ic(z, seq!['d', 'o', 'm', 'a', 'i', 'n', '=']));
    assert(!starts_ic(z, seq!['p', 'a', 't', 'h', '='])) by {
        if starts_ic(z, seq!['p', 'a', 't', 'h', '=']) {
            assert(lower_seq(z.take(5))[0] == lower_seq(seq!['p', 'a', 't', 'h', '='])[0]);
        }
    }
    assert(lower_seq(z) =~= seq!['s', 'e', 'c', 'u', 'r', 'e']);
    assert(lower_seq(seq!['s', 'e', 'c', 'u', 'r', 'e']) =~= seq!['s', 'e', 'c', 'u', 'r', 'e']);
    assert(eq_ignore_case(z, seq!['s', 'e', 'c', 'u', 'r', 'e']));
    assert(apply_attr(st, z, now) == CookieAttrs { secure: true, ..st });
}

/// Appending `; HttpOnly` to a `Set-Cookie` header that describes a cookie gives the
/// same cookie, marked HTTP-only.
pub proof fn law_set_cookie_http_only(x: Seq<char>, request_domain: Seq<char>, now: i64)
    ensures
        set_cookie_value(x, request_domain, now) is Some ==> set_cookie_value(
            x + seq![';', ' '] + http_only_word(),
            request_domain,
            now,
        ) == Some(CookieV { http_only: true, ..set_cookie_value(x, request_domain, now)->0 }),
{
    let z = http_only_word();
    assert(!z.contains(';')) by {
        if z.contains(';') {
            let i = choose|i: int| 0 <= i < z.len() && z[i] == ';';
        }
    }
    lemma_append_attr(x, z, now);
    let st = apply_attrs(initial_attrs(), header_parts(x).drop_first(), now);
    assert(lower('H') == 'h');
    assert(lower('t') == 't');
    assert(lower('p') == 'p');
    assert(lower('O') == 'o');
    assert(lower('n') == 'n');
    assert(lower('l') == 'l');
    assert(lower('y') == 'y');
    assert(!starts_ic(z, seq!['d', 'o', 'm', 'a', 'i', 'n', '='])) by {
        if starts_ic(z, seq!['d', 'o', 'm', 'a', 'i', 'n', '=']) {
            assert(lower_seq(z.take(7))[0] == lower_seq(seq!['d', 'o', 'm', 'a', 'i', 'n', '='])[0]);
        }
    }
    assert(!starts_ic(z, seq!['p', 'a', 't', 'h', '='])) by {
        if starts_ic(z, seq!['p', 'a', 't', 'h', '=']) {
            assert(lower_seq(z.take(5))[0] == lower_seq(seq!['p', 'a', 't', 'h', '='])[0]);
        }
    }
    assert(!eq_ignore_case(z, seq!['s', 'e', 'c', 'u', 'r', 'e']));
    assert(lower_seq(z) =~= seq!['h', 't', 't', 'p', 'o', 'n', 'l', 'y']);
    assert(lower_seq(seq!['h', 't', 't', 'p', 'o', 'n', 'l', 'y']) =~= seq!['h', 't', 't', 'p', 'o', 'n', 'l', 'y']);
    assert(eq_ignore_case(z, seq!['h', 't', 't', 'p', 'o', 'n', 'l', 'y']));
    assert(apply_attr(st, z, now) == CookieAttrs { http_only: true, ..st });
}

/// Appending a `Domain` attribute to a `Set-Cookie` header that describes a cookie
/// gives the same cookie stored under that domain, with or without one leading dot:
/// `Domain=example.com` and `Domain=.example.com` both give `example.com`. (The domain
/// is written without `;`, without trailing white space and without a leading dot.)
pub proof fn law_set_cookie_domain(x: Seq<char>, d: Seq<char>, request_domain: Seq<char>, now: i64)
    requires
        !d.contains(';'),
        d.len() == 0 || !crate::text::is_ws(d.last()),
        d.len() == 0 || d[0] != '.',
    ensures
        set_cookie_value(x, request_domain, now) is Some ==> set_cookie_value(
            x + seq![';', ' ', 'D', 'o', 'm', 'a', 'i', 'n', '='] + d,
            request_domain,
            now,
        ) == Some(CookieV { domain: Some(d), ..set_cookie_value(x, request_domain, now)->0 }),
        set_cookie_value(x, request_domain, now) is Some ==> set_cookie_value(
            x + seq![';', ' ', 'D', 'o', 'm', 'a', 'i', 'n', '=', '.'] + d,
            request_domain,
            now,
        ) == Some(CookieV { domain: Some(d), ..set_cookie_value(x, request_domain, now)->0 }),
{
    lemma_domain_attr(x, d, d, now);
    assert((seq!['.'] + d).drop_first() =~= d);
    assert(trim_dots(seq!['.'] + d) == trim_dots(d));
    assert(!(seq!['.'] + d).contains(';')) by {
        if (seq!['.'] + d).contains(';') {
            let i = choose|i: int| 0 <= i < d.len() + 1 && (seq!['.'] + d)[i] == ';';
            assert(d[i - 1] == ';');
        }
    }
    assert((seq!['.'] + d).last() == if d.len() == 0 { '.' } else { d.last() });
    lemma_domain_attr(x, seq!['.'] + d, d, now);
    assert(x + seq![';', ' ', 'D', 'o', 'm', 'a', 'i', 'n', '=', '.'] + d =~= x + seq![
        ';',
        ' ',
        'D',
        'o',
        'm',
        'a',
        'i',
        'n',
        '=',
    ] + (seq!['.'] + d));
}

proof fn lemma_domain_attr(x: Seq<char>, w: Seq<char>, d: Seq<char>, now: i64)
    requires
        !w.contains(';'),
        w.len() == 0 || !crate::text::is_ws(w.last()),
        trim_dots(w) == d,
    ensures
        header_parts(x + seq![';', ' ', 'D', 'o', 'm', 'a', 'i', 'n', '='] + w)[0] == header_parts(x)[0],
        apply_attrs(
            initial_attrs(),
            header_parts(x + seq![';', ' ', 'D', 'o', 'm', 'a', 'i', 'n', '='] + w).drop_first(),
            now,
        ) == (CookieAttrs { domain: Some(d), ..apply_attrs(initial_attrs(), header_parts(x).drop_first(), now) }),
{
    let z = seq!['D', 'o', 'm', 'a', 'i', 'n', '='] + w;
    assert(x + seq![';', ' ', 'D', 'o', 'm', 'a', 'i', 'n', '='] + w =~= x + seq![';', ' '] + z);
    assert(!z.contains(';')) by {
        if z.contains(';') {
            let i = choose|i: int| 0 <= i < z.len() && z[i] == ';';
            assert(w[i - 7] == ';');
        }
    }
    assert(z.last() == if w.len() == 0 { '=' } else { w.last() });
    lemma_append_attr(x, z, now);
    let st = apply_attrs(initial_attrs(), header_parts(x).drop_first(), now);
    assert(lower('D') == 'd');
    assert(lower('o') == 'o');
    assert(lower('m') == 'm');
    assert(lower('a') == 'a');
    assert(lower('i') == 'i');
    assert(lower('n') == 'n');
    assert(lower('=') == '=');
    assert(lower_seq(z.take(7)) =~= seq!['d', 'o', 'm', 'a', 'i', 'n', '=']);
    assert(lower_seq(seq!['d', 'o', 'm', 'a', 'i', 'n', '=']) =~= seq!['d', 'o', 'm', 'a', 'i', 'n', '=']);
    assert(starts_ic(z, seq!['d', 'o', 'm', 'a', 'i', 'n', '=']));
    assert(z.skip(7) =~= w);
}

proof fn lemma_visible_in_has(cs: Seq<CookieV>, path: Seq<char>, now: i64, a: int)
    requires
        0 <= a < cs.len(),
        cs[a].path.is_prefix_of(path),
        !(cs[a].expires matches Some(e) && now > e),
    ensures
        visible_in(cs, path, now).contains(cs[a]),
    decreases cs.len(),
{
    if a == cs.len() - 1 {
        assert(visible_in(cs, path, now).last() == cs[a]);
    } else {
        lemma_visible_in_has(cs.drop_last(), path, now, a);
        let v = visible_in(cs.drop_last(), path, now);
        let j = choose|j: int| 0 <= j < v.len() && v[j] == cs[a];
        if cookie_visible(cs.last(), path, now) {
            assert(v.push(cs.last())[j] == cs[a]);
        }
    }
}

proof fn lemma_visible_in_from(cs: Seq<CookieV>, path: Seq<char>, now: i64, c: CookieV)
    requires
        visible_in(cs, path, now).contains(c),
    ensures
        cs.contains(c),
        c.path.is_prefix_of(path),
        !(c.expires matches Some(e) && now > e),
    decreases cs.len(),
{
    let v = visible_in(cs, path, now);
    let rest = visible_in(cs.drop_last(), path, now);
    let j = choose|j: int| 0 <= j < v.len() && v[j] == c;
    if j < rest.len() {
        assert(rest[j] == c);
        lemma_visible_in_from(cs.drop_last(), path, now, c);
        let k = choose|k: int| 0 <= k < cs.drop_last().len() && cs.drop_last()[k] == c;
        assert(cs[k] == c);
    } else {
        assert(c == cs.last());
        assert(cs[cs.len() - 1] == c);
    }
}

/// A cookie stored under domain `d` that applies to `path` and has not expired is sent
/// to `d` and to every subdomain of `d` (any name ending in `.` and `d`).
pub proof fn law_cookies_reach_subdomains(
    groups: JarV,
    i: int,
    a: int,
    sub: Seq<char>,
    path: Seq<char>,
    now: i64,
)
    requires
        0 <= i < groups.len(),
        0 <= a < groups[i].1.len(),
        groups[i].1[a].path.is_prefix_of(path),
        !(groups[i].1[a].expires matches Some(e) && now > e),
    ensures
        matching(groups, groups[i].0, path, now).contains(groups[i].1[a]),
        matching(groups, sub + seq!['.'] + groups[i].0, path, now).contains(groups[i].1[a]),
    decreases groups.len(),
{
    let d = groups[i].0;
    let q = sub + seq!['.'] + d;
    assert((seq!['.'] + d).is_suffix_of(q)) by {
        assert(q.subrange(q.len() - (d.len() + 1), q.len() as int) =~= seq!['.'] + d);
    }
    let c = groups[i].1[a];
    if i == groups.len() - 1 {
        lemma_visible_in_has(groups[i].1, path, now, a);
        let v = visible_in(groups[i].1, path, now);
        let j = choose|j: int| 0 <= j < v.len() && v[j] == c;
        let m1 = matching(groups.drop_last(), d, path, now);
        let m2 = matching(groups.drop_last(), q, path, now);
        assert((m1 + v)[m1.len() + j] == c);
        assert((m2 + v)[m2.len() + j] == c);
    } else {
        assert(groups.drop_last()[i] == groups[i]);
        law_cookies_reach_subdomains(groups.drop_last(), i, a, sub, path, now);
        let g = groups.last();
        let m1 = matching(groups.drop_last(), d, path, now);
        let m2 = matching(groups.drop_last(), q, path, now);
        let j1 = choose|j: int| 0 <= j < m1.len() && m1[j] == c;
        let j2 = choose|j: int| 0 <= j < m2.len() && m2[j] == c;
        let e1 = if domain_matches(d, g.0) { visible_in(g.1, path, now) } else { seq![] };
        let e2 = if domain_matches(q, g.0) { visible_in(g.1, path, now) } else { seq![] };
        assert((m1 + e1)[j1] == c);
        assert((m2 + e2)[j2] == c);
    }
}

/// Only the cookies of a group whose domain is the queried name or a parent domain of
/// it, that apply to the path and have not expired, are sent.
pub proof fn law_cookies_only_from_matching_domains(groups: JarV, q: Seq<char>, path: Seq<char>, now: i64, c: CookieV)
    requires
        matching(groups, q, path, now).contains(c),
    ensures
        exists|i: int|
            0 <= i < groups.len() && groups[i].1.contains(c) && (q == groups[i].0 || (seq!['.']
                + groups[i].0).is_suffix_of(q)),
        c.path.is_prefix_of(path),
        !(c.expires matches Some(e) && now > e),
    decreases groups.len(),
{
    let g = groups.last();
    let m1 = matching(groups.drop_last(), q, path, now);
    let e = if domain_matches(q, g.0) { visible_in(g.1, path, now) } else { seq![] };
    let all = m1 + e;
    let j = choose|j: int| 0 <= j < all.len() && all[j] == c;
    if j < m1.len() {
        assert(m1[j] == c);
        law_cookies_only_from_matching_domains(groups.drop_last(), q, path, now, c);
        let i = choose|i: int|
            0 <= i < groups.drop_last().len() && groups.drop_last()[i].1.contains(c) && (q == groups.drop_last()[i].0
                || (seq!['.'] + groups.drop_last()[i].0).is_suffix_of(q));
        assert(groups[i] == groups.drop_last()[i]);
    } else {
        assert(e[j - m1.len()] == c);
        lemma_visible_in_from(g.1, path, now, c);
        assert(groups[groups.len() - 1] == g);
    }
}

} // verus!

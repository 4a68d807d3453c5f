//! The `fetch` bridge of a script environment: what request a call asks for, and
//! whether it is refused as aimed at a private address.
use vstd::prelude::*;
use crate::request::{HeadersV, HttpRequest, Method, header_set, method_named};
use crate::ssrf::{url_private, url_targets_private_ip};
use crate::dom_script::{uppercased, to_uppercase, json_quoted, json_string};
use crate::commands::{str_lt, str_less};
use crate::interceptor::{decimal, push_decimal};
use crate::text::{string_push, string_push_str, join};
use crate::request::headers_view;
use vstd::string::StringSliceAdditionalSpecFns;

verus! {

/// The entries of the JSON object written in `s` (keys in serde_json's map order), each
/// value as a string where it is one; `None` when `s` is no JSON object.
pub uninterp spec fn json_object_entries(s: Seq<char>) -> Option<Seq<(Seq<char>, Option<Seq<char>>)>>;

pub open spec fn entries_view(v: Seq<(String, Option<String>)>) -> Seq<(Seq<char>, Option<Seq<char>>)> {
    v.map_values(
        |e: (String, Option<String>)|
            (
                e.0@,
                match e.1 {
                    Some(x) => Some(x@),
                    None => None,
                },
            ),
    )
}

/// `serde_json::from_str::<serde_json::Map<String, Value>>(s)`, its entries with each
/// value read by `Value::as_str`; the result is named by [`json_object_entries`].
#[verifier::external_body]
fn parse_json_object(s: &str) -> (r: Option<Vec<(String, Option<String>)>>)
    ensures
        match r {
            Some(v) => json_object_entries(s@) == Some(entries_view(v@)),
            None => json_object_entries(s@) is None,
        },
{
    match serde_json::from_str::<serde_json::Map<String, serde_json::Value>>(s) {
        Ok(map) => Some(map.iter().map(|(k, v)| (k.clone(), v.as_str().map(|x| x.to_string()))).collect()),
        Err(_) => None,
    }
}

/// The headers after setting each string-valued entry in order; other entries are
/// skipped.
pub open spec fn headers_from_entries(base: HeadersV, es: Seq<(Seq<char>, Option<Seq<char>>)>) -> HeadersV
    decreases es.len(),
{
    if es.len() == 0 {
        base
    } else {
        let h = headers_from_entries(base, es.drop_last());
        match es.last().1 {
            Some(v) => header_set(h, es.last().0, v),
            None => h,
        }
    }
}

/// The method a `fetch` asks for: its name upper-cased, an unknown name as GET.
pub open spec fn fetch_method(method: Seq<char>) -> Method {
    match method_named(uppercased(method)) {
        Some(m) => m,
        None => Method::Get,
    }
}

/// The headers of a `fetch`: those of the JSON object given, none when it is empty or
/// no object.
pub open spec fn fetch_headers(headers_json: Seq<char>) -> HeadersV {
    if headers_json.len() == 0 {
        seq![]
    } else {
        match json_object_entries(headers_json) {
            Some(es) => headers_from_entries(seq![], es),
            None => seq![],
        }
    }
}

/// Whether a request to `url` is refused: its host names a private address.
pub open spec fn fetch_blocked(url: Seq<char>) -> bool {
    url_private(url)
}

/// What a `fetch` call does: refuse the request, or send it.
pub enum FetchPlan {
    Blocked,
    Send(HttpRequest),
}

/// The request a script's `fetch(method, url, body, headers)` asks for: refused when
/// the URL's host is a private literal address; else the method upper-cased (GET for
/// a name that is none of the methods), the URL, the string headers of the JSON object,
/// and the body when it is not empty.
pub fn fetch_plan(method: &str, url: &str, body: &str, headers_json: &str) -> (r: FetchPlan)
    ensures
        r is Blocked <==> fetch_blocked(url@),
        r matches FetchPlan::Send(req) ==> {
            &&& req.method == fetch_method(method@)
            &&& req.url@ == url@
            &&& req.headers_v() == fetch_headers(headers_json@)
            &&& req.body@ == (if body@.len() == 0 {
                Seq::<u8>::empty()
            } else {
                body.spec_bytes()
            })
        },
{
    if url_targets_private_ip(url) {
        return FetchPlan::Blocked;
    }
    let upper = to_uppercase(method);
    let m = match Method::from_name(upper.as_str()) {
        Some(m) => m,
        None => Method::Get,
    };
    let mut request = HttpRequest::new(m, url);
    if !headers_json.is_empty() {
        match parse_json_object(headers_json) {
            Some(entries) => {
                let ghost ev = entries_view(entries@);
                let mut i: usize = 0;
                while i < entries.len()
                    invariant
                        i <= entries@.len(),
                        ev == entries_view(entries@),
                        request.method == m,
                        request.url@ == url@,
                        request.body@.len() == 0,
                        request.headers_v() == headers_from_entries(seq![], ev.take(i as int)),
                    decreases entries@.len() - i,
                {
                    assert(ev.take(i + 1).drop_last() =~= ev.take(i as int));
                    assert(ev.take(i + 1).last() == ev[i as int]);
                    match &entries[i].1 {
                        Some(v) => {
                            request = request.header(entries[i].0.as_str(), v.as_str());
                        },
                        None => {},
                    }
                    i = i + 1;
                }
                assert(ev.take(entries@.len() as int) =~= ev);
            },
            None => {},
        }
    }
    if !body.is_empty() {
        request = request.body(vstd::slice::slice_to_vec(body.as_bytes()));
    }
    proof {
        if body@.len() == 0 {
            assert(request.body@ =~= Seq::<u8>::empty());
        }
    }
    FetchPlan::Send(request)
}


// ─────────────────────────────── fetch answers ───────────────────────────────

/// The map `s` (sorted by name) with `k` set to `v`: an entry of that name replaced,
/// else one inserted in name order.
pub open spec fn sorted_put(s: HeadersV, k: Seq<char>, v: Seq<char>) -> HeadersV
    decreases s.len(),
{
    if s.len() == 0 {
        seq![(k, v)]
    } else if s[0].0 == k {
        s.update(0, (k, v))
    } else if str_lt(k, s[0].0) {
        seq![(k, v)] + s
    } else {
        seq![s[0]] + sorted_put(s.drop_first(), k, v)
    }
}

/// Headers as a map sorted by name, a later value of a name replacing an earlier one
/// (a serde_json map).
pub open spec fn sorted_headers(hs: HeadersV) -> HeadersV
    decreases hs.len(),
{
    if hs.len() == 0 {
        seq![]
    } else {
        sorted_put(sorted_headers(hs.drop_last()), hs.last().0, hs.last().1)
    }
}

/// Where `k` goes in `s`: the first entry named `k` or after it.
pub open spec fn put_pos(s: HeadersV, k: Seq<char>) -> int
    decreases s.len(),
{
    if s.len() == 0 {
        0
    } else if s[0].0 == k || str_lt(k, s[0].0) {
        0
    } else {
        1 + put_pos(s.drop_first(), k)
    }
}

proof fn lemma_sorted_put(s: HeadersV, k: Seq<char>, v: Seq<char>)
    ensures
        0 <= put_pos(s, k) <= s.len(),
        sorted_put(s, k, v) == if put_pos(s, k) < s.len() && s[put_pos(s, k)].0 == k {
            s.update(put_pos(s, k), (k, v))
        } else {
            s.insert(put_pos(s, k), (k, v))
        },
    decreases s.len(),
{
    if s.len() == 0 {
        assert(s.insert(0, (k, v)) =~= seq![(k, v)]);
    } else if s[0].0 == k {
    } else if str_lt(k, s[0].0) {
        assert(s.insert(0, (k, v)) =~= seq![(k, v)] + s);
    } else {
        let t = s.drop_first();
        lemma_sorted_put(t, k, v);
        let p = put_pos(t, k);
        if p < t.len() && t[p].0 == k {
            assert(seq![s[0]] + t.update(p, (k, v)) =~= s.update(p + 1, (k, v)));
        } else {
            assert(seq![s[0]] + t.insert(p, (k, v)) =~= s.insert(p + 1, (k, v)));
        }
    }
}

fn put_sorted(s: &mut Vec<(String, String)>, k: &str, v: &str)
    ensures
        headers_view(final(s)@) == sorted_put(headers_view(old(s)@), k@, v@),
{
    let ghost hv = headers_view(s@);
    proof {
        lemma_sorted_put(hv, k@, v@);
    }
    let mut i: usize = 0;
    assert(hv.skip(0) =~= hv);
    while i < s.len() && !(crate::text::str_eq(s[i].0.as_str(), k) || str_less(k, s[i].0.as_str()))
        invariant
            i <= s@.len(),
            hv == headers_view(s@),
            put_pos(hv, k@) == i + put_pos(hv.skip(i as int), k@),
        decreases s@.len() - i,
    {
        assert(hv.skip(i as int).drop_first() =~= hv.skip(i + 1));
        assert(hv.skip(i as int)[0] == hv[i as int]);
        i = i + 1;
    }
    proof {
        if i < s@.len() {
            assert(hv.skip(i as int)[0] == hv[i as int]);
        }
    }
    if i < s.len() && crate::text::str_eq(s[i].0.as_str(), k) {
        s.set(i, (k.to_owned(), v.to_owned()));
        assert(headers_view(s@) =~= hv.update(i as int, (k@, v@)));
    } else {
        s.insert(i, (k.to_owned(), v.to_owned()));
        assert(headers_view(s@) =~= hv.insert(i as int, (k@, v@)));
    }
}

/// The JSON answer a script's `fetch` receives: the body text, the headers as an
/// object sorted by name, whether the status is below 400 and at least 200, the status,
/// its reason and the final URL (keys sorted, as serde_json writes a map).
pub open spec fn fetch_result_text(status: u16, reason: Seq<char>, text: Seq<char>, url: Seq<char>, hs: HeadersV) -> Seq<char> {
    "{\"body\":"@ + json_quoted(text) + ",\"headers\":{"@ + join(
        sorted_headers(hs).map_values(|p: (Seq<char>, Seq<char>)| json_quoted(p.0) + seq![':'] + json_quoted(p.1)),
        seq![','],
    ) + "},\"ok\":"@ + (if 200 <= status && status < 400 {
        "true"@
    } else {
        "false"@
    }) + ",\"status\":"@ + decimal(status as nat) + ",\"statusText\":"@ + json_quoted(reason) + ",\"url\":"@
        + json_quoted(url) + "}"@
}

/// The JSON answer of a `fetch` from the status, its reason, the body text, the final
/// URL and the response headers. A refused request is answered with status 0, the
/// reason `SSRF blocked: request to private IP address` and nothing else.
pub fn fetch_result_json(status: u16, reason: &str, text: &str, url: &str, headers: &Vec<(String, String)>) -> (r: String)
    ensures
        r@ == fetch_result_text(status, reason@, text@, url@, headers_view(headers@)),
{
    let ghost hv = headers_view(headers@);
    let mut sorted: Vec<(String, String)> = Vec::new();
    let mut i: usize = 0;
    assert(headers_view(sorted@) =~= sorted_headers(hv.take(0)));
    while i < headers.len()
        invariant
            i <= headers@.len(),
            hv == headers_view(headers@),
            headers_view(sorted@) == sorted_headers(hv.take(i as int)),
        decreases headers@.len() - i,
    {
        assert(hv.take(i + 1).drop_last() =~= hv.take(i as int));
        assert(hv.take(i + 1).last() == (headers@[i as int].0@, headers@[i as int].1@));
        put_sorted(&mut sorted, headers[i].0.as_str(), headers[i].1.as_str());
        i = i + 1;
    }
    assert(hv.take(headers@.len() as int) =~= hv);
    let ghost sv = headers_view(sorted@);
    let ghost pieces = sv.map_values(|p: (Seq<char>, Seq<char>)| json_quoted(p.0) + seq![':'] + json_quoted(p.1));
    let mut out = String::new();
    string_push_str(&mut out, "{\"body\":");
    string_push_str(&mut out, json_string(text).as_str());
    string_push_str(&mut out, ",\"headers\":{");
    let ghost start = out@;
    let mut j: usize = 0;
    while j < sorted.len()
        invariant
            j <= sorted@.len(),
            sv == headers_view(sorted@),
            pieces == sv.map_values(|p: (Seq<char>, Seq<char>)| json_quoted(p.0) + seq![':'] + json_quoted(p.1)),
            out@ == start + join(pieces.take(j as int), seq![',']),
        decreases sorted@.len() - j,
    {
        assert(pieces.take(j + 1).drop_last() =~= pieces.take(j as int));
        assert(sv[j as int] == (sorted@[j as int].0@, sorted@[j as int].1@));
        if j > 0 {
            string_push(&mut out, ',');
        }
        string_push_str(&mut out, json_string(sorted[j].0.as_str()).as_str());
        string_push(&mut out, ':');
        string_push_str(&mut out, json_string(sorted[j].1.as_str()).as_str());
        proof {
            if j == 0 {
                assert(pieces.take(1) =~= seq![pieces[0]]);
            }
        }
        assert(out@ =~= start + join(pieces.take(j + 1), seq![',']));
        j = j + 1;
    }
    assert(pieces.take(sorted@.len() as int) =~= pieces);
    string_push_str(&mut out, "},\"ok\":");
    if 200 <= status && status < 400 {
        string_push_str(&mut out, "true");
    } else {
        string_push_str(&mut out, "false");
    }
    string_push_str(&mut out, ",\"status\":");
    push_decimal(&mut out, status as usize);
    string_push_str(&mut out, ",\"statusText\":");
    string_push_str(&mut out, json_string(reason).as_str());
    string_push_str(&mut out, ",\"url\":");
    string_push_str(&mut out, json_string(url).as_str());
    string_push_str(&mut out, "}");
    assert(out@ =~= fetch_result_text(status, reason@, text@, url@, hv));
    out
}

} // verus!

//! Request recording: serialisable request/response snapshots, replay, and `curl`
//! rendering.
use vstd::prelude::*;
use crate::clock::unix_now_millis;
use crate::request::{
    HeadersV, headers_view, header_set, key_index, find_key, HttpRequest, Method,
    method_name, method_named,
};
use crate::response::{HttpResponse, utf8_text};
use crate::text::{
    string_push, string_push_str, chars_of, string_of, str_eq, push_chars, lower_seq, join,
    chars_eq_ignore_case, lemma_map_push, lemma_map_update,
};

verus! {

/// A single recorded HTTP transaction (request and response).
pub struct RecordedRequest {
    pub method: String,
    pub url: String,
    pub request_headers: Vec<(String, String)>,
    pub request_body: Vec<u8>,
    pub response_status: u16,
    pub response_headers: Vec<(String, String)>,
    pub response_body: Vec<u8>,
    /// Unix timestamp in milliseconds.
    pub timestamp: u64,
}

/// Why a recorded request cannot be replayed.
pub enum InterceptError {
    /// The recorded method is none of the supported methods.
    UnsupportedMethod(String),
}

/// The values of each header name joined with `, `, names in order of first appearance.
pub open spec fn joined_headers(hs: HeadersV) -> HeadersV
    decreases hs.len(),
{
    if hs.len() == 0 {
        seq![]
    } else {
        let before = joined_headers(hs.drop_last());
        let (k, v) = hs.last();
        match key_index(before, k) {
            Some(i) => before.update(i, (k, before[i].1 + seq![',', ' '] + v)),
            None => before.push((k, v)),
        }
    }
}

fn copy_bytes(b: &Vec<u8>) -> (r: Vec<u8>)
    ensures
        r@ == b@,
{
    vstd::slice::slice_to_vec(b.as_slice())
}

fn copy_headers(hs: &Vec<(String, String)>) -> (r: Vec<(String, String)>)
    ensures
        headers_view(r@) == headers_view(hs@),
{
    let mut out: Vec<(String, String)> = Vec::new();
    let mut i: usize = 0;
    while i < hs.len()
        invariant
            i <= hs@.len(),
            headers_view(out@) == headers_view(hs@).take(i as int),
        decreases hs@.len() - i,
    {
        let ghost prev = out@;
        let entry = (hs[i].0.clone(), hs[i].1.clone());
        assert(entry.0@ == hs@[i as int].0@ && entry.1@ == hs@[i as int].1@);
        out.push(entry);
        proof {
            lemma_map_push(prev, entry, |h: (String, String)| (h.0@, h.1@));
        }
        assert(headers_view(out@) =~= headers_view(hs@).take(i + 1));
        i = i + 1;
    }
    assert(headers_view(hs@).take(hs@.len() as int) =~= headers_view(hs@));
    out
}

/// Joins multi-valued headers with `, `.
fn join_header_values(hs: &Vec<(String, String)>) -> (r: Vec<(String, String)>)
    ensures
        headers_view(r@) == joined_headers(headers_view(hs@)),
{
    let ghost hv = headers_view(hs@);
    let mut out: Vec<(String, String)> = Vec::new();
    let mut i: usize = 0;
    while i < hs.len()
        invariant
            i <= hs@.len(),
            hv == headers_view(hs@),
            headers_view(out@) == joined_headers(hv.take(i as int)),
        decreases hs@.len() - i,
    {
        assert(hv.take(i + 1).drop_last() =~= hv.take(i as int));
        assert(hv.take(i + 1).last() == hv[i as int]);
        let k = hs[i].0.as_str();
        let v = hs[i].1.as_str();
        let ghost prev = out@;
        let ghost before = headers_view(prev);
        assert(k@ == hv[i as int].0 && v@ == hv[i as int].1);
        match find_key(&out, k) {
            Some(j) => {
                let mut joined = out[j].1.clone();
                string_push_str(&mut joined, ", ");
                proof {
                    reveal_strlit(", ");
                }
                string_push_str(&mut joined, v);
                let entry = (k.to_owned(), joined);
                assert(entry.1@ == before[j as int].1 + seq![',', ' '] + v@);
                out.set(j, entry);
                proof {
                    lemma_map_update(prev, j as int, entry, |h: (String, String)| (h.0@, h.1@));
                }
            },
            None => {
                let entry = (k.to_owned(), v.to_owned());
                out.push(entry);
                proof {
                    lemma_map_push(prev, entry, |h: (String, String)| (h.0@, h.1@));
                }
            },
        }
        assert(headers_view(out@) =~= joined_headers(hv.take(i + 1)));
        i = i + 1;
    }
    assert(hv.take(hs@.len() as int) =~= hv);
    out
}

/// The mathematical value of a recorded transaction.
pub struct RecordedV {
    pub method: Seq<char>,
    pub url: Seq<char>,
    pub request_headers: HeadersV,
    pub request_body: Seq<u8>,
    pub response_status: u16,
    pub response_headers: HeadersV,
    pub response_body: Seq<u8>,
    pub timestamp: u64,
}

impl View for RecordedRequest {
    type V = RecordedV;

    open spec fn view(&self) -> RecordedV {
        RecordedV {
            method: self.method@,
            url: self.url@,
            request_headers: headers_view(self.request_headers@),
            request_body: self.request_body@,
            response_status: self.response_status,
            response_headers: headers_view(self.response_headers@),
            response_body: self.response_body@,
            timestamp: self.timestamp,
        }
    }
}

/// The recording of `req` answered by `resp` at `timestamp`.
pub open spec fn recorded_of(req: HttpRequest, resp: HttpResponse, timestamp: u64) -> RecordedV {
    RecordedV {
        method: method_name(req.method),
        url: req.url@,
        request_headers: headers_view(req.headers@),
        request_body: req.body@,
        response_status: resp.status,
        response_headers: joined_headers(headers_view(resp.headers@)),
        response_body: resp.body@,
        timestamp,
    }
}

/// Headers set one by one, in order.
pub open spec fn headers_replayed(hs: HeadersV) -> HeadersV
    decreases hs.len(),
{
    if hs.len() == 0 {
        seq![]
    } else {
        let (k, v) = hs.last();
        header_set(headers_replayed(hs.drop_last()), k, v)
    }
}

// ─────────────────────────────── curl text ──────────────────────────────────

/// Decimal digits of `n`.
pub open spec fn decimal(n: nat) -> Seq<char>
    decreases n,
{
    if n < 10 {
        seq![((n + 48) as u32) as char]
    } else {
        decimal(n / 10) + seq![(((n % 10) + 48) as u32) as char]
    }
}

/// Shell quoting of single quotes: each `'` becomes `'\''`.
pub open spec fn escape_quotes(s: Seq<char>) -> Seq<char>
    decreases s.len(),
{
    if s.len() == 0 {
        seq![]
    } else {
        escape_quotes(s.drop_last()) + if s.last() == '\'' {
            seq!['\'', '\\', '\'', '\'']
        } else {
            seq![s.last()]
        }
    }
}

/// `-H` options for the headers that `curl` does not manage itself.
pub open spec fn header_options(hs: HeadersV) -> Seq<Seq<char>>
    decreases hs.len(),
{
    if hs.len() == 0 {
        seq![]
    } else {
        let (k, v) = hs.last();
        let lk = lower_seq(k);
        let rest = header_options(hs.drop_last());
        if lk == seq!['h', 'o', 's', 't'] || lk == seq![
            'c',
            'o',
            'n',
            't',
            'e',
            'n',
            't',
            '-',
            'l',
            'e',
            'n',
            'g',
            't',
            'h',
        ] || lk == seq![
            't',
            'r',
            'a',
            'n',
            's',
            'f',
            'e',
            'r',
            '-',
            'e',
            'n',
            'c',
            'o',
            'd',
            'i',
            'n',
            'g',
        ] {
            rest
        } else {
            rest.push(seq!['-', 'H', ' ', '\''] + k + seq![':', ' '] + v + seq!['\''])
        }
    }
}

/// The `--data` option for a non-empty body.
pub open spec fn data_option(body: Seq<u8>) -> Seq<char> {
    if vstd::utf8::valid_utf8(body) {
        seq!['-', '-', 'd', 'a', 't', 'a', ' ', '\''] + escape_quotes(vstd::utf8::decode_utf8(body))
            + seq!['\'']
    } else {
        seq!['-', '-', 'd', 'a', 't', 'a', '-', 'b', 'i', 'n', 'a', 'r', 'y', ' ', '\'', '<']
            + decimal(body.len()) + seq![
            ' ',
            'b',
            'y',
            't',
            'e',
            's',
            ' ',
            'b',
            'i',
            'n',
            'a',
            'r',
            'y',
            '>',
            '\'',
        ]
    }
}

/// The pieces of the `curl` command for a recording.
pub open spec fn curl_parts(r: RecordedV) -> Seq<Seq<char>> {
    let p0 = seq![seq!['c', 'u', 'r', 'l']];
    let p1 = if r.method != seq!['G', 'E', 'T'] || r.request_body.len() > 0 {
        p0.push(seq!['-', 'X', ' '] + r.method)
    } else {
        p0
    };
    let p2 = p1 + header_options(r.request_headers);
    let p3 = if r.request_body.len() > 0 {
        p2.push(data_option(r.request_body))
    } else {
        p2
    };
    p3.push(seq!['\''] + r.url + seq!['\''])
}

/// The separator between `curl` command pieces: a backslash, a newline, two spaces.
pub open spec fn curl_separator() -> Seq<char> {
    seq![' ', '\\', '\n', ' ', ' ']
}

pub(crate) fn push_decimal(out: &mut String, n: usize)
    ensures
        final(out)@ == old(out)@ + decimal(n as nat),
    decreases n,
{
    if n >= 10 {
        push_decimal(out, n / 10);
    }
    let d = (n % 10) as u8;
    let c = (d + 48) as char;
    assert(c == (((n % 10) + 48) as u32) as char);
    string_push(out, c);
    assert(decimal(n as nat) == if n < 10 {
        seq![((n + 48) as u32) as char]
    } else {
        decimal((n / 10) as nat) + seq![(((n % 10) + 48) as u32) as char]
    });
}

fn escape_into(out: &mut String, s: &[char])
    ensures
        final(out)@ == old(out)@ + escape_quotes(s@),
{
    let mut i: usize = 0;
    while i < s.len()
        invariant
            i <= s@.len(),
            out@ == old(out)@ + escape_quotes(s@.take(i as int)),
        decreases s@.len() - i,
    {
        assert(s@.take(i + 1).drop_last() =~= s@.take(i as int));
        assert(s@.take(i + 1).last() == s@[i as int]);
        if s[i] == '\'' {
            string_push(out, '\'');
            string_push(out, '\\');
            string_push(out, '\'');
            string_push(out, '\'');
        } else {
            string_push(out, s[i]);
        }
        assert(out@ =~= old(out)@ + escape_quotes(s@.take(i + 1)));
        i = i + 1;
    }
    assert(s@.take(s@.len() as int) =~= s@);
}

fn header_options_exec(hs: &Vec<(String, String)>) -> (r: Vec<String>)
    ensures
        r@.map_values(|s: String| s@) == header_options(headers_view(hs@)),
{
    let ghost hv = headers_view(hs@);
    let mut out: Vec<String> = Vec::new();
    let mut i: usize = 0;
    let host = ['h', 'o', 's', 't'];
    let content_length = ['c', 'o', 'n', 't', 'e', 'n', 't', '-', 'l', 'e', 'n', 'g', 't', 'h'];
    let transfer_encoding = [
        't', 'r', 'a', 'n', 's', 'f', 'e', 'r', '-', 'e', 'n', 'c', 'o', 'd', 'i', 'n', 'g',
    ];
    assert(lower_seq(host@) =~= seq!['h', 'o', 's', 't']);
    assert(lower_seq(content_length@) =~= seq![
        'c',
        'o',
        'n',
        't',
        'e',
        'n',
        't',
        '-',
        'l',
        'e',
        'n',
        'g',
        't',
        'h',
    ]);
    assert(lower_seq(transfer_encoding@) =~= seq![
        't',
        'r',
        'a',
        'n',
        's',
        'f',
        'e',
        'r',
        '-',
        'e',
        'n',
        'c',
        'o',
        'd',
        'i',
        'n',
        'g',
    ]);
    while i < hs.len()
        invariant
            i <= hs@.len(),
            hv == headers_view(hs@),
            out@.map_values(|s: String| s@) == header_options(hv.take(i as int)),
            lower_seq(host@) == seq!['h', 'o', 's', 't'],
            lower_seq(content_length@) == seq![
                'c',
                'o',
                'n',
                't',
                'e',
                'n',
                't',
                '-',
                'l',
                'e',
                'n',
                'g',
                't',
                'h',
            ],
            lower_seq(transfer_encoding@) == seq![
                't',
                'r',
                'a',
                'n',
                's',
                'f',
                'e',
                'r',
                '-',
                'e',
                'n',
                'c',
                'o',
                'd',
                'i',
                'n',
                'g',
            ],
        decreases hs@.len() - i,
    {
        assert(hv.take(i + 1).drop_last() =~= hv.take(i as int));
        assert(hv.take(i + 1).last() == hv[i as int]);
        let k = hs[i].0.as_str();
        let v = hs[i].1.as_str();
        assert(k@ == hv[i as int].0 && v@ == hv[i as int].1);
        let kc = chars_of(k);
        let skip = chars_eq_ignore_case(&kc, &host) || chars_eq_ignore_case(&kc, &content_length)
            || chars_eq_ignore_case(&kc, &transfer_encoding);
        let ghost before = out@;
        if !skip {
            let mut opt = string_of(&['-', 'H', ' ', '\'']);
            string_push_str(&mut opt, k);
            string_push(&mut opt, ':');
            string_push(&mut opt, ' ');
            string_push_str(&mut opt, v);
            string_push(&mut opt, '\'');
            assert(opt@ =~= seq!['-', 'H', ' ', '\''] + k@ + seq![':', ' '] + v@ + seq!['\'']);
            out.push(opt);
            proof {
                lemma_map_push(before, opt, |s: String| s@);
            }
        }
        assert(out@.map_values(|s: String| s@) =~= header_options(hv.take(i + 1)));
        i = i + 1;
    }
    assert(hv.take(hs@.len() as int) =~= hv);
    out
}

/// Joins strings with the `curl` separator.
fn join_curl(parts: &Vec<String>) -> (r: String)
    ensures
        r@ == join(parts@.map_values(|s: String| s@), curl_separator()),
{
    let ghost ps = parts@.map_values(|s: String| s@);
    let mut out = String::new();
    let mut i: usize = 0;
    while i < parts.len()
        invariant
            i <= parts@.len(),
            ps == parts@.map_values(|s: String| s@),
            out@ == join(ps.take(i as int), curl_separator()),
        decreases parts@.len() - i,
    {
        assert(ps.take(i + 1).drop_last() =~= ps.take(i as int));
        assert(ps.take(i + 1).last() == ps[i as int]);
        if i > 0 {
            push_chars(&mut out, &[' ', '\\', '\n', ' ', ' ']);
        }
        string_push_str(&mut out, parts[i].as_str());
        proof {
            if i == 0 {
                assert(ps.take(1) =~= seq![ps[0]]);
            }
        }
        assert(out@ =~= join(ps.take(i + 1), curl_separator()));
        i = i + 1;
    }
    assert(ps.take(parts@.len() as int) =~= ps);
    out
}

impl RecordedRequest {
    /// Record `req` answered by `resp` at `timestamp` (Unix milliseconds).
    pub fn from_parts_at(req: &HttpRequest, resp: &HttpResponse, timestamp: u64) -> (r: Self)
        ensures
            r@ == recorded_of(*req, *resp, timestamp),
    {
        RecordedRequest {
            method: req.method.as_str().to_owned(),
            url: req.url.clone(),
            request_headers: copy_headers(&req.headers),
            request_body: copy_bytes(&req.body),
            response_status: resp.status,
            response_headers: join_header_values(&resp.headers),
            response_body: copy_bytes(&resp.body),
            timestamp,
        }
    }

    /// Record `req` answered by `resp`, stamped with the current time.
    pub fn from_parts(req: &HttpRequest, resp: &HttpResponse) -> (r: Self)
        ensures
            r@ == recorded_of(*req, *resp, r.timestamp),
    {
        let now = unix_now_millis();
        Self::from_parts_at(req, resp, now)
    }

    /// Rebuild the request of this recording.
    pub fn to_http_request(&self) -> (r: Result<HttpRequest, InterceptError>)
        ensures
            match method_named(self.method@) {
                Some(m) => r matches Ok(q) && q.method == m && q.url@ == self.url@
                    && headers_view(q.headers@) == headers_replayed(headers_view(
                    self.request_headers@,
                )) && q.body@ == self.request_body@,
                None => r matches Err(InterceptError::UnsupportedMethod(name)) && name@
                    == self.method@,
            },
    {
        let method = match Method::from_name(self.method.as_str()) {
            Some(m) => m,
            None => {
                return Err(InterceptError::UnsupportedMethod(self.method.clone()));
            },
        };
        let mut req = HttpRequest::new(method, self.url.as_str());
        let ghost hv = headers_view(self.request_headers@);
        let mut i: usize = 0;
        assert(headers_view(req.headers@) =~= headers_replayed(hv.take(0)));
        while i < self.request_headers.len()
            invariant
                i <= self.request_headers@.len(),
                hv == headers_view(self.request_headers@),
                req.method == method,
                req.url@ == self.url@,
                req.body@.len() == 0,
                headers_view(req.headers@) == headers_replayed(hv.take(i as int)),
            decreases self.request_headers@.len() - i,
        {
            assert(hv.take(i + 1).drop_last() =~= hv.take(i as int));
            assert(hv.take(i + 1).last() == hv[i as int]);
            req = req.header(self.request_headers[i].0.as_str(), self.request_headers[i].1.as_str());
            i = i + 1;
        }
        assert(hv.take(self.request_headers@.len() as int) =~= hv);
        if self.request_body.len() > 0 {
            req = req.body(copy_bytes(&self.request_body));
        } else {
            assert(req.body@ =~= self.request_body@);
        }
        Ok(req)
    }

    /// Render this recording as a `curl` command.
    pub fn to_curl(&self) -> (r: String)
        ensures
            r@ == join(curl_parts(self@), curl_separator()),
    {
        let ghost rv = self@;
        let ghost p0 = seq![seq!['c', 'u', 'r', 'l']];
        let ghost p1 = if rv.method != seq!['G', 'E', 'T'] || rv.request_body.len() > 0 {
            p0.push(seq!['-', 'X', ' '] + rv.method)
        } else {
            p0
        };
        let ghost p2 = p1 + header_options(rv.request_headers);
        let ghost p3 = if rv.request_body.len() > 0 {
            p2.push(data_option(rv.request_body))
        } else {
            p2
        };
        assert(curl_parts(rv) == p3.push(seq!['\''] + rv.url + seq!['\'']));
        let mut parts: Vec<String> = Vec::new();
        let curl = string_of(&['c', 'u', 'r', 'l']);
        assert(curl@ =~= seq!['c', 'u', 'r', 'l']);
        parts.push(curl);
        assert(parts@.map_values(|s: String| s@) =~= p0);
        let is_get = str_eq(self.method.as_str(), Method::Get.as_str());
        if !is_get || self.request_body.len() > 0 {
            let mut p = string_of(&['-', 'X', ' ']);
            string_push_str(&mut p, self.method.as_str());
            assert(p@ =~= seq!['-', 'X', ' '] + self.method@);
            let ghost prev = parts@;
            parts.push(p);
            proof {
                lemma_map_push(prev, p, |s: String| s@);
            }
        }
        assert(parts@.map_values(|s: String| s@) == p1);
        let hs = header_options_exec(&self.request_headers);
        let ghost before = parts@;
        let mut i: usize = 0;
        assert(hs@.take(0).map_values(|s: String| s@) =~= Seq::<Seq<char>>::empty());
        assert(before.map_values(|s: String| s@) + Seq::<Seq<char>>::empty() =~= before.map_values(|s: String| s@));
        while i < hs.len()
            invariant
                i <= hs@.len(),
                parts@.map_values(|s: String| s@) == before.map_values(|s: String| s@) + hs@.take(
                    i as int,
                ).map_values(|s: String| s@),
            decreases hs@.len() - i,
        {
            let ghost prev = parts@;
            let x = hs[i].clone();
            parts.push(x);
            proof {
                lemma_map_push(prev, x, |s: String| s@);
                lemma_map_push(hs@.take(i as int), hs@[i as int], |s: String| s@);
                assert(hs@.take(i + 1) =~= hs@.take(i as int).push(hs@[i as int]));
            }
            assert(parts@.map_values(|s: String| s@) =~= before.map_values(|s: String| s@)
                + hs@.take(i + 1).map_values(|s: String| s@));
            i = i + 1;
        }
        assert(hs@.take(hs@.len() as int) =~= hs@);
        assert(parts@.map_values(|s: String| s@) == p2);
        if self.request_body.len() > 0 {
            let mut p = String::new();
            match utf8_text(self.request_body.as_slice()) {
                Some(text) => {
                    push_chars(&mut p, &['-', '-', 'd', 'a', 't', 'a', ' ', '\'']);
                    assert(p@ =~= seq!['-', '-', 'd', 'a', 't', 'a', ' ', '\'']);
                    let cs = chars_of(text);
                    escape_into(&mut p, &cs);
                    string_push(&mut p, '\'');
                },
                None => {
                    push_chars(
                        &mut p,
                        &['-', '-', 'd', 'a', 't', 'a', '-', 'b', 'i', 'n', 'a', 'r', 'y', ' ', '\'', '<'],
                    );
                    push_decimal(&mut p, self.request_body.len());
                    push_chars(
                        &mut p,
                        &[' ', 'b', 'y', 't', 'e', 's', ' ', 'b', 'i', 'n', 'a', 'r', 'y', '>', '\''],
                    );
                },
            }
            assert(p@ =~= data_option(self.request_body@));
            let ghost prev = parts@;
            parts.push(p);
            proof {
                lemma_map_push(prev, p, |s: String| s@);
            }
        }
        assert(parts@.map_values(|s: String| s@) == p3);
        let mut u = string_of(&['\'']);
        string_push_str(&mut u, self.url.as_str());
        string_push(&mut u, '\'');
        assert(u@ =~= seq!['\''] + self.url@ + seq!['\'']);
        let ghost prev = parts@;
        parts.push(u);
        proof {
            lemma_map_push(prev, u, |s: String| s@);
        }
        assert(parts@.map_values(|s: String| s@) == curl_parts(self@));
        join_curl(&parts)
    }
}

// ─────────────────────────────── request log ────────────────────────────────

/// An ordered collection of recordings.
pub struct RequestLog {
    entries: Vec<RecordedRequest>,
}

impl View for RequestLog {
    type V = Seq<RecordedV>;

    closed spec fn view(&self) -> Seq<RecordedV> {
        self.entries@.map_values(|e: RecordedRequest| e@)
    }
}

impl RequestLog {
    /// An empty log.
    pub fn new() -> (r: Self)
        ensures
            r@ == Seq::<RecordedV>::empty(),
    {
        let r = RequestLog { entries: Vec::new() };
        assert(r@ =~= Seq::<RecordedV>::empty());
        r
    }

    /// A log holding `entries`, in order.
    pub fn from_entries(entries: Vec<RecordedRequest>) -> (r: Self)
        ensures
            r@ == entries@.map_values(|e: RecordedRequest| e@),
    {
        RequestLog { entries }
    }

    /// Append a recording of `req` answered by `resp`, stamped with the current time.
    pub fn record(&mut self, req: &HttpRequest, resp: &HttpResponse)
        ensures
            final(self)@.len() == old(self)@.len() + 1,
            final(self)@.take(old(self)@.len() as int) == old(self)@,
            final(self)@.last() == recorded_of(*req, *resp, final(self)@.last().timestamp),
    {
        let e = RecordedRequest::from_parts(req, resp);
        let ghost ev = e@;
        self.entries.push(e);
        assert(self@ =~= old(self)@.push(ev));
        assert(self@.take(old(self)@.len() as int) =~= old(self)@);
    }

    /// Every recording as a `curl` command, in order.
    pub fn to_curl_commands(&self) -> (r: Vec<String>)
        ensures
            r@.len() == self@.len(),
            forall|i: int|
                0 <= i < r@.len() ==> #[trigger] r@[i]@ == join(
                    curl_parts(self@[i]),
                    curl_separator(),
                ),
    {
        let mut out: Vec<String> = Vec::new();
        let mut i: usize = 0;
        while i < self.entries.len()
            invariant
                i <= self.entries@.len(),
                self@.len() == self.entries@.len(),
                out@.len() == i,
                forall|j: int|
                    0 <= j < i ==> #[trigger] out@[j]@ == join(
                        curl_parts(self@[j]),
                        curl_separator(),
                    ),
            decreases self.entries@.len() - i,
        {
            assert(self@[i as int] == self.entries@[i as int]@);
            out.push(self.entries[i].to_curl());
            i = i + 1;
        }
        out
    }

    /// The recorded entries.
    pub fn entries(&self) -> (r: &[RecordedRequest])
        ensures
            r@.map_values(|e: RecordedRequest| e@) == self@,
    {
        self.entries.as_slice()
    }

    /// Give up the log, returning its entries.
    pub fn into_entries(self) -> (r: Vec<RecordedRequest>)
        ensures
            r@.map_values(|e: RecordedRequest| e@) == self@,
    {
        self.entries
    }
}

impl Default for RequestLog {
    fn default() -> (r: Self)
        ensures
            r@ == Seq::<RecordedV>::empty(),
    {
        RequestLog::new()
    }
}

// ─────────────────────────────────── laws ───────────────────────────────────

/// Setting distinct headers one by one gives them back in order.
pub proof fn lemma_replay_distinct(hs: HeadersV)
    requires
        crate::request::distinct_keys(hs),
    ensures
        headers_replayed(hs) == hs,
    decreases hs.len(),
{
    if hs.len() > 0 {
        let d = hs.drop_last();
        assert(crate::request::distinct_keys(d)) by {
            assert forall|i: int, j: int| 0 <= i < j < d.len() implies #[trigger] d[i].0 != #[trigger] d[j].0 by {
                assert(d[i] == hs[i] && d[j] == hs[j]);
            }
        }
        lemma_replay_distinct(d);
        let (k, v) = hs.last();
        crate::request::lemma_key_index_bound(d, k);
        if key_index(d, k) is Some {
            let i = key_index(d, k)->0;
            assert(hs[i].0 == k);
            assert(hs[hs.len() - 1].0 == k);
        }
        assert(d.push((k, v)) =~= hs);
    }
}

/// Replaying a recording rebuilds the recorded request: the same method, URL, headers
/// (when their names are distinct, as setting them keeps them) and body.
pub proof fn law_record_then_replay(req: HttpRequest, resp: HttpResponse, timestamp: u64)
    requires
        crate::request::distinct_keys(headers_view(req.headers@)),
    ensures
        method_named(recorded_of(req, resp, timestamp).method) == Some(req.method),
        recorded_of(req, resp, timestamp).url == req.url@,
        headers_replayed(recorded_of(req, resp, timestamp).request_headers) == headers_view(
            req.headers@,
        ),
        recorded_of(req, resp, timestamp).request_body == req.body@,
{
    crate::request::lemma_method_name_round_trip(req.method);
    lemma_replay_distinct(headers_view(req.headers@));
}

/// Joining a non-empty list of pieces, then one more piece, puts the separator between.
pub proof fn lemma_join_push(pieces: Seq<Seq<char>>, x: Seq<char>, sep: Seq<char>)
    requires
        pieces.len() > 0,
    ensures
        join(pieces.push(x), sep) == join(pieces, sep) + sep + x,
{
    assert(pieces.push(x).drop_last() =~= pieces);
}

/// The joined first pieces of a list begin the joined whole list.
pub proof fn lemma_join_prefix(pieces: Seq<Seq<char>>, n: int, sep: Seq<char>)
    requires
        1 <= n <= pieces.len(),
    ensures
        exists|tail: Seq<char>| join(pieces, sep) == join(pieces.take(n), sep) + tail,
    decreases pieces.len(),
{
    if n == pieces.len() {
        assert(pieces.take(n) =~= pieces);
        assert(join(pieces, sep) == join(pieces.take(n), sep) + Seq::<char>::empty());
    } else {
        let d = pieces.drop_last();
        assert(d.take(n) =~= pieces.take(n));
        lemma_join_prefix(d, n, sep);
        let tail = choose|tail: Seq<char>| join(d, sep) == join(d.take(n), sep) + tail;
        assert(join(pieces, sep) =~= join(pieces.take(n), sep) + (tail + sep + pieces.last()));
    }
}

/// A recording with a non-empty UTF-8 body renders as a command that begins with
/// `curl` and `-X` and the method, and ends with the `--data` piece (the body, each `'`
/// written as `'\''`) followed by the quoted URL.
pub proof fn law_curl_carries_body(r: RecordedV)
    requires
        r.request_body.len() > 0,
        vstd::utf8::valid_utf8(r.request_body),
    ensures
        exists|head: Seq<char>|
            join(curl_parts(r), curl_separator()) == head + curl_separator() + (seq![
                '-',
                '-',
                'd',
                'a',
                't',
                'a',
                ' ',
                '\'',
            ] + escape_quotes(vstd::utf8::decode_utf8(r.request_body)) + seq!['\''])
                + curl_separator() + (seq!['\''] + r.url + seq!['\'']),
        exists|tail: Seq<char>|
            join(curl_parts(r), curl_separator()) == seq!['c', 'u', 'r', 'l'] + curl_separator()
                + (seq!['-', 'X', ' '] + r.method) + tail,
{
    let sep = curl_separator();
    let p0 = seq![seq!['c', 'u', 'r', 'l']];
    let p1 = p0.push(seq!['-', 'X', ' '] + r.method);
    let p2 = p1 + header_options(r.request_headers);
    let data = data_option(r.request_body);
    let url = seq!['\''] + r.url + seq!['\''];
    assert(curl_parts(r) == p2.push(data).push(url));
    lemma_join_push(p2, data, sep);
    lemma_join_push(p2.push(data), url, sep);
    let head = join(p2, sep);
    assert(join(curl_parts(r), sep) =~= head + sep + data + sep + url);
    lemma_join_prefix(curl_parts(r), 2, sep);
    assert(curl_parts(r).take(2) =~= p1);
    lemma_join_push(p0, seq!['-', 'X', ' '] + r.method, sep);
    assert(join(p0, sep) == seq!['c', 'u', 'r', 'l']);
    let tail = choose|tail: Seq<char>| join(curl_parts(r), sep) == join(curl_parts(r).take(2), sep) + tail;
    assert(join(curl_parts(r), sep) =~= seq!['c', 'u', 'r', 'l'] + sep + (seq!['-', 'X', ' '] + r.method) + tail);
}

/// A header that `curl` manages itself, and that a command leaves out.
pub open spec fn curl_managed(k: Seq<char>) -> bool {
    let lk = lower_seq(k);
    ||| lk == seq!['h', 'o', 's', 't']
    ||| lk == seq!['c', 'o', 'n', 't', 'e', 'n', 't', '-', 'l', 'e', 'n', 'g', 't', 'h']
    ||| lk == seq!['t', 'r', 'a', 'n', 's', 'f', 'e', 'r', '-', 'e', 'n', 'c', 'o', 'd', 'i', 'n', 'g']
}

/// A recording whose method is not `GET` renders as a command that begins with `curl`
/// and then `-X` and the method.
pub proof fn law_curl_names_method(r: RecordedV)
    requires
        r.method != seq!['G', 'E', 'T'],
    ensures
        exists|tail: Seq<char>|
            join(curl_parts(r), curl_separator()) == seq!['c', 'u', 'r', 'l'] + curl_separator()
                + (seq!['-', 'X', ' '] + r.method) + tail,
{
    let sep = curl_separator();
    let p0 = seq![seq!['c', 'u', 'r', 'l']];
    let p1 = p0.push(seq!['-', 'X', ' '] + r.method);
    assert(curl_parts(r).take(2) =~= p1);
    lemma_join_prefix(curl_parts(r), 2, sep);
    lemma_join_push(p0, seq!['-', 'X', ' '] + r.method, sep);
    assert(join(p0, sep) == seq!['c', 'u', 'r', 'l']);
    let tail = choose|tail: Seq<char>| join(curl_parts(r), sep) == join(curl_parts(r).take(2), sep) + tail;
    assert(join(curl_parts(r), sep) =~= seq!['c', 'u', 'r', 'l'] + sep + (seq!['-', 'X', ' '] + r.method) + tail);
}

/// A `GET` recording without a body and with one header renders as `curl`, the header
/// as `-H 'name: value'` unless `curl` manages it itself (`Host`, `Content-Length`,
/// `Transfer-Encoding`, in any case), and the quoted URL.
pub proof fn law_curl_header_piece(r: RecordedV, k: Seq<char>, v: Seq<char>)
    requires
        r.method == seq!['G', 'E', 'T'],
        r.request_body.len() == 0,
        r.request_headers == seq![(k, v)],
    ensures
        curl_managed(k) ==> join(curl_parts(r), curl_separator()) == seq!['c', 'u', 'r', 'l'] + curl_separator()
            + (seq!['\''] + r.url + seq!['\'']),
        !curl_managed(k) ==> join(curl_parts(r), curl_separator()) == seq!['c', 'u', 'r', 'l'] + curl_separator()
            + (seq!['-', 'H', ' ', '\''] + k + seq![':', ' '] + v + seq!['\'']) + curl_separator() + (seq!['\'']
            + r.url + seq!['\'']),
{
    let sep = curl_separator();
    let p0 = seq![seq!['c', 'u', 'r', 'l']];
    let hs = r.request_headers;
    assert(hs.drop_last() =~= Seq::<(Seq<char>, Seq<char>)>::empty());
    assert(hs.last() == (k, v));
    assert(header_options(hs.drop_last()) == Seq::<Seq<char>>::empty());
    let url = seq!['\''] + r.url + seq!['\''];
    let h = seq!['-', 'H', ' ', '\''] + k + seq![':', ' '] + v + seq!['\''];
    if curl_managed(k) {
        assert(header_options(hs) == Seq::<Seq<char>>::empty());
        assert(p0 + header_options(hs) =~= p0);
        assert(curl_parts(r) == p0.push(url));
        lemma_join_push(p0, url, sep);
    } else {
        assert(header_options(hs) =~= seq![h]);
        assert(p0 + header_options(hs) =~= p0.push(h));
        assert(curl_parts(r) == p0.push(h).push(url));
        lemma_join_push(p0, h, sep);
        lemma_join_push(p0.push(h), url, sep);
    }
}

} // verus!

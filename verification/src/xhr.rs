//! The `XMLHttpRequest` instances of a script environment: their state, and the
//! transitions that opening, setting headers, sending, answering, failing and aborting
//! make; the request itself is sent by the caller.
use vstd::prelude::*;
use crate::request::{HeadersV, HttpRequest, Method, header_set, headers_view, method_named, set_header};
use crate::ssrf::url_targets_private_ip;
use crate::fetch::{fetch_blocked, fetch_method};
use crate::dom_script::to_uppercase;
use crate::interceptor::{decimal, push_decimal};
use crate::text::{string_push, string_push_str, string_of, chars_of, split_chars, split_char, trim_chars, trim, split_once_chars, split_once, chars_eq_ignore_case, eq_ignore_case};
use vstd::string::StringSliceAdditionalSpecFns;

verus! {

/// One request instance.
pub struct XhrState {
    pub method: String,
    pub url: String,
    pub request_headers: Vec<(String, String)>,
    pub body: Vec<u8>,
    pub ready_state: u8,
    pub status: u16,
    pub status_text: String,
    pub response_text: String,
    pub response_url: String,
    pub response_headers: String,
}

/// An instance as values.
pub struct XhrV {
    pub method: Seq<char>,
    pub url: Seq<char>,
    pub request_headers: HeadersV,
    pub body: Seq<u8>,
    pub ready_state: u8,
    pub status: u16,
    pub status_text: Seq<char>,
    pub response_text: Seq<char>,
    pub response_url: Seq<char>,
    pub response_headers: Seq<char>,
}

impl View for XhrState {
    type V = XhrV;

    open spec fn view(&self) -> XhrV {
        XhrV {
            method: self.method@,
            url: self.url@,
            request_headers: headers_view(self.request_headers@),
            body: self.body@,
            ready_state: self.ready_state,
            status: self.status,
            status_text: self.status_text@,
            response_text: self.response_text@,
            response_url: self.response_url@,
            response_headers: self.response_headers@,
        }
    }
}

/// A new instance: nothing set, ready state 0.
pub open spec fn fresh_xhr() -> XhrV {
    XhrV {
        method: seq![],
        url: seq![],
        request_headers: seq![],
        body: seq![],
        ready_state: 0,
        status: 0,
        status_text: seq![],
        response_text: seq![],
        response_url: seq![],
        response_headers: seq![],
    }
}

pub type XhrTableV = Seq<(u64, XhrV)>;

/// The position of instance `id`.
pub open spec fn xhr_pos(t: XhrTableV, id: u64) -> Option<int>
    decreases t.len(),
{
    if t.len() == 0 {
        None
    } else if t[0].0 == id {
        Some(0)
    } else {
        match xhr_pos(t.drop_first(), id) {
            Some(i) => Some(i + 1),
            None => None,
        }
    }
}

/// Instance `id`, if there is one.
pub open spec fn xhr_get(t: XhrTableV, id: u64) -> Option<XhrV> {
    match xhr_pos(t, id) {
        Some(i) => Some(t[i].1),
        None => None,
    }
}

/// The table with instance `id` changed to `s`; a table without it stays.
pub open spec fn xhr_put(t: XhrTableV, id: u64, s: XhrV) -> XhrTableV {
    match xhr_pos(t, id) {
        Some(i) => t.update(i, (id, s)),
        None => t,
    }
}

proof fn lemma_xhr_pos(t: XhrTableV, id: u64)
    ensures
        xhr_pos(t, id) matches Some(i) ==> 0 <= i < t.len() && t[i].0 == id,
        xhr_pos(t, id) is None ==> forall|j: int| 0 <= j < t.len() ==> t[j].0 != id,
    decreases t.len(),
{
    if t.len() > 0 {
        lemma_xhr_pos(t.drop_first(), id);
        if t[0].0 != id {
            assert forall|j: int| 1 <= j < t.len() implies t[j] == t.drop_first()[j - 1] by {}
        }
    }
}

/// The instances of a script environment and the next instance id.
pub struct XhrTable {
    instances: Vec<(u64, XhrState)>,
    next_id: u64,
}

impl View for XhrTable {
    type V = XhrTableV;

    closed spec fn view(&self) -> XhrTableV {
        self.instances@.map_values(|e: (u64, XhrState)| (e.0, e.1@))
    }
}

/// What a send asks of the caller.
pub enum XhrSend {
    /// No request: the instance has no method or URL.
    Refused,
    /// No request: the URL's host is a private literal address.
    Blocked,
    /// Send this request and report its answer.
    Execute(HttpRequest),
}

/// The request of an instance: its method upper-cased (GET for an unknown name), its
/// URL, its headers in order, its body when it is not empty.
pub open spec fn xhr_request_ok(s: XhrV, req: HttpRequest) -> bool {
    &&& req.method == fetch_method(s.method)
    &&& req.url@ == s.url
    &&& req.headers_v() == s.request_headers
    &&& req.body@ == s.body
}

/// `name: value` and a line break for each response header.
pub open spec fn header_lines(hs: HeadersV) -> Seq<char>
    decreases hs.len(),
{
    if hs.len() == 0 {
        seq![]
    } else {
        header_lines(hs.drop_last()) + hs.last().0 + seq![':', ' '] + hs.last().1 + seq!['\r', '\n']
    }
}

/// The value of the first response header line named `name` (ASCII case ignored),
/// trimmed; empty when there is none.
pub open spec fn header_in_lines(lines: Seq<Seq<char>>, name: Seq<char>) -> Seq<char>
    decreases lines.len(),
{
    if lines.len() == 0 {
        seq![]
    } else {
        match split_once(lines[0], ':') {
            Some((k, v)) => if eq_ignore_case(trim(k), name) {
                trim(v)
            } else {
                header_in_lines(lines.drop_first(), name)
            },
            None => header_in_lines(lines.drop_first(), name),
        }
    }
}

/// The property `prop` of an instance, as text.
pub open spec fn xhr_property(s: XhrV, prop: Seq<char>) -> Seq<char> {
    if prop == "readyState"@ {
        decimal(s.ready_state as nat)
    } else if prop == "status"@ {
        decimal(s.status as nat)
    } else if prop == "statusText"@ {
        s.status_text
    } else if prop == "responseText"@ || prop == "response"@ {
        s.response_text
    } else if prop == "responseURL"@ {
        s.response_url
    } else {
        seq![]
    }
}

impl XhrTable {
    /// The id the next instance gets.
    pub closed spec fn next(&self) -> u64 {
        self.next_id
    }

    /// Every instance id is below the next one.
    pub closed spec fn wf(&self) -> bool {
        forall|j: int| 0 <= j < self.instances@.len() ==> #[trigger] self.instances@[j].0 < self.next_id
    }

    /// No instances; ids start at 0.
    pub fn new() -> (r: Self)
        ensures
            r.wf(),
            r@ == Seq::<(u64, XhrV)>::empty(),
            r.next() == 0,
    {
        let r = XhrTable { instances: Vec::new(), next_id: 0 };
        assert(r@ =~= Seq::<(u64, XhrV)>::empty());
        r
    }

    fn find(&self, id: u64) -> (r: Option<usize>)
        ensures
            match r {
                Some(i) => xhr_pos(self@, id) == Some(i as int) && i < self@.len(),
                None => xhr_pos(self@, id) is None,
            },
    {
        let ghost v = self@;
        let mut i: usize = 0;
        assert(v.skip(0) =~= v);
        while i < self.instances.len()
            invariant
                i <= self.instances@.len(),
                v == self@,
                v.len() == self.instances@.len(),
                xhr_pos(v, id) == match xhr_pos(v.skip(i as int), id) {
                    Some(p) => Some(p + i),
                    None => None,
                },
            decreases self.instances@.len() - i,
        {
            assert(v.skip(i as int).drop_first() =~= v.skip(i + 1));
            assert(v.skip(i as int)[0] == v[i as int]);
            assert(v[i as int].0 == self.instances@[i as int].0);
            if self.instances[i].0 == id {
                return Some(i);
            }
            i = i + 1;
        }
        None
    }

    /// Makes a new instance and returns its id.
    pub fn create(&mut self) -> (id: u64)
        requires
            old(self).wf(),
            old(self).next() < u64::MAX,
        ensures
            final(self).wf(),
            id == old(self).next(),
            final(self).next() == id + 1,
            xhr_pos(old(self)@, id) is None,
            final(self)@ == old(self)@.push((id, fresh_xhr())),
    {
        proof {
            lemma_xhr_pos(self@, self.next_id);
        }
        let id = self.next_id;
        let s = XhrState {
            method: String::new(),
            url: String::new(),
            request_headers: Vec::new(),
            body: Vec::new(),
            ready_state: 0,
            status: 0,
            status_text: String::new(),
            response_text: String::new(),
            response_url: String::new(),
            response_headers: String::new(),
        };
        assert(headers_view(s.request_headers@) =~= Seq::<(Seq<char>, Seq<char>)>::empty());
        assert(s@ =~= fresh_xhr());
        self.instances.push((id, s));
        self.next_id = id + 1;
        assert(self@ =~= old(self)@.push((id, fresh_xhr())));
        id
    }

    fn replace(&mut self, i: usize, s: XhrState)
        requires
            i < old(self)@.len(),
        ensures
            final(self)@ == old(self)@.update(i as int, (old(self)@[i as int].0, s@)),
            final(self).next() == old(self).next(),
            old(self).wf() ==> final(self).wf(),
    {
        let id = self.instances[i].0;
        self.instances.set(i, (id, s));
        assert(self@ =~= old(self)@.update(i as int, (old(self)@[i as int].0, s@)));
    }

    fn take(&self, i: usize) -> (r: XhrState)
        requires
            i < self@.len(),
        ensures
            r@ == self@[i as int].1,
    {
        let s = &self.instances[i].1;
        XhrState {
            method: s.method.clone(),
            url: s.url.clone(),
            request_headers: copy_pairs(&s.request_headers),
            body: copy_bytes(&s.body),
            ready_state: s.ready_state,
            status: s.status,
            status_text: s.status_text.clone(),
            response_text: s.response_text.clone(),
            response_url: s.response_url.clone(),
            response_headers: s.response_headers.clone(),
        }
    }

    /// `open(method, url)`: sets the method and URL, ready state 1.
    pub fn open(&mut self, id: u64, method: &str, url: &str)
        ensures
            final(self).next() == old(self).next(),
            old(self).wf() ==> final(self).wf(),
            final(self)@ == match xhr_get(old(self)@, id) {
                Some(s) => xhr_put(old(self)@, id, XhrV { method: method@, url: url@, ready_state: 1, ..s }),
                None => old(self)@,
            },
    {
        match self.find(id) {
            Some(i) => {
                let mut s = self.take(i);
                s.method = method.to_owned();
                s.url = url.to_owned();
                s.ready_state = 1;
                self.replace(i, s);
                proof {
                    lemma_xhr_pos(old(self)@, id);
                }
            },
            None => {},
        }
    }

    /// `setRequestHeader(name, value)`: sets the header, replacing an earlier value.
    pub fn set_header(&mut self, id: u64, name: &str, value: &str)
        ensures
            final(self).next() == old(self).next(),
            old(self).wf() ==> final(self).wf(),
            final(self)@ == match xhr_get(old(self)@, id) {
                Some(s) => xhr_put(
                    old(self)@,
                    id,
                    XhrV { request_headers: header_set(s.request_headers, name@, value@), ..s },
                ),
                None => old(self)@,
            },
    {
        match self.find(id) {
            Some(i) => {
                let mut s = self.take(i);
                set_header(&mut s.request_headers, name, value);
                self.replace(i, s);
                proof {
                    lemma_xhr_pos(old(self)@, id);
                }
            },
            None => {},
        }
    }

    /// `send(body)`: stores the body, ready state 2, and decides: no request without a
    /// method or URL; a request to a private literal address is blocked (status 0,
    /// `Blocked`, ready state 4); else the request to execute.
    pub fn send(&mut self, id: u64, body: &str) -> (r: XhrSend)
        ensures
            final(self).next() == old(self).next(),
            old(self).wf() ==> final(self).wf(),
            ({
                let sent = match xhr_get(old(self)@, id) {
                    Some(s) => Some(XhrV { body: body.spec_bytes(), ready_state: 2, ..s }),
                    None => None,
                };
                match sent {
                    None => r is Refused && final(self)@ == old(self)@,
                    Some(s) => if s.method.len() == 0 || s.url.len() == 0 {
                        r is Refused && final(self)@ == xhr_put(old(self)@, id, s)
                    } else if fetch_blocked(s.url) {
                        &&& r is Blocked
                        &&& final(self)@ == xhr_put(
                            old(self)@,
                            id,
                            XhrV {
                                status: 0,
                                status_text: "Blocked"@,
                                response_text: "SSRF blocked: request to private IP address"@,
                                ready_state: 4,
                                ..s
                            },
                        )
                    } else {
                        &&& final(self)@ == xhr_put(old(self)@, id, s)
                        &&& r matches XhrSend::Execute(req) && xhr_request_ok(s, req)
                    },
                }
            }),
    {
        proof {
            lemma_xhr_pos(old(self)@, id);
        }
        let i = match self.find(id) {
            Some(i) => i,
            None => {
                return XhrSend::Refused;
            },
        };
        let mut s = self.take(i);
        s.body = vstd::slice::slice_to_vec(body.as_bytes());
        s.ready_state = 2;
        if s.method.as_str().is_empty() || s.url.as_str().is_empty() {
            self.replace(i, s);
            return XhrSend::Refused;
        }
        if url_targets_private_ip(s.url.as_str()) {
            s.status = 0;
            s.status_text = "Blocked".to_owned();
            s.response_text = "SSRF blocked: request to private IP address".to_owned();
            s.ready_state = 4;
            self.replace(i, s);
            return XhrSend::Blocked;
        }
        let upper = to_uppercase(s.method.as_str());
        let m = match Method::from_name(upper.as_str()) {
            Some(m) => m,
            None => Method::Get,
        };
        let mut request = HttpRequest::new(m, s.url.as_str());
        request.headers = copy_pairs(&s.request_headers);
        if s.body.len() > 0 {
            request.body = copy_bytes(&s.body);
        }
        proof {
            if s.body@.len() == 0 {
                assert(request.body@ =~= s.body@);
            }
        }
        self.replace(i, s);
        XhrSend::Execute(request)
    }

    /// The answer to a sent request: status and its number as status text, the text,
    /// the final URL, the header lines, ready state 4.
    pub fn respond(&mut self, id: u64, status: u16, text: &str, url: &str, headers: &Vec<(String, String)>)
        ensures
            final(self).next() == old(self).next(),
            old(self).wf() ==> final(self).wf(),
            final(self)@ == match xhr_get(old(self)@, id) {
                Some(s) => xhr_put(
                    old(self)@,
                    id,
                    XhrV {
                        status,
                        status_text: decimal(status as nat),
                        response_text: text@,
                        response_url: url@,
                        response_headers: header_lines(headers_view(headers@)),
                        ready_state: 4,
                        ..s
                    },
                ),
                None => old(self)@,
            },
    {
        match self.find(id) {
            Some(i) => {
                let mut s = self.take(i);
                s.status = status;
                let mut st = String::new();
                push_decimal(&mut st, status as usize);
                s.status_text = st;
                s.response_text = text.to_owned();
                s.response_url = url.to_owned();
                s.response_headers = lines_of(headers);
                s.ready_state = 4;
                self.replace(i, s);
                proof {
                    lemma_xhr_pos(old(self)@, id);
                }
            },
            None => {},
        }
    }

    /// A sent request that failed: status 0, `Error`, the message as text, ready state 4.
    pub fn fail(&mut self, id: u64, message: &str)
        ensures
            final(self).next() == old(self).next(),
            old(self).wf() ==> final(self).wf(),
            final(self)@ == match xhr_get(old(self)@, id) {
                Some(s) => xhr_put(
                    old(self)@,
                    id,
                    XhrV { status: 0, status_text: "Error"@, response_text: message@, ready_state: 4, ..s },
                ),
                None => old(self)@,
            },
    {
        match self.find(id) {
            Some(i) => {
                let mut s = self.take(i);
                s.status = 0;
                s.status_text = "Error".to_owned();
                s.response_text = message.to_owned();
                s.ready_state = 4;
                self.replace(i, s);
                proof {
                    lemma_xhr_pos(old(self)@, id);
                }
            },
            None => {},
        }
    }

    /// `abort()`: the instance is dropped.
    pub fn abort(&mut self, id: u64)
        ensures
            final(self).next() == old(self).next(),
            old(self).wf() ==> final(self).wf(),
            final(self)@ == match xhr_pos(old(self)@, id) {
                Some(i) => old(self)@.remove(i),
                None => old(self)@,
            },
    {
        match self.find(id) {
            Some(i) => {
                self.instances.remove(i);
                assert(self@ =~= old(self)@.remove(i as int));
            },
            None => {},
        }
    }

    /// Drops every instance.
    pub fn clear(&mut self)
        ensures
            final(self).next() == old(self).next(),
            final(self).wf(),
            final(self)@ == Seq::<(u64, XhrV)>::empty(),
    {
        self.instances = Vec::new();
        assert(self@ =~= Seq::<(u64, XhrV)>::empty());
    }

    /// A property of instance `id` as text; empty for an unknown instance or property.
    pub fn property(&self, id: u64, prop: &str) -> (r: String)
        ensures
            r@ == match xhr_get(self@, id) {
                Some(s) => xhr_property(s, prop@),
                None => seq![],
            },
    {
        proof {
            lemma_xhr_pos(self@, id);
        }
        match self.find(id) {
            Some(i) => {
                let s = &self.instances[i].1;
                if crate::text::str_eq(prop, "readyState") {
                    let mut out = String::new();
                    push_decimal(&mut out, s.ready_state as usize);
                    out
                } else if crate::text::str_eq(prop, "status") {
                    let mut out = String::new();
                    push_decimal(&mut out, s.status as usize);
                    out
                } else if crate::text::str_eq(prop, "statusText") {
                    s.status_text.clone()
                } else if crate::text::str_eq(prop, "responseText") || crate::text::str_eq(prop, "response") {
                    s.response_text.clone()
                } else if crate::text::str_eq(prop, "responseURL") {
                    s.response_url.clone()
                } else {
                    String::new()
                }
            },
            None => String::new(),
        }
    }

    /// The value of response header `name` of instance `id`; empty when there is none.
    pub fn response_header(&self, id: u64, name: &str) -> (r: String)
        ensures
            r@ == match xhr_get(self@, id) {
                Some(s) => header_in_lines(split_char(s.response_headers, '\n'), name@),
                None => seq![],
            },
    {
        proof {
            lemma_xhr_pos(self@, id);
        }
        match self.find(id) {
            Some(i) => {
                let cs = chars_of(self.instances[i].1.response_headers.as_str());
                let lines = split_chars(&cs, '\n');
                let ghost lv = lines@.map_values(|v: Vec<char>| v@);
                let nm = chars_of(name);
                let mut j: usize = 0;
                assert(lv.skip(0) =~= lv);
                assert(self@[i as int].1.response_headers == cs@);
                assert(lv == split_char(cs@, '\n'));
                while j < lines.len()
                    invariant
                        j <= lines@.len(),
                        lv == lines@.map_values(|v: Vec<char>| v@),
                        nm@ == name@,
                        header_in_lines(lv, name@) == header_in_lines(lv.skip(j as int), name@),
                        lv == split_char(cs@, '\n'),
                        i < self@.len(),
                        xhr_pos(self@, id) == Some(i as int),
                        self@[i as int].1.response_headers == cs@,
                    decreases lines@.len() - j,
                {
                    assert(lv.skip(j as int).drop_first() =~= lv.skip(j + 1));
                    assert(lv.skip(j as int)[0] == lines@[j as int]@);
                    match split_once_chars(&lines[j], ':') {
                        Some((k, v)) => {
                            let kt = trim_chars(&k);
                            if chars_eq_ignore_case(&kt, &nm) {
                                let vt = trim_chars(&v);
                                assert(header_in_lines(lv.skip(j as int), name@) == trim(v@));
                                return string_of(&vt);
                            }
                        },
                        None => {},
                    }
                    j = j + 1;
                }
                String::new()
            },
            None => String::new(),
        }
    }

    /// All response header lines of instance `id`; empty for an unknown instance.
    pub fn all_response_headers(&self, id: u64) -> (r: String)
        ensures
            r@ == match xhr_get(self@, id) {
                Some(s) => s.response_headers,
                None => seq![],
            },
    {
        proof {
            lemma_xhr_pos(self@, id);
        }
        match self.find(id) {
            Some(i) => self.instances[i].1.response_headers.clone(),
            None => String::new(),
        }
    }
}

fn copy_pairs(v: &Vec<(String, String)>) -> (r: Vec<(String, String)>)
    ensures
        headers_view(r@) == headers_view(v@),
{
    let mut out: Vec<(String, String)> = Vec::new();
    let mut i: usize = 0;
    while i < v.len()
        invariant
            i <= v@.len(),
            out@.len() == i,
            headers_view(out@) == headers_view(v@).take(i as int),
        decreases v@.len() - i,
    {
        out.push((v[i].0.clone(), v[i].1.clone()));
        assert(headers_view(out@) =~= headers_view(v@).take(i + 1));
        i = i + 1;
    }
    assert(headers_view(v@).take(v@.len() as int) =~= headers_view(v@));
    out
}

fn copy_bytes(v: &Vec<u8>) -> (r: Vec<u8>)
    ensures
        r@ == v@,
{
    vstd::slice::slice_to_vec(v.as_slice())
}

fn lines_of(hs: &Vec<(String, String)>) -> (r: String)
    ensures
        r@ == header_lines(headers_view(hs@)),
{
    let ghost hv = headers_view(hs@);
    let mut out = String::new();
    let mut i: usize = 0;
    while i < hs.len()
        invariant
            i <= hs@.len(),
            hv == headers_view(hs@),
            out@ == header_lines(hv.take(i as int)),
        decreases hs@.len() - i,
    {
        assert(hv.take(i + 1).drop_last() =~= hv.take(i as int));
        assert(hv.take(i + 1).last() == (hs@[i as int].0@, hs@[i as int].1@));
        string_push_str(&mut out, hs[i].0.as_str());
        string_push(&mut out, ':');
        string_push(&mut out, ' ');
        string_push_str(&mut out, hs[i].1.as_str());
        string_push(&mut out, '\r');
        string_push(&mut out, '\n');
        assert(out@ =~= header_lines(hv.take(i + 1)));
        i = i + 1;
    }
    assert(hv.take(hs@.len() as int) =~= hv);
    out
}

} // verus!

//! HTTP request types.
use vstd::prelude::*;
use crate::text::{string_of, str_eq};
use vstd::string::StringSliceAdditionalSpecFns;

verus! {

/// Supported HTTP methods.
#[derive(Debug, Clone, Copy, PartialEq, Eq, Hash, Structural)]
pub enum Method {
    Get,
    Post,
    Put,
    Delete,
    Head,
    Options,
    Patch,
}

/// The name a method is sent under.
pub open spec fn method_name(m: Method) -> Seq<char> {
    match m {
        Method::Get => seq!['G', 'E', 'T'],
        Method::Post => seq!['P', 'O', 'S', 'T'],
        Method::Put => seq!['P', 'U', 'T'],
        Method::Delete => seq!['D', 'E', 'L', 'E', 'T', 'E'],
        Method::Head => seq!['H', 'E', 'A', 'D'],
        Method::Options => seq!['O', 'P', 'T', 'I', 'O', 'N', 'S'],
        Method::Patch => seq!['P', 'A', 'T', 'C', 'H'],
    }
}

/// The method sent under `name`, if any.
pub open spec fn method_named(name: Seq<char>) -> Option<Method> {
    if name == method_name(Method::Get) {
        Some(Method::Get)
    } else if name == method_name(Method::Post) {
        Some(Method::Post)
    } else if name == method_name(Method::Put) {
        Some(Method::Put)
    } else if name == method_name(Method::Delete) {
        Some(Method::Delete)
    } else if name == method_name(Method::Head) {
        Some(Method::Head)
    } else if name == method_name(Method::Options) {
        Some(Method::Options)
    } else if name == method_name(Method::Patch) {
        Some(Method::Patch)
    } else {
        None
    }
}

impl Method {
    pub fn as_str(&self) -> (r: &'static str)
        ensures
            r@ == method_name(*self),
    {
        match self {
            Method::Get => {
                proof {
                    reveal_strlit("GET");
                }
                "GET"
            },
            Method::Post => {
                proof {
                    reveal_strlit("POST");
                }
                "POST"
            },
            Method::Put => {
                proof {
                    reveal_strlit("PUT");
                }
                "PUT"
            },
            Method::Delete => {
                proof {
                    reveal_strlit("DELETE");
                }
                "DELETE"
            },
            Method::Head => {
                proof {
                    reveal_strlit("HEAD");
                }
                "HEAD"
            },
            Method::Options => {
                proof {
                    reveal_strlit("OPTIONS");
                }
                "OPTIONS"
            },
            Method::Patch => {
                proof {
                    reveal_strlit("PATCH");
                }
                "PATCH"
            },
        }
    }

    /// The method whose name is `name`, exactly as `as_str` writes it.
    pub fn from_name(name: &str) -> (r: Option<Method>)
        ensures
            r == method_named(name@),
    {
        let all = [
            Method::Get,
            Method::Post,
            Method::Put,
            Method::Delete,
            Method::Head,
            Method::Options,
            Method::Patch,
        ];
        let mut i: usize = 0;
        while i < 7
            invariant
                i <= 7,
                all@ == seq![
                    Method::Get,
                    Method::Post,
                    Method::Put,
                    Method::Delete,
                    Method::Head,
                    Method::Options,
                    Method::Patch,
                ],
                forall|j: int| 0 <= j < i ==> name@ != method_name(#[trigger] all@[j]),
            decreases 7 - i,
        {
            let m = all[i];
            if str_eq(name, m.as_str()) {
                return Some(m);
            }
            i = i + 1;
        }
        assert(name@ != method_name(all@[0]));
        assert(name@ != method_name(all@[1]));
        assert(name@ != method_name(all@[2]));
        assert(name@ != method_name(all@[3]));
        assert(name@ != method_name(all@[4]));
        assert(name@ != method_name(all@[5]));
        assert(name@ != method_name(all@[6]));
        None
    }
}

/// Naming a method and reading the name back gives the method.
pub proof fn lemma_method_name_round_trip(m: Method)
    ensures
        method_named(method_name(m)) == Some(m),
{
}

// ──────────────────────────────── header lists ──────────────────────────────

/// Header entries in insertion order, with distinct names.
pub type HeadersV = Seq<(Seq<char>, Seq<char>)>;

pub open spec fn headers_view(hs: Seq<(String, String)>) -> HeadersV {
    hs.map_values(|h: (String, String)| (h.0@, h.1@))
}

pub open spec fn key_index(hs: HeadersV, k: Seq<char>) -> Option<int>
    decreases hs.len(),
{
    if hs.len() == 0 {
        None
    } else if hs[0].0 == k {
        Some(0)
    } else {
        match key_index(hs.drop_first(), k) {
            Some(i) => Some(i + 1),
            None => None,
        }
    }
}

/// `HashMap::insert`: replace the value of `k`, or add the entry at the end.
pub open spec fn header_set(hs: HeadersV, k: Seq<char>, v: Seq<char>) -> HeadersV {
    match key_index(hs, k) {
        Some(i) => hs.update(i, (k, v)),
        None => hs.push((k, v)),
    }
}

/// `entry(k).or_insert(v)`: add the entry only if `k` is absent.
pub open spec fn header_set_default(hs: HeadersV, k: Seq<char>, v: Seq<char>) -> HeadersV {
    match key_index(hs, k) {
        Some(_) => hs,
        None => hs.push((k, v)),
    }
}

/// No name occurs twice.
pub open spec fn distinct_keys(hs: HeadersV) -> bool {
    forall|i: int, j: int| 0 <= i < j < hs.len() ==> #[trigger] hs[i].0 != #[trigger] hs[j].0
}

/// The value stored under `k`.
pub open spec fn header_lookup(hs: HeadersV, k: Seq<char>) -> Option<Seq<char>> {
    match key_index(hs, k) {
        Some(i) => Some(hs[i].1),
        None => None,
    }
}

pub proof fn lemma_key_index_bound(hs: HeadersV, k: Seq<char>)
    ensures
        key_index(hs, k) matches Some(i) ==> 0 <= i < hs.len() && hs[i].0 == k && forall|j: int|
            0 <= j < i ==> hs[j].0 != k,
        key_index(hs, k) is None ==> forall|j: int| 0 <= j < hs.len() ==> hs[j].0 != k,
    decreases hs.len(),
{
    if hs.len() > 0 {
        lemma_key_index_bound(hs.drop_first(), k);
        if hs[0].0 != k {
            assert forall|j: int| 1 <= j < hs.len() implies hs[j] == hs.drop_first()[j - 1] by {}
        }
    }
}

/// The first position of `k`, read off the index characterization.
pub proof fn lemma_key_index_of(hs: HeadersV, k: Seq<char>, i: int)
    requires
        0 <= i < hs.len(),
        hs[i].0 == k,
        forall|j: int| 0 <= j < i ==> hs[j].0 != k,
    ensures
        key_index(hs, k) == Some(i),
    decreases hs.len(),
{
    if i > 0 {
        assert(hs.drop_first()[i - 1] == hs[i]);
        assert forall|j: int| 0 <= j < i - 1 implies hs.drop_first()[j].0 != k by {
            assert(hs.drop_first()[j] == hs[j + 1]);
        }
        lemma_key_index_of(hs.drop_first(), k, i - 1);
    }
}

/// Setting a header, then reading it, gives the value set; other names keep their
/// values; names stay distinct.
pub proof fn lemma_header_set_get(hs: HeadersV, k: Seq<char>, v: Seq<char>, other: Seq<char>)
    requires
        distinct_keys(hs),
    ensures
        header_lookup(header_set(hs, k, v), k) == Some(v),
        other != k ==> header_lookup(header_set(hs, k, v), other) == header_lookup(hs, other),
        distinct_keys(header_set(hs, k, v)),
{
    let r = header_set(hs, k, v);
    lemma_key_index_bound(hs, k);
    lemma_key_index_bound(hs, other);
    match key_index(hs, k) {
        Some(i) => {
            lemma_key_index_of(r, k, i);
            if other != k {
                match key_index(hs, other) {
                    Some(j) => {
                        lemma_key_index_of(r, other, j);
                    },
                    None => {
                        lemma_key_index_bound(r, other);
                        if key_index(r, other) is Some {
                            let j = key_index(r, other)->0;
                            assert(r[j].0 == other);
                            assert(hs[j].0 == other);
                        }
                    },
                }
            }
        },
        None => {
            lemma_key_index_of(r, k, hs.len() as int);
            if other != k {
                match key_index(hs, other) {
                    Some(j) => {
                        lemma_key_index_of(r, other, j);
                    },
                    None => {
                        lemma_key_index_bound(r, other);
                        if key_index(r, other) is Some {
                            let j = key_index(r, other)->0;
                            assert(r[j].0 == other);
                            assert(hs[j].0 == other);
                        }
                    },
                }
            }
        },
    }
}

/// The position of `k` among `hs`.
pub fn find_key(hs: &Vec<(String, String)>, k: &str) -> (r: Option<usize>)
    ensures
        match r {
            Some(i) => key_index(headers_view(hs@), k@) == Some(i as int) && i < hs@.len(),
            None => key_index(headers_view(hs@), k@) is None,
        },
{
    let ghost v = headers_view(hs@);
    let mut i: usize = 0;
    assert(v.skip(0) =~= v);
    while i < hs.len()
        invariant
            i <= hs@.len(),
            v == headers_view(hs@),
            key_index(v, k@) == match key_index(v.skip(i as int), k@) {
                Some(x) => Some(x + i),
                None => None::<int>,
            },
        decreases hs@.len() - i,
    {
        assert(v.skip(i as int).drop_first() =~= v.skip(i + 1));
        if str_eq(hs[i].0.as_str(), k) {
            return Some(i);
        }
        i = i + 1;
    }
    None
}

/// Sets `k` to `v` in the header list.
pub fn set_header(hs: &mut Vec<(String, String)>, k: &str, v: &str)
    ensures
        headers_view(final(hs)@) == header_set(headers_view(old(hs)@), k@, v@),
{
    let entry = (k.to_owned(), v.to_owned());
    match find_key(hs, k) {
        Some(i) => {
            hs.set(i, entry);
        },
        None => {
            hs.push(entry);
        },
    }
    assert(headers_view(hs@) =~= header_set(headers_view(old(hs)@), k@, v@));
}

/// Adds `k: v` to the header list if `k` is absent.
pub fn set_header_default(hs: &mut Vec<(String, String)>, k: &str, v: &str)
    ensures
        headers_view(final(hs)@) == header_set_default(headers_view(old(hs)@), k@, v@),
{
    match find_key(hs, k) {
        Some(_) => {},
        None => {
            hs.push((k.to_owned(), v.to_owned()));
        },
    }
    assert(headers_view(hs@) =~= header_set_default(headers_view(old(hs)@), k@, v@));
}

// ──────────────────────────────── requests ──────────────────────────────────

/// HTTP request builder and container.
pub struct HttpRequest {
    pub method: Method,
    pub url: String,
    pub headers: Vec<(String, String)>,
    pub body: Vec<u8>,
}

impl HttpRequest {
    pub open spec fn headers_v(&self) -> HeadersV {
        headers_view(self.headers@)
    }

    /// Create a new GET request.
    pub fn get(url: &str) -> (r: Self)
        ensures
            r.method == Method::Get,
            r.url@ == url@,
            r.headers@.len() == 0,
            r.body@.len() == 0,
    {
        Self::new(Method::Get, url)
    }

    /// Create a new POST request.
    pub fn post(url: &str) -> (r: Self)
        ensures
            r.method == Method::Post,
            r.url@ == url@,
            r.headers@.len() == 0,
            r.body@.len() == 0,
    {
        Self::new(Method::Post, url)
    }

    /// Create a new request with the given method.
    pub fn new(method: Method, url: &str) -> (r: Self)
        ensures
            r.method == method,
            r.url@ == url@,
            r.headers@.len() == 0,
            r.body@.len() == 0,
    {
        HttpRequest { method, url: url.to_owned(), headers: Vec::new(), body: Vec::new() }
    }

    /// Set a header, replacing an earlier value of the same name.
    pub fn header(self, key: &str, value: &str) -> (r: Self)
        ensures
            r.method == self.method,
            r.url == self.url,
            r.body == self.body,
            r.headers_v() == header_set(self.headers_v(), key@, value@),
    {
        let mut s = self;
        set_header(&mut s.headers, key, value);
        s
    }

    /// Set the request body.
    pub fn body(self, body: Vec<u8>) -> (r: Self)
        ensures
            r.method == self.method,
            r.url == self.url,
            r.headers == self.headers,
            r.body == body,
    {
        let mut s = self;
        s.body = body;
        s
    }

    /// Set the body to a JSON text, adding `content-type: application/json` unless
    /// a content type is already set.
    pub fn json_body(self, json: &str) -> (r: Self)
        ensures
            r.method == self.method,
            r.url == self.url,
            r.body@ == json.spec_bytes(),
            r.headers_v() == header_set_default(
                self.headers_v(),
                seq!['c', 'o', 'n', 't', 'e', 'n', 't', '-', 't', 'y', 'p', 'e'],
                seq![
                    'a', 'p', 'p', 'l', 'i', 'c', 'a', 't', 'i', 'o', 'n', '/', 'j', 's', 'o', 'n',
                ],
            ),
    {
        let mut s = self;
        s.body = vstd::slice::slice_to_vec(json.as_bytes());
        let k = string_of(&['c', 'o', 'n', 't', 'e', 'n', 't', '-', 't', 'y', 'p', 'e']);
        let v = string_of(
            &['a', 'p', 'p', 'l', 'i', 'c', 'a', 't', 'i', 'o', 'n', '/', 'j', 's', 'o', 'n'],
        );
        set_header_default(&mut s.headers, k.as_str(), v.as_str());
        s
    }

    /// Set the body to form-encoded data, adding
    /// `content-type: application/x-www-form-urlencoded` unless a content type is set.
    pub fn form_body(self, data: &str) -> (r: Self)
        ensures
            r.method == self.method,
            r.url == self.url,
            r.body@ == data.spec_bytes(),
            r.headers_v() == header_set_default(
                self.headers_v(),
                seq!['c', 'o', 'n', 't', 'e', 'n', 't', '-', 't', 'y', 'p', 'e'],
                seq![
                    'a', 'p', 'p', 'l', 'i', 'c', 'a', 't', 'i', 'o', 'n', '/', 'x', '-', 'w', 'w',
                    'w', '-', 'f', 'o', 'r', 'm', '-', 'u', 'r', 'l', 'e', 'n', 'c', 'o', 'd', 'e',
                    'd',
                ],
            ),
    {
        let mut s = self;
        s.body = vstd::slice::slice_to_vec(data.as_bytes());
        let k = string_of(&['c', 'o', 'n', 't', 'e', 'n', 't', '-', 't', 'y', 'p', 'e']);
        let v = string_of(
            &[
                'a', 'p', 'p', 'l', 'i', 'c', 'a', 't', 'i', 'o', 'n', '/', 'x', '-', 'w', 'w', 'w',
                '-', 'f', 'o', 'r', 'm', '-', 'u', 'r', 'l', 'e', 'n', 'c', 'o', 'd', 'e', 'd',
            ],
        );
        set_header_default(&mut s.headers, k.as_str(), v.as_str());
        s
    }
}


/// Setting a header to a value it already has been set to changes nothing.
pub proof fn lemma_header_set_twice(hs: HeadersV, k: Seq<char>, v: Seq<char>)
    ensures
        header_set(header_set(hs, k, v), k, v) == header_set(hs, k, v),
{
    lemma_key_index_bound(hs, k);
    let r = header_set(hs, k, v);
    match key_index(hs, k) {
        Some(i) => {
            assert forall|j: int| 0 <= j < i implies r[j].0 != k by {}
            lemma_key_index_of(r, k, i);
            assert(r.update(i, (k, v)) =~= r);
        },
        None => {
            let i = hs.len() as int;
            assert forall|j: int| 0 <= j < i implies r[j].0 != k by {}
            lemma_key_index_of(r, k, i);
            assert(r.update(i, (k, v)) =~= r);
        },
    }
}

} // verus!

//! HTTP response container, held as plain values.
use vstd::prelude::*;
use crate::request::{HeadersV, headers_view};
use crate::text::{chars_of, chars_eq_ignore_case, eq_ignore_case};

verus! {

/// `std::str::from_utf8`: the text the bytes encode, if they are valid UTF-8.
#[verifier::external_body]
pub(crate) fn utf8_text(bytes: &[u8]) -> (r: Option<&str>)
    ensures
        r is Some <==> vstd::utf8::valid_utf8(bytes@),
        r matches Some(s) ==> s@ == vstd::utf8::decode_utf8(bytes@),
{
    std::str::from_utf8(bytes).ok()
}

/// An HTTP response. `headers` holds one entry per header value, in the order the
/// server sent them, names in lower case.
pub struct HttpResponse {
    pub status: u16,
    pub headers: Vec<(String, String)>,
    pub body: Vec<u8>,
    pub url: String,
}

/// The index of the first header named `name`, ignoring ASCII case.
pub open spec fn header_position(hs: HeadersV, name: Seq<char>) -> Option<int>
    decreases hs.len(),
{
    if hs.len() == 0 {
        None
    } else if eq_ignore_case(hs[0].0, name) {
        Some(0)
    } else {
        match header_position(hs.drop_first(), name) {
            Some(i) => Some(i + 1),
            None => None,
        }
    }
}

impl HttpResponse {
    /// The status is 2xx.
    pub fn is_success(&self) -> (r: bool)
        ensures
            r == (200 <= self.status && self.status <= 299),
    {
        200 <= self.status && self.status <= 299
    }

    /// The status code.
    pub fn status_code(&self) -> (r: u16)
        ensures
            r == self.status,
    {
        self.status
    }

    /// The body as UTF-8 text, or `None` when it is not valid UTF-8.
    pub fn text(&self) -> (r: Option<String>)
        ensures
            r is Some <==> vstd::utf8::valid_utf8(self.body@),
            r matches Some(s) ==> s@ == vstd::utf8::decode_utf8(self.body@),
    {
        match utf8_text(self.body.as_slice()) {
            Some(s) => Some(s.to_owned()),
            None => None,
        }
    }

    /// The raw body bytes.
    pub fn bytes(&self) -> (r: &[u8])
        ensures
            r@ == self.body@,
    {
        self.body.as_slice()
    }

    /// Consume the response, returning the body bytes.
    pub fn into_bytes(self) -> (r: Vec<u8>)
        ensures
            r == self.body,
    {
        self.body
    }

    /// The first value of the header `name`, ignoring ASCII case.
    pub fn header(&self, name: &str) -> (r: Option<&str>)
        ensures
            match header_position(headers_view(self.headers@), name@) {
                Some(i) => r matches Some(v) && v@ == headers_view(self.headers@)[i].1,
                None => r is None,
            },
    {
        let ghost hv = headers_view(self.headers@);
        let n = chars_of(name);
        let mut i: usize = 0;
        assert(hv.skip(0) =~= hv);
        while i < self.headers.len()
            invariant
                i <= self.headers@.len(),
                hv == headers_view(self.headers@),
                n@ == name@,
                header_position(hv, name@) == match header_position(hv.skip(i as int), name@) {
                    Some(x) => Some(x + i),
                    None => None::<int>,
                },
            decreases self.headers@.len() - i,
        {
            assert(hv.skip(i as int).drop_first() =~= hv.skip(i + 1));
            let k = chars_of(self.headers[i].0.as_str());
            if chars_eq_ignore_case(&k, &n) {
                return Some(self.headers[i].1.as_str());
            }
            i = i + 1;
        }
        None
    }
}

} // verus!

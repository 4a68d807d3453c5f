//! Server-side request forgery guard: is a URL aimed at a private or internal address?
use vstd::prelude::*;
use crate::text::{all_digits, digits_value, is_ascii_digit, split_char, split_chars, chars_of, trim, trim_chars, slice_take, slice_skip};

verus! {

/// An IP literal host.
#[derive(Debug, Clone, Copy)]
pub enum IpLiteral {
    V4([u8; 4]),
    V6([u8; 16]),
}

/// A URL's host as the `url` crate reads it: an IP literal, or a name.
pub enum UrlHost {
    Ip(IpLiteral),
    Name(String),
}

/// A URL host as values.
pub enum UrlHostV {
    Ip(IpLiteral),
    Name(Seq<char>),
}

impl View for UrlHost {
    type V = UrlHostV;

    open spec fn view(&self) -> UrlHostV {
        match self {
            UrlHost::Ip(a) => UrlHostV::Ip(*a),
            UrlHost::Name(n) => UrlHostV::Name(n@),
        }
    }
}

/// The host that the `url` crate reads from `url`: `None` when `url` does not parse or
/// has no host.
pub uninterp spec fn url_host(url: Seq<char>) -> Option<UrlHostV>;

/// `url::Url::parse(url)` followed by `Url::host`: an IP literal host, or the text of
/// a domain host (which is what `Url::host_str` gives for it).
#[verifier::external_body]
fn parse_url_host(url: &str) -> (r: Option<UrlHost>)
    ensures
        match r {
            Some(h) => url_host(url@) == Some(h@),
            None => url_host(url@) is None,
        },
{
    match url::Url::parse(url).ok()?.host()? {
        url::Host::Ipv4(a) => Some(UrlHost::Ip(IpLiteral::V4(a.octets()))),
        url::Host::Ipv6(a) => Some(UrlHost::Ip(IpLiteral::V6(a.octets()))),
        url::Host::Domain(d) => Some(UrlHost::Name(d.to_string())),
    }
}

/// A part of a dotted address as `str::parse::<Ipv4Addr>` reads it: one to three ASCII
/// digits, no leading zero unless the part is `0`, at most 255.
pub open spec fn octet_value(p: Seq<char>) -> Option<u8> {
    if 1 <= p.len() <= 3 && all_digits(p) && !(p.len() > 1 && p[0] == '0') && digits_value(p) <= 255 {
        Some(digits_value(p) as u8)
    } else {
        None
    }
}

/// The four octets of a dotted IPv4 address, read as `str::parse::<Ipv4Addr>` reads it.
pub open spec fn dotted_quad(s: Seq<char>) -> Option<Seq<u8>> {
    let ps = split_char(s, '.');
    if ps.len() == 4 && octet_value(ps[0]) is Some && octet_value(ps[1]) is Some && octet_value(ps[2]) is Some
        && octet_value(ps[3]) is Some {
        Some(
            seq![
                octet_value(ps[0])->0,
                octet_value(ps[1])->0,
                octet_value(ps[2])->0,
                octet_value(ps[3])->0,
            ],
        )
    } else {
        None
    }
}

/// A host text without its enclosing brackets, if it has them.
pub open spec fn unbracketed(s: Seq<char>) -> Seq<char> {
    if s.len() >= 2 && s[0] == '[' && s.last() == ']' {
        s.subrange(1, s.len() - 1)
    } else {
        s
    }
}

/// Loopback `127.0.0.0/8`, private `10.0.0.0/8`, `172.16.0.0/12`, `192.168.0.0/16`, or
/// link-local `169.254.0.0/16`.
pub open spec fn v4_is_private(a: [u8; 4]) -> bool {
    v4_octets_private(a@)
}

/// The ranges of [`v4_is_private`], on the four octets.
pub open spec fn v4_octets_private(o: Seq<u8>) -> bool {
    ||| o[0] == 127
    ||| o[0] == 10
    ||| (o[0] == 172 && 16 <= o[1] && o[1] <= 31)
    ||| (o[0] == 192 && o[1] == 168)
    ||| (o[0] == 169 && o[1] == 254)
}

/// Loopback `::1`, unique local `fc00::/7`, or unicast link-local `fe80::/10`.
pub open spec fn v6_is_private(a: [u8; 16]) -> bool {
    let o = a@;
    ||| ((forall|i: int| 0 <= i < 15 ==> o[i] == 0) && o[15] == 1)
    ||| (o[0] == 0xfc || o[0] == 0xfd)
    ||| (o[0] == 0xfe && 0x80 <= o[1] && o[1] <= 0xbf)
}

pub open spec fn ip_is_private_spec(ip: IpLiteral) -> bool {
    match ip {
        IpLiteral::V4(a) => v4_is_private(a),
        IpLiteral::V6(a) => v6_is_private(a),
    }
}

/// Whether an IP literal lies in a loopback, private, or link-local range.
pub fn is_private_ip(ip: &IpLiteral) -> (r: bool)
    ensures
        r == ip_is_private_spec(*ip),
{
    match ip {
        IpLiteral::V4(a) => {
            a[0] == 127 || a[0] == 10 || (a[0] == 172 && 16 <= a[1] && a[1] <= 31) || (a[0] == 192
                && a[1] == 168) || (a[0] == 169 && a[1] == 254)
        },
        IpLiteral::V6(a) => {
            let mut zeros = true;
            let mut i: usize = 0;
            while i < 15
                invariant
                    i <= 15,
                    zeros == (forall|j: int| 0 <= j < i ==> a@[j] == 0),
                decreases 15 - i,
            {
                if a[i] != 0 {
                    zeros = false;
                }
                i = i + 1;
            }
            (zeros && a[15] == 1) || (a[0] == 0xfc || a[0] == 0xfd) || (a[0] == 0xfe && 0x80 <= a[1]
                && a[1] <= 0xbf)
        },
    }
}

/// Whether the host of `url` names a private or internal address: an IP literal host in
/// such a range, or a host name that reads as a dotted IPv4 address in one (as it can
/// under a scheme the `url` crate does not know, such as `foo://127.0.0.1/`). The name
/// is trimmed and unbracketed first; a host name never holds `:`, so it never reads as
/// an IPv6 address. Host names are not resolved.
pub open spec fn url_private(url: Seq<char>) -> bool {
    match url_host(url) {
        Some(UrlHostV::Ip(ip)) => ip_is_private_spec(ip),
        Some(UrlHostV::Name(n)) => match dotted_quad(unbracketed(trim(n))) {
            Some(o) => v4_octets_private(o),
            None => false,
        },
        None => false,
    }
}

fn octet_of(p: &Vec<char>) -> (r: Option<u8>)
    ensures
        r == octet_value(p@),
{
    if p.len() < 1 || p.len() > 3 {
        return None;
    }
    if p.len() > 1 && p[0] == '0' {
        return None;
    }
    let mut v: u32 = 0;
    let mut i: usize = 0;
    while i < p.len()
        invariant
            1 <= p@.len() <= 3,
            i <= p@.len(),
            all_digits(p@.take(i as int)),
            v == digits_value(p@.take(i as int)),
            v <= 999,
            i == 0 ==> v == 0,
            i == 1 ==> v <= 9,
            i == 2 ==> v <= 99,
        decreases p@.len() - i,
    {
        let c = p[i];
        if !('0' <= c && c <= '9') {
            assert(!all_digits(p@)) by {
                assert(!is_ascii_digit(p@[i as int]));
            }
            return None;
        }
        let d = c as u32 - '0' as u32;
        assert(p@.take(i + 1).drop_last() =~= p@.take(i as int));
        assert(p@.take(i + 1).last() == c);
        v = v * 10 + d;
        assert(all_digits(p@.take(i + 1))) by {
            assert forall|j: int| 0 <= j < i + 1 implies is_ascii_digit(#[trigger] p@.take(i + 1)[j]) by {
                if j < i {
                    assert(p@.take(i + 1)[j] == p@.take(i as int)[j]);
                }
            }
        }
        i = i + 1;
    }
    assert(p@.take(p@.len() as int) =~= p@);
    if v <= 255 {
        Some(v as u8)
    } else {
        None
    }
}

fn dotted_quad_private(s: &[char]) -> (r: bool)
    ensures
        r == match dotted_quad(s@) {
            Some(o) => v4_octets_private(o),
            None => false,
        },
{
    let parts = split_chars(s, '.');
    let ghost ps = parts@.map_values(|v: Vec<char>| v@);
    assert(ps == split_char(s@, '.'));
    if parts.len() != 4 {
        return false;
    }
    assert(ps[0] == parts@[0]@ && ps[1] == parts@[1]@ && ps[2] == parts@[2]@ && ps[3] == parts@[3]@);
    let a = octet_of(&parts[0]);
    let b = octet_of(&parts[1]);
    let c = octet_of(&parts[2]);
    let d = octet_of(&parts[3]);
    match (a, b, c, d) {
        (Some(a), Some(b), Some(c), Some(d)) => {
            let ghost o = seq![a, b, c, d];
            assert(o[0] == a && o[1] == b);
            a == 127 || a == 10 || (a == 172 && 16 <= b && b <= 31) || (a == 192 && b == 168) || (a == 169
                && b == 254)
        },
        _ => false,
    }
}

/// Whether `url`'s host names a private or internal address, as [`url_private`] says.
pub fn url_targets_private_ip(url: &str) -> (r: bool)
    ensures
        r == url_private(url@),
{
    match parse_url_host(url) {
        Some(UrlHost::Ip(ip)) => is_private_ip(&ip),
        Some(UrlHost::Name(n)) => {
            let cs = chars_of(n.as_str());
            let t = trim_chars(&cs);
            if t.len() >= 2 && t[0] == '[' && t[t.len() - 1] == ']' {
                let head = slice_take(t.as_slice(), t.len() - 1);
                let inner = slice_skip(head.as_slice(), 1);
                assert(inner@ =~= t@.subrange(1, t@.len() - 1));
                dotted_quad_private(inner.as_slice())
            } else {
                assert(unbracketed(t@) == t@);
                dotted_quad_private(t.as_slice())
            }
        },
        None => false,
    }
}

} // verus!

//! JavaScript source text helpers: splitting off the last top-level expression,
//! string literal escaping, instance id counters, and the parts of a page URL.
use vstd::prelude::*;
use crate::text::{string_of, string_push, push_chars, trim, trim_chars, chars_of, is_ascii_alpha, is_ascii_alnum, first_index, find_char, slice_take, slice_skip, lemma_first_index_bound};

verus! {

/// Where the scanner stands: in code, in a string or template literal, or in a comment.
#[derive(PartialEq, Eq, Structural, Clone, Copy)]
pub enum ScanMode {
    Code,
    SingleQuote,
    DoubleQuote,
    Template,
    LineComment,
    BlockComment,
}

/// The position of the last `;` at bracket depth zero, outside strings, template
/// literals and comments, scanning from `i`. A backslash inside a literal skips the
/// next character.
pub open spec fn scan(s: Seq<char>, i: int, depth: int, mode: ScanMode, last: Option<int>) -> Option<int>
    decreases s.len() + 1 - i,
{
    if i < 0 || i >= s.len() {
        last
    } else {
        let b = s[i];
        match mode {
            ScanMode::LineComment => if b == '\n' {
                scan(s, i + 1, depth, ScanMode::Code, last)
            } else {
                scan(s, i + 1, depth, mode, last)
            },
            ScanMode::BlockComment => if b == '*' && i + 1 < s.len() && s[i + 1] == '/' {
                scan(s, i + 2, depth, ScanMode::Code, last)
            } else {
                scan(s, i + 1, depth, mode, last)
            },
            ScanMode::SingleQuote => if b == '\\' {
                scan(s, i + 2, depth, mode, last)
            } else if b == '\'' {
                scan(s, i + 1, depth, ScanMode::Code, last)
            } else {
                scan(s, i + 1, depth, mode, last)
            },
            ScanMode::DoubleQuote => if b == '\\' {
                scan(s, i + 2, depth, mode, last)
            } else if b == '"' {
                scan(s, i + 1, depth, ScanMode::Code, last)
            } else {
                scan(s, i + 1, depth, mode, last)
            },
            ScanMode::Template => if b == '\\' {
                scan(s, i + 2, depth, mode, last)
            } else if b == '`' {
                scan(s, i + 1, depth, ScanMode::Code, last)
            } else {
                scan(s, i + 1, depth, mode, last)
            },
            ScanMode::Code => if b == '\'' {
                scan(s, i + 1, depth, ScanMode::SingleQuote, last)
            } else if b == '"' {
                scan(s, i + 1, depth, ScanMode::DoubleQuote, last)
            } else if b == '`' {
                scan(s, i + 1, depth, ScanMode::Template, last)
            } else if b == '/' && i + 1 < s.len() && s[i + 1] == '/' {
                scan(s, i + 2, depth, ScanMode::LineComment, last)
            } else if b == '/' && i + 1 < s.len() && s[i + 1] == '*' {
                scan(s, i + 2, depth, ScanMode::BlockComment, last)
            } else if b == '(' || b == '[' || b == '{' {
                scan(s, i + 1, depth + 1, mode, last)
            } else if b == ')' || b == ']' || b == '}' {
                scan(s, i + 1, depth - 1, mode, last)
            } else if b == ';' && depth == 0 {
                scan(s, i + 1, depth, mode, Some(i))
            } else {
                scan(s, i + 1, depth, mode, last)
            },
        }
    }
}

/// Code split at its last top-level `;` into (setup, last expression), both trimmed;
/// the setup is `None` when empty. Without such a `;`, the whole code is the last
/// expression.
pub open spec fn split_last(s: Seq<char>) -> (Option<Seq<char>>, Seq<char>) {
    match scan(s, 0, 0, ScanMode::Code, None) {
        Some(pos) => {
            let setup = trim(s.take(pos));
            let last = trim(s.skip(pos + 1));
            if setup.len() == 0 {
                (None, last)
            } else {
                (Some(setup), last)
            }
        },
        None => (None, s),
    }
}

pub proof fn lemma_scan_bound(s: Seq<char>, i: int, depth: int, mode: ScanMode, last: Option<int>)
    requires
        last matches Some(p) ==> 0 <= p < s.len() && s[p] == ';',
    ensures
        scan(s, i, depth, mode, last) matches Some(p) ==> 0 <= p < s.len() && s[p] == ';',
    decreases s.len() + 1 - i,
{
    if i >= 0 && i < s.len() {
        let b = s[i];
        match mode {
            ScanMode::LineComment => {
                lemma_scan_bound(s, i + 1, depth, ScanMode::Code, last);
                lemma_scan_bound(s, i + 1, depth, mode, last);
            },
            ScanMode::BlockComment => {
                lemma_scan_bound(s, i + 2, depth, ScanMode::Code, last);
                lemma_scan_bound(s, i + 1, depth, mode, last);
            },
            ScanMode::Code => {
                lemma_scan_bound(s, i + 1, depth, ScanMode::SingleQuote, last);
                lemma_scan_bound(s, i + 1, depth, ScanMode::DoubleQuote, last);
                lemma_scan_bound(s, i + 1, depth, ScanMode::Template, last);
                lemma_scan_bound(s, i + 2, depth, ScanMode::LineComment, last);
                lemma_scan_bound(s, i + 2, depth, ScanMode::BlockComment, last);
                lemma_scan_bound(s, i + 1, depth + 1, mode, last);
                lemma_scan_bound(s, i + 1, depth - 1, mode, last);
                if b == ';' {
                    lemma_scan_bound(s, i + 1, depth, mode, Some(i));
                }
                lemma_scan_bound(s, i + 1, depth, mode, last);
            },
            _ => {
                lemma_scan_bound(s, i + 2, depth, mode, last);
                lemma_scan_bound(s, i + 1, depth, ScanMode::Code, last);
                lemma_scan_bound(s, i + 1, depth, mode, last);
            },
        }
    }
}

fn last_top_level_semicolon(s: &[char]) -> (r: Option<usize>)
    ensures
        match r {
            Some(p) => scan(s@, 0, 0, ScanMode::Code, None) == Some(p as int) && p < s@.len(),
            None => scan(s@, 0, 0, ScanMode::Code, None) is None,
        },
{
    let len = s.len();
    let mut last: Option<usize> = None;
    let mut depth: i128 = 0;
    let mut mode = ScanMode::Code;
    let mut i: usize = 0;
    proof {
        lemma_scan_bound(s@, 0, 0, ScanMode::Code, None);
    }
    while i < len
        invariant
            len == s@.len(),
            i <= len + 1,
            -(i as int) <= depth <= i as int,
            last matches Some(p) ==> p < i && p < len,
            scan(s@, 0, 0, ScanMode::Code, None) == scan(s@, i as int, depth as int, mode, match last {
                Some(p) => Some(p as int),
                None => None,
            }),
        decreases len + 1 - i,
    {
        let b = s[i];
        let ghost lv: Option<int> = match last {
            Some(p) => Some(p as int),
            None => None,
        };
        let ghost (i0, d0, m0) = (i as int, depth as int, mode);
        assert(b == s@[i as int]);
        proof {
            reveal_with_fuel(scan, 2);
        }
        match mode {
            ScanMode::LineComment => {
                if b == '\n' {
                    mode = ScanMode::Code;
                }
                i = i + 1;
            },
            ScanMode::BlockComment => {
                if b == '*' && (i + 1 < len && s[i + 1] == '/') {
                    mode = ScanMode::Code;
                    i = i + 2;
                } else {
                    i = i + 1;
                }
            },
            ScanMode::SingleQuote => {
                if b == '\\' {
                    i = if i + 1 < len {
                        i + 2
                    } else {
                        len
                    };
                } else {
                    if b == '\'' {
                        mode = ScanMode::Code;
                    }
                    i = i + 1;
                }
            },
            ScanMode::DoubleQuote => {
                if b == '\\' {
                    i = if i + 1 < len {
                        i + 2
                    } else {
                        len
                    };
                } else {
                    if b == '"' {
                        mode = ScanMode::Code;
                    }
                    i = i + 1;
                }
            },
            ScanMode::Template => {
                if b == '\\' {
                    i = if i + 1 < len {
                        i + 2
                    } else {
                        len
                    };
                } else {
                    if b == '`' {
                        mode = ScanMode::Code;
                    }
                    i = i + 1;
                }
            },
            ScanMode::Code => {
                if b == '\'' {
                    mode = ScanMode::SingleQuote;
                    i = i + 1;
                } else if b == '"' {
                    mode = ScanMode::DoubleQuote;
                    i = i + 1;
                } else if b == '`' {
                    mode = ScanMode::Template;
                    i = i + 1;
                } else if b == '/' && (i + 1 < len && s[i + 1] == '/') {
                    mode = ScanMode::LineComment;
                    i = i + 2;
                } else if b == '/' && (i + 1 < len && s[i + 1] == '*') {
                    mode = ScanMode::BlockComment;
                    i = i + 2;
                } else {
                    if b == '(' || b == '[' || b == '{' {
                        depth = depth + 1;
                    } else if b == ')' || b == ']' || b == '}' {
                        depth = depth - 1;
                    } else if b == ';' && depth == 0 {
                        last = Some(i);
                    }
                    i = i + 1;
                }
            },
        }
        assert(scan(s@, i0, d0, m0, lv) == scan(s@, i as int, depth as int, mode, match last {
            Some(p) => Some(p as int),
            None => None,
        }));
    }
    last
}

/// Split JavaScript code at its last top-level `;` into (setup code, last expression),
/// both trimmed, ignoring semicolons inside strings, template literals, comments and
/// brackets. Without such a `;`, returns `(None, code)`.
pub fn split_last_expression(code: &str) -> (r: (Option<String>, String))
    ensures
        split_last(code@) == (
            match r.0 {
                Some(s) => Some(s@),
                None => None,
            },
            r.1@,
        ),
{
    let s = chars_of(code);
    match last_top_level_semicolon(&s) {
        Some(pos) => {
            let head = crate::text::slice_take(&s, pos);
            assert(pos < s.len());
            let tail = crate::text::slice_skip(&s, pos + 1);
            let setup = trim_chars(&head);
            let last = trim_chars(&tail);
            if setup.len() == 0 {
                (None, string_of(&last))
            } else {
                (Some(string_of(&setup)), string_of(&last))
            }
        },
        None => (None, code.to_owned()),
    }
}

// ─────────────────────────── string literal escaping ─────────────────────────

/// `char::is_control`: the Unicode `Cc` category.
pub open spec fn is_control(c: char) -> bool {
    (c as u32) <= 0x1f || (0x7f <= (c as u32) && (c as u32) <= 0x9f)
}

pub open spec fn hex_digit(d: int) -> char {
    if d < 10 {
        ((d + 48) as u32) as char
    } else {
        ((d + 87) as u32) as char
    }
}

/// The escape of one character inside a double-quoted JavaScript string literal.
pub open spec fn escape_char(c: char) -> Seq<char> {
    if c == '\\' {
        seq!['\\', '\\']
    } else if c == '"' {
        seq!['\\', '"']
    } else if c == '\n' {
        seq!['\\', 'n']
    } else if c == '\r' {
        seq!['\\', 'r']
    } else if c == '\t' {
        seq!['\\', 't']
    } else if is_control(c) {
        let v = c as u32 as int;
        seq!['\\', 'u', '0', '0', hex_digit(v / 16), hex_digit(v % 16)]
    } else {
        seq![c]
    }
}

pub open spec fn escape_body(s: Seq<char>) -> Seq<char>
    decreases s.len(),
{
    if s.len() == 0 {
        seq![]
    } else {
        escape_body(s.drop_last()) + escape_char(s.last())
    }
}

/// A double-quoted JavaScript string literal for `s`.
pub open spec fn js_string_literal(s: Seq<char>) -> Seq<char> {
    seq!['"'] + escape_body(s) + seq!['"']
}

fn hex_char(d: u32) -> (r: char)
    requires
        d < 16,
    ensures
        r == hex_digit(d as int),
{
    let b = d as u8;
    if b < 10 {
        (b + 48) as char
    } else {
        (b + 87) as char
    }
}

/// Escape a string for use as a JavaScript double-quoted string literal.
pub fn escape_js_string(s: &str) -> (r: String)
    ensures
        r@ == js_string_literal(s@),
{
    let cs = chars_of(s);
    let mut out = String::new();
    string_push(&mut out, '"');
    let mut i: usize = 0;
    while i < cs.len()
        invariant
            i <= cs@.len(),
            out@ == seq!['"'] + escape_body(cs@.take(i as int)),
        decreases cs@.len() - i,
    {
        let c = cs[i];
        assert(cs@.take(i + 1).drop_last() =~= cs@.take(i as int));
        assert(cs@.take(i + 1).last() == c);
        if c == '\\' {
            push_chars(&mut out, &['\\', '\\']);
        } else if c == '"' {
            push_chars(&mut out, &['\\', '"']);
        } else if c == '\n' {
            push_chars(&mut out, &['\\', 'n']);
        } else if c == '\r' {
            push_chars(&mut out, &['\\', 'r']);
        } else if c == '\t' {
            push_chars(&mut out, &['\\', 't']);
        } else if (c as u32) <= 0x1f || (0x7f <= (c as u32) && (c as u32) <= 0x9f) {
            let v = c as u32;
            push_chars(&mut out, &['\\', 'u', '0', '0']);
            string_push(&mut out, hex_char(v / 16));
            string_push(&mut out, hex_char(v % 16));
        } else {
            string_push(&mut out, c);
        }
        assert(out@ =~= seq!['"'] + escape_body(cs@.take(i + 1)));
        i = i + 1;
    }
    assert(cs@.take(cs@.len() as int) =~= cs@);
    string_push(&mut out, '"');
    out
}

/// A valid identifier key: an ASCII letter, then ASCII letters, digits, `_` or `$`.
pub open spec fn is_plain_key(s: Seq<char>) -> bool {
    s.len() > 0 && is_ascii_alpha(s[0]) && forall|i: int|
        0 <= i < s.len() ==> is_ascii_alnum(#[trigger] s[i]) || s[i] == '_' || s[i] == '$'
}

/// A JavaScript object key for `s`: a plain identifier stays as it is, anything else
/// becomes a string literal.
pub open spec fn js_key(s: Seq<char>) -> Seq<char> {
    if is_plain_key(s) {
        s
    } else {
        js_string_literal(s)
    }
}

/// Escape a string for use as a JavaScript object key: plain identifiers stay as they
/// are, anything else becomes a string literal.
pub fn escape_js_key(s: &str) -> (r: String)
    ensures
        r@ == js_key(s@),
{
    let cs = chars_of(s);
    let mut valid = cs.len() > 0 && (('a' <= cs[0] && cs[0] <= 'z') || ('A' <= cs[0] && cs[0] <= 'Z'));
    let mut i: usize = 0;
    while i < cs.len()
        invariant
            i <= cs@.len(),
            valid == (cs@.len() > 0 && is_ascii_alpha(cs@[0]) && forall|j: int|
                0 <= j < i ==> is_ascii_alnum(#[trigger] cs@[j]) || cs@[j] == '_' || cs@[j] == '$'),
        decreases cs@.len() - i,
    {
        let c = cs[i];
        let ok = ('a' <= c && c <= 'z') || ('A' <= c && c <= 'Z') || ('0' <= c && c <= '9') || c
            == '_' || c == '$';
        valid = valid && ok;
        i = i + 1;
    }
    if valid {
        s.to_owned()
    } else {
        escape_js_string(s)
    }
}

// ─────────────────────────────── id counters ────────────────────────────────

/// A counter handing out instance ids in increasing order.
pub struct IdCounter {
    next: u64,
}

impl IdCounter {
    /// A counter whose first id is `first`.
    pub fn starting_at(first: u64) -> (r: Self)
        ensures
            r.peek() == first,
    {
        IdCounter { next: first }
    }

    /// The id the next call of `next_id` returns.
    pub closed spec fn peek(&self) -> u64 {
        self.next
    }

    /// The current id; the counter moves on by one.
    pub fn next_id(&mut self) -> (r: u64)
        requires
            old(self).peek() < u64::MAX,
        ensures
            r == old(self).peek(),
            final(self).peek() == r + 1,
    {
        let current = self.next;
        self.next = current + 1;
        current
    }

    /// The id the next call of `next_id` returns.
    pub fn current(&self) -> (r: u64)
        ensures
            r == self.peek(),
    {
        self.next
    }
}

// ────────────────────────────── URL components ──────────────────────────────

/// The position of the first `://` in `s` at or after `i`.
pub open spec fn scheme_end_from(s: Seq<char>, i: int) -> Option<int>
    decreases s.len() - i,
{
    if i < 0 || i + 3 > s.len() {
        None
    } else if s[i] == ':' && s[i + 1] == '/' && s[i + 2] == '/' {
        Some(i)
    } else {
        scheme_end_from(s, i + 1)
    }
}

/// The path, query and fragment of `pq` (which starts at the path): the fragment from
/// the first `#`, the query from the first `?` before it.
pub open spec fn path_parts(pq: Seq<char>) -> (Seq<char>, Seq<char>, Seq<char>) {
    let (before, hash) = match first_index(pq, '#') {
        Some(h) => (pq.take(h), pq.skip(h)),
        None => (pq, seq![]),
    };
    match first_index(before, '?') {
        Some(q) => (before.take(q), before.skip(q), hash),
        None => (before, seq![], hash),
    }
}

/// Protocol (through `://`), host, path, query and fragment of a URL. Without `://`
/// the protocol is `about:` and the rest empty but the path `/`; without a `/` after
/// the host the path is `/`.
pub open spec fn url_components(url: Seq<char>) -> (Seq<char>, Seq<char>, Seq<char>, Seq<char>, Seq<
    char,
>) {
    match scheme_end_from(url, 0) {
        None => (seq!['a', 'b', 'o', 'u', 't', ':'], seq![], seq!['/'], seq![], seq![]),
        Some(p) => {
            let protocol = url.take(p + 3);
            let rest = url.skip(p + 3);
            match first_index(rest, '/') {
                None => (protocol, rest, seq!['/'], seq![], seq![]),
                Some(s) => {
                    let (path, query, hash) = path_parts(rest.skip(s));
                    (protocol, rest.take(s), path, query, hash)
                },
            }
        },
    }
}

fn scheme_end(cs: &Vec<char>) -> (r: Option<usize>)
    ensures
        match r {
            Some(i) => scheme_end_from(cs@, 0) == Some(i as int) && i + 3 <= cs@.len(),
            None => scheme_end_from(cs@, 0) is None,
        },
{
    let mut i: usize = 0;
    while i < cs.len() && cs.len() - i >= 3
        invariant
            scheme_end_from(cs@, 0) == scheme_end_from(cs@, i as int),
        decreases cs@.len() - i,
    {
        if cs[i] == ':' && cs[i + 1] == '/' && cs[i + 2] == '/' {
            return Some(i);
        }
        i = i + 1;
    }
    None
}

/// The protocol, host, path, query and fragment of a page URL, as `location` shows
/// them.
pub fn parse_url_components(url: &str) -> (r: (String, String, String, String, String))
    ensures
        (r.0@, r.1@, r.2@, r.3@, r.4@) == url_components(url@),
{
    let cs = chars_of(url);
    match scheme_end(&cs) {
        None => (
            string_of(&['a', 'b', 'o', 'u', 't', ':']),
            String::new(),
            string_of(&['/']),
            String::new(),
            String::new(),
        ),
        Some(p) => {
            let protocol = slice_take(&cs, p + 3);
            let rest = slice_skip(&cs, p + 3);
            let found = find_char(&rest, '/');
            proof {
                lemma_first_index_bound(rest@, '/');
            }
            match found {
                None => (string_of(&protocol), string_of(&rest), string_of(&['/']), String::new(), String::new()),
                Some(s) => {
                    let host = slice_take(&rest, s);
                    let pq = slice_skip(&rest, s);
                    proof {
                        lemma_first_index_bound(pq@, '#');
                    }
                    let (before, hash) = match find_char(&pq, '#') {
                        Some(h) => (slice_take(&pq, h), slice_skip(&pq, h)),
                        None => (pq.clone(), Vec::new()),
                    };
                    proof {
                        lemma_first_index_bound(before@, '?');
                    }
                    match find_char(&before, '?') {
                        Some(q) => (
                            string_of(&protocol),
                            string_of(&host),
                            string_of(&slice_take(&before, q)),
                            string_of(&slice_skip(&before, q)),
                            string_of(&hash),
                        ),
                        None => (string_of(&protocol), string_of(&host), string_of(&before), String::new(), string_of(&hash)),
                    }
                },
            }
        },
    }
}

} // verus!

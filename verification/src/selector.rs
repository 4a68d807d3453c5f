//! CSS selectors: tag, `.class`, `#id`, `[attr]`, `[attr=value]`, compounds of these,
//! the child (`>`) and descendant (space) combinators, `:first-child`, `:last-child`,
//! and comma-separated lists.
use vstd::prelude::*;
use crate::node::{NodeId, NodeKind};
use crate::request::{header_lookup, key_index};
use crate::text::{is_ascii_alpha, is_ascii_alnum, upper_seq, eq_ignore_case, strings_view, split_char, trim, str_eq, chars_of, string_of, split_chars, trim_chars};
use crate::tree::{DomTree, Nodes, element_of};
use crate::cookie::opt_view;

verus! {

// ───────────────────────────────── the AST ──────────────────────────────────

/// A simple selector: the part between combinators.
pub struct SimpleSelector {
    pub tag: Option<String>,
    pub id: Option<String>,
    pub classes: Vec<String>,
    pub attr_name: Option<String>,
    /// `None` checks for presence only.
    pub attr_value: Option<String>,
    pub first_child: bool,
    pub last_child: bool,
}

/// A simple selector as values.
#[verifier::ext_equal]
pub struct SimpleV {
    pub tag: Option<Seq<char>>,
    pub id: Option<Seq<char>>,
    pub classes: Seq<Seq<char>>,
    pub attr_name: Option<Seq<char>>,
    pub attr_value: Option<Seq<char>>,
    pub first_child: bool,
    pub last_child: bool,
}

impl View for SimpleSelector {
    type V = SimpleV;

    open spec fn view(&self) -> SimpleV {
        SimpleV {
            tag: opt_view(self.tag),
            id: opt_view(self.id),
            classes: strings_view(self.classes@),
            attr_name: opt_view(self.attr_name),
            attr_value: opt_view(self.attr_value),
            first_child: self.first_child,
            last_child: self.last_child,
        }
    }
}

/// The simple selector that sets nothing.
pub open spec fn empty_simple() -> SimpleV {
    SimpleV {
        tag: None,
        id: None,
        classes: seq![],
        attr_name: None,
        attr_value: None,
        first_child: false,
        last_child: false,
    }
}

/// Whether a simple selector sets nothing (its attribute value aside).
pub open spec fn is_default_v(s: SimpleV) -> bool {
    &&& s.tag is None
    &&& s.id is None
    &&& s.classes.len() == 0
    &&& s.attr_name is None
    &&& !s.first_child
    &&& !s.last_child
}

impl Default for SimpleSelector {
    fn default() -> (r: Self)
        ensures
            r@ == empty_simple(),
    {
        let r = SimpleSelector {
            tag: None,
            id: None,
            classes: Vec::new(),
            attr_name: None,
            attr_value: None,
            first_child: false,
            last_child: false,
        };
        assert(r@.classes =~= seq![]);
        r
    }
}

/// The combinator between two simple selectors.
#[derive(Debug, Clone, Copy, PartialEq, Eq, Structural)]
pub enum Combinator {
    /// A space: any descendant.
    Descendant,
    /// `>`: a direct child.
    Child,
}

/// A part of a selector: a simple selector and the combinator that follows it.
pub type PartV = (SimpleV, Option<Combinator>);

/// Simple selectors with the combinators between them, left to right.
pub struct Selector {
    pub parts: Vec<(SimpleSelector, Option<Combinator>)>,
}

pub open spec fn parts_view(v: Seq<(SimpleSelector, Option<Combinator>)>) -> Seq<PartV> {
    v.map_values(|p: (SimpleSelector, Option<Combinator>)| (p.0@, p.1))
}

impl View for Selector {
    type V = Seq<PartV>;

    open spec fn view(&self) -> Seq<PartV> {
        parts_view(self.parts@)
    }
}

// ───────────────────────────────── tokens ───────────────────────────────────

/// A token of a selector.
pub enum TokV {
    Tag(Seq<char>),
    Id(Seq<char>),
    Class(Seq<char>),
    Attr(Seq<char>, Option<Seq<char>>),
    Pseudo(Seq<char>),
    Comb(Combinator),
}

enum SelToken {
    Tag(String),
    Id(String),
    Class(String),
    Attr(String, Option<String>),
    Pseudo(String),
    Comb(Combinator),
}

spec fn token_view(t: SelToken) -> TokV {
    match t {
        SelToken::Tag(s) => TokV::Tag(s@),
        SelToken::Id(s) => TokV::Id(s@),
        SelToken::Class(s) => TokV::Class(s@),
        SelToken::Attr(n, v) => TokV::Attr(n@, opt_view(v)),
        SelToken::Pseudo(s) => TokV::Pseudo(s@),
        SelToken::Comb(c) => TokV::Comb(c),
    }
}

spec fn tokens_view(v: Seq<SelToken>) -> Seq<TokV> {
    v.map_values(|t: SelToken| token_view(t))
}

pub open spec fn is_ident_char(c: char) -> bool {
    is_ascii_alnum(c) || c == '_' || c == '-'
}

pub open spec fn is_sel_space(c: char) -> bool {
    c == ' ' || c == '\t' || c == '\n' || c == '\r'
}

/// Where the identifier starting at `i` ends.
pub open spec fn ident_end(cs: Seq<char>, i: int) -> int
    decreases cs.len() - i,
{
    if 0 <= i < cs.len() && is_ident_char(cs[i]) {
        ident_end(cs, i + 1)
    } else {
        i
    }
}

/// Where the text starting at `i` reaches `a` or `b`, or the end.
pub open spec fn until_end(cs: Seq<char>, i: int, a: char, b: char) -> int
    decreases cs.len() - i,
{
    if 0 <= i < cs.len() && cs[i] != a && cs[i] != b {
        until_end(cs, i + 1, a, b)
    } else {
        i
    }
}

pub proof fn lemma_ident_end(cs: Seq<char>, i: int)
    requires
        0 <= i <= cs.len(),
    ensures
        i <= ident_end(cs, i) <= cs.len(),
        forall|j: int| i <= j < ident_end(cs, i) ==> is_ident_char(cs[j]),
        ident_end(cs, i) < cs.len() ==> !is_ident_char(cs[ident_end(cs, i)]),
    decreases cs.len() - i,
{
    if i < cs.len() && is_ident_char(cs[i]) {
        lemma_ident_end(cs, i + 1);
    }
}

pub proof fn lemma_until_end(cs: Seq<char>, i: int, a: char, b: char)
    requires
        0 <= i <= cs.len(),
    ensures
        i <= until_end(cs, i, a, b) <= cs.len(),
        until_end(cs, i, a, b) < cs.len() ==> (cs[until_end(cs, i, a, b)] == a || cs[until_end(
            cs,
            i,
            a,
            b,
        )] == b),
    decreases cs.len() - i,
{
    if i < cs.len() && cs[i] != a && cs[i] != b {
        lemma_until_end(cs, i + 1, a, b);
    }
}

/// The tokens of `cs` read from position `i` on, after `toks`; `None` where reading
/// never ends (a `*` where a token starts is read again and again without advancing).
pub open spec fn lex(cs: Seq<char>, i: int, toks: Seq<TokV>) -> Option<Seq<TokV>>
    decreases cs.len() + 1 - i,
{
    if i < 0 || i >= cs.len() {
        Some(toks)
    } else {
        let c = cs[i];
        if is_sel_space(c) {
            let t = if toks.len() > 0 && !(toks.last() is Comb) {
                toks.push(TokV::Comb(Combinator::Descendant))
            } else {
                toks
            };
            lex(cs, i + 1, t)
        } else if c == '>' {
            lex(cs, i + 1, toks.push(TokV::Comb(Combinator::Child)))
        } else if c == '#' {
            proof {
                lemma_ident_end(cs, i + 1);
            }
            let e = ident_end(cs, i + 1);
            lex(cs, e, toks.push(TokV::Id(cs.subrange(i + 1, e))))
        } else if c == '.' {
            proof {
                lemma_ident_end(cs, i + 1);
            }
            let e = ident_end(cs, i + 1);
            lex(cs, e, toks.push(TokV::Class(cs.subrange(i + 1, e))))
        } else if c == '[' {
            proof {
                lemma_until_end(cs, i + 1, '=', ']');
            }
            let ne = until_end(cs, i + 1, '=', ']');
            let name = cs.subrange(i + 1, ne);
            if ne < cs.len() && cs[ne] == '=' {
                proof {
                    lemma_until_end(cs, ne + 1, ']', ']');
                }
                let ve = until_end(cs, ne + 1, ']', ']');
                lex(cs, ve + 1, toks.push(TokV::Attr(name, Some(cs.subrange(ne + 1, ve)))))
            } else {
                lex(cs, ne + 1, toks.push(TokV::Attr(name, None)))
            }
        } else if c == ':' {
            proof {
                lemma_ident_end(cs, i + 1);
            }
            let e = ident_end(cs, i + 1);
            lex(cs, e, toks.push(TokV::Pseudo(cs.subrange(i + 1, e))))
        } else if is_ascii_alpha(c) || c == '_' || c == '-' {
            proof {
                lemma_ident_end(cs, i);
            }
            let e = ident_end(cs, i);
            lex(cs, e, toks.push(TokV::Tag(cs.subrange(i, e))))
        } else if c == '*' {
            None
        } else {
            lex(cs, i + 1, toks)
        }
    }
}

/// The tokens of a selector, a trailing descendant combinator dropped; `None` where
/// reading never ends.
pub open spec fn tokenize(cs: Seq<char>) -> Option<Seq<TokV>> {
    match lex(cs, 0, seq![]) {
        Some(t) => Some(
            if t.len() > 0 && t.last() == TokV::Comb(Combinator::Descendant) {
                t.drop_last()
            } else {
                t
            },
        ),
        None => None,
    }
}

/// Reads an identifier from `pos`.
fn read_ident(cs: &Vec<char>, pos: usize) -> (r: (String, usize))
    requires
        pos <= cs@.len(),
    ensures
        r.1 == ident_end(cs@, pos as int),
        pos <= r.1 <= cs@.len(),
        r.0@ == cs@.subrange(pos as int, r.1 as int),
{
    proof {
        lemma_ident_end(cs@, pos as int);
    }
    let mut i = pos;
    while i < cs.len() && (is_ascii_alnum_exec(cs[i]) || cs[i] == '_' || cs[i] == '-')
        invariant
            pos <= i <= cs@.len(),
            ident_end(cs@, pos as int) == ident_end(cs@, i as int),
        decreases cs@.len() - i,
    {
        i = i + 1;
    }
    let mut out: Vec<char> = Vec::new();
    let mut j = pos;
    while j < i
        invariant
            pos <= j <= i <= cs@.len(),
            out@ == cs@.subrange(pos as int, j as int),
        decreases i - j,
    {
        out.push(cs[j]);
        assert(out@ =~= cs@.subrange(pos as int, j + 1));
        j = j + 1;
    }
    (string_of(&out), i)
}

/// Reads up to the first `a` or `b` from `pos`.
fn read_until(cs: &Vec<char>, pos: usize, a: char, b: char) -> (r: (String, usize))
    requires
        pos <= cs@.len(),
    ensures
        r.1 == until_end(cs@, pos as int, a, b),
        pos <= r.1 <= cs@.len(),
        r.0@ == cs@.subrange(pos as int, r.1 as int),
{
    proof {
        lemma_until_end(cs@, pos as int, a, b);
    }
    let mut i = pos;
    while i < cs.len() && cs[i] != a && cs[i] != b
        invariant
            pos <= i <= cs@.len(),
            until_end(cs@, pos as int, a, b) == until_end(cs@, i as int, a, b),
        decreases cs@.len() - i,
    {
        i = i + 1;
    }
    let mut out: Vec<char> = Vec::new();
    let mut j = pos;
    while j < i
        invariant
            pos <= j <= i <= cs@.len(),
            out@ == cs@.subrange(pos as int, j as int),
        decreases i - j,
    {
        out.push(cs[j]);
        assert(out@ =~= cs@.subrange(pos as int, j + 1));
        j = j + 1;
    }
    (string_of(&out), i)
}

fn is_ascii_alpha_exec(c: char) -> (r: bool)
    ensures
        r == is_ascii_alpha(c),
{
    ('a' <= c && c <= 'z') || ('A' <= c && c <= 'Z')
}

fn is_ascii_alnum_exec(c: char) -> (r: bool)
    ensures
        r == is_ascii_alnum(c),
{
    is_ascii_alpha_exec(c) || ('0' <= c && c <= '9')
}

/// Whether the last token is a combinator.
fn ends_with_comb(toks: &Vec<SelToken>) -> (r: bool)
    ensures
        r == (tokens_view(toks@).len() > 0 && tokens_view(toks@).last() is Comb),
{
    if toks.len() == 0 {
        false
    } else {
        match &toks[toks.len() - 1] {
            SelToken::Comb(_) => true,
            _ => false,
        }
    }
}

/// The tokens of a selector; `None` where reading never ends.
fn tokenize_selector(input: &str) -> (r: Option<Vec<SelToken>>)
    ensures
        match r {
            Some(v) => tokenize(input@) == Some(tokens_view(v@)),
            None => tokenize(input@) is None,
        },
{
    let cs = chars_of(input);
    let len = cs.len();
    let mut toks: Vec<SelToken> = Vec::new();
    let mut i: usize = 0;
    assert(tokens_view(toks@) =~= seq![]);
    while i < len
        invariant
            len == cs@.len(),
            cs@ == input@,
            i <= len + 1,
            lex(cs@, 0, seq![]) == lex(cs@, i as int, tokens_view(toks@)),
        decreases len + 1 - i,
    {
        let ghost tv = tokens_view(toks@);
        let c = cs[i];
        let ghost i0 = i as int;
        if c == ' ' || c == '\t' || c == '\n' || c == '\r' {
            if toks.len() > 0 && !ends_with_comb(&toks) {
                toks.push(SelToken::Comb(Combinator::Descendant));
                assert(tokens_view(toks@) =~= tv.push(TokV::Comb(Combinator::Descendant)));
            }
            i = i + 1;
            assert(lex(cs@, i0, tv) == lex(cs@, i as int, tokens_view(toks@)));
        } else if c == '>' {
            toks.push(SelToken::Comb(Combinator::Child));
            assert(tokens_view(toks@) =~= tv.push(TokV::Comb(Combinator::Child)));
            i = i + 1;
        } else if c == '#' {
            let (id, e) = read_ident(&cs, i + 1);
            toks.push(SelToken::Id(id));
            assert(tokens_view(toks@) =~= tv.push(TokV::Id(cs@.subrange(i + 1, e as int))));
            i = e;
            assert(lex(cs@, i0, tv) == lex(cs@, i as int, tokens_view(toks@)));
        } else if c == '.' {
            let (cls, e) = read_ident(&cs, i + 1);
            toks.push(SelToken::Class(cls));
            assert(tokens_view(toks@) =~= tv.push(TokV::Class(cs@.subrange(i + 1, e as int))));
            i = e;
        } else if c == '[' {
            let (name, ne) = read_until(&cs, i + 1, '=', ']');
            if ne < len && cs[ne] == '=' {
                let (v, ve) = read_until(&cs, ne + 1, ']', ']');
                let ghost nv = name@;
                let ghost vv = v@;
                toks.push(SelToken::Attr(name, Some(v)));
                assert(tokens_view(toks@) =~= tv.push(TokV::Attr(nv, Some(vv))));
                i = if ve < len { ve + 1 } else { len };
                assert(lex(cs@, ve + 1, tokens_view(toks@)) == lex(cs@, i as int, tokens_view(toks@)));
            } else {
                let ghost nv = name@;
                toks.push(SelToken::Attr(name, None));
                assert(tokens_view(toks@) =~= tv.push(TokV::Attr(nv, None)));
                i = if ne < len { ne + 1 } else { len };
                assert(lex(cs@, ne + 1, tokens_view(toks@)) == lex(cs@, i as int, tokens_view(toks@)));
            }
        } else if c == ':' {
            let (p, e) = read_ident(&cs, i + 1);
            toks.push(SelToken::Pseudo(p));
            assert(tokens_view(toks@) =~= tv.push(TokV::Pseudo(cs@.subrange(i + 1, e as int))));
            i = e;
        } else if is_ascii_alpha_exec(c) || c == '_' || c == '-' {
            let (t, e) = read_ident(&cs, i);
            proof {
                lemma_ident_end(cs@, i + 1);
                assert(ident_end(cs@, i as int) == ident_end(cs@, i + 1));
            }
            toks.push(SelToken::Tag(t));
            assert(tokens_view(toks@) =~= tv.push(TokV::Tag(cs@.subrange(i as int, e as int))));
            i = e;
            assert(lex(cs@, i0, tv) == lex(cs@, i as int, tokens_view(toks@)));
        } else if c == '*' {
            return None;
        } else {
            i = i + 1;
        }
    }
    let ghost tv = tokens_view(toks@);
    if toks.len() > 0 {
        let last_desc = match &toks[toks.len() - 1] {
            SelToken::Comb(Combinator::Descendant) => true,
            _ => false,
        };
        if last_desc {
            toks.pop();
            assert(tokens_view(toks@) =~= tv.drop_last());
        }
    }
    Some(toks)
}

// ───────────────────────────────── parsing ──────────────────────────────────

/// What the parser holds between tokens.
#[verifier::ext_equal]
pub struct ParseState {
    pub parts: Seq<PartV>,
    pub current: SimpleV,
    pub pending: Option<Combinator>,
}

pub open spec fn first_child_name() -> Seq<char> {
    seq!['f', 'i', 'r', 's', 't', '-', 'c', 'h', 'i', 'l', 'd']
}

pub open spec fn last_child_name() -> Seq<char> {
    seq!['l', 'a', 's', 't', '-', 'c', 'h', 'i', 'l', 'd']
}

/// The state with the current simple selector closed, when it sets anything, as a part
/// followed by the waiting combinator.
pub open spec fn flushed(st: ParseState) -> ParseState {
    if !is_default_v(st.current) {
        ParseState { parts: st.parts.push((st.current, st.pending)), current: empty_simple(), pending: None }
    } else {
        st
    }
}

/// The state before a token of a simple selector: a tag, or any token after a waiting
/// combinator, starts a new simple selector when the current one sets anything.
pub open spec fn opened(st: ParseState, is_tag: bool) -> ParseState {
    if is_tag || st.pending is Some {
        flushed(st)
    } else {
        st
    }
}

/// The parser state after one more token. A combinator waits for the part it follows
/// to be closed; the next tag, or the next token of any kind after the combinator,
/// closes it.
pub open spec fn step(st: ParseState, t: TokV) -> ParseState {
    match t {
        TokV::Tag(name) => {
            let s = opened(st, true);
            ParseState { current: SimpleV { tag: Some(upper_seq(name)), ..s.current }, ..s }
        },
        TokV::Id(v) => {
            let s = opened(st, false);
            ParseState { current: SimpleV { id: Some(v), ..s.current }, ..s }
        },
        TokV::Class(c) => {
            let s = opened(st, false);
            ParseState { current: SimpleV { classes: s.current.classes.push(c), ..s.current }, ..s }
        },
        TokV::Attr(n, v) => {
            let s = opened(st, false);
            ParseState { current: SimpleV { attr_name: Some(n), attr_value: v, ..s.current }, ..s }
        },
        TokV::Pseudo(p) => {
            let s = opened(st, false);
            if p == first_child_name() {
                ParseState { current: SimpleV { first_child: true, ..s.current }, ..s }
            } else if p == last_child_name() {
                ParseState { current: SimpleV { last_child: true, ..s.current }, ..s }
            } else {
                s
            }
        },
        TokV::Comb(c) => ParseState { pending: Some(c), ..st },
    }
}

pub open spec fn fold_tokens(toks: Seq<TokV>) -> ParseState
    decreases toks.len(),
{
    if toks.len() == 0 {
        ParseState { parts: seq![], current: empty_simple(), pending: None }
    } else {
        step(fold_tokens(toks.drop_last()), toks.last())
    }
}

/// The parts, the last simple selector closed if it sets anything.
pub open spec fn finish(st: ParseState) -> Seq<PartV> {
    if !is_default_v(st.current) {
        st.parts.push((st.current, st.pending))
    } else {
        st.parts
    }
}

/// The parts of a single selector.
pub open spec fn parse_single_v(cs: Seq<char>) -> Seq<PartV> {
    match tokenize(cs) {
        Some(t) => finish(fold_tokens(t)),
        None => seq![],
    }
}

/// The comma-separated selectors of a list, trimmed.
pub open spec fn selector_pieces(cs: Seq<char>) -> Seq<Seq<char>> {
    split_char(cs, ',').map_values(|p: Seq<char>| trim(p))
}

/// Every selector of the list can be read to its end.
pub open spec fn parsable(cs: Seq<char>) -> bool {
    forall|i: int| 0 <= i < selector_pieces(cs).len() ==> #[trigger] tokenize(selector_pieces(cs)[i]) is Some
}

/// The selectors of a list.
pub open spec fn parse_v(cs: Seq<char>) -> Seq<Seq<PartV>> {
    selector_pieces(cs).map_values(|p: Seq<char>| parse_single_v(p))
}

fn is_default(s: &SimpleSelector) -> (r: bool)
    ensures
        r == is_default_v(s@),
{
    s.tag.is_none() && s.id.is_none() && s.classes.len() == 0 && s.attr_name.is_none()
        && !s.first_child && !s.last_child
}

fn clone_opt(o: &Option<String>) -> (r: Option<String>)
    ensures
        opt_view(r) == opt_view(*o),
{
    match o {
        Some(s) => Some(s.clone()),
        None => None,
    }
}

/// Parses one selector.
fn parse_single_selector(input: &str) -> (r: Selector)
    requires
        tokenize(input@) is Some,
    ensures
        r@ == parse_single_v(input@),
{
    proof {
        reveal_strlit("first-child");
        reveal_strlit("last-child");
        assert("first-child"@ =~= first_child_name());
        assert("last-child"@ =~= last_child_name());
    }
    let tokens = match tokenize_selector(input) {
        Some(t) => t,
        None => {
            return Selector { parts: Vec::new() };
        },
    };
    let ghost tv = tokens_view(tokens@);
    let mut parts: Vec<(SimpleSelector, Option<Combinator>)> = Vec::new();
    let mut current = SimpleSelector::default();
    let mut pending: Option<Combinator> = None;
    let mut i: usize = 0;
    assert(parts_view(parts@) =~= seq![]);
    while i < tokens.len()
        invariant
            i <= tokens@.len(),
            tv == tokens_view(tokens@),
            tokenize(input@) == Some(tv),
            fold_tokens(tv.take(i as int)) == (ParseState {
                parts: parts_view(parts@),
                current: current@,
                pending,
            }),
        decreases tokens@.len() - i,
    {
        proof {
            assert(tv.take(i + 1).drop_last() =~= tv.take(i as int));
            assert(tv.take(i + 1).last() == token_view(tokens@[i as int]));
        }
        let ghost before = ParseState { parts: parts_view(parts@), current: current@, pending };
        let is_tag = match &tokens[i] {
            SelToken::Tag(_) => true,
            _ => false,
        };
        let is_comb = match &tokens[i] {
            SelToken::Comb(_) => true,
            _ => false,
        };
        if !is_comb && (is_tag || pending.is_some()) && !is_default(&current) {
            let ghost pv = parts_view(parts@);
            let done = current;
            let ghost dv = done@;
            parts.push((done, pending));
            assert(parts_view(parts@) =~= pv.push((dv, pending)));
            pending = None;
            current = SimpleSelector::default();
        }
        let ghost mid = ParseState { parts: parts_view(parts@), current: current@, pending };
        assert(!is_comb ==> mid == opened(before, is_tag));
        match &tokens[i] {
            SelToken::Tag(t) => {
                let ghost cur_before = current@;
                current.tag = Some(crate::node::ascii_upper(t.as_str()));
                assert(current@ =~= SimpleV { tag: Some(upper_seq(t@)), ..cur_before });
            },
            SelToken::Id(v) => {
                current.id = Some(v.clone());
            },
            SelToken::Class(c) => {
                let ghost cv = current@.classes;
                current.classes.push(c.clone());
                assert(current@.classes =~= cv.push(c@));
            },
            SelToken::Attr(n, v) => {
                current.attr_name = Some(n.clone());
                current.attr_value = clone_opt(v);
            },
            SelToken::Pseudo(p) => {
                assert(token_view(tokens@[i as int]) == TokV::Pseudo(p@));
                proof {
                    reveal_strlit("first-child");
                    reveal_strlit("last-child");
                    assert("first-child"@ =~= first_child_name());
                    assert("last-child"@ =~= last_child_name());
                }
                if str_eq(p.as_str(), "first-child") {
                    current.first_child = true;
                } else if str_eq(p.as_str(), "last-child") {
                    current.last_child = true;
                }
            },
            SelToken::Comb(c) => {
                pending = Some(*c);
            },
        }
        assert(step(before, token_view(tokens@[i as int])) =~= (ParseState {
            parts: parts_view(parts@),
            current: current@,
            pending,
        }));
        i = i + 1;
    }
    assert(tv.take(tokens@.len() as int) =~= tv);
    if !is_default(&current) {
        let ghost pv = parts_view(parts@);
        let ghost cv = current@;
        parts.push((current, pending));
        assert(parts_view(parts@) =~= pv.push((cv, pending)));
    }
    Selector { parts }
}

/// Parses and matches a comma-separated list of selectors.
pub struct SelectorEngine {
    pub selectors: Vec<Selector>,
}

impl View for SelectorEngine {
    type V = Seq<Seq<PartV>>;

    open spec fn view(&self) -> Seq<Seq<PartV>> {
        self.selectors@.map_values(|s: Selector| s@)
    }
}

/// Whether every selector of the comma-separated list `input` can be read to its end.
pub fn is_parsable(input: &str) -> (r: bool)
    ensures
        r == parsable(input@),
{
    let cs = chars_of(input);
    let pieces = split_chars(&cs, ',');
    let ghost pv = pieces@.map_values(|v: Vec<char>| v@);
    let mut i: usize = 0;
    while i < pieces.len()
        invariant
            i <= pieces@.len(),
            pv == pieces@.map_values(|v: Vec<char>| v@),
            pv == split_char(input@, ','),
            forall|j: int| 0 <= j < i ==> #[trigger] tokenize(selector_pieces(input@)[j]) is Some,
        decreases pieces@.len() - i,
    {
        let t = trim_chars(&pieces[i]);
        let s = string_of(&t);
        assert(selector_pieces(input@)[i as int] == trim(pv[i as int]));
        if tokenize_selector(s.as_str()).is_none() {
            return false;
        }
        i = i + 1;
    }
    true
}

impl SelectorEngine {
    /// Parses a comma-separated list of selectors, each trimmed.
    pub fn parse(input: &str) -> (r: Self)
        requires
            parsable(input@),
        ensures
            r@ == parse_v(input@),
    {
        let cs = chars_of(input);
        let pieces = split_chars(&cs, ',');
        let ghost pv = pieces@.map_values(|v: Vec<char>| v@);
        let mut selectors: Vec<Selector> = Vec::new();
        let mut i: usize = 0;
        while i < pieces.len()
            invariant
                i <= pieces@.len(),
                pv == pieces@.map_values(|v: Vec<char>| v@),
                pv == split_char(input@, ','),
                parsable(input@),
                selectors@.map_values(|s: Selector| s@) == parse_v(input@).take(i as int),
            decreases pieces@.len() - i,
        {
            let t = trim_chars(&pieces[i]);
            let s = string_of(&t);
            assert(selector_pieces(input@)[i as int] == trim(pv[i as int]));
            assert(tokenize(selector_pieces(input@)[i as int]) is Some);
            let sel = parse_single_selector(s.as_str());
            let ghost before = selectors@.map_values(|s: Selector| s@);
            let ghost sv = sel@;
            assert(parse_v(input@)[i as int] == parse_single_v(selector_pieces(input@)[i as int]));
            assert(parse_v(input@).len() == pv.len());
            selectors.push(sel);
            assert(selectors@.map_values(|s: Selector| s@) =~= before.push(sv));
            assert(selectors@.map_values(|s: Selector| s@) =~= parse_v(input@).take(i + 1));
            i = i + 1;
        }
        assert(parse_v(input@).take(pieces@.len() as int) =~= parse_v(input@));
        SelectorEngine { selectors }
    }
}

// ───────────────────────────────── matching ─────────────────────────────────

/// Whether the simple selector `s` matches node `k`: an element whose tag name equals
/// the selector's ignoring ASCII case, whose `id` attribute, classes and attribute are
/// those asked for, and which is its parent's first or last child where asked.
pub open spec fn simple_matches(s: SimpleV, m: Nodes, k: u64) -> bool {
    match element_of(m, k) {
        Some(e) => {
            &&& (s.tag matches Some(t) ==> eq_ignore_case(e.tag_name@, t))
            &&& (s.id matches Some(i) ==> header_lookup(e.attributes@, seq!['i', 'd']) == Some(i))
            &&& (forall|j: int|
                0 <= j < s.classes.len() ==> #[trigger] strings_view(e.class_list@).contains(
                    s.classes[j],
                ))
            &&& (s.attr_name matches Some(n) ==> match s.attr_value {
                Some(v) => header_lookup(e.attributes@, n) == Some(v),
                None => key_index(e.attributes@, n) is Some,
            })
            &&& (s.first_child ==> (m[k].parent matches Some(p) && m[p.0].first_child == Some(
                NodeId(k),
            )))
            &&& (s.last_child ==> (m[k].parent matches Some(p) && m[p.0].last_child == Some(
                NodeId(k),
            )))
        },
        None => false,
    }
}

/// The combinator before part `idx`, a missing one read as descendant.
pub open spec fn comb_before(ps: Seq<PartV>, idx: int) -> Combinator {
    match ps[idx - 1].1 {
        Some(c) => c,
        None => Combinator::Descendant,
    }
}

/// Whether parts `0..=idx` match with part `idx` at node `k`, looking at most `width`
/// ancestors up for a descendant combinator.
pub open spec fn sel_match(ps: Seq<PartV>, m: Nodes, k: u64, idx: nat, width: nat) -> bool
    decreases idx, 0nat, 0nat,
{
    if idx >= ps.len() || !simple_matches(ps[idx as int].0, m, k) {
        false
    } else if idx == 0 {
        true
    } else {
        match comb_before(ps, idx as int) {
            Combinator::Child => match m[k].parent {
                Some(p) => m.dom().contains(p.0) && sel_match(ps, m, p.0, (idx - 1) as nat, width),
                None => false,
            },
            Combinator::Descendant => anc_match(ps, m, m[k].parent, (idx - 1) as nat, width, width),
        }
    }
}

/// Whether parts `0..=idx` match at `a` or at one of its next `budget - 1` ancestors.
pub open spec fn anc_match(
    ps: Seq<PartV>,
    m: Nodes,
    a: Option<NodeId>,
    idx: nat,
    width: nat,
    budget: nat,
) -> bool
    decreases idx, 1nat, budget,
{
    if budget == 0 {
        false
    } else {
        match a {
            Some(x) => m.dom().contains(x.0) && (sel_match(ps, m, x.0, idx, width) || anc_match(
                ps,
                m,
                m[x.0].parent,
                idx,
                width,
                (budget - 1) as nat,
            )),
            None => false,
        }
    }
}

/// Whether a selector matches node `k`: all its parts, the last one at `k`.
pub open spec fn sel_matches(ps: Seq<PartV>, m: Nodes, k: u64, width: nat) -> bool {
    ps.len() > 0 && sel_match(ps, m, k, (ps.len() - 1) as nat, width)
}

impl SimpleSelector {
    /// Whether this simple selector matches `node`.
    pub fn matches(&self, tree: &DomTree, node: NodeId) -> (r: bool)
        requires
            tree.wf(),
            tree.contains(node),
        ensures
            r == simple_matches(self@, tree.nodes(), node.0),
    {
        proof {
            reveal_strlit("id");
            assert("id"@ =~= seq!['i', 'd']);
            tree.lemma_links_in(node);
        }
        let n = tree.get_node(node);
        let el = match &n.kind {
            NodeKind::Element(e) => e,
            _ => {
                return false;
            },
        };
        match &self.tag {
            Some(tag) => {
                if !crate::text::str_eq_ignore_case(el.tag_name.as_str(), tag.as_str()) {
                    return false;
                }
            },
            None => {},
        }
        match &self.id {
            Some(id) => match el.attributes.get_value("id") {
                Some(v) => {
                    if !str_eq(v, id.as_str()) {
                        return false;
                    }
                },
                None => {
                    return false;
                },
            },
            None => {},
        }
        let mut i: usize = 0;
        while i < self.classes.len()
            invariant
                i <= self.classes@.len(),
                element_of(tree.nodes(), node.0) == Some(*el),
                forall|j: int|
                    0 <= j < i ==> #[trigger] strings_view(el.class_list@).contains(
                        self@.classes[j],
                    ),
            decreases self.classes@.len() - i,
        {
            if !crate::element::has_string(&el.class_list, self.classes[i].as_str()) {
                assert(self@.classes[i as int] == self.classes@[i as int]@);
                assert(!strings_view(el.class_list@).contains(self@.classes[i as int]));
                return false;
            }
            assert(self@.classes[i as int] == self.classes@[i as int]@);
            i = i + 1;
        }
        match &self.attr_name {
            Some(attr_name) => match &self.attr_value {
                Some(val) => match el.attributes.get_value(attr_name.as_str()) {
                    Some(v) => {
                        if !str_eq(v, val.as_str()) {
                            return false;
                        }
                    },
                    None => {
                        return false;
                    },
                },
                None => {
                    if !el.attributes.has(attr_name.as_str()) {
                        return false;
                    }
                },
            },
            None => {},
        }
        if self.first_child {
            match n.parent {
                Some(p) => {
                    let is_first = match tree.get_node(p).first_child {
                        Some(f) => f.0 == node.0,
                        None => false,
                    };
                    if !is_first {
                        return false;
                    }
                },
                None => {
                    return false;
                },
            }
        }
        if self.last_child {
            match n.parent {
                Some(p) => {
                    let is_last = match tree.get_node(p).last_child {
                        Some(f) => f.0 == node.0,
                        None => false,
                    };
                    if !is_last {
                        return false;
                    }
                },
                None => {
                    return false;
                },
            }
        }
        true
    }
}

impl Selector {
    /// Whether the selector matches `node`; an empty selector matches nothing.
    pub fn matches(&self, tree: &DomTree, node: NodeId) -> (r: bool)
        requires
            tree.wf(),
            tree.contains(node),
        ensures
            r == sel_matches(self@, tree.nodes(), node.0, tree.size()),
    {
        if self.parts.len() == 0 {
            return false;
        }
        let w = tree.node_count();
        self.match_from(tree, node, self.parts.len() - 1, w)
    }

    /// Whether parts `0..=idx` match with part `idx` at `node`.
    fn match_from(&self, tree: &DomTree, node: NodeId, idx: usize, width: usize) -> (r: bool)
        requires
            tree.wf(),
            tree.contains(node),
            idx < self@.len(),
        ensures
            r == sel_match(self@, tree.nodes(), node.0, idx as nat, width as nat),
        decreases idx,
    {
        let ghost m = tree.nodes();
        let ghost ps = self@;
        proof {
            tree.lemma_links_in(node);
        }
        if !self.parts[idx].0.matches(tree, node) {
            return false;
        }
        if idx == 0 {
            return true;
        }
        let comb = match self.parts[idx - 1].1 {
            Some(c) => c,
            None => Combinator::Descendant,
        };
        assert(comb == comb_before(ps, idx as int));
        match comb {
            Combinator::Child => match tree.get_node(node).parent {
                Some(p) => self.match_from(tree, p, idx - 1, width),
                None => false,
            },
            Combinator::Descendant => {
                let mut anc = tree.get_node(node).parent;
                let mut budget = width;
                while budget > 0 && anc.is_some()
                    invariant
                        tree.wf(),
                        m == tree.nodes(),
                        ps == self@,
                        0 < idx < ps.len(),
                        simple_matches(ps[idx as int].0, m, node.0),
                        comb_before(ps, idx as int) == Combinator::Descendant,
                        crate::tree::has(m, anc),
                        anc_match(ps, m, m[node.0].parent, (idx - 1) as nat, width as nat, width as nat)
                            == anc_match(ps, m, anc, (idx - 1) as nat, width as nat, budget as nat),
                    decreases budget,
                {
                    let a = anc.unwrap();
                    proof {
                        tree.lemma_links_in(a);
                    }
                    if self.match_from(tree, a, idx - 1, width) {
                        assert(anc_match(ps, m, anc, (idx - 1) as nat, width as nat, budget as nat));
                        return true;
                    }
                    anc = tree.get_node(a).parent;
                    budget = budget - 1;
                }
                false
            },
        }
    }
}

// ───────────────────────────────── queries ──────────────────────────────────

/// Whether node `k` is an element that one of the selectors matches.
pub open spec fn hit(sels: Seq<Seq<PartV>>, m: Nodes, k: u64, width: nat) -> bool {
    &&& m[k].kind is Element
    &&& exists|i: int| 0 <= i < sels.len() && #[trigger] sel_matches(sels[i], m, k, width)
}

/// The nodes under `k`, itself included, that the selectors match, in document order,
/// looking at most `depth` levels down and `width` siblings across.
pub open spec fn dfs(sels: Seq<Seq<PartV>>, m: Nodes, k: u64, depth: nat, width: nat) -> Seq<NodeId>
    decreases depth, 0nat, 0nat,
{
    if depth == 0 || !m.dom().contains(k) {
        seq![]
    } else {
        (if hit(sels, m, k, width) {
            seq![NodeId(k)]
        } else {
            seq![]
        }) + dfs_kids(sels, m, m[k].first_child, (depth - 1) as nat, width, width)
    }
}

/// The matches under each node of the sibling chain from `c`, at most `budget` nodes.
pub open spec fn dfs_kids(
    sels: Seq<Seq<PartV>>,
    m: Nodes,
    c: Option<NodeId>,
    depth: nat,
    width: nat,
    budget: nat,
) -> Seq<NodeId>
    decreases depth, 1nat, budget,
{
    if budget == 0 {
        seq![]
    } else {
        match c {
            Some(x) => if m.dom().contains(x.0) {
                dfs(sels, m, x.0, depth, width) + dfs_kids(
                    sels,
                    m,
                    m[x.0].next_sibling,
                    depth,
                    width,
                    (budget - 1) as nat,
                )
            } else {
                seq![]
            },
            None => seq![],
        }
    }
}

/// The first of a sequence of nodes.
pub open spec fn first_of(s: Seq<NodeId>) -> Option<NodeId> {
    if s.len() > 0 {
        Some(s[0])
    } else {
        None
    }
}

impl SelectorEngine {
    /// Whether node `node` is an element that one of the selectors matches.
    fn hits(&self, tree: &DomTree, node: NodeId) -> (r: bool)
        requires
            tree.wf(),
            tree.contains(node),
        ensures
            r == hit(self@, tree.nodes(), node.0, tree.size()),
    {
        if !tree.get_node(node).is_element() {
            return false;
        }
        let mut i: usize = 0;
        while i < self.selectors.len()
            invariant
                tree.wf(),
                tree.contains(node),
                i <= self.selectors@.len(),
                forall|j: int| 0 <= j < i ==> !#[trigger] sel_matches(self@[j], tree.nodes(), node.0, tree.size()),
            decreases self.selectors@.len() - i,
        {
            if self.selectors[i].matches(tree, node) {
                assert(sel_matches(self@[i as int], tree.nodes(), node.0, tree.size()));
                return true;
            }
            i = i + 1;
        }
        false
    }

    /// All nodes under `root`, `root` included, that one of the selectors matches, in
    /// document order.
    pub fn query_selector_all(&self, tree: &DomTree, root: NodeId) -> (r: Vec<NodeId>)
        requires
            tree.wf(),
            tree.contains(root),
        ensures
            r@ == dfs(self@, tree.nodes(), root.0, tree.size(), tree.size()),
    {
        let n = tree.node_count();
        let mut results: Vec<NodeId> = Vec::new();
        self.dfs_all(tree, root, n, &mut results);
        assert(results@ =~= seq![] + dfs(self@, tree.nodes(), root.0, tree.size(), tree.size()));
        results
    }

    fn dfs_all(&self, tree: &DomTree, node: NodeId, depth: usize, results: &mut Vec<NodeId>)
        requires
            tree.wf(),
            tree.contains(node),
        ensures
            final(results)@ == old(results)@ + dfs(self@, tree.nodes(), node.0, depth as nat, tree.size()),
        decreases depth,
    {
        let ghost m = tree.nodes();
        let ghost w = tree.size();
        if depth == 0 {
            assert(old(results)@ + seq![] =~= old(results)@);
            return;
        }
        proof {
            tree.lemma_links_in(node);
        }
        if self.hits(tree, node) {
            results.push(node);
        }
        let width = tree.node_count();
        let mut child = tree.get_node(node).first_child;
        let mut budget = width;
        proof {
            let own = if hit(self@, m, node.0, w) {
                seq![node]
            } else {
                seq![]
            };
            assert(results@ == old(results)@ + own);
            assert(old(results)@ + dfs(self@, m, node.0, depth as nat, w) =~= results@ + dfs_kids(
                self@,
                m,
                child,
                (depth - 1) as nat,
                w,
                budget as nat,
            ));
        }
        while budget > 0 && child.is_some()
            invariant
                tree.wf(),
                m == tree.nodes(),
                w == tree.size(),
                depth > 0,
                crate::tree::has(m, child),
                old(results)@ + dfs(self@, m, node.0, depth as nat, w) == results@ + dfs_kids(
                    self@,
                    m,
                    child,
                    (depth - 1) as nat,
                    w,
                    budget as nat,
                ),
            decreases budget,
        {
            let c = child.unwrap();
            proof {
                tree.lemma_links_in(c);
            }
            let ghost before = results@;
            self.dfs_all(tree, c, depth - 1, results);
            assert(before + dfs_kids(self@, m, child, (depth - 1) as nat, w, budget as nat)
                =~= results@ + dfs_kids(
                self@,
                m,
                m[c.0].next_sibling,
                (depth - 1) as nat,
                w,
                (budget - 1) as nat,
            ));
            child = tree.get_node(c).next_sibling;
            budget = budget - 1;
        }
        assert(results@ + dfs_kids(self@, m, child, (depth - 1) as nat, w, budget as nat)
            =~= results@);
    }

    /// The first node strictly under `root` that one of the selectors matches, in
    /// document order.
    pub fn query_selector(&self, tree: &DomTree, root: NodeId) -> (r: Option<NodeId>)
        requires
            tree.wf(),
            tree.contains(root),
        ensures
            r == first_of(
                dfs_kids(
                    self@,
                    tree.nodes(),
                    tree.nodes()[root.0].first_child,
                    (tree.size() - 1) as nat,
                    tree.size(),
                    tree.size(),
                ),
            ),
    {
        let ghost m = tree.nodes();
        let ghost w = tree.size();
        proof {
            tree.lemma_links_in(root);
            tree.lemma_size_pos(root);
        }
        let n = tree.node_count();
        let depth = n - 1;
        let mut child = tree.get_node(root).first_child;
        let mut budget = n;
        while budget > 0 && child.is_some()
            invariant
                tree.wf(),
                m == tree.nodes(),
                w == tree.size(),
                depth == (w - 1) as nat,
                crate::tree::has(m, child),
                first_of(dfs_kids(self@, m, m[root.0].first_child, depth as nat, w, w)) == first_of(
                    dfs_kids(self@, m, child, depth as nat, w, budget as nat),
                ),
            decreases budget,
        {
            let c = child.unwrap();
            proof {
                tree.lemma_links_in(c);
            }
            let found = self.dfs_first(tree, c, depth);
            if found.is_some() {
                return found;
            }
            child = tree.get_node(c).next_sibling;
            budget = budget - 1;
        }
        None
    }

    /// The first match under `node`, itself included.
    fn dfs_first(&self, tree: &DomTree, node: NodeId, depth: usize) -> (r: Option<NodeId>)
        requires
            tree.wf(),
            tree.contains(node),
        ensures
            r == first_of(dfs(self@, tree.nodes(), node.0, depth as nat, tree.size())),
            r is None <==> dfs(self@, tree.nodes(), node.0, depth as nat, tree.size()).len() == 0,
        decreases depth,
    {
        let ghost m = tree.nodes();
        let ghost w = tree.size();
        if depth == 0 {
            return None;
        }
        proof {
            tree.lemma_links_in(node);
        }
        if self.hits(tree, node) {
            return Some(node);
        }
        let width = tree.node_count();
        let mut child = tree.get_node(node).first_child;
        let mut budget = width;
        assert(dfs(self@, m, node.0, depth as nat, w) =~= dfs_kids(self@, m, child, (depth - 1) as nat, w, budget as nat));
        while budget > 0 && child.is_some()
            invariant
                tree.wf(),
                m == tree.nodes(),
                w == tree.size(),
                depth > 0,
                crate::tree::has(m, child),
                dfs(self@, m, node.0, depth as nat, w) == dfs_kids(
                    self@,
                    m,
                    child,
                    (depth - 1) as nat,
                    w,
                    budget as nat,
                ),
            decreases budget,
        {
            let c = child.unwrap();
            proof {
                tree.lemma_links_in(c);
            }
            let found = self.dfs_first(tree, c, depth - 1);
            if found.is_some() {
                return found;
            }
            assert(dfs_kids(self@, m, child, (depth - 1) as nat, w, budget as nat) =~= dfs_kids(
                self@,
                m,
                m[c.0].next_sibling,
                (depth - 1) as nat,
                w,
                (budget - 1) as nat,
            ));
            child = tree.get_node(c).next_sibling;
            budget = budget - 1;
        }
        None
    }

    /// All nodes under `root`, `root` included, that `selector` matches.
    pub fn select(tree: &DomTree, selector: &str, root: NodeId) -> (r: Vec<NodeId>)
        requires
            tree.wf(),
            tree.contains(root),
            parsable(selector@),
        ensures
            r@ == dfs(parse_v(selector@), tree.nodes(), root.0, tree.size(), tree.size()),
    {
        let engine = Self::parse(selector);
        engine.query_selector_all(tree, root)
    }
}

impl DomTree {
    /// The first element strictly under the `<html>` element that `selector` matches.
    pub fn query_selector(&self, selector: &str) -> (r: Option<NodeId>)
        requires
            self.wf(),
            parsable(selector@),
        ensures
            r == first_of(
                dfs_kids(
                    parse_v(selector@),
                    self.nodes(),
                    self.nodes()[self.html_id().0].first_child,
                    (self.size() - 1) as nat,
                    self.size(),
                    self.size(),
                ),
            ),
    {
        proof {
            self.lemma_roots_in();
        }
        let engine = SelectorEngine::parse(selector);
        engine.query_selector(self, self.html_node())
    }

    /// All elements under the `<html>` element, itself included, that `selector`
    /// matches, in document order.
    pub fn query_selector_all(&self, selector: &str) -> (r: Vec<NodeId>)
        requires
            self.wf(),
            parsable(selector@),
        ensures
            r@ == dfs(parse_v(selector@), self.nodes(), self.html_id().0, self.size(), self.size()),
    {
        proof {
            self.lemma_roots_in();
        }
        let engine = SelectorEngine::parse(selector);
        engine.query_selector_all(self, self.html_node())
    }
}

/// Every node a search finds is in the tree.
pub proof fn lemma_dfs_in(sels: Seq<Seq<PartV>>, m: Nodes, k: u64, depth: nat, width: nat)
    ensures
        forall|i: int|
            0 <= i < dfs(sels, m, k, depth, width).len() ==> m.dom().contains(
                #[trigger] dfs(sels, m, k, depth, width)[i].0,
            ),
    decreases depth, 0nat, 0nat,
{
    if depth > 0 && m.dom().contains(k) {
        let kids = dfs_kids(sels, m, m[k].first_child, (depth - 1) as nat, width, width);
        lemma_kids_in(sels, m, m[k].first_child, (depth - 1) as nat, width, width);
        let own = if hit(sels, m, k, width) {
            seq![NodeId(k)]
        } else {
            seq![]
        };
        let all = dfs(sels, m, k, depth, width);
        assert(all == own + kids);
        assert forall|i: int| 0 <= i < all.len() implies m.dom().contains(#[trigger] all[i].0) by {
            if i >= own.len() {
                assert(all[i] == kids[i - own.len()]);
            }
        }
    }
}

/// Every node a search of a sibling chain finds is in the tree.
pub proof fn lemma_kids_in(
    sels: Seq<Seq<PartV>>,
    m: Nodes,
    c: Option<NodeId>,
    depth: nat,
    width: nat,
    budget: nat,
)
    ensures
        forall|i: int|
            0 <= i < dfs_kids(sels, m, c, depth, width, budget).len() ==> m.dom().contains(
                #[trigger] dfs_kids(sels, m, c, depth, width, budget)[i].0,
            ),
    decreases depth, 1nat, budget,
{
    if budget > 0 {
        match c {
            Some(x) => {
                if m.dom().contains(x.0) {
                    lemma_dfs_in(sels, m, x.0, depth, width);
                    lemma_kids_in(sels, m, m[x.0].next_sibling, depth, width, (budget - 1) as nat);
                    let a = dfs(sels, m, x.0, depth, width);
                    let b = dfs_kids(sels, m, m[x.0].next_sibling, depth, width, (budget - 1) as nat);
                    let all = dfs_kids(sels, m, c, depth, width, budget);
                    assert(all == a + b);
                    assert forall|i: int| 0 <= i < all.len() implies m.dom().contains(
                        #[trigger] all[i].0,
                    ) by {
                        if i >= a.len() {
                            assert(all[i] == b[i - a.len()]);
                        } else {
                            assert(all[i] == a[i]);
                        }
                    }
                }
            },
            None => {},
        }
    }
}

/// What `query_selector` finds under a node, `query_selector_all` lists.
pub proof fn law_first_is_listed(sels: Seq<Seq<PartV>>, m: Nodes, root: u64, size: nat)
    requires
        m.dom().contains(root),
        size > 0,
    ensures
        first_of(dfs_kids(sels, m, m[root].first_child, (size - 1) as nat, size, size)) matches Some(
            n,
        ) ==> dfs(sels, m, root, size, size).contains(n),
{
    let kids = dfs_kids(sels, m, m[root].first_child, (size - 1) as nat, size, size);
    let own = if hit(sels, m, root, size) {
        seq![NodeId(root)]
    } else {
        seq![]
    };
    let all = dfs(sels, m, root, size, size);
    assert(all == own + kids);
    if kids.len() > 0 {
        assert(all[own.len() as int] == kids[0]);
    }
}


/// A simple selector matches only an element, and only one that has every class the
/// selector names, the id it names and a tag name equal to its tag ignoring ASCII case:
/// a selector asking for classes `a` and `b` does not match an element of class `a`
/// alone.
pub proof fn law_simple_selector_needs_all(s: SimpleV, m: Nodes, k: u64, c: Seq<char>)
    ensures
        simple_matches(s, m, k) ==> m[k].kind is Element,
        simple_matches(s, m, k) && s.classes.contains(c) ==> strings_view(m[k].kind->Element_0.class_list@).contains(c),
        simple_matches(s, m, k) && s.id is Some ==> header_lookup(m[k].kind->Element_0.attributes@, seq!['i', 'd'])
            == s.id,
        simple_matches(s, m, k) && s.tag is Some ==> eq_ignore_case(m[k].kind->Element_0.tag_name@, s.tag->0),
{
    if simple_matches(s, m, k) && s.classes.contains(c) {
        let j = choose|j: int| 0 <= j < s.classes.len() && s.classes[j] == c;
        assert(strings_view(element_of(m, k)->0.class_list@).contains(s.classes[j]));
    }
}

/// A selector matches a node only where its last simple selector does.
pub proof fn law_selector_last_part(ps: Seq<PartV>, m: Nodes, k: u64, width: nat)
    ensures
        sel_matches(ps, m, k, width) ==> simple_matches(ps.last().0, m, k),
{
}

/// The selector with no condition at all.
pub open spec fn universal_simple() -> SimpleV {
    SimpleV {
        tag: None,
        id: None,
        classes: Seq::empty(),
        attr_name: None,
        attr_value: None,
        first_child: false,
        last_child: false,
    }
}

/// The universal selector matches exactly the element nodes.
pub proof fn law_universal_matches_elements(m: Nodes, k: u64)
    ensures
        simple_matches(universal_simple(), m, k) <==> m[k].kind is Element,
{
}

/// Adding a class to a simple selector narrows it to the elements that carry that
/// class: the wider selector must match and the class must be in the class list.
pub proof fn law_added_class_narrows(s: SimpleV, c: Seq<char>, m: Nodes, k: u64)
    ensures
        simple_matches(SimpleV { classes: s.classes.push(c), ..s }, m, k) <==> (simple_matches(s, m, k)
            && strings_view(m[k].kind->Element_0.class_list@).contains(c)),
{
    let t = SimpleV { classes: s.classes.push(c), ..s };
    if simple_matches(t, m, k) {
        assert forall|j: int| 0 <= j < s.classes.len() implies #[trigger] strings_view(
            element_of(m, k)->0.class_list@,
        ).contains(s.classes[j]) by {
            assert(t.classes[j] == s.classes[j]);
        }
        assert(t.classes[s.classes.len() as int] == c);
    }
    if simple_matches(s, m, k) && m[k].kind is Element && strings_view(
        m[k].kind->Element_0.class_list@,
    ).contains(c) {
        assert forall|j: int| 0 <= j < t.classes.len() implies #[trigger] strings_view(
            element_of(m, k)->0.class_list@,
        ).contains(t.classes[j]) by {
            if j < s.classes.len() {
                assert(t.classes[j] == s.classes[j]);
            }
        }
    }
}

/// Adding a tag name narrows a tag-less simple selector to the elements of that name,
/// compared without regard to ASCII case.
pub proof fn law_added_tag_narrows(s: SimpleV, t: Seq<char>, m: Nodes, k: u64)
    requires
        s.tag is None,
    ensures
        simple_matches(SimpleV { tag: Some(t), ..s }, m, k) <==> (simple_matches(s, m, k)
            && eq_ignore_case(m[k].kind->Element_0.tag_name@, t)),
{
}

/// Adding an id narrows an id-less simple selector to the elements whose `id`
/// attribute is that id.
pub proof fn law_added_id_narrows(s: SimpleV, i: Seq<char>, m: Nodes, k: u64)
    requires
        s.id is None,
    ensures
        simple_matches(SimpleV { id: Some(i), ..s }, m, k) <==> (simple_matches(s, m, k)
            && header_lookup(m[k].kind->Element_0.attributes@, seq!['i', 'd']) == Some(i)),
{
}

/// Adding `[name]` narrows an attribute-less simple selector to the elements that have
/// the attribute, and `[name=value]` to those where it has that value.
pub proof fn law_added_attribute_narrows(
    s: SimpleV,
    n: Seq<char>,
    v: Option<Seq<char>>,
    m: Nodes,
    k: u64,
)
    requires
        s.attr_name is None,
    ensures
        simple_matches(SimpleV { attr_name: Some(n), attr_value: v, ..s }, m, k) <==> (
        simple_matches(s, m, k) && match v {
            Some(val) => header_lookup(m[k].kind->Element_0.attributes@, n) == Some(val),
            None => key_index(m[k].kind->Element_0.attributes@, n) is Some,
        }),
{
}

/// `:first-child` and `:last-child` narrow a simple selector to the elements that are
/// the first, or the last, child of their parent.
pub proof fn law_added_position_narrows(s: SimpleV, m: Nodes, k: u64)
    ensures
        simple_matches(SimpleV { first_child: true, ..s }, m, k) <==> (simple_matches(s, m, k)
            && (m[k].parent matches Some(p) && m[p.0].first_child == Some(NodeId(k)))),
        simple_matches(SimpleV { last_child: true, ..s }, m, k) <==> (simple_matches(s, m, k)
            && (m[k].parent matches Some(p) && m[p.0].last_child == Some(NodeId(k)))),
{
    let f = SimpleV { first_child: true, ..s };
    let l = SimpleV { last_child: true, ..s };
    assert(f.classes == s.classes && l.classes == s.classes);
    if m[k].kind is Element {
        assert(simple_matches(f, m, k) == (simple_matches(s, m, k) && (m[k].parent matches Some(p)
            && m[p.0].first_child == Some(NodeId(k)))));
    }
}

} // verus!

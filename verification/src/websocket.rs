//! The WebSocket instances of a script environment: creating them (refused for an
//! empty URL or a private address), closing them, and reading what the connection
//! delivered; the connection itself is run by the caller.
use vstd::prelude::*;
use crate::fetch::fetch_blocked;
use crate::ssrf::url_targets_private_ip;
use crate::dom_script::{json_string, json_quoted};
use crate::interceptor::{decimal, push_decimal};
use crate::text::{string_push, string_push_str, string_of, chars_of, starts_with, slice_skip, strings_view, join};

verus! {

/// One connection's state.
pub struct WsState {
    pub url: String,
    /// 0 connecting, 2 closing, 3 closed.
    pub ready_state: u16,
    /// Whether messages can still be sent.
    pub sending: bool,
    pub buffered: Vec<String>,
    pub closed: bool,
    pub close_code: u16,
    pub close_reason: String,
    pub error: Option<String>,
}

/// A connection's state as values.
pub struct WsV {
    pub url: Seq<char>,
    pub ready_state: u16,
    pub sending: bool,
    pub buffered: Seq<Seq<char>>,
    pub closed: bool,
    pub close_code: u16,
    pub close_reason: Seq<char>,
    pub error: Option<Seq<char>>,
}

impl View for WsState {
    type V = WsV;

    open spec fn view(&self) -> WsV {
        WsV {
            url: self.url@,
            ready_state: self.ready_state,
            sending: self.sending,
            buffered: strings_view(self.buffered@),
            closed: self.closed,
            close_code: self.close_code,
            close_reason: self.close_reason@,
            error: crate::cookie::opt_view(self.error),
        }
    }
}

pub type WsTableV = Seq<(u64, WsV)>;

pub open spec fn ws_pos(t: WsTableV, id: u64) -> Option<int>
    decreases t.len(),
{
    if t.len() == 0 {
        None
    } else if t[0].0 == id {
        Some(0)
    } else {
        match ws_pos(t.drop_first(), id) {
            Some(i) => Some(i + 1),
            None => None,
        }
    }
}

pub open spec fn ws_get(t: WsTableV, id: u64) -> Option<WsV> {
    match ws_pos(t, id) {
        Some(i) => Some(t[i].1),
        None => None,
    }
}

pub open spec fn ws_put(t: WsTableV, id: u64, s: WsV) -> WsTableV {
    match ws_pos(t, id) {
        Some(i) => t.update(i, (id, s)),
        None => t,
    }
}

proof fn lemma_ws_pos(t: WsTableV, id: u64)
    ensures
        ws_pos(t, id) matches Some(i) ==> 0 <= i < t.len() && t[i].0 == id,
        ws_pos(t, id) is None ==> forall|j: int| 0 <= j < t.len() ==> t[j].0 != id,
    decreases t.len(),
{
    if t.len() > 0 {
        lemma_ws_pos(t.drop_first(), id);
        if t[0].0 != id {
            assert forall|j: int| 1 <= j < t.len() implies t[j] == t.drop_first()[j - 1] by {}
        }
    }
}

/// A new connection to `url`: connecting, able to send, nothing received.
pub open spec fn fresh_ws(url: Seq<char>) -> WsV {
    WsV {
        url,
        ready_state: 0,
        sending: true,
        buffered: seq![],
        closed: false,
        close_code: 0,
        close_reason: seq![],
        error: None,
    }
}

/// The marker the connection sends when it has ended.
pub open spec fn closed_marker() -> Seq<char> {
    seq!['_', '_', 'c', 'l', 'o', 's', 'e', 'd', '_', '_']
}

/// The prefix of the connection's error reports.
pub open spec fn error_prefix() -> Seq<char> {
    seq!['_', '_', 'e', 'r', 'r', 'o', 'r', '_', '_', ':']
}

/// The state after one message from the connection: the end marker closes it, an error
/// report records the error, anything else is buffered.
pub open spec fn ws_receive(s: WsV, msg: Seq<char>) -> WsV {
    if msg == closed_marker() {
        WsV { closed: true, ready_state: 3, ..s }
    } else if error_prefix().is_prefix_of(msg) {
        WsV { error: Some(msg.skip(10)), ..s }
    } else {
        WsV { buffered: s.buffered.push(msg), ..s }
    }
}

pub open spec fn ws_receive_all(s: WsV, msgs: Seq<Seq<char>>) -> WsV
    decreases msgs.len(),
{
    if msgs.len() == 0 {
        s
    } else {
        ws_receive(ws_receive_all(s, msgs.drop_last()), msgs.last())
    }
}

/// What a poll reports: the messages received since the last poll, the error, whether
/// the connection is closed, and the close code and reason.
pub struct WsPoll {
    pub messages: Vec<String>,
    pub error: Option<String>,
    pub closed: bool,
    pub code: u16,
    pub reason: String,
}

/// The report as a JSON object (keys in sorted order, as serde_json writes a map).
pub open spec fn poll_json_text(messages: Seq<Seq<char>>, error: Option<Seq<char>>, closed: bool, code: u16, reason: Seq<char>) -> Seq<char> {
    "{\"closed\":"@ + (if closed { "true"@ } else { "false"@ }) + ",\"code\":"@ + decimal(code as nat)
        + ",\"error\":"@ + (match error {
        Some(e) => json_quoted(e),
        None => "null"@,
    }) + ",\"messages\":["@ + join(messages.map_values(|m: Seq<char>| json_quoted(m)), seq![','])
        + "],\"reason\":"@ + json_quoted(reason) + "}"@
}

impl WsPoll {
    /// The report as JSON.
    pub fn to_json(&self) -> (r: String)
        ensures
            r@ == poll_json_text(
                strings_view(self.messages@),
                crate::cookie::opt_view(self.error),
                self.closed,
                self.code,
                self.reason@,
            ),
    {
        let ghost pieces = strings_view(self.messages@).map_values(|m: Seq<char>| json_quoted(m));
        let mut out = String::new();
        string_push_str(&mut out, "{\"closed\":");
        if self.closed {
            string_push_str(&mut out, "true");
        } else {
            string_push_str(&mut out, "false");
        }
        string_push_str(&mut out, ",\"code\":");
        push_decimal(&mut out, self.code as usize);
        string_push_str(&mut out, ",\"error\":");
        match &self.error {
            Some(e) => string_push_str(&mut out, json_string(e.as_str()).as_str()),
            None => string_push_str(&mut out, "null"),
        }
        string_push_str(&mut out, ",\"messages\":[");
        let ghost start = out@;
        let mut i: usize = 0;
        while i < self.messages.len()
            invariant
                i <= self.messages@.len(),
                pieces == strings_view(self.messages@).map_values(|m: Seq<char>| json_quoted(m)),
                out@ == start + join(pieces.take(i as int), seq![',']),
            decreases self.messages@.len() - i,
        {
            assert(pieces.take(i + 1).drop_last() =~= pieces.take(i as int));
            if i > 0 {
                string_push(&mut out, ',');
            }
            string_push_str(&mut out, json_string(self.messages[i].as_str()).as_str());
            proof {
                if i == 0 {
                    assert(pieces.take(1) =~= seq![pieces[0]]);
                }
            }
            assert(out@ =~= start + join(pieces.take(i + 1), seq![',']));
            i = i + 1;
        }
        assert(pieces.take(self.messages@.len() as int) =~= pieces);
        string_push_str(&mut out, "],\"reason\":");
        string_push_str(&mut out, json_string(self.reason.as_str()).as_str());
        string_push_str(&mut out, "}");
        assert(out@ =~= poll_json_text(
            strings_view(self.messages@),
            crate::cookie::opt_view(self.error),
            self.closed,
            self.code,
            self.reason@,
        ));
        out
    }
}

/// The connections of a script environment and the next connection id.
pub struct WsTable {
    conns: Vec<(u64, WsState)>,
    next_id: u64,
}

impl View for WsTable {
    type V = WsTableV;

    closed spec fn view(&self) -> WsTableV {
        self.conns@.map_values(|e: (u64, WsState)| (e.0, e.1@))
    }
}

impl WsTable {
    pub closed spec fn next(&self) -> u64 {
        self.next_id
    }

    /// Every connection id is below the next one.
    pub closed spec fn wf(&self) -> bool {
        forall|j: int| 0 <= j < self.conns@.len() ==> #[trigger] self.conns@[j].0 < self.next_id
    }

    /// No connections; ids start at 1.
    pub fn new() -> (r: Self)
        ensures
            r.wf(),
            r@ == Seq::<(u64, WsV)>::empty(),
            r.next() == 1,
    {
        let r = WsTable { conns: Vec::new(), next_id: 1 };
        assert(r@ =~= Seq::<(u64, WsV)>::empty());
        r
    }

    fn find(&self, id: u64) -> (r: Option<usize>)
        ensures
            match r {
                Some(i) => ws_pos(self@, id) == Some(i as int) && i < self@.len(),
                None => ws_pos(self@, id) is None,
            },
    {
        let ghost v = self@;
        let mut i: usize = 0;
        assert(v.skip(0) =~= v);
        while i < self.conns.len()
            invariant
                i <= self.conns@.len(),
                v == self@,
                v.len() == self.conns@.len(),
                ws_pos(v, id) == match ws_pos(v.skip(i as int), id) {
                    Some(p) => Some(p + i),
                    None => None,
                },
            decreases self.conns@.len() - i,
        {
            assert(v.skip(i as int).drop_first() =~= v.skip(i + 1));
            assert(v.skip(i as int)[0] == v[i as int]);
            assert(v[i as int].0 == self.conns@[i as int].0);
            if self.conns[i].0 == id {
                return Some(i);
            }
            i = i + 1;
        }
        None
    }

    /// A new connection to `url`, or `None` for an empty URL or one whose host is a
    /// private literal address.
    pub fn create(&mut self, url: &str) -> (r: Option<u64>)
        requires
            old(self).wf(),
            old(self).next() < u64::MAX,
        ensures
            final(self).wf(),
            r is None <==> (url@.len() == 0 || fetch_blocked(url@)),
            r is None ==> final(self)@ == old(self)@ && final(self).next() == old(self).next(),
            r matches Some(id) ==> {
                &&& id == old(self).next()
                &&& final(self).next() == id + 1
                &&& ws_pos(old(self)@, id) is None
                &&& final(self)@ == old(self)@.push((id, fresh_ws(url@)))
            },
    {
        if url.is_empty() || url_targets_private_ip(url) {
            return None;
        }
        proof {
            lemma_ws_pos(self@, self.next_id);
        }
        let id = self.next_id;
        let s = WsState {
            url: url.to_owned(),
            ready_state: 0,
            sending: true,
            buffered: Vec::new(),
            closed: false,
            close_code: 0,
            close_reason: String::new(),
            error: None,
        };
        assert(strings_view(s.buffered@) =~= Seq::<Seq<char>>::empty());
        assert(s@ =~= fresh_ws(url@));
        self.conns.push((id, s));
        self.next_id = id + 1;
        assert(self@ =~= old(self)@.push((id, fresh_ws(url@))));
        Some(id)
    }

    /// Whether a message may be sent on connection `id`: it exists and was not closed.
    pub fn can_send(&self, id: u64) -> (r: bool)
        ensures
            r == match ws_get(self@, id) {
                Some(s) => s.sending,
                None => false,
            },
    {
        proof {
            lemma_ws_pos(self@, id);
        }
        match self.find(id) {
            Some(i) => self.conns[i].1.sending,
            None => false,
        }
    }

    /// The ready state of connection `id`; 3 (closed) for an unknown one.
    pub fn ready_state(&self, id: u64) -> (r: u16)
        ensures
            r == match ws_get(self@, id) {
                Some(s) => s.ready_state,
                None => 3,
            },
    {
        proof {
            lemma_ws_pos(self@, id);
        }
        match self.find(id) {
            Some(i) => self.conns[i].1.ready_state,
            None => 3,
        }
    }

    /// `close(code, reason)`: closing, with the code and reason; no more sending.
    pub fn close(&mut self, id: u64, code: u16, reason: &str)
        ensures
            final(self).next() == old(self).next(),
            old(self).wf() ==> final(self).wf(),
            final(self)@ == match ws_get(old(self)@, id) {
                Some(s) => ws_put(
                    old(self)@,
                    id,
                    WsV { ready_state: 2, close_code: code, close_reason: reason@, sending: false, ..s },
                ),
                None => old(self)@,
            },
    {
        proof {
            lemma_ws_pos(old(self)@, id);
        }
        match self.find(id) {
            Some(i) => {
                let (k, mut s) = self.conns.remove(i);
                s.ready_state = 2;
                s.close_code = code;
                s.close_reason = reason.to_owned();
                s.sending = false;
                self.conns.insert(i, (k, s));
                assert(self@ =~= ws_put(
                    old(self)@,
                    id,
                    WsV { ready_state: 2, close_code: code, close_reason: reason@, sending: false, ..old(self)@[i as int].1 },
                ));
            },
            None => {},
        }
    }

    /// The connection task of `id` has ended: closed.
    pub fn finish(&mut self, id: u64)
        ensures
            final(self).next() == old(self).next(),
            old(self).wf() ==> final(self).wf(),
            final(self)@ == match ws_get(old(self)@, id) {
                Some(s) => ws_put(old(self)@, id, WsV { ready_state: 3, closed: true, ..s }),
                None => old(self)@,
            },
    {
        proof {
            lemma_ws_pos(old(self)@, id);
        }
        match self.find(id) {
            Some(i) => {
                let (k, mut s) = self.conns.remove(i);
                s.ready_state = 3;
                s.closed = true;
                self.conns.insert(i, (k, s));
                assert(self@ =~= ws_put(old(self)@, id, WsV { ready_state: 3, closed: true, ..old(self)@[i as int].1 }));
            },
            None => {},
        }
    }

    /// Takes in what the connection delivered (`incoming`, in order) and reports: the
    /// buffered messages, which are handed out and cleared, the error, whether it is
    /// closed, the close code and reason. An unknown connection reports no messages,
    /// `Connection not found`, closed, code 1006.
    pub fn poll(&mut self, id: u64, incoming: &Vec<String>) -> (r: WsPoll)
        ensures
            final(self).next() == old(self).next(),
            old(self).wf() ==> final(self).wf(),
            match ws_get(old(self)@, id) {
                Some(s) => {
                    let s2 = ws_receive_all(s, strings_view(incoming@));
                    &&& final(self)@ == ws_put(old(self)@, id, WsV { buffered: seq![], ..s2 })
                    &&& strings_view(r.messages@) == s2.buffered
                    &&& crate::cookie::opt_view(r.error) == s2.error
                    &&& r.closed == s2.closed
                    &&& r.code == s2.close_code
                    &&& r.reason@ == s2.close_reason
                },
                None => {
                    &&& final(self)@ == old(self)@
                    &&& r.messages@.len() == 0
                    &&& crate::cookie::opt_view(r.error) == Some("Connection not found"@)
                    &&& r.closed
                    &&& r.code == 1006
                    &&& r.reason@.len() == 0
                },
            },
    {
        proof {
            lemma_ws_pos(old(self)@, id);
            reveal_strlit("");
        }
        let i = match self.find(id) {
            Some(i) => i,
            None => {
                return WsPoll {
                    messages: Vec::new(),
                    error: Some("Connection not found".to_owned()),
                    closed: true,
                    code: 1006,
                    reason: "".to_owned(),
                };
            },
        };
        let (k, mut s) = self.conns.remove(i);
        let ghost s0 = s@;
        let ghost iv = strings_view(incoming@);
        let marker = string_of(&['_', '_', 'c', 'l', 'o', 's', 'e', 'd', '_', '_']);
        let prefix = ['_', '_', 'e', 'r', 'r', 'o', 'r', '_', '_', ':'];
        assert(prefix@ =~= error_prefix());
        let mut j: usize = 0;
        while j < incoming.len()
            invariant
                j <= incoming@.len(),
                iv == strings_view(incoming@),
                marker@ == closed_marker(),
                prefix@ == error_prefix(),
                s@ == ws_receive_all(s0, iv.take(j as int)),
            decreases incoming@.len() - j,
        {
            assert(iv.take(j + 1).drop_last() =~= iv.take(j as int));
            assert(iv.take(j + 1).last() == incoming@[j as int]@);
            let msg = incoming[j].as_str();
            if crate::text::str_eq(msg, marker.as_str()) {
                s.closed = true;
                s.ready_state = 3;
            } else {
                let cs = chars_of(msg);
                if starts_with(&cs, &prefix) {
                    let rest = slice_skip(&cs, 10);
                    s.error = Some(string_of(&rest));
                } else {
                    let ghost b = strings_view(s.buffered@);
                    s.buffered.push(incoming[j].clone());
                    assert(strings_view(s.buffered@) =~= b.push(incoming@[j as int]@));
                }
            }
            assert(s@ =~= ws_receive_all(s0, iv.take(j + 1)));
            j = j + 1;
        }
        assert(iv.take(incoming@.len() as int) =~= iv);
        let mut messages: Vec<String> = Vec::new();
        std::mem::swap(&mut messages, &mut s.buffered);
        assert(strings_view(s.buffered@) =~= Seq::<Seq<char>>::empty());
        let r = WsPoll {
            messages,
            error: match &s.error {
                Some(e) => Some(e.clone()),
                None => None,
            },
            closed: s.closed,
            code: s.close_code,
            reason: s.close_reason.clone(),
        };
        self.conns.insert(i, (k, s));
        assert(self@ =~= ws_put(old(self)@, id, WsV { buffered: seq![], ..ws_receive_all(old(self)@[i as int].1, iv) }));
        r
    }
}

} // verus!

//! The conversation of the proxy with one client: it reads a request head, lets `CONNECT` to an
//! allowed host through, and answers everything else with a refusal.

use vstd::prelude::*;
use vstd::utf8::*;

use crate::matcher;
use crate::matcher::Allowlist;
use crate::os;
use crate::policy::HostShape;
use crate::text;

verus! {

/// The configuration of a proxy.
#[derive(Debug)]
pub struct ProxyConfig {
    /// The patterns of the hosts that it connects to: `"example.com"`, `"*.x.com"`,
    /// `"**.x.com"`, `"*"`.
    pub allowlist: Vec<String>,
}

impl ProxyConfig {
    /// The allowlist of the configuration.
    pub fn parse(&self) -> (r: Allowlist)
        ensures
            r.deep_view() == matcher::shapes_of(self.allowlist.deep_view()),
    {
        let patterns: &[String] = self.allowlist.as_slice();
        assert(patterns.deep_view() =~= self.allowlist.deep_view());
        Allowlist::parse(patterns)
    }
}

// ---------------------------------------------------------------------------
// The request head
// ---------------------------------------------------------------------------

/// The bytes that end a request head: an empty line.
pub open spec fn blank_line() -> Seq<u8> {
    seq![13u8, 10u8, 13u8, 10u8]
}

/// The most bytes that are read in search of the end of a request head.
pub const MAX_HEAD: usize = 16384;

/// Where `needle` first stands in `hay`, at or after `from`.
pub open spec fn first_at(hay: Seq<u8>, needle: Seq<u8>, from: nat) -> Option<nat>
    decreases hay.len() - from,
{
    if from >= hay.len() {
        None
    } else if text::occurs_at(hay, needle, from as int) {
        Some(from)
    } else {
        first_at(hay, needle, from + 1)
    }
}

/// Where the request head ends: after the first empty line; or, where none came and too much was
/// read already, at the end. `None` where more has to be read.
pub open spec fn head_end(buf: Seq<u8>) -> Option<nat> {
    match first_at(buf, blank_line(), 0) {
        Some(at) => Some(at + 4),
        None => if buf.len() > MAX_HEAD {
            Some(buf.len())
        } else {
            None
        },
    }
}

/// Whether an empty line stands at a position.
fn blank_at(buf: &Vec<u8>, at: usize) -> (r: bool)
    requires
        at < buf@.len(),
    ensures
        r == text::occurs_at(buf@, blank_line(), at as int),
{
    let n: usize = buf.len();
    if n - at < 4 {
        return false;
    }
    let r: bool = buf[at] == 13 && buf[at + 1] == 10 && buf[at + 2] == 13 && buf[at + 3] == 10;
    proof {
        let part = buf@.subrange(at as int, at + 4);
        if r {
            assert(part =~= blank_line());
        } else if part == blank_line() {
            assert(part[0] == 13 && part[1] == 10 && part[2] == 13 && part[3] == 10);
        }
    }
    r
}

/// What a client has sent so far.
#[derive(Debug)]
pub struct RequestHead {
    pub buf: Vec<u8>,
}

impl RequestHead {
    /// Nothing yet.
    pub fn new() -> (r: Self)
        ensures
            r.buf@ == Seq::<u8>::empty(),
    {
        RequestHead { buf: Vec::new() }
    }

    /// Takes what was read next. Returns where the request head ends, or `None` where more has
    /// to be read.
    pub fn feed(&mut self, chunk: &[u8]) -> (r: Option<usize>)
        ensures
            final(self).buf@ == old(self).buf@ + chunk@,
            match head_end(final(self).buf@) {
                Some(end) => r matches Some(e) && e == end,
                None => r is None,
            },
            r matches Some(e) ==> e <= final(self).buf@.len(),
    {
        os::append_bytes(&mut self.buf, chunk);
        let n: usize = self.buf.len();
        let mut at: usize = 0;
        while at < n
            invariant
                at <= n,
                n == self.buf@.len(),
                self.buf@ == old(self).buf@ + chunk@,
                first_at(self.buf@, blank_line(), 0) == first_at(
                    self.buf@,
                    blank_line(),
                    at as nat,
                ),
            decreases n - at,
        {
            if blank_at(&self.buf, at) {
                return Some(at + 4);
            }
            at = at + 1;
        }
        if n > MAX_HEAD {
            Some(n)
        } else {
            None
        }
    }

    /// What the client sent after the head, which is for the host that it connects to.
    pub fn payload(&self, head_end: usize) -> (r: Vec<u8>)
        requires
            head_end <= self.buf@.len(),
        ensures
            r@ == self.buf@.skip(head_end as int),
    {
        let r: Vec<u8> = os::copy_bytes(self.buf.as_slice(), head_end, self.buf.len());
        assert(r@ =~= self.buf@.skip(head_end as int));
        r
    }
}

// ---------------------------------------------------------------------------
// The decision
// ---------------------------------------------------------------------------

/// The first line of a text. A carriage return at its end is white space like any other.
pub open spec fn first_line(s: Seq<char>) -> Seq<char> {
    text::take_lead(s, text::other_than('\n'))
}

/// The first word of a text.
pub open spec fn first_word(s: Seq<char>) -> Seq<char> {
    text::take_lead(text::drop_lead(s, text::white()), text::inked())
}

/// What follows the first word of a text.
pub open spec fn after_word(s: Seq<char>) -> Seq<char> {
    text::drop_lead(text::drop_lead(s, text::white()), text::inked())
}

/// The method of a request.
pub open spec fn method_of(head: Seq<char>) -> Seq<char> {
    first_word(first_line(head))
}

/// The target of a request: a host and a port.
pub open spec fn target_of(head: Seq<char>) -> Seq<char> {
    first_word(after_word(first_line(head)))
}

/// Whether a request asks for a connection, in whatever case.
pub open spec fn asks_to_connect(head: Seq<char>) -> bool {
    text::ascii_lower(method_of(head)) == "connect"@
}

/// What the proxy does with a request.
#[derive(Debug, PartialEq, Eq)]
pub enum ConnectDecision {
    /// It is not a `CONNECT`: refused, as nothing else is proxied.
    NotConnect,
    /// The host is not allowed: refused.
    Deny { target: String },
    /// To be connected to the target.
    Connect { target: String },
}

/// Splits the first word off: its characters, and what follows it.
fn split_word(cs: &[char]) -> (r: (Vec<char>, Vec<char>))
    ensures
        r.0@ == first_word(cs@),
        r.1@ == after_word(cs@),
{
    let mut a: usize = 0;
    while a < cs.len() && text::is_white_space(cs[a])
        invariant
            a <= cs@.len(),
            forall|i: int| 0 <= i < a ==> text::is_white(#[trigger] cs@[i]),
        decreases cs@.len() - a,
    {
        a = a + 1;
    }
    proof {
        text::lemma_lead(cs@, text::white(), a as nat);
    }
    let ghost rest = cs@.skip(a as int);
    let mut b: usize = a;
    while b < cs.len() && !text::is_white_space(cs[b])
        invariant
            a <= b <= cs@.len(),
            forall|i: int| a <= i < b ==> !text::is_white(#[trigger] cs@[i]),
        decreases cs@.len() - b,
    {
        b = b + 1;
    }
    proof {
        assert forall|i: int| 0 <= i < b - a implies (text::inked())(#[trigger] rest[i]) by {
            assert(rest[i] == cs@[i + a]);
        }
        text::lemma_lead(rest, text::inked(), (b - a) as nat);
        assert(rest.take(b - a) =~= cs@.subrange(a as int, b as int));
        assert(rest.skip(b - a) =~= cs@.subrange(b as int, cs@.len() as int));
    }
    (text::copy_range(cs, a, b), text::copy_range(cs, b, cs.len()))
}

/// Decides what the proxy does with a request, by the text of its head.
pub fn decide(head: &str, allow: &Allowlist) -> (r: ConnectDecision)
    ensures
        match r {
            ConnectDecision::NotConnect => !asks_to_connect(head@),
            ConnectDecision::Deny { target } => {
                &&& asks_to_connect(head@)
                &&& target@ == target_of(head@)
                &&& !matcher::list_allows(allow.deep_view(), target@)
            },
            ConnectDecision::Connect { target } => {
                &&& asks_to_connect(head@)
                &&& target@ == target_of(head@)
                &&& matcher::list_allows(allow.deep_view(), target@)
            },
        },
{
    let cs: Vec<char> = text::chars_of(head);
    let end: usize = text::lead_before(cs.as_slice(), '\n');
    let line: Vec<char> = text::copy_range(cs.as_slice(), 0, end);
    assert(line@ =~= first_line(head@));
    let (method, rest) = split_word(line.as_slice());
    let (target, _) = split_word(rest.as_slice());
    let wanted: Vec<char> = text::chars_of("connect");
    if !text::same_chars(text::to_ascii_lower(method.as_slice()).as_slice(), wanted.as_slice()) {
        return ConnectDecision::NotConnect;
    }
    let target: String = text::string_of(target.as_slice());
    if allow.allows(target.as_str()) {
        ConnectDecision::Connect { target }
    } else {
        ConnectDecision::Deny { target }
    }
}

/// Decides what the proxy does with a request, by the bytes of its head.
pub fn decide_head(head: &[u8], allow: &Allowlist) -> (r: ConnectDecision)
    ensures
        match r {
            ConnectDecision::NotConnect => !asks_to_connect(os::text_of(head@)),
            ConnectDecision::Deny { target } => {
                &&& asks_to_connect(os::text_of(head@))
                &&& target@ == target_of(os::text_of(head@))
                &&& !matcher::list_allows(allow.deep_view(), target@)
            },
            ConnectDecision::Connect { target } => {
                &&& asks_to_connect(os::text_of(head@))
                &&& target@ == target_of(os::text_of(head@))
                &&& matcher::list_allows(allow.deep_view(), target@)
            },
        },
{
    decide(os::bytes_to_text(head).as_str(), allow)
}

/// What a client is told that asks for anything but a connection.
pub open spec fn not_proxied() -> Seq<char> {
    "HTTP/1.1 405 Method Not Allowed\r\n\r\nplain HTTP not proxied in this phase\r\n"@
}

/// What a client is told that asks for a host that is not allowed.
pub open spec fn forbidden() -> Seq<char> {
    "HTTP/1.1 403 Forbidden\r\n\r\n"@
}

/// What the client is told when its request is refused.
pub open spec fn refusal_text(d: ConnectDecision) -> Option<Seq<char>> {
    match d {
        ConnectDecision::NotConnect => Some(not_proxied()),
        ConnectDecision::Deny { .. } => Some(forbidden()),
        ConnectDecision::Connect { .. } => None,
    }
}

impl ConnectDecision {
    /// What the client is told when its request is refused.
    pub fn refusal(&self) -> (r: Option<String>)
        ensures
            r.deep_view() == refusal_text(*self),
    {
        match self {
            ConnectDecision::NotConnect => Some(
                "HTTP/1.1 405 Method Not Allowed\r\n\r\nplain HTTP not proxied in this phase\r\n".to_owned(),
            ),
            ConnectDecision::Deny { .. } => Some("HTTP/1.1 403 Forbidden\r\n\r\n".to_owned()),
            ConnectDecision::Connect { .. } => None,
        }
    }
}

/// What the client is told after the attempt to connect.
pub fn connect_reply(connected: bool) -> (r: String)
    ensures
        connected ==> r@ == "HTTP/1.1 200 Connection Established\r\n\r\n"@,
        !connected ==> r@ == "HTTP/1.1 502 Bad Gateway\r\n\r\n"@,
{
    if connected {
        "HTTP/1.1 200 Connection Established\r\n\r\n".to_owned()
    } else {
        "HTTP/1.1 502 Bad Gateway\r\n\r\n".to_owned()
    }
}

// ---------------------------------------------------------------------------
// The conversation
// ---------------------------------------------------------------------------

/// What the proxy does next.
#[derive(Debug, PartialEq, Eq)]
pub enum Action {
    /// Reads on.
    ReadMore,
    /// Ends the conversation without a word.
    Close,
    /// Tells the client why it is refused, and ends the conversation. `denied` is the target,
    /// where it was that which was refused.
    Refuse { reply: String, denied: Option<String> },
    /// Connects to the target, and comes back with how that went.
    Dial { target: String },
    /// Tells the client that it is connected, sends the payload on, and copies both ways from
    /// then on.
    Tunnel { reply: String, payload: Vec<u8> },
}

/// An action as a mathematical value.
pub enum Reaction {
    ReadMore,
    Close,
    Refuse { reply: Seq<char>, denied: Option<Seq<char>> },
    Dial { target: Seq<char> },
    Tunnel { reply: Seq<char>, payload: Seq<u8> },
}

impl DeepView for Action {
    type V = Reaction;

    open spec fn deep_view(&self) -> Reaction {
        match self {
            Action::ReadMore => Reaction::ReadMore,
            Action::Close => Reaction::Close,
            Action::Refuse { reply, denied } => Reaction::Refuse {
                reply: reply@,
                denied: denied.deep_view(),
            },
            Action::Dial { target } => Reaction::Dial { target: target@ },
            Action::Tunnel { reply, payload } => Reaction::Tunnel {
                reply: reply@,
                payload: payload@,
            },
        }
    }
}

/// What the proxy does with all that a client has sent so far.
pub open spec fn reaction(sent: Seq<u8>, patterns: Seq<HostShape>) -> Reaction {
    match head_end(sent) {
        None => Reaction::ReadMore,
        Some(end) => {
            let head = os::text_of(sent.take(end as int));
            if !asks_to_connect(head) {
                Reaction::Refuse { reply: not_proxied(), denied: None }
            } else if !matcher::list_allows(patterns, target_of(head)) {
                Reaction::Refuse { reply: forbidden(), denied: Some(target_of(head)) }
            } else {
                Reaction::Dial { target: target_of(head) }
            }
        },
    }
}

/// The conversation with one client.
#[derive(Debug)]
pub struct Conversation {
    /// What the client has sent.
    pub head: RequestHead,
    /// Where the request head ends, once it is complete.
    pub head_end: usize,
}

impl Conversation {
    /// The end of the head lies in what was sent.
    pub open spec fn valid(self) -> bool {
        self.head_end <= self.head.buf@.len()
    }

    /// Nothing said yet.
    pub fn new() -> (r: Self)
        ensures
            r.valid(),
            r.head.buf@ == Seq::<u8>::empty(),
    {
        Conversation { head: RequestHead::new(), head_end: 0 }
    }

    /// Goes on with what was read from the client; nothing, where the client has closed.
    pub fn received(&mut self, chunk: &[u8], allow: &Allowlist) -> (r: Action)
        requires
            old(self).valid(),
        ensures
            final(self).valid(),
            final(self).head.buf@ == old(self).head.buf@ + chunk@,
            chunk@.len() == 0 ==> r is Close,
            chunk@.len() > 0 ==> r.deep_view() == reaction(final(self).head.buf@, allow.deep_view()),
            r is Dial ==> head_end(final(self).head.buf@) == Some(final(self).head_end as nat),
    {
        if chunk.len() == 0 {
            assert(self.head.buf@ =~= old(self).head.buf@ + chunk@);
            return Action::Close;
        }
        let end: usize = match self.head.feed(chunk) {
            Some(end) => end,
            None => {
                return Action::ReadMore;
            },
        };
        self.head_end = end;
        let head: Vec<u8> = os::copy_bytes(self.head.buf.as_slice(), 0, end);
        assert(head@ =~= self.head.buf@.take(end as int));
        let decision: ConnectDecision = decide_head(head.as_slice(), allow);
        let reply: Option<String> = decision.refusal();
        match (decision, reply) {
            (ConnectDecision::Connect { target }, _) => Action::Dial { target },
            (ConnectDecision::Deny { target }, Some(reply)) => Action::Refuse {
                reply,
                denied: Some(target),
            },
            (_, Some(reply)) => Action::Refuse { reply, denied: None },
            (_, None) => Action::Close,
        }
    }

    /// Goes on after the attempt to connect to the target. What the client sent after the head
    /// is not lost.
    pub fn dialed(&self, connected: bool) -> (r: Action)
        requires
            self.valid(),
        ensures
            connected ==> r.deep_view() == (Reaction::Tunnel {
                reply: "HTTP/1.1 200 Connection Established\r\n\r\n"@,
                payload: self.head.buf@.skip(self.head_end as int),
            }),
            !connected ==> r.deep_view() == (Reaction::Refuse {
                reply: "HTTP/1.1 502 Bad Gateway\r\n\r\n"@,
                denied: None,
            }),
    {
        let reply: String = connect_reply(connected);
        if connected {
            Action::Tunnel { reply, payload: self.head.payload(self.head_end) }
        } else {
            Action::Refuse { reply, denied: None }
        }
    }
}

// ---------------------------------------------------------------------------
// Laws
// ---------------------------------------------------------------------------

/// More bytes do not move the end of a head that was found.
proof fn lemma_first_at_stable(a: Seq<u8>, b: Seq<u8>, from: nat)
    requires
        first_at(a, blank_line(), from) is Some,
    ensures
        first_at(a + b, blank_line(), from) == first_at(a, blank_line(), from),
    decreases a.len() - from,
{
    let needle = blank_line();
    let at = from as int;
    if text::occurs_at(a, needle, at) {
        assert((a + b).subrange(at, at + 4) =~= a.subrange(at, at + 4));
    } else {
        lemma_first_at_stable(a, b, from + 1);
        let found = first_at(a, needle, from + 1).unwrap();
        lemma_first_at_fits(a, from + 1);
        if text::occurs_at(a + b, needle, at) {
            assert(at + 4 <= a.len());
            assert((a + b).subrange(at, at + 4) =~= a.subrange(at, at + 4));
        }
    }
}

proof fn lemma_first_at_fits(a: Seq<u8>, from: nat)
    requires
        first_at(a, blank_line(), from) is Some,
    ensures
        from <= first_at(a, blank_line(), from).unwrap(),
        first_at(a, blank_line(), from).unwrap() + 4 <= a.len(),
    decreases a.len() - from,
{
    if !text::occurs_at(a, blank_line(), from as int) {
        lemma_first_at_fits(a, from + 1);
    }
}

/// It does not matter in which pieces a request arrives: once the empty line is there, the head
/// ends at the same place whatever follows, and all that follows is payload.
pub proof fn head_does_not_move(a: Seq<u8>, b: Seq<u8>)
    requires
        first_at(a, blank_line(), 0) is Some,
    ensures
        head_end(a + b) == head_end(a),
        head_end(a).unwrap() <= a.len(),
        (a + b).skip(head_end(a).unwrap() as int) == a.skip(head_end(a).unwrap() as int) + b,
{
    lemma_first_at_stable(a, b, 0);
    lemma_first_at_fits(a, 0);
    assert((a + b).skip(head_end(a).unwrap() as int) =~= a.skip(head_end(a).unwrap() as int) + b);
}

/// A plain request: `CONNECT`, a target without white space, and whatever is on the line after
/// it. The target is read as it was written.
pub proof fn connect_line_is_read(target: Seq<char>, rest: Seq<char>)
    requires
        target.len() > 0,
        forall|i: int| 0 <= i < target.len() ==> !text::is_white(#[trigger] target[i]),
    ensures
        asks_to_connect("CONNECT "@ + target + " HTTP/1.1\r\n"@ + rest),
        target_of("CONNECT "@ + target + " HTTP/1.1\r\n"@ + rest) == target,
{
    reveal_strlit("CONNECT ");
    reveal_strlit(" HTTP/1.1\r\n");
    reveal_strlit("connect");
    let head = "CONNECT "@ + target + " HTTP/1.1\r\n"@ + rest;
    let n = target.len();
    let eol = 8 + n + 10;
    assert forall|i: int| 0 <= i < eol implies (text::other_than('\n'))(#[trigger] head[i]) by {
        if 8 <= i < 8 + n {
            assert(head[i] == target[i - 8]);
        } else if i >= 8 + n {
            assert(head[i] == " HTTP/1.1\r\n"@[i - 8 - n]);
        }
    }
    assert(head[eol as int] == " HTTP/1.1\r\n"@[10]);
    text::lemma_lead(head, text::other_than('\n'), eol);
    let line = first_line(head);
    assert(line =~= "CONNECT "@ + target + " HTTP/1.1\r"@) by {
        reveal_strlit(" HTTP/1.1\r");
        assert(" HTTP/1.1\r\n"@.take(10) =~= " HTTP/1.1\r"@);
    }
    reveal_strlit(" HTTP/1.1\r");
    text::lemma_lead(line, text::white(), 0);
    assert(text::drop_lead(line, text::white()) =~= line);
    text::lemma_lead(line, text::inked(), 7);
    assert(first_word(line) =~= "CONNECT "@.take(7));
    assert(text::ascii_lower(method_of(head)) =~= "connect"@);
    let after = after_word(line);
    assert(after =~= " "@ + target + " HTTP/1.1\r"@) by {
        reveal_strlit(" ");
    }
    reveal_strlit(" ");
    assert(after[1] == target[0]);
    text::lemma_lead(after, text::white(), 1);
    let at = text::drop_lead(after, text::white());
    assert(at =~= target + " HTTP/1.1\r"@);
    assert forall|i: int| 0 <= i < n implies (text::inked())(#[trigger] at[i]) by {
        assert(at[i] == target[i]);
    }
    assert(at[n as int] == ' ');
    text::lemma_lead(at, text::inked(), n);
    assert(first_word(after) =~= target);
}

/// The proxy connects only to hosts that the allowlist lets through, and only where it was asked
/// to connect.
pub proof fn only_allowed_hosts_are_dialed(sent: Seq<u8>, patterns: Seq<HostShape>)
    ensures
        reaction(sent, patterns) matches Reaction::Dial { target } ==> {
            &&& matcher::list_allows(patterns, target)
            &&& asks_to_connect(os::text_of(sent.take(head_end(sent).unwrap() as int)))
        },
        patterns.len() == 0 ==> !(reaction(sent, patterns) is Dial),
{
}

/// Every complete request is answered at once: one that does not ask for a connection, or asks
/// for a host that is not allowed, is refused with its own message, and any other is dialed.
pub proof fn complete_requests_are_answered(sent: Seq<u8>, patterns: Seq<HostShape>)
    requires
        head_end(sent) is Some,
    ensures
        ({
            let head = os::text_of(sent.take(head_end(sent).unwrap() as int));
            let r = reaction(sent, patterns);
            &&& r is Refuse || r is Dial
            &&& !asks_to_connect(head) <==> r == (Reaction::Refuse {
                reply: not_proxied(),
                denied: None,
            })
            &&& asks_to_connect(head) && !matcher::list_allows(patterns, target_of(head))
                <==> r == (Reaction::Refuse { reply: forbidden(), denied: Some(target_of(head)) })
        }),
{
}

/// Once the head is complete, more bytes change nothing about what is done with the request.
pub proof fn more_bytes_change_nothing(a: Seq<u8>, b: Seq<u8>, patterns: Seq<HostShape>)
    requires
        first_at(a, blank_line(), 0) is Some,
    ensures
        reaction(a + b, patterns) == reaction(a, patterns),
{
    head_does_not_move(a, b);
    let end = head_end(a).unwrap() as int;
    assert((a + b).take(end) =~= a.take(end));
}

/// The first place is the first: nothing stands before it.
proof fn lemma_first_at_is(hay: Seq<u8>, needle: Seq<u8>, from: nat, at: nat)
    requires
        from <= at < hay.len(),
        text::occurs_at(hay, needle, at as int),
        forall|i: int| from <= i < at ==> !text::occurs_at(hay, needle, i),
    ensures
        first_at(hay, needle, from) == Some(at),
    decreases at - from,
{
    if from < at {
        assert(!text::occurs_at(hay, needle, from as int));
        lemma_first_at_is(hay, needle, from + 1, at);
    }
}

/// What stands nowhere is not found.
proof fn lemma_first_at_none(hay: Seq<u8>, needle: Seq<u8>, from: nat)
    requires
        forall|i: int| from <= i < hay.len() ==> !text::occurs_at(hay, needle, i),
    ensures
        first_at(hay, needle, from) is None,
    decreases hay.len() - from,
{
    if from < hay.len() {
        assert(!text::occurs_at(hay, needle, from as int));
        lemma_first_at_none(hay, needle, from + 1);
    }
}

/// A request head ends right after its first empty line, whatever follows; and where no empty line
/// came, it is read on until more than 16384 bytes are there, and then all of them are the head.
pub proof fn head_ends_after_the_first_empty_line(a: Seq<u8>, b: Seq<u8>)
    requires
        forall|i: int|
            0 <= i < a.len() ==> !text::occurs_at(
                a + seq![13u8, 10u8, 13u8, 10u8],
                seq![13u8, 10u8, 13u8, 10u8],
                i,
            ),
    ensures
        head_end(a + seq![13u8, 10u8, 13u8, 10u8] + b) == Some(a.len() + 4),
        head_end(a) is None <==> a.len() <= 16384,
        a.len() > 16384 ==> head_end(a) == Some(a.len()),
{
    let blank = seq![13u8, 10u8, 13u8, 10u8];
    let front = a + blank;
    let whole = a + blank + b;
    assert(blank_line() =~= blank);
    assert(whole.subrange(a.len() as int, a.len() as int + 4) =~= blank);
    assert forall|i: int| 0 <= i < a.len() implies !text::occurs_at(whole, blank_line(), i) by {
        assert(!text::occurs_at(front, blank, i));
        assert(whole.subrange(i, i + 4) =~= front.subrange(i, i + 4));
    }
    lemma_first_at_is(whole, blank_line(), 0, a.len());
    assert forall|i: int| 0 <= i < a.len() implies !text::occurs_at(a, blank_line(), i) by {
        assert(!text::occurs_at(front, blank, i));
        if i + 4 <= a.len() {
            assert(a.subrange(i, i + 4) =~= front.subrange(i, i + 4));
        }
    }
    lemma_first_at_none(a, blank_line(), 0);
}

/// A request that is plain to read: a method and a target, each without white space, with white
/// space before, between and after them, on the first line.
pub open spec fn is_request(
    front: Seq<char>,
    method: Seq<char>,
    gap: Seq<char>,
    target: Seq<char>,
    tail: Seq<char>,
    rest: Seq<char>,
) -> bool {
    &&& forall|i: int|
        0 <= i < front.len() ==> text::is_white(#[trigger] front[i]) && front[i] != '\n'
    &&& method.len() > 0
    &&& forall|i: int| 0 <= i < method.len() ==> !text::is_white(#[trigger] method[i])
    &&& gap.len() > 0
    &&& forall|i: int| 0 <= i < gap.len() ==> text::is_white(#[trigger] gap[i]) && gap[i] != '\n'
    &&& target.len() > 0
    &&& forall|i: int| 0 <= i < target.len() ==> !text::is_white(#[trigger] target[i])
    &&& tail.len() > 0 ==> text::is_white(tail[0])
    &&& !tail.contains('\n')
    &&& rest.len() > 0 ==> rest[0] == '\n'
}

/// The first line of a request is its method, its target, and whatever comes after that. Method
/// and target are read as they were written, whatever white space is around them and whatever the
/// lines after it say; and a request asks for a connection exactly if its method is `connect`, in
/// whatever case.
pub proof fn request_line_is_read(
    front: Seq<char>,
    method: Seq<char>,
    gap: Seq<char>,
    target: Seq<char>,
    tail: Seq<char>,
    rest: Seq<char>,
)
    requires
        is_request(front, method, gap, target, tail, rest),
    ensures
        ({
            let head = front + method + gap + target + tail + rest;
            &&& method_of(head) == method
            &&& target_of(head) == target
            &&& asks_to_connect(head) <==> text::ascii_lower(method) == "connect"@
        }),
{
    let head = front + method + gap + target + tail + rest;
    let line = front + method + gap + target + tail;
    let f = front.len();
    let n = method.len();
    let g = gap.len();
    let m = target.len();
    assert forall|i: int| 0 <= i < line.len() implies (text::other_than('\n'))(#[trigger] head[i]) by {
        assert(head[i] == line[i]);
        if i < f {
            assert(line[i] == front[i]);
        } else if i < f + n {
            assert(line[i] == method[i - f]);
        } else if i < f + n + g {
            assert(line[i] == gap[i - f - n]);
        } else if i < f + n + g + m {
            assert(line[i] == target[i - f - n - g]);
        } else {
            assert(line[i] == tail[i - f - n - g - m]);
            assert(tail.contains(tail[i - f - n - g - m]));
        }
    }
    assert(line.len() < head.len() ==> head[line.len() as int] == rest[0]);
    text::lemma_lead(head, text::other_than('\n'), line.len());
    assert(first_line(head) =~= line);
    lemma_word(front, method, gap + target + tail);
    assert(line =~= front + method + (gap + target + tail));
    lemma_word(gap, target, tail);
}

/// The first word of a text is what stands between white space.
proof fn lemma_word(front: Seq<char>, word: Seq<char>, rest: Seq<char>)
    requires
        forall|i: int| 0 <= i < front.len() ==> text::is_white(#[trigger] front[i]),
        word.len() > 0,
        forall|i: int| 0 <= i < word.len() ==> !text::is_white(#[trigger] word[i]),
        rest.len() > 0 ==> text::is_white(rest[0]),
    ensures
        first_word(front + word + rest) == word,
        after_word(front + word + rest) == rest,
{
    let s = front + word + rest;
    let f = front.len();
    let n = word.len();
    assert forall|i: int| 0 <= i < f implies (text::white())(#[trigger] s[i]) by {
        assert(s[i] == front[i]);
    }
    assert(s[f as int] == word[0]);
    text::lemma_lead(s, text::white(), f);
    let at = text::drop_lead(s, text::white());
    assert(at =~= word + rest);
    assert forall|i: int| 0 <= i < n implies (text::inked())(#[trigger] at[i]) by {
        assert(at[i] == word[i]);
    }
    assert(n < at.len() ==> at[n as int] == rest[0]);
    text::lemma_lead(at, text::inked(), n);
    assert(at.take(n as int) =~= word);
    assert(at.skip(n as int) =~= rest);
}

/// What a complete request is answered: any method but `connect` is told that it is not allowed;
/// a target that the allowlist does not let through is forbidden, and named; and any other target
/// is dialed, as it was written.
pub proof fn requests_get_their_answers(
    front: Seq<char>,
    method: Seq<char>,
    gap: Seq<char>,
    target: Seq<char>,
    tail: Seq<char>,
    rest: Seq<char>,
    payload: Seq<u8>,
    patterns: Seq<HostShape>,
)
    requires
        is_request(front, method, gap, target, tail, rest),
        ({
            let sent = encode_utf8(front + method + gap + target + tail + rest);
            head_end(sent + payload) == Some(sent.len())
        }),
    ensures
        ({
            let sent = encode_utf8(front + method + gap + target + tail + rest);
            let r = reaction(sent + payload, patterns);
            if text::ascii_lower(method) != "connect"@ {
                r == (Reaction::Refuse {
                    reply:
                        "HTTP/1.1 405 Method Not Allowed\r\n\r\nplain HTTP not proxied in this phase\r\n"@,
                    denied: None,
                })
            } else if !matcher::list_allows(patterns, target) {
                r == (Reaction::Refuse {
                    reply: "HTTP/1.1 403 Forbidden\r\n\r\n"@,
                    denied: Some(target),
                })
            } else {
                r == (Reaction::Dial { target })
            }
        }),
{
    let head = front + method + gap + target + tail + rest;
    let sent = encode_utf8(head);
    request_line_is_read(front, method, gap, target, tail, rest);
    os::text_of_encoded(head);
    assert((sent + payload).take(sent.len() as int) =~= sent);
}

/// Nothing is answered before the head is complete.
pub proof fn incomplete_requests_wait(sent: Seq<u8>, patterns: Seq<HostShape>)
    ensures
        reaction(sent, patterns) is ReadMore <==> head_end(sent) is None,
{
}

/// A request line with a method alone has no target, and one that is blank has no method either.
pub proof fn missing_words_are_empty(
    front: Seq<char>,
    method: Seq<char>,
    tail: Seq<char>,
    rest: Seq<char>,
)
    requires
        forall|i: int|
            0 <= i < front.len() ==> text::is_white(#[trigger] front[i]) && front[i] != '\n',
        forall|i: int| 0 <= i < method.len() ==> !text::is_white(#[trigger] method[i]),
        forall|i: int|
            0 <= i < tail.len() ==> text::is_white(#[trigger] tail[i]) && tail[i] != '\n',
        rest.len() > 0 ==> rest[0] == '\n',
    ensures
        method_of(front + method + tail + rest) == method,
        target_of(front + method + tail + rest) == Seq::<char>::empty(),
{
    let head = front + method + tail + rest;
    let line = front + method + tail;
    let f = front.len();
    let n = method.len();
    assert forall|i: int| 0 <= i < line.len() implies (text::other_than('\n'))(#[trigger] head[i]) by {
        assert(head[i] == line[i]);
        if i < f {
            assert(line[i] == front[i]);
        } else if i < f + n {
            assert(line[i] == method[i - f]);
        } else {
            assert(line[i] == tail[i - f - n]);
        }
    }
    assert(line.len() < head.len() ==> head[line.len() as int] == rest[0]);
    text::lemma_lead(head, text::other_than('\n'), line.len());
    assert(first_line(head) =~= line);
    if n > 0 {
        lemma_word(front, method, tail);
        lemma_blank(tail);
    } else {
        assert forall|i: int| 0 <= i < line.len() implies text::is_white(#[trigger] line[i]) by {
            if i < f {
                assert(line[i] == front[i]);
            } else {
                assert(line[i] == tail[i - f]);
            }
        }
        lemma_blank(line);
        lemma_blank(Seq::empty());
        assert(method =~= Seq::<char>::empty());
    }
}

/// White space has no words in it.
proof fn lemma_blank(s: Seq<char>)
    requires
        forall|i: int| 0 <= i < s.len() ==> text::is_white(#[trigger] s[i]),
    ensures
        first_word(s) == Seq::<char>::empty(),
        after_word(s) == Seq::<char>::empty(),
{
    assert forall|i: int| 0 <= i < s.len() implies (text::white())(#[trigger] s[i]) by {}
    text::lemma_lead(s, text::white(), s.len());
    assert(text::drop_lead(s, text::white()) =~= Seq::<char>::empty());
    text::lemma_lead(Seq::<char>::empty(), text::inked(), 0);
    assert(first_word(s) =~= Seq::<char>::empty());
    assert(after_word(s) =~= Seq::<char>::empty());
}

} // verus!

//! A proposer that takes over a Paxos cluster, one line of server traffic at
//! a time. It learns who owns the secret and which servers take part, asks
//! them to prepare a higher round, and once enough of them have promised,
//! asks them to accept a membership of its choosing with itself (id 9) as
//! the owner. The caller holds the connections: it hands over what a server
//! says and sends the messages it gets back.
use vstd::prelude::*;
use crate::text::{
    before_char, before_char_of, chars_of, contains_text, decimal, lemma_contains_found, lines,
    parse_u32, parsed_u32, push_char, push_decimal, push_text, second_piece, second_piece_of, split,
    split_on, text_lines, find_text,
};

verus! {

// ---------------------------------------------------------------------------
// Messages
// ---------------------------------------------------------------------------

/// Ids separated by commas, without spaces.
pub open spec fn id_list(ids: Seq<u32>) -> Seq<char>
    decreases ids.len(),
{
    if ids.len() == 0 {
        seq![]
    } else if ids.len() == 1 {
        decimal(ids[0] as nat)
    } else {
        id_list(ids.drop_last()) + seq![','] + decimal(ids.last() as nat)
    }
}

/// Asks `dest` to prepare round `value` of proposer 9.
pub open spec fn prepare_text(value: u32, dest: u32) -> Seq<char> {
    "PREPARE {"@ + decimal(value as nat) + ",9} -> "@ + decimal(dest as nat) + "\n"@
}

/// Promises round `value` of proposer 9 to proposer 9.
pub open spec fn promise_text(value: u32) -> Seq<char> {
    "PROMISE {"@ + decimal(value as nat) + ",9} -> 9\n"@
}

/// Tells `dest` that the membership `servers` with owner 9 was accepted.
pub open spec fn accepted_text(dest: u32, servers: Seq<u32>) -> Seq<char> {
    "ACCEPTED {servers: ["@ + id_list(servers) + "], secret_owner: 9} -> "@ + decimal(dest as nat)
}

/// Asks `dest` to accept, in round `value` of proposer `from`, the
/// membership `servers` with `owner` as the secret's owner.
pub open spec fn accept_text(value: u32, from: u32, servers: Seq<u32>, owner: u32, dest: u32) -> Seq<
    char,
> {
    "ACCEPT {id: {"@ + decimal(value as nat) + ","@ + decimal(from as nat)
        + "}, value: {servers: ["@ + id_list(servers) + "], secret_owner: "@ + decimal(owner as nat)
        + "}} -> "@ + decimal(dest as nat) + "\n"@
}

/// A message to send: on each of the other connections, or on the main one.
pub struct Message {
    pub to_others: bool,
    pub text: String,
}

/// What a message stands for.
pub struct MessageModel {
    pub to_others: bool,
    pub text: Seq<char>,
}

impl View for Message {
    type V = MessageModel;

    open spec fn view(&self) -> MessageModel {
        MessageModel { to_others: self.to_others, text: self.text@ }
    }
}

/// What a list of messages stands for.
pub open spec fn messages_view(ms: Seq<Message>) -> Seq<MessageModel> {
    ms.map_values(|m: Message| m@)
}

proof fn lemma_view_push(ms: Seq<Message>, m: Message)
    ensures
        messages_view(ms.push(m)) == messages_view(ms).push(m@),
{
    assert(messages_view(ms.push(m)) =~= messages_view(ms).push(m@));
}

proof fn lemma_map_take(s: Seq<u32>, i: int, f: spec_fn(u32) -> MessageModel)
    requires
        0 <= i < s.len(),
    ensures
        s.take(i + 1).map_values(f) == s.take(i).map_values(f).push(f(s[i])),
{
    assert(s.take(i + 1).map_values(f) =~= s.take(i).map_values(f).push(f(s[i])));
}

fn push_id_list(s: &mut String, ids: &Vec<u32>)
    ensures
        final(s)@ == old(s)@ + id_list(ids@),
{
    let ghost start = s@;
    for i in 0..ids.len()
        invariant
            s@ == start + id_list(ids@.take(i as int)),
    {
        if i > 0 {
            push_char(s, ',');
        }
        push_decimal(s, ids[i] as u64);
        proof {
            let t = ids@.take(i + 1);
            assert(t.drop_last() =~= ids@.take(i as int));
            if i == 0 {
                assert(ids@.take(0) =~= seq![]);
            }
        }
    }
    assert(ids@.take(ids@.len() as int) =~= ids@);
}

/// The text of a prepare request.
pub fn prepare_message(value: u32, dest: u32) -> (r: String)
    ensures
        r@ == prepare_text(value, dest),
{
    let mut s = String::new();
    push_text(&mut s, "PREPARE {");
    push_decimal(&mut s, value as u64);
    push_text(&mut s, ",9} -> ");
    push_decimal(&mut s, dest as u64);
    push_text(&mut s, "\n");
    s
}

/// The text of a promise.
pub fn promise_message(value: u32) -> (r: String)
    ensures
        r@ == promise_text(value),
{
    let mut s = String::new();
    push_text(&mut s, "PROMISE {");
    push_decimal(&mut s, value as u64);
    push_text(&mut s, ",9} -> 9\n");
    s
}

/// The text of an acceptance notice.
pub fn accepted_message(dest: u32, servers: &Vec<u32>) -> (r: String)
    ensures
        r@ == accepted_text(dest, servers@),
{
    let mut s = String::new();
    push_text(&mut s, "ACCEPTED {servers: [");
    push_id_list(&mut s, servers);
    push_text(&mut s, "], secret_owner: 9} -> ");
    push_decimal(&mut s, dest as u64);
    s
}

/// The text of an accept request.
pub fn accept_message(value: u32, from: u32, servers: &Vec<u32>, owner: u32, dest: u32) -> (r:
    String)
    ensures
        r@ == accept_text(value, from, servers@, owner, dest),
{
    let mut s = String::new();
    push_text(&mut s, "ACCEPT {id: {");
    push_decimal(&mut s, value as u64);
    push_text(&mut s, ",");
    push_decimal(&mut s, from as u64);
    push_text(&mut s, "}, value: {servers: [");
    push_id_list(&mut s, servers);
    push_text(&mut s, "], secret_owner: ");
    push_decimal(&mut s, owner as u64);
    push_text(&mut s, "}} -> ");
    push_decimal(&mut s, dest as u64);
    push_text(&mut s, "\n");
    s
}

// ---------------------------------------------------------------------------
// Reading lines
// ---------------------------------------------------------------------------

/// Numbers, one per piece; `None` where a piece is not a `u32`.
pub open spec fn parse_ids(pieces: Seq<Seq<char>>) -> Option<Seq<u32>>
    decreases pieces.len(),
{
    if pieces.len() == 0 {
        Some(seq![])
    } else {
        match parse_ids(pieces.drop_last()) {
            None => None,
            Some(v) => match parsed_u32(pieces.last()) {
                None => None,
                Some(x) => Some(v.push(x)),
            },
        }
    }
}

/// The owner a LEARN line names: the number after the first `owner: `, up
/// to the next `}`.
pub open spec fn learned_owner(line: Seq<char>) -> Option<u32> {
    match second_piece(line, "owner: "@) {
        None => None,
        Some(p) => parsed_u32(before_char(p, '}')),
    }
}

/// The servers a LEARN line lists: the comma-separated numbers after the
/// first `[`, up to the next `]`.
pub open spec fn learned_servers(line: Seq<char>) -> Option<Seq<u32>> {
    match second_piece(line, "["@) {
        None => None,
        Some(p) => parse_ids(split_on(before_char(p, ']'), ',')),
    }
}

/// The server a PROMISE line comes from: its third space-separated word.
pub open spec fn promise_sender(line: Seq<char>) -> Option<u32> {
    let words = split_on(line, ' ');
    if words.len() < 3 {
        None
    } else {
        parsed_u32(words[2])
    }
}

/// The id a server gives in its greeting: the number after the first `: `
/// of the first line, up to the next `: `.
pub open spec fn greeting_id(text: Seq<char>) -> Option<u32> {
    let ls = text_lines(text);
    if ls.len() == 0 {
        None
    } else {
        match second_piece(ls[0], ": "@) {
            None => None,
            Some(p) => parsed_u32(p),
        }
    }
}

fn parse_ids_of(pieces: &Vec<Vec<char>>) -> (r: Option<Vec<u32>>)
    ensures
        match r {
            Some(v) => parse_ids(pieces@.map_values(|p: Vec<char>| p@)) == Some(v@),
            None => parse_ids(pieces@.map_values(|p: Vec<char>| p@)) is None,
        },
{
    let ghost ps = pieces@.map_values(|p: Vec<char>| p@);
    let mut v: Vec<u32> = Vec::new();
    for i in 0..pieces.len()
        invariant
            ps == pieces@.map_values(|p: Vec<char>| p@),
            parse_ids(ps.take(i as int)) == Some(v@),
    {
        assert(ps.take(i + 1).drop_last() =~= ps.take(i as int));
        match parse_u32(&pieces[i]) {
            None => {
                proof {
                    lemma_parse_ids_prefix(ps, i + 1, ps.len() as int);
                    assert(ps.take(ps.len() as int) =~= ps);
                }
                return None;
            },
            Some(x) => {
                v.push(x);
            },
        }
    }
    assert(ps.take(ps.len() as int) =~= ps);
    Some(v)
}

proof fn lemma_parse_ids_prefix(ps: Seq<Seq<char>>, k: int, n: int)
    requires
        0 <= k <= n <= ps.len(),
        parse_ids(ps.take(k)) is None,
    ensures
        parse_ids(ps.take(n)) is None,
    decreases n - k,
{
    if k < n {
        assert(ps.take(k + 1).drop_last() =~= ps.take(k));
        lemma_parse_ids_prefix(ps, k + 1, n);
    }
}

/// The id a server gives in its greeting, as `greeting_id` says.
pub fn parse_server_id(greeting: &str) -> (r: Option<u32>)
    ensures
        r == greeting_id(greeting@),
{
    let cs = chars_of(greeting);
    let ls = lines(&cs);
    if ls.len() == 0 {
        return None;
    }
    let pat = chars_of(": ");
    match second_piece_of(&ls[0], &pat) {
        None => None,
        Some(p) => parse_u32(&p),
    }
}

fn has_text(line: &Vec<char>, pat: &str) -> (r: bool)
    ensures
        r == contains_text(line@, pat@),
{
    let p = chars_of(pat);
    proof {
        lemma_contains_found(line@, pat@);
    }
    match find_text(line, &p, 0) {
        Some(_) => true,
        None => false,
    }
}

// ---------------------------------------------------------------------------
// Membership
// ---------------------------------------------------------------------------

/// The first id of `ids` that is not among `servers`.
pub open spec fn first_missing(ids: Seq<u32>, servers: Seq<u32>) -> Option<u32>
    decreases ids.len(),
{
    if ids.len() == 0 {
        None
    } else if !servers.contains(ids[0]) {
        Some(ids[0])
    } else {
        first_missing(ids.drop_first(), servers)
    }
}

fn has_id(v: &Vec<u32>, x: u32) -> (r: bool)
    ensures
        r == v@.contains(x),
{
    for i in 0..v.len()
        invariant
            forall|k: int| 0 <= k < i ==> v@[k] != x,
    {
        if v[i] == x {
            return true;
        }
    }
    false
}

fn ids_from(v: &Vec<u32>, a: usize) -> (r: Vec<u32>)
    requires
        a <= v@.len(),
    ensures
        r@ == v@.subrange(a as int, v@.len() as int),
{
    let mut r: Vec<u32> = Vec::new();
    for i in a..v.len()
        invariant
            a <= v@.len(),
            r@ == v@.subrange(a as int, i as int),
    {
        r.push(v[i]);
        assert(v@.subrange(a as int, i + 1) =~= v@.subrange(a as int, i as int).push(v@[i as int]));
    }
    r
}

fn first_missing_of(ids: &Vec<u32>, servers: &Vec<u32>) -> (r: Option<u32>)
    ensures
        r == first_missing(ids@, servers@),
{
    assert(ids@.skip(0) =~= ids@);
    for i in 0..ids.len()
        invariant
            first_missing(ids@.skip(i as int), servers@) == first_missing(ids@, servers@),
    {
        assert(ids@.skip(i as int)[0] == ids@[i as int]);
        if !has_id(servers, ids[i]) {
            return Some(ids[i]);
        }
        assert(ids@.skip(i as int).drop_first() =~= ids@.skip(i + 1));
    }
    assert(ids@.skip(ids@.len() as int) =~= seq![]);
    None
}

/// The membership to propose and the owner to name, as a promise arrives:
/// the servers plus the first known id missing from them; failing that,
/// without the first server where it is neither 9 nor known; failing that,
/// unchanged, with 9 as the owner. `None` where there are no servers to
/// look at.
pub open spec fn proposal(servers: Seq<u32>, known: Seq<u32>, owner: u32) -> Option<(Seq<u32>, u32)> {
    match first_missing(known, servers) {
        Some(s) => Some((servers.push(s), owner)),
        None => if servers.len() == 0 {
            None
        } else if servers[0] != 9 && !known.contains(servers[0]) {
            Some((servers.drop_first(), owner))
        } else {
            Some((servers, 9u32))
        },
    }
}

// ---------------------------------------------------------------------------
// The proposer
// ---------------------------------------------------------------------------

/// The proposer's state: the servers of the current membership, its round,
/// the servers that promised it (each once), the owner it will name,
/// whether its accept requests went out, and the ids of the servers it
/// speaks for.
pub struct Proposer {
    servers: Vec<u32>,
    value: u32,
    promises: Vec<u32>,
    current_owner: u32,
    sent: bool,
    servers_id: Vec<u32>,
}

/// What a proposer stands for.
#[verifier::ext_equal]
pub struct ProposerModel {
    pub servers: Seq<u32>,
    pub value: u32,
    pub promises: Seq<u32>,
    pub current_owner: u32,
    pub sent: bool,
    pub servers_id: Seq<u32>,
}

impl View for Proposer {
    type V = ProposerModel;

    closed spec fn view(&self) -> ProposerModel {
        ProposerModel {
            servers: self.servers@,
            value: self.value,
            promises: self.promises@,
            current_owner: self.current_owner,
            sent: self.sent,
            servers_id: self.servers_id@,
        }
    }
}

/// No server has promised twice.
pub open spec fn proposer_ok(m: ProposerModel) -> bool {
    m.promises.no_duplicates()
}

/// A LEARN line: a new membership and owner. The round goes up by one, the
/// promises are forgotten, every listed server is asked to prepare it, and
/// every other connection promises it. `None` where the line cannot be read
/// or the round cannot go up.
pub open spec fn on_learn(m: ProposerModel, line: Seq<char>) -> Option<(ProposerModel, Seq<MessageModel>)> {
    match (learned_owner(line), learned_servers(line)) {
        (Some(owner), Some(servers)) => if m.value == u32::MAX {
            None
        } else {
            let value = (m.value + 1) as u32;
            Some(
                (
                    ProposerModel {
                        servers,
                        value,
                        promises: seq![],
                        current_owner: owner,
                        sent: false,
                        ..m
                    },
                    servers.map_values(
                        |d: u32| MessageModel { to_others: false, text: prepare_text(value, d) },
                    ).push(MessageModel { to_others: true, text: promise_text(value) }),
                ),
            )
        },
        _ => None,
    }
}

/// A PROMISE line: its sender joins the promises and the owner to name is
/// settled. The first time the promises reach half the servers, every
/// promiser is asked to accept the proposed membership, and every other
/// connection reports the current one accepted to each server. `None` where
/// the line cannot be read or there is no membership to look at.
pub open spec fn on_promise(m: ProposerModel, line: Seq<char>) -> Option<(ProposerModel, Seq<MessageModel>)> {
    match (promise_sender(line), proposal(m.servers, m.servers_id, m.current_owner)) {
        (Some(server), Some((members, owner))) => {
            let promises = if m.promises.contains(server) {
                m.promises
            } else {
                m.promises.push(server)
            };
            let m1 = ProposerModel { promises, current_owner: owner, ..m };
            if promises.len() >= m.servers.len() / 2 && !m.sent {
                Some(
                    (
                        ProposerModel { sent: true, ..m1 },
                        promises.map_values(
                            |p: u32|
                                MessageModel {
                                    to_others: false,
                                    text: accept_text(m.value, 9, members, owner, p),
                                },
                        ) + m.servers.map_values(
                            |d: u32| MessageModel { to_others: true, text: accepted_text(d, m.servers) },
                        ),
                    ),
                )
            } else {
                Some((m1, seq![]))
            }
        },
        _ => None,
    }
}

/// One line of traffic: LEARN and PROMISE lines are acted on, anything
/// else (acceptances included) is ignored.
pub open spec fn on_line_spec(m: ProposerModel, line: Seq<char>) -> Option<(ProposerModel, Seq<MessageModel>)> {
    if contains_text(line, "LEARN"@) {
        on_learn(m, line)
    } else if contains_text(line, "-> ACCEPTED"@) {
        Some((m, seq![]))
    } else if contains_text(line, "-> PROMISE"@) {
        on_promise(m, line)
    } else {
        Some((m, seq![]))
    }
}

/// Lines handled in turn: the state after them, the messages they gave,
/// and whether they all could be read (the first that cannot stops the
/// run, with what came before it kept).
pub open spec fn on_lines_spec(m: ProposerModel, ls: Seq<Seq<char>>) -> (ProposerModel, Seq<MessageModel>, bool)
    decreases ls.len(),
{
    if ls.len() == 0 {
        (m, seq![], true)
    } else {
        let prev = on_lines_spec(m, ls.drop_last());
        if !prev.2 {
            prev
        } else {
            match on_line_spec(prev.0, ls.last()) {
                None => (prev.0, prev.1, false),
                Some(r) => (r.0, prev.1 + r.1, true),
            }
        }
    }
}

/// Accept requests go out once per round: after they have gone out, a line
/// that is not a LEARN gives no message and keeps them marked sent.
pub proof fn lemma_accepts_once(m: ProposerModel, line: Seq<char>)
    requires
        m.sent,
        !contains_text(line, "LEARN"@),
    ensures
        match on_line_spec(m, line) {
            None => true,
            Some(r) => r.1.len() == 0 && r.0.sent,
        },
{
}

/// Accept requests go out exactly when the distinct promisers first reach
/// half the servers (rounded down): a readable PROMISE line records its
/// sender once, and gives messages if and only if, with it, the promisers
/// number at least `servers.len() / 2` and none went out in this round;
/// after messages the round is marked sent.
pub proof fn lemma_accepts_at_half(m: ProposerModel, line: Seq<char>)
    requires
        on_promise(m, line) is Some,
    ensures
        ({
            let r = on_promise(m, line)->0;
            let sender = promise_sender(line)->0;
            &&& r.0.promises.contains(sender)
            &&& forall|p: u32| #[trigger] r.0.promises.contains(p) <==> (p == sender || m.promises.contains(p))
            &&& r.0.promises.len() == m.promises.len() + if m.promises.contains(sender) {
                0int
            } else {
                1int
            }
            &&& (r.1.len() > 0 <==> (r.0.promises.len() >= m.servers.len() / 2 && !m.sent))
            &&& (r.1.len() > 0 ==> r.0.sent)
        }),
{
    let r = on_promise(m, line)->0;
    let sender = promise_sender(line)->0;
    if !m.promises.contains(sender) {
        assert(m.promises.push(sender)[m.promises.len() as int] == sender);
        assert forall|p: u32| #[trigger] m.promises.push(sender).contains(p) <==> (p == sender
            || m.promises.contains(p)) by {
            if m.promises.contains(p) {
                let i = choose|i: int| 0 <= i < m.promises.len() && m.promises[i] == p;
                assert(m.promises.push(sender)[i] == p);
            }
            if m.promises.push(sender).contains(p) && p != sender {
                let i = choose|i: int| 0 <= i < m.promises.len() + 1 && m.promises.push(sender)[i] == p;
                assert(m.promises[i] == p);
            }
        }
    }
}

/// A LEARN line that can be read starts a round afresh: the round goes up
/// by one, no promise is held, and no accept request has gone out.
pub proof fn lemma_learn_resets(m: ProposerModel, line: Seq<char>)
    requires
        contains_text(line, "LEARN"@),
        on_line_spec(m, line) is Some,
    ensures
        (on_line_spec(m, line)->0).0.value == m.value + 1,
        (on_line_spec(m, line)->0).0.promises.len() == 0,
        !(on_line_spec(m, line)->0).0.sent,
{
}

proof fn lemma_stopped_stays(m: ProposerModel, ls: Seq<Seq<char>>, k: int, n: int)
    requires
        0 <= k <= n <= ls.len(),
        !on_lines_spec(m, ls.take(k)).2,
    ensures
        on_lines_spec(m, ls.take(n)) == on_lines_spec(m, ls.take(k)),
    decreases n - k,
{
    if k < n {
        assert(ls.take(k + 1).drop_last() =~= ls.take(k));
        lemma_stopped_stays(m, ls, k + 1, n);
    }
}

impl Proposer {
    /// A proposer that speaks for the servers `servers_id`, before any line:
    /// no membership, round 1, no promise, owner 0.
    pub fn new(servers_id: Vec<u32>) -> (r: Proposer)
        ensures
            r@ == (ProposerModel {
                servers: seq![],
                value: 1,
                promises: seq![],
                current_owner: 0,
                sent: false,
                servers_id: servers_id@,
            }),
            proposer_ok(r@),
    {
        let r = Proposer {
            servers: Vec::new(),
            value: 1,
            promises: Vec::new(),
            current_owner: 0,
            sent: false,
            servers_id,
        };
        assert(r@.promises =~= seq![]);
        r
    }

    fn learn(&mut self, line: &Vec<char>) -> (r: Option<Vec<Message>>)
        requires
            proposer_ok(old(self)@),
        ensures
            proposer_ok(final(self)@),
            match on_learn(old(self)@, line@) {
                None => r is None && final(self)@ == old(self)@,
                Some(res) => r is Some && final(self)@ == res.0 && messages_view(r->0@) == res.1,
            },
    {
        let owner_pat = chars_of("owner: ");
        let owner = match second_piece_of(line, &owner_pat) {
            None => {
                return None;
            },
            Some(p) => match parse_u32(&before_char_of(&p, '}')) {
                None => {
                    return None;
                },
                Some(o) => o,
            },
        };
        let open_pat = chars_of("[");
        let servers = match second_piece_of(line, &open_pat) {
            None => {
                return None;
            },
            Some(p) => {
                let inner = before_char_of(&p, ']');
                let pieces = split(&inner, ',');
                assert(pieces@.map_values(|q: Vec<char>| q@) =~= split_on(inner@, ','));
                match parse_ids_of(&pieces) {
                    None => {
                        return None;
                    },
                    Some(v) => v,
                }
            },
        };
        if self.value == u32::MAX {
            return None;
        }
        let value = self.value + 1;
        let mut out: Vec<Message> = Vec::new();
        for i in 0..servers.len()
            invariant
                messages_view(out@) == servers@.take(i as int).map_values(
                    |d: u32| MessageModel { to_others: false, text: prepare_text(value, d) },
                ),
        {
            let ghost prev = out@;
            let msg = Message { to_others: false, text: prepare_message(value, servers[i]) };
            out.push(msg);
            proof {
                lemma_view_push(prev, msg);
                lemma_map_take(
                    servers@,
                    i as int,
                    |d: u32| MessageModel { to_others: false, text: prepare_text(value, d) },
                );
            }
        }
        out.push(Message { to_others: true, text: promise_message(value) });
        assert(servers@.take(servers@.len() as int) =~= servers@);
        assert(messages_view(out@) =~= servers@.map_values(
            |d: u32| MessageModel { to_others: false, text: prepare_text(value, d) },
        ).push(MessageModel { to_others: true, text: promise_text(value) }));
        self.servers = servers;
        self.value = value;
        self.promises = Vec::new();
        self.current_owner = owner;
        self.sent = false;
        assert(self@.promises =~= seq![]);
        Some(out)
    }

    fn promise(&mut self, line: &Vec<char>) -> (r: Option<Vec<Message>>)
        requires
            proposer_ok(old(self)@),
        ensures
            proposer_ok(final(self)@),
            match on_promise(old(self)@, line@) {
                None => r is None && final(self)@ == old(self)@,
                Some(res) => r is Some && final(self)@ == res.0 && messages_view(r->0@) == res.1,
            },
    {
        let ghost m0 = self@;
        let words = split(line, ' ');
        if words.len() < 3 {
            return None;
        }
        let server = match parse_u32(&words[2]) {
            None => {
                return None;
            },
            Some(s) => s,
        };
        let (members, owner) = match first_missing_of(&self.servers_id, &self.servers) {
            Some(s) => {
                let mut ms = ids_from(&self.servers, 0);
                assert(ms@ =~= self.servers@);
                ms.push(s);
                (ms, self.current_owner)
            },
            None => {
                if self.servers.len() == 0 {
                    return None;
                }
                let s0 = self.servers[0];
                if s0 != 9 && !has_id(&self.servers_id, s0) {
                    let ms = ids_from(&self.servers, 1);
                    assert(ms@ =~= self.servers@.drop_first());
                    (ms, self.current_owner)
                } else {
                    let ms = ids_from(&self.servers, 0);
                    assert(ms@ =~= self.servers@);
                    (ms, 9u32)
                }
            },
        };
        assert(proposal(m0.servers, m0.servers_id, m0.current_owner) == Some((members@, owner)));
        if !has_id(&self.promises, server) {
            self.promises.push(server);
            proof {
                assert forall|a: int, b: int|
                    0 <= a < b < self.promises@.len() implies self.promises@[a]
                    != self.promises@[b] by {
                    if b == self.promises@.len() - 1 {
                        assert(m0.promises[a] == self.promises@[a]);
                    } else {
                        assert(m0.promises[a] == self.promises@[a]);
                        assert(m0.promises[b] == self.promises@[b]);
                    }
                }
            }
        }
        self.current_owner = owner;
        let mut out: Vec<Message> = Vec::new();
        if self.promises.len() >= self.servers.len() / 2 && !self.sent {
            self.sent = true;
            let ghost ps = self.promises@;
            for i in 0..self.promises.len()
                invariant
                    ps == self.promises@,
                    messages_view(out@) == ps.take(i as int).map_values(
                        |p: u32|
                            MessageModel {
                                to_others: false,
                                text: accept_text(m0.value, 9, members@, owner, p),
                            },
                    ),
                    self.value == m0.value,
            {
                let ghost prev = out@;
                let msg = Message {
                    to_others: false,
                    text: accept_message(self.value, 9, &members, owner, self.promises[i]),
                };
                out.push(msg);
                proof {
                    lemma_view_push(prev, msg);
                    lemma_map_take(
                        ps,
                        i as int,
                        |p: u32|
                            MessageModel {
                                to_others: false,
                                text: accept_text(m0.value, 9, members@, owner, p),
                            },
                    );
                }
            }
            assert(ps.take(ps.len() as int) =~= ps);
            let ghost first = messages_view(out@);
            let ghost ss = self.servers@;
            for i in 0..self.servers.len()
                invariant
                    ss == self.servers@,
                    messages_view(out@) == first + ss.take(i as int).map_values(
                        |d: u32| MessageModel { to_others: true, text: accepted_text(d, ss) },
                    ),
            {
                let ghost prev = out@;
                let msg = Message {
                    to_others: true,
                    text: accepted_message(self.servers[i], &self.servers),
                };
                out.push(msg);
                proof {
                    lemma_view_push(prev, msg);
                    lemma_map_take(
                        ss,
                        i as int,
                        |d: u32| MessageModel { to_others: true, text: accepted_text(d, ss) },
                    );
                }
            }
            assert(ss.take(ss.len() as int) =~= ss);
        }
        proof {
            let promises = if m0.promises.contains(server) {
                m0.promises
            } else {
                m0.promises.push(server)
            };
            assert(self@.promises =~= promises);
            let res = on_promise(m0, line@)->0;
            assert(self@ =~= res.0);
            assert(messages_view(out@) =~= res.1);
        }
        Some(out)
    }

    fn handle(&mut self, line: &Vec<char>) -> (r: Option<Vec<Message>>)
        requires
            proposer_ok(old(self)@),
        ensures
            proposer_ok(final(self)@),
            match on_line_spec(old(self)@, line@) {
                None => r is None && final(self)@ == old(self)@,
                Some(res) => r is Some && final(self)@ == res.0 && messages_view(r->0@) == res.1,
            },
    {
        if has_text(line, "LEARN") {
            self.learn(line)
        } else if has_text(line, "-> ACCEPTED") {
            let empty: Vec<Message> = Vec::new();
            assert(messages_view(empty@) =~= seq![]);
            Some(empty)
        } else if has_text(line, "-> PROMISE") {
            self.promise(line)
        } else {
            let empty: Vec<Message> = Vec::new();
            assert(messages_view(empty@) =~= seq![]);
            Some(empty)
        }
    }

    /// Handles one line of traffic; `None`, with nothing changed, where the
    /// line cannot be read.
    pub fn on_line(&mut self, line: &str) -> (r: Option<Vec<Message>>)
        requires
            proposer_ok(old(self)@),
        ensures
            proposer_ok(final(self)@),
            match on_line_spec(old(self)@, line@) {
                None => r is None && final(self)@ == old(self)@,
                Some(res) => r is Some && final(self)@ == res.0 && messages_view(r->0@) == res.1,
            },
    {
        let cs = chars_of(line);
        self.handle(&cs)
    }

    /// Handles what a server sent, line by line; the messages of the lines
    /// handled, and whether every line could be read.
    pub fn on_text(&mut self, text: &str) -> (r: (Vec<Message>, bool))
        requires
            proposer_ok(old(self)@),
        ensures
            proposer_ok(final(self)@),
            final(self)@ == on_lines_spec(old(self)@, text_lines(text@)).0,
            messages_view(r.0@) == on_lines_spec(old(self)@, text_lines(text@)).1,
            r.1 == on_lines_spec(old(self)@, text_lines(text@)).2,
    {
        let ghost m0 = self@;
        let cs = chars_of(text);
        let ls = lines(&cs);
        let ghost tl = text_lines(text@);
        let mut out: Vec<Message> = Vec::new();
        assert(messages_view(out@) =~= seq![]);
        for i in 0..ls.len()
            invariant
                m0 == old(self)@,
                tl == text_lines(text@),
                ls@.len() == tl.len(),
                forall|k: int| 0 <= k < ls@.len() ==> (#[trigger] ls@[k])@ == tl[k],
                proposer_ok(self@),
                on_lines_spec(m0, tl.take(i as int)).0 == self@,
                on_lines_spec(m0, tl.take(i as int)).1 == messages_view(out@),
                on_lines_spec(m0, tl.take(i as int)).2,
        {
            assert(tl.take(i + 1).drop_last() =~= tl.take(i as int));
            assert(tl.take(i + 1).last() == ls@[i as int]@);
            match self.handle(&ls[i]) {
                None => {
                    proof {
                        let prev = on_lines_spec(m0, tl.take(i as int));
                        assert(on_line_spec(prev.0, tl.take(i + 1).last()) is None);
                        assert(!on_lines_spec(m0, tl.take(i + 1)).2);
                        assert(on_lines_spec(m0, tl.take(i + 1)).0 == self@);
                        assert(on_lines_spec(m0, tl.take(i + 1)).1 == messages_view(out@));
                        lemma_stopped_stays(m0, tl, i + 1, tl.len() as int);
                        assert(tl.take(tl.len() as int) =~= tl);
                        assert(on_lines_spec(m0, tl) == on_lines_spec(m0, tl.take(i + 1)));
                    }
                    return (out, false);
                },
                Some(msgs) => {
                    let mut msgs = msgs;
                    let ghost before = out@;
                    let ghost added = msgs@;
                    out.append(&mut msgs);
                    assert(messages_view(out@) =~= messages_view(before) + messages_view(added));
                },
            }
        }
        assert(tl.take(tl.len() as int) =~= tl);
        (out, true)
    }
}

} // verus!

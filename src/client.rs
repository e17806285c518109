//! The client: one request per RSP command, and the decisions on the replies.
//!
//! A command writes its request packet into the connection and records
//! what reply it waits for. The caller sends the connection's output,
//! hands acknowledgments to `receive_ack`, reads the reply with
//! `read_packet_with_retries`, and gives its body to `handle_reply`.
use vstd::prelude::*;

use crate::low::{
    ack_reply, after_body_write, after_finish, after_start, feed, hex_encoded, idle_reader,
    read_accepted, push_thread_id, ready, thread_id_wire, wf, ConnectionView, Id, PacketType, ProcessId,
    RspConnection, RspResult,
};
use crate::parse::{
    memory_reply, parse_memory, parse_qsymbol, parse_simple_reply, qsymbol_reply, simple_reply,
    ClientError, ClientResult,
};
use crate::util::{hex_digits, push_hex_digits, push_hex_pair};

verus! {

/// The value of a feature offered in `qSupported`.
#[derive(Debug, Clone, PartialEq, Eq)]
pub enum QueryOption {
    /// Supported (`+`) or not (`-`).
    Bool(bool),
    /// A value, sent as `=value`.
    String(Vec<u8>),
}

/// The reply that a request waits for.
#[derive(Debug, Clone, Copy, PartialEq, Eq, Structural)]
pub enum Expect {
    /// `OK`, `Exx` or the empty packet.
    Simple,
    /// A simple reply to `QStartNoAckMode`; `OK` turns acking off.
    NoAckMode,
    /// A simple reply to `QNonStop`; `OK` records the new mode.
    NonStop(bool),
    /// A simple reply to `Hg`; `OK` records the new current thread.
    SetThread(ProcessId),
    /// Memory or a register: hex data, `Exx` or the empty packet.
    Memory,
    /// A reply to `qSymbol`.
    Symbol,
    /// A reply passed on as it came: a stop reply, or the features of
    /// `qSupported`.
    Raw,
}

/// What a reply said.
#[derive(Debug, Clone, PartialEq, Eq)]
pub enum Reply {
    /// The request was carried out.
    Done,
    /// The bytes of memory or of a register.
    Data(Vec<u8>),
    /// The symbol that the target asks for, if any.
    Symbol(Option<Vec<u8>>),
    /// The body of the reply, as it came.
    Raw(Vec<u8>),
}

/// A client's state, as a value.
pub struct ClientView {
    pub conn: ConnectionView,
    pub non_stop: bool,
    pub require_acks: bool,
    pub current_thread: ProcessId,
    pub queries: Seq<(Vec<u8>, QueryOption)>,
    pub expect: Option<Expect>,
}

/// The client of an RSP connection.
pub struct GdbRspClient {
    conn: RspConnection,
    non_stop: bool,
    require_acks: bool,
    current_thread: ProcessId,
    queries: Vec<(Vec<u8>, QueryOption)>,
    expect: Option<Expect>,
}

impl View for GdbRspClient {
    type V = ClientView;

    closed spec fn view(&self) -> ClientView {
        ClientView {
            conn: self.conn@,
            non_stop: self.non_stop,
            require_acks: self.require_acks,
            current_thread: self.current_thread,
            queries: self.queries@,
            expect: self.expect,
        }
    }
}

/// The features a new client offers in `qSupported`, each as supported.
pub open spec fn default_features() -> Seq<Seq<u8>> {
    seq![
        seq![0x6du8, 0x75u8, 0x6cu8, 0x74u8, 0x69u8, 0x70u8, 0x72u8, 0x6fu8, 0x63u8, 0x65u8, 0x73u8, 0x73u8],
        seq![0x73u8, 0x77u8, 0x62u8, 0x72u8, 0x65u8, 0x61u8, 0x6bu8],
        seq![0x68u8, 0x77u8, 0x62u8, 0x72u8, 0x65u8, 0x61u8, 0x6bu8],
        seq![0x66u8, 0x6fu8, 0x72u8, 0x6bu8, 0x2du8, 0x65u8, 0x76u8, 0x65u8, 0x6eu8, 0x74u8, 0x73u8],
        seq![0x76u8, 0x66u8, 0x6fu8, 0x72u8, 0x6bu8, 0x2du8, 0x65u8, 0x76u8, 0x65u8, 0x6eu8, 0x74u8, 0x73u8],
        seq![0x65u8, 0x78u8, 0x65u8, 0x63u8, 0x2du8, 0x65u8, 0x76u8, 0x65u8, 0x6eu8, 0x74u8, 0x73u8],
        seq![0x76u8, 0x43u8, 0x6fu8, 0x6eu8, 0x74u8, 0x53u8, 0x75u8, 0x70u8, 0x70u8, 0x6fu8, 0x72u8, 0x74u8, 0x65u8, 0x64u8],
        seq![0x51u8, 0x54u8, 0x68u8, 0x72u8, 0x65u8, 0x61u8, 0x64u8, 0x45u8, 0x76u8, 0x65u8, 0x6eu8, 0x74u8, 0x73u8],
        seq![0x6eu8, 0x6fu8, 0x2du8, 0x72u8, 0x65u8, 0x73u8, 0x75u8, 0x6du8, 0x65u8, 0x64u8],
    ]
}

/// No request is under way: no packet is open or waits for its
/// acknowledgment, and no reply is awaited.
pub open spec fn idle(c: ClientView) -> bool {
    ready(c.conn) && c.expect is None
}

/// The connection after a whole normal packet with body `body` is sent.
pub open spec fn sent(v: ConnectionView, body: Seq<u8>) -> ConnectionView {
    after_finish(after_body_write(after_start(v, PacketType::Normal), body))
}

/// The client after it sends `body` and starts waiting for `e`.
pub open spec fn requested(c: ClientView, body: Seq<u8>, e: Expect) -> ClientView {
    ClientView { conn: sent(c.conn, body), expect: Some(e), ..c }
}

/// `n` in decimal, without leading zeros.
pub open spec fn dec_digits(n: nat) -> Seq<u8>
    decreases n,
{
    if n < 10 {
        seq![(0x30 + n) as u8]
    } else {
        dec_digits(n / 10).push((0x30 + n % 10) as u8)
    }
}

/// `0` or `1`.
pub open spec fn flag_byte(b: bool) -> u8 {
    if b {
        0x31
    } else {
        0x30
    }
}

/// The number of times `v` occurs in `s`.
pub open spec fn count_of(s: Seq<u8>, v: u8) -> nat
    decreases s.len(),
{
    if s.len() == 0 {
        0
    } else {
        count_of(s.drop_last(), v) + if s.last() == v {
            1nat
        } else {
            0nat
        }
    }
}

/// The bytes of `s` below `v`, in ascending order.
pub open spec fn sorted_below(s: Seq<u8>, v: nat) -> Seq<u8>
    decreases v,
{
    if v == 0 {
        Seq::empty()
    } else {
        sorted_below(s, (v - 1) as nat) + Seq::new(count_of(s, (v - 1) as u8), |_i: int| (v - 1) as u8)
    }
}

/// The bytes of `s` in ascending order.
pub open spec fn sorted_bytes(s: Seq<u8>) -> Seq<u8> {
    sorted_below(s, 256)
}

/// Each byte of `s` in hex, after `:` for the first and `;` for the others.
pub open spec fn signal_list(s: Seq<u8>) -> Seq<u8>
    decreases s.len(),
{
    if s.len() == 0 {
        Seq::empty()
    } else {
        signal_list(s.drop_last()) + seq![if s.len() == 1 {
            0x3au8
        } else {
            0x3bu8
        }] + hex_digits(s.last() as nat)
    }
}

/// Each byte of `s` in hex, after `;`.
pub open spec fn syscall_list(s: Seq<u8>) -> Seq<u8>
    decreases s.len(),
{
    if s.len() == 0 {
        Seq::empty()
    } else {
        syscall_list(s.drop_last()) + seq![0x3bu8] + hex_digits(s.last() as nat)
    }
}

/// The offer of one feature in `qSupported`: its name and `+`, `-` or `=value`.
pub open spec fn feature_wire(name: Seq<u8>, o: QueryOption) -> Seq<u8> {
    name + match o {
        QueryOption::Bool(true) => seq![0x2bu8],
        QueryOption::Bool(false) => seq![0x2du8],
        QueryOption::String(v) => seq![0x3du8] + v@,
    }
}

/// The features offered in `qSupported`, after `:` and separated by `;`.
pub open spec fn features_wire(q: Seq<(Vec<u8>, QueryOption)>) -> Seq<u8>
    decreases q.len(),
{
    if q.len() == 0 {
        Seq::empty()
    } else {
        features_wire(q.drop_last()) + seq![if q.len() == 1 {
            0x3au8
        } else {
            0x3bu8
        }] + feature_wire(q.last().0@, q.last().1)
    }
}

/// What a simple reply means: the parse of `OK`, `Exx` or the empty packet,
/// and `Unrecognized` for anything else.
pub open spec fn simple_outcome(body: Seq<u8>) -> ClientResult<()> {
    match simple_reply(body) {
        Some((_, r)) => r,
        None => Err(ClientError::Unrecognized),
    }
}

/// `r` is what `body` means as the reply that `e` waits for.
pub open spec fn is_reply_outcome(r: ClientResult<Reply>, e: Expect, body: Seq<u8>) -> bool {
    match e {
        Expect::Memory => match memory_reply(body) {
            Some((_, Ok(d))) => r matches Ok(Reply::Data(v)) && v@ == d,
            Some((_, Err(x))) => r == Err::<Reply, ClientError>(x),
            None => r == Err::<Reply, ClientError>(ClientError::Unrecognized),
        },
        Expect::Symbol => match qsymbol_reply(body) {
            Some((_, None)) => r matches Ok(Reply::Symbol(None)),
            Some((_, Some(d))) => r matches Ok(Reply::Symbol(Some(v))) && v@ == d,
            None => r == Err::<Reply, ClientError>(ClientError::Unrecognized),
        },
        Expect::Raw => r matches Ok(Reply::Raw(v)) && v@ == body,
        _ => match simple_outcome(body) {
            Ok(_) => r matches Ok(Reply::Done),
            Err(x) => r == Err::<Reply, ClientError>(x),
        },
    }
}

/// The client after the reply `body` to what it waited for, `e`: it waits
/// no more, and on `OK` records what the request changed.
pub open spec fn after_reply(c: ClientView, e: Expect, body: Seq<u8>) -> ClientView {
    let ok = simple_outcome(body) is Ok;
    ClientView {
        expect: None,
        conn: if e == Expect::NoAckMode && ok {
            ConnectionView {
                acking: false,
                last_packet: Seq::empty(),
                awaiting_ack: None,
                retries: 0,
                ..c.conn
            }
        } else {
            c.conn
        },
        non_stop: match e {
            Expect::NonStop(s) => if ok {
                s
            } else {
                c.non_stop
            },
            _ => c.non_stop,
        },
        current_thread: match e {
            Expect::SetThread(t) => if ok {
                t
            } else {
                c.current_thread
            },
            _ => c.current_thread,
        },
        ..c
    }
}

fn push_all(out: &mut Vec<u8>, s: &[u8])
    ensures
        final(out)@ == old(out)@ + s@,
{
    let mut i: usize = 0;
    while i < s.len()
        invariant
            i <= s@.len(),
            out@ == old(out)@ + s@.take(i as int),
        decreases s@.len() - i,
    {
        out.push(s[i]);
        assert(s@.take(i as int + 1) == s@.take(i as int).push(s@[i as int]));
        i = i + 1;
    }
    assert(s@.take(i as int) == s@);
}

fn push_dec(out: &mut Vec<u8>, n: u8)
    ensures
        final(out)@ == old(out)@ + dec_digits(n as nat),
    decreases n,
{
    if n >= 10 {
        push_dec(out, n / 10);
    }
    out.push(0x30 + n % 10);
    proof {
        if n >= 10 {
            assert(out@ == old(out)@ + dec_digits(n as nat / 10).push((0x30 + n as nat % 10) as u8));
        }
    }
}

/// Sorts bytes in ascending order, by counting them.
fn sort_bytes(s: &[u8]) -> (r: Vec<u8>)
    ensures
        r@ == sorted_bytes(s@),
{
    let mut counts: Vec<usize> = Vec::new();
    let mut v: usize = 0;
    while v < 256
        invariant
            v <= 256,
            counts@.len() == v,
            forall|j: int| 0 <= j < v ==> counts@[j] == 0,
        decreases 256 - v,
    {
        counts.push(0);
        v = v + 1;
    }
    let mut i: usize = 0;
    while i < s.len()
        invariant
            i <= s@.len(),
            counts@.len() == 256,
            forall|j: int| 0 <= j < 256 ==> counts@[j] == count_of(s@.take(i as int), j as u8),
        decreases s@.len() - i,
    {
        let b = s[i];
        assert(s@.take(i as int + 1).drop_last() == s@.take(i as int));
        assert(counts@[b as int] == count_of(s@.take(i as int), b)) by {
            assert((b as int) as u8 == b);
        }
        assert(counts@[b as int] <= i) by {
            lemma_count_bound(s@.take(i as int), b);
        }
        let c = counts[b as usize];
        counts.set(b as usize, c + 1);
        i = i + 1;
    }
    assert(s@.take(i as int) == s@);
    let mut out: Vec<u8> = Vec::new();
    let mut v: usize = 0;
    while v < 256
        invariant
            v <= 256,
            counts@.len() == 256,
            forall|j: int| 0 <= j < 256 ==> counts@[j] == count_of(s@, j as u8),
            out@ == sorted_below(s@, v as nat),
        decreases 256 - v,
    {
        let n = counts[v];
        let ghost before = out@;
        let mut k: usize = 0;
        while k < n
            invariant
                k <= n,
                out@ == before + Seq::new(k as nat, |_i: int| v as u8),
            decreases n - k,
        {
            out.push(v as u8);
            assert(before + Seq::new((k + 1) as nat, |_i: int| v as u8) == (before + Seq::new(
                k as nat,
                |_i: int| v as u8,
            )).push(v as u8));
            k = k + 1;
        }
        v = v + 1;
    }
    out
}

proof fn lemma_count_bound(s: Seq<u8>, v: u8)
    ensures
        count_of(s, v) <= s.len(),
    decreases s.len(),
{
    if s.len() > 0 {
        lemma_count_bound(s.drop_last(), v);
    }
}

impl GdbRspClient {
    /// Makes a client over a new client-side connection. It offers the
    /// usual features in `qSupported`, asks to turn acking off at
    /// `startup`, and takes any thread as the current one.
    pub fn new() -> (r: GdbRspClient)
        ensures
            idle(r@),
            wf(r@.conn),
            r@.conn.acking,
            r@.conn.is_client,
            r@.conn.max_retries is None,
            r@.conn.output.len() == 0,
            r@.conn.reader == idle_reader(),
            !r@.non_stop,
            !r@.require_acks,
            r@.current_thread == (ProcessId { pid: Id::Any, tid: Id::Any }),
            r@.queries.len() == 9,
            forall|i: int|
                0 <= i < 9 ==> (#[trigger] r@.queries[i]).0@ == default_features()[i] && r@.queries[i].1
                    == QueryOption::Bool(true),
    {
        let mut queries: Vec<(Vec<u8>, QueryOption)> = Vec::new();
        queries.push((slice_vec(&[0x6du8, 0x75u8, 0x6cu8, 0x74u8, 0x69u8, 0x70u8, 0x72u8, 0x6fu8, 0x63u8, 0x65u8, 0x73u8, 0x73u8]), QueryOption::Bool(true)));
        queries.push((slice_vec(&[0x73u8, 0x77u8, 0x62u8, 0x72u8, 0x65u8, 0x61u8, 0x6bu8]), QueryOption::Bool(true)));
        queries.push((slice_vec(&[0x68u8, 0x77u8, 0x62u8, 0x72u8, 0x65u8, 0x61u8, 0x6bu8]), QueryOption::Bool(true)));
        queries.push((slice_vec(&[0x66u8, 0x6fu8, 0x72u8, 0x6bu8, 0x2du8, 0x65u8, 0x76u8, 0x65u8, 0x6eu8, 0x74u8, 0x73u8]), QueryOption::Bool(true)));
        queries.push((slice_vec(&[0x76u8, 0x66u8, 0x6fu8, 0x72u8, 0x6bu8, 0x2du8, 0x65u8, 0x76u8, 0x65u8, 0x6eu8, 0x74u8, 0x73u8]), QueryOption::Bool(true)));
        queries.push((slice_vec(&[0x65u8, 0x78u8, 0x65u8, 0x63u8, 0x2du8, 0x65u8, 0x76u8, 0x65u8, 0x6eu8, 0x74u8, 0x73u8]), QueryOption::Bool(true)));
        queries.push((slice_vec(&[0x76u8, 0x43u8, 0x6fu8, 0x6eu8, 0x74u8, 0x53u8, 0x75u8, 0x70u8, 0x70u8, 0x6fu8, 0x72u8, 0x74u8, 0x65u8, 0x64u8]), QueryOption::Bool(true)));
        queries.push((slice_vec(&[0x51u8, 0x54u8, 0x68u8, 0x72u8, 0x65u8, 0x61u8, 0x64u8, 0x45u8, 0x76u8, 0x65u8, 0x6eu8, 0x74u8, 0x73u8]), QueryOption::Bool(true)));
        queries.push((slice_vec(&[0x6eu8, 0x6fu8, 0x2du8, 0x72u8, 0x65u8, 0x73u8, 0x75u8, 0x6du8, 0x65u8, 0x64u8]), QueryOption::Bool(true)));
        assert forall|i: int| 0 <= i < 9 implies (#[trigger] queries@[i]).0@ == default_features()[i]
            && queries@[i].1 == QueryOption::Bool(true) by {}
        GdbRspClient {
            conn: RspConnection::new(true),
            non_stop: false,
            require_acks: false,
            current_thread: ProcessId { pid: Id::Any, tid: Id::Any },
            queries: queries,
            expect: None,
        }
    }

    /// The connection, to read its state.
    pub fn connection(&self) -> (r: &RspConnection)
        ensures
            r@ == self@.conn,
    {
        &self.conn
    }

    /// Takes the bytes produced for the peer.
    pub fn take_output(&mut self) -> (r: Vec<u8>)
        ensures
            r@ == old(self)@.conn.output,
            final(self)@ == (ClientView {
                conn: ConnectionView { output: Seq::empty(), ..old(self)@.conn },
                ..old(self)@
            }),
    {
        self.conn.take_output()
    }

    /// Hands a byte from the peer to the request packet that waits for its
    /// acknowledgment (see `RspConnection::receive_ack`).
    pub fn receive_ack(&mut self, b: u8) -> (r: RspResult<bool>)
        requires
            old(self)@.conn.awaiting_ack is Some,
        ensures
            r == crate::low::ack_result(old(self)@.conn, b),
            final(self)@ == (ClientView {
                conn: crate::low::after_ack(old(self)@.conn, b),
                ..old(self)@
            }),
    {
        self.conn.receive_ack(b)
    }

    /// Sends the out-of-band interrupt byte, 0x03, between requests.
    pub fn interrupt(&mut self)
        requires
            idle(old(self)@),
            old(self)@.conn.is_client,
        ensures
            final(self)@ == (ClientView {
                conn: ConnectionView { output: old(self)@.conn.output.push(0x03), ..old(self)@.conn },
                ..old(self)@
            }),
    {
        self.conn.interrupt()
    }

    /// Asks that acking stay on: `startup` then leaves it alone.
    pub fn set_require_acks(&mut self, require: bool)
        ensures
            final(self)@ == (ClientView { require_acks: require, ..old(self)@ }),
    {
        self.require_acks = require;
    }

    /// The mode that the target last accepted through `set_nonstop`.
    pub fn is_non_stop(&self) -> (r: bool)
        ensures
            r == self@.non_stop,
    {
        self.non_stop
    }

    /// The thread that later operations apply to, as last set on the target.
    pub fn current_thread(&self) -> (r: ProcessId)
        ensures
            r == self@.current_thread,
    {
        self.current_thread
    }

    /// The reply that the client waits for, if any.
    pub fn expected_reply(&self) -> (r: Option<Expect>)
        ensures
            r == self@.expect,
    {
        self.expect
    }

    fn request(&mut self, body: &[u8], e: Expect)
        requires
            idle(old(self)@),
        ensures
            final(self)@ == requested(old(self)@, body@, e),
    {
        self.conn.full_packet(body);
        self.expect = Some(e);
    }

    /// Reads from `input` until a normal packet or a notification is
    /// accepted, or `input` runs out; a packet that fails its checksum is
    /// dropped (a `-` goes back and the peer sends it again) and reading
    /// goes on. Returns the number of bytes consumed and the packet, if one
    /// was accepted; a notification is for the caller to hand on, and the
    /// caller reads again for the reply.
    pub fn read_packet_with_retries(&mut self, input: &[u8]) -> (r: (usize, Option<(PacketType, Vec<u8>)>))
        ensures
            ({
                let v = old(self)@.conn;
                let (e, res, acks, st) = read_accepted(v.reader, v.is_client, v.acking, input@);
                &&& r.0 == e
                &&& match r.1 {
                    Some((k, c)) => res == Some((k, c@)),
                    None => res is None,
                }
                &&& final(self)@ == (ClientView {
                    conn: ConnectionView { reader: st, output: v.output + acks, ..v },
                    ..old(self)@
                })
            }),
    {
        let ghost v = self@.conn;
        let ghost acks: Seq<u8> = Seq::empty();
        let mut pos: usize = 0;
        let len = input.len();
        proof {
            assert(input@.skip(0) == input@);
            assert(v.output + acks == v.output);
            let t = read_accepted(v.reader, v.is_client, v.acking, input@);
            assert(acks + t.2 == t.2);
        }
        loop
            invariant
                len == input@.len(),
                pos <= len,
                self@ == (ClientView {
                    conn: ConnectionView {
                        reader: self@.conn.reader,
                        output: v.output + acks,
                        ..v
                    },
                    ..old(self)@
                }),
                v == old(self)@.conn,
                ({
                    let t = read_accepted(self@.conn.reader, v.is_client, v.acking, input@.skip(pos as int));
                    read_accepted(v.reader, v.is_client, v.acking, input@) == ((t.0 + pos) as nat, t.1, acks
                        + t.2, t.3)
                }),
            decreases len - pos,
        {
            let rest = vstd::slice::slice_subrange(input, pos, len);
            assert(rest@ == input@.skip(pos as int));
            let ghost cur = self@.conn;
            let (n, res) = self.conn.read_packet(rest);
            match res {
                None => {
                    proof {
                        assert(v.output + acks + Seq::<u8>::empty() == v.output + acks);
                    }
                    return (len, None);
                },
                Some(Ok((k, c))) => {
                    proof {
                        let p = feed(cur.reader, v.is_client, rest@.take(n - 1));
                        assert(v.output + acks + ack_reply(p, v.acking, rest@[n - 1]) == v.output + (acks
                            + ack_reply(p, v.acking, rest@[n - 1])));
                    }
                    return (pos + n, Some((k, c)));
                },
                Some(Err(_)) => {
                    proof {
                        let p = feed(cur.reader, v.is_client, rest@.take(n - 1));
                        let ack = ack_reply(p, v.acking, rest@[n - 1]);
                        assert(rest@.skip(n as int) == input@.skip(pos + n));
                        let r = read_accepted(idle_reader(), v.is_client, v.acking, input@.skip(pos + n));
                        assert(acks + (ack + r.2) == (acks + ack) + r.2);
                        assert(v.output + acks + ack == v.output + (acks + ack));
                        acks = acks + ack;
                    }
                    pos = pos + n;
                },
            }
        }
    }

    /// Decides on the reply `body` to the request under way, and records
    /// what an `OK` changed: acking off after `QStartNoAckMode`, the mode
    /// after `QNonStop`, the thread after `Hg`. A reply that fits none of
    /// the grammars the request allows is `Unrecognized`.
    pub fn handle_reply(&mut self, body: &[u8]) -> (r: ClientResult<Reply>)
        requires
            old(self)@.expect is Some,
        ensures
            is_reply_outcome(r, old(self)@.expect->0, body@),
            final(self)@ == after_reply(old(self)@, old(self)@.expect->0, body@),
    {
        let e = match self.expect {
            Some(e) => e,
            None => Expect::Raw,
        };
        self.expect = None;
        match e {
            Expect::Memory => match parse_memory(body) {
                Some((_, Ok(d))) => Ok(Reply::Data(d)),
                Some((_, Err(x))) => Err(x),
                None => Err(ClientError::Unrecognized),
            },
            Expect::Symbol => match parse_qsymbol(body) {
                Some((_, s)) => Ok(Reply::Symbol(s)),
                None => Err(ClientError::Unrecognized),
            },
            Expect::Raw => Ok(Reply::Raw(vstd::slice::slice_to_vec(body))),
            _ => {
                let outcome = match parse_simple_reply(body) {
                    Some((_, r)) => r,
                    None => Err(ClientError::Unrecognized),
                };
                match outcome {
                    Ok(_) => {
                        match e {
                            Expect::NoAckMode => self.conn.disable_acking(),
                            Expect::NonStop(s) => self.non_stop = s,
                            Expect::SetThread(t) => self.current_thread = t,
                            _ => {},
                        }
                        Ok(Reply::Done)
                    },
                    Err(x) => Err(x),
                }
            },
        }
    }

    /// Asks for extended mode: `!`.
    pub fn extended_mode(&mut self)
        requires
            idle(old(self)@),
        ensures
            final(self)@ == requested(old(self)@, seq![0x21u8], Expect::Simple),
    {
        let body: &[u8] = &[0x21u8];
        assert(body@ == seq![0x21u8]);
        self.request(body, Expect::Simple)
    }

    /// Offers the client's features: `qSupported:` and each feature with
    /// `+`, `-` or `=value`, separated by `;`. The reply comes back as it
    /// came.
    pub fn query_supported(&mut self)
        requires
            idle(old(self)@),
        ensures
            final(self)@ == requested(
                old(self)@,
                seq![0x71u8, 0x53u8, 0x75u8, 0x70u8, 0x70u8, 0x6fu8, 0x72u8, 0x74u8, 0x65u8, 0x64u8] + features_wire(old(self)@.queries),
                Expect::Raw,
            ),
    {
        let mut body: Vec<u8> = Vec::new();
        push_all(&mut body, &[0x71u8, 0x53u8, 0x75u8, 0x70u8, 0x70u8, 0x6fu8, 0x72u8, 0x74u8, 0x65u8, 0x64u8]);
        let mut i: usize = 0;
        while i < self.queries.len()
            invariant
                i <= self.queries@.len(),
                self.queries@ == old(self).queries@,
                body@ == seq![0x71u8, 0x53u8, 0x75u8, 0x70u8, 0x70u8, 0x6fu8, 0x72u8, 0x74u8, 0x65u8, 0x64u8] + features_wire(self.queries@.take(i as int)),
            decreases self.queries@.len() - i,
        {
            let ghost pre = body@;
            if i == 0 {
                body.push(0x3a);
            } else {
                body.push(0x3b);
            }
            let (name, value) = &self.queries[i];
            push_all(&mut body, name.as_slice());
            match value {
                QueryOption::Bool(true) => body.push(0x2b),
                QueryOption::Bool(false) => body.push(0x2d),
                QueryOption::String(v) => {
                    body.push(0x3d);
                    push_all(&mut body, v.as_slice());
                },
            }
            proof {
                let q = self.queries@.take(i as int + 1);
                assert(q.drop_last() == self.queries@.take(i as int));
                assert(q.last() == self.queries@[i as int]);
                assert(body@ == seq![0x71u8, 0x53u8, 0x75u8, 0x70u8, 0x70u8, 0x6fu8, 0x72u8, 0x74u8, 0x65u8, 0x64u8] + features_wire(q));
            }
            i = i + 1;
        }
        assert(self.queries@.take(i as int) == self.queries@);
        self.request(body.as_slice(), Expect::Raw)
    }

    /// Turns acking off unless acks are required: sends `QStartNoAckMode`,
    /// whose `OK` (see `handle_reply`) turns acking off on this side too.
    /// Returns whether a request was sent.
    pub fn startup(&mut self) -> (r: bool)
        requires
            idle(old(self)@),
        ensures
            r == !old(self)@.require_acks,
            r ==> final(self)@ == requested(old(self)@, seq![0x51u8, 0x53u8, 0x74u8, 0x61u8, 0x72u8, 0x74u8, 0x4eu8, 0x6fu8, 0x41u8, 0x63u8, 0x6bu8, 0x4du8, 0x6fu8, 0x64u8, 0x65u8], Expect::NoAckMode),
            !r ==> final(self)@ == old(self)@,
    {
        if !self.require_acks {
            self.request(&[0x51u8, 0x53u8, 0x74u8, 0x61u8, 0x72u8, 0x74u8, 0x4eu8, 0x6fu8, 0x41u8, 0x63u8, 0x6bu8, 0x4du8, 0x6fu8, 0x64u8, 0x65u8], Expect::NoAckMode);
            true
        } else {
            false
        }
    }

    /// Detaches: `D`, or `D;` and the thread-id of the process to detach.
    pub fn detach(&mut self, pid: Option<ProcessId>)
        requires
            idle(old(self)@),
        ensures
            final(self)@ == requested(
                old(self)@,
                match pid {
                    Some(p) => seq![0x44u8, 0x3bu8] + thread_id_wire(p),
                    None => seq![0x44u8],
                },
                Expect::Simple,
            ),
    {
        match pid {
            Some(p) => {
                let mut body: Vec<u8> = Vec::new();
                push_all(&mut body, &[0x44u8, 0x3bu8]);
                push_thread_id(&mut body, p);
                assert(body@ == seq![0x44u8, 0x3bu8] + thread_id_wire(p));
                self.request(body.as_slice(), Expect::Simple)
            },
            None => {
                let body: &[u8] = &[0x44u8];
                assert(body@ == seq![0x44u8]);
                self.request(body, Expect::Simple)
            },
        }
    }

    /// Asks why the target stopped: `?`. The stop reply comes back as it came.
    pub fn query_stop_reason(&mut self)
        requires
            idle(old(self)@),
        ensures
            final(self)@ == requested(old(self)@, seq![0x3fu8], Expect::Raw),
    {
        let body: &[u8] = &[0x3fu8];
        assert(body@ == seq![0x3fu8]);
        self.request(body, Expect::Raw)
    }

    /// Makes `thread` the current thread for later operations: sends
    /// `Hg` and its thread-id, unless it already is. Returns whether a
    /// request was sent.
    pub fn maybe_set_thread(&mut self, thread: ProcessId) -> (r: bool)
        requires
            idle(old(self)@),
        ensures
            r == (old(self)@.current_thread != thread),
            r ==> final(self)@ == requested(old(self)@, seq![0x48u8, 0x67u8] + thread_id_wire(thread), Expect::SetThread(thread)),
            !r ==> final(self)@ == old(self)@,
    {
        if self.current_thread != thread {
            let mut body: Vec<u8> = Vec::new();
            push_all(&mut body, &[0x48u8, 0x67u8]);
            push_thread_id(&mut body, thread);
            self.request(body.as_slice(), Expect::SetThread(thread));
            true
        } else {
            false
        }
    }

    /// Reads `length` bytes of memory at `addr`: `m<addr>,<length>` in hex.
    pub fn read_memory(&mut self, addr: u64, length: u64)
        requires
            idle(old(self)@),
        ensures
            final(self)@ == requested(
                old(self)@,
                seq![0x6du8] + hex_digits(addr as nat) + seq![0x2cu8] + hex_digits(length as nat),
                Expect::Memory,
            ),
    {
        let mut body: Vec<u8> = Vec::new();
        body.push(0x6d);
        push_hex_digits(&mut body, addr);
        body.push(0x2c);
        push_hex_digits(&mut body, length);
        assert(body@ == seq![0x6du8] + hex_digits(addr as nat) + seq![0x2cu8] + hex_digits(length as nat));
        self.request(body.as_slice(), Expect::Memory)
    }

    /// Writes `data` to memory at `addr`: `M<addr>,<length>:` in hex and the
    /// bytes as hex.
    pub fn write_memory(&mut self, addr: u64, data: &[u8])
        requires
            idle(old(self)@),
        ensures
            final(self)@ == requested(
                old(self)@,
                seq![0x4du8] + hex_digits(addr as nat) + seq![0x2cu8] + hex_digits(data@.len()) + seq![0x3au8] + hex_encoded(data@),
                Expect::Simple,
            ),
    {
        let mut body: Vec<u8> = Vec::new();
        body.push(0x4d);
        push_hex_digits(&mut body, addr);
        body.push(0x2c);
        push_hex_digits(&mut body, data.len() as u64);
        body.push(0x3a);
        let ghost head = body@;
        let mut i: usize = 0;
        while i < data.len()
            invariant
                i <= data@.len(),
                body@ == head + hex_encoded(data@.take(i as int)),
            decreases data@.len() - i,
        {
            push_hex_pair(&mut body, data[i]);
            assert(data@.take(i as int + 1).drop_last() == data@.take(i as int));
            i = i + 1;
        }
        assert(data@.take(i as int) == data@);
        assert(body@ == seq![0x4du8] + hex_digits(addr as nat) + seq![0x2cu8] + hex_digits(data@.len()) + seq![0x3au8]
            + hex_encoded(data@));
        self.request(body.as_slice(), Expect::Simple)
    }

    /// Reads a register: `p<register>` in hex. The value comes back as bytes.
    pub fn read_register(&mut self, register: u64)
        requires
            idle(old(self)@),
        ensures
            final(self)@ == requested(old(self)@, seq![0x70u8] + hex_digits(register as nat), Expect::Memory),
    {
        let mut body: Vec<u8> = Vec::new();
        body.push(0x70);
        push_hex_digits(&mut body, register);
        self.request(body.as_slice(), Expect::Memory)
    }

    /// Writes a register: `P<register>=` in hex and the value as given.
    pub fn write_register(&mut self, register: u64, value: &[u8])
        requires
            idle(old(self)@),
        ensures
            final(self)@ == requested(
                old(self)@,
                seq![0x50u8] + hex_digits(register as nat) + seq![0x3du8] + value@,
                Expect::Simple,
            ),
    {
        let mut body: Vec<u8> = Vec::new();
        body.push(0x50);
        push_hex_digits(&mut body, register);
        body.push(0x3d);
        push_all(&mut body, value);
        assert(body@ == seq![0x50u8] + hex_digits(register as nat) + seq![0x3du8] + value@);
        self.request(body.as_slice(), Expect::Simple)
    }

    /// Asks whether a thread is alive: `T` and its thread-id.
    pub fn ping_thread(&mut self, thread: ProcessId)
        requires
            idle(old(self)@),
        ensures
            final(self)@ == requested(old(self)@, seq![0x54u8] + thread_id_wire(thread), Expect::Simple),
    {
        let mut body: Vec<u8> = Vec::new();
        body.push(0x54);
        push_thread_id(&mut body, thread);
        self.request(body.as_slice(), Expect::Simple)
    }

    fn vpacket(&mut self, cmd: &[u8], pid: ProcessId, e: Expect)
        requires
            idle(old(self)@),
        ensures
            final(self)@ == requested(old(self)@, cmd@ + thread_id_wire(pid), e),
    {
        let mut body: Vec<u8> = Vec::new();
        push_all(&mut body, cmd);
        push_thread_id(&mut body, pid);
        self.request(body.as_slice(), e)
    }

    /// Attaches to a process: `vAttach;` and its thread-id. The stop reply
    /// comes back as it came.
    pub fn attach(&mut self, pid: ProcessId)
        requires
            idle(old(self)@),
        ensures
            final(self)@ == requested(old(self)@, seq![0x76u8, 0x41u8, 0x74u8, 0x74u8, 0x61u8, 0x63u8, 0x68u8, 0x3bu8] + thread_id_wire(pid), Expect::Raw),
    {
        self.vpacket(&[0x76u8, 0x41u8, 0x74u8, 0x74u8, 0x61u8, 0x63u8, 0x68u8, 0x3bu8], pid, Expect::Raw)
    }

    /// Kills a process: `vKill;` and its thread-id.
    pub fn kill(&mut self, pid: ProcessId)
        requires
            idle(old(self)@),
        ensures
            final(self)@ == requested(old(self)@, seq![0x76u8, 0x4bu8, 0x69u8, 0x6cu8, 0x6cu8, 0x3bu8] + thread_id_wire(pid), Expect::Simple),
    {
        self.vpacket(&[0x76u8, 0x4bu8, 0x69u8, 0x6cu8, 0x6cu8, 0x3bu8], pid, Expect::Simple)
    }

    /// Resumes the current thread: `c`. The stop reply comes back as it came.
    pub fn cont(&mut self)
        requires
            idle(old(self)@),
        ensures
            final(self)@ == requested(old(self)@, seq![0x63u8], Expect::Raw),
    {
        let body: &[u8] = &[0x63u8];
        assert(body@ == seq![0x63u8]);
        self.request(body, Expect::Raw)
    }

    fn set_or_clear_breakpoint(&mut self, cmd: &[u8], addr: u64, kind: Option<u8>)
        requires
            idle(old(self)@),
        ensures
            final(self)@ == requested(old(self)@, breakpoint_wire(cmd@, addr, kind), Expect::Simple),
    {
        let size: u8 = match kind {
            Some(value) => value,
            None => 0,
        };
        let mut body: Vec<u8> = Vec::new();
        push_all(&mut body, cmd);
        body.push(0x2c);
        push_hex_digits(&mut body, addr);
        body.push(0x2c);
        push_dec(&mut body, size);
        assert(body@ == breakpoint_wire(cmd@, addr, kind));
        self.request(body.as_slice(), Expect::Simple)
    }

    /// Sets a software breakpoint: `Z0,<addr>,<size>`.
    pub fn set_software_breakpoint(&mut self, addr: u64, kind: Option<u8>)
        requires
            idle(old(self)@),
        ensures
            final(self)@ == requested(old(self)@, breakpoint_wire(seq![0x5au8, 0x30u8], addr, kind), Expect::Simple),
    {
        self.set_or_clear_breakpoint(&[0x5au8, 0x30u8], addr, kind)
    }

    /// Clears a software breakpoint: `z0,<addr>,<size>`.
    pub fn clear_software_breakpoint(&mut self, addr: u64, kind: Option<u8>)
        requires
            idle(old(self)@),
        ensures
            final(self)@ == requested(old(self)@, breakpoint_wire(seq![0x7au8, 0x30u8], addr, kind), Expect::Simple),
    {
        self.set_or_clear_breakpoint(&[0x7au8, 0x30u8], addr, kind)
    }

    /// Sets a hardware breakpoint: `Z1,<addr>,<size>`.
    pub fn set_hardware_breakpoint(&mut self, addr: u64, kind: Option<u8>)
        requires
            idle(old(self)@),
        ensures
            final(self)@ == requested(old(self)@, breakpoint_wire(seq![0x5au8, 0x31u8], addr, kind), Expect::Simple),
    {
        self.set_or_clear_breakpoint(&[0x5au8, 0x31u8], addr, kind)
    }

    /// Clears a hardware breakpoint: `z1,<addr>,<size>`.
    pub fn clear_hardware_breakpoint(&mut self, addr: u64, kind: Option<u8>)
        requires
            idle(old(self)@),
        ensures
            final(self)@ == requested(old(self)@, breakpoint_wire(seq![0x7au8, 0x31u8], addr, kind), Expect::Simple),
    {
        self.set_or_clear_breakpoint(&[0x7au8, 0x31u8], addr, kind)
    }

    /// Sets a write watchpoint: `Z2,<addr>,<size>`.
    pub fn set_write_watchpoint(&mut self, addr: u64, kind: Option<u8>)
        requires
            idle(old(self)@),
        ensures
            final(self)@ == requested(old(self)@, breakpoint_wire(seq![0x5au8, 0x32u8], addr, kind), Expect::Simple),
    {
        self.set_or_clear_breakpoint(&[0x5au8, 0x32u8], addr, kind)
    }

    /// Clears a write watchpoint: `z2,<addr>,<size>`.
    pub fn clear_write_watchpoint(&mut self, addr: u64, kind: Option<u8>)
        requires
            idle(old(self)@),
        ensures
            final(self)@ == requested(old(self)@, breakpoint_wire(seq![0x7au8, 0x32u8], addr, kind), Expect::Simple),
    {
        self.set_or_clear_breakpoint(&[0x7au8, 0x32u8], addr, kind)
    }

    /// Sets a read watchpoint: `Z3,<addr>,<size>`.
    pub fn set_read_watchpoint(&mut self, addr: u64, kind: Option<u8>)
        requires
            idle(old(self)@),
        ensures
            final(self)@ == requested(old(self)@, breakpoint_wire(seq![0x5au8, 0x33u8], addr, kind), Expect::Simple),
    {
        self.set_or_clear_breakpoint(&[0x5au8, 0x33u8], addr, kind)
    }

    /// Clears a read watchpoint: `z3,<addr>,<size>`.
    pub fn clear_read_watchpoint(&mut self, addr: u64, kind: Option<u8>)
        requires
            idle(old(self)@),
        ensures
            final(self)@ == requested(old(self)@, breakpoint_wire(seq![0x7au8, 0x33u8], addr, kind), Expect::Simple),
    {
        self.set_or_clear_breakpoint(&[0x7au8, 0x33u8], addr, kind)
    }

    /// Sets an access watchpoint: `Z4,<addr>,<size>`.
    pub fn set_access_watchpoint(&mut self, addr: u64, kind: Option<u8>)
        requires
            idle(old(self)@),
        ensures
            final(self)@ == requested(old(self)@, breakpoint_wire(seq![0x5au8, 0x34u8], addr, kind), Expect::Simple),
    {
        self.set_or_clear_breakpoint(&[0x5au8, 0x34u8], addr, kind)
    }

    /// Clears an access watchpoint: `z4,<addr>,<size>`.
    pub fn clear_access_watchpoint(&mut self, addr: u64, kind: Option<u8>)
        requires
            idle(old(self)@),
        ensures
            final(self)@ == requested(old(self)@, breakpoint_wire(seq![0x7au8, 0x34u8], addr, kind), Expect::Simple),
    {
        self.set_or_clear_breakpoint(&[0x7au8, 0x34u8], addr, kind)
    }

    fn set_flag(&mut self, cmd: &[u8], state: bool, e: Expect)
        requires
            idle(old(self)@),
        ensures
            final(self)@ == requested(old(self)@, cmd@.push(flag_byte(state)), e),
    {
        let mut body: Vec<u8> = Vec::new();
        push_all(&mut body, cmd);
        body.push(if state {
            0x31
        } else {
            0x30
        });
        self.request(body.as_slice(), e)
    }

    /// Turns address space randomization off (`true`) or on:
    /// `QDisableRandomization:1` or `:0`.
    pub fn set_randomization(&mut self, state: bool)
        requires
            idle(old(self)@),
        ensures
            final(self)@ == requested(old(self)@, seq![0x51u8, 0x44u8, 0x69u8, 0x73u8, 0x61u8, 0x62u8, 0x6cu8, 0x65u8, 0x52u8, 0x61u8, 0x6eu8, 0x64u8, 0x6fu8, 0x6du8, 0x69u8, 0x7au8, 0x61u8, 0x74u8, 0x69u8, 0x6fu8, 0x6eu8, 0x3au8].push(flag_byte(state)), Expect::Simple),
    {
        self.set_flag(&[0x51u8, 0x44u8, 0x69u8, 0x73u8, 0x61u8, 0x62u8, 0x6cu8, 0x65u8, 0x52u8, 0x61u8, 0x6eu8, 0x64u8, 0x6fu8, 0x6du8, 0x69u8, 0x7au8, 0x61u8, 0x74u8, 0x69u8, 0x6fu8, 0x6eu8, 0x3au8], state, Expect::Simple)
    }

    /// Turns non-stop mode on or off: `QNonStop:1` or `:0`. The mode is
    /// recorded when the target answers `OK`.
    pub fn set_nonstop(&mut self, state: bool)
        requires
            idle(old(self)@),
        ensures
            final(self)@ == requested(old(self)@, seq![0x51u8, 0x4eu8, 0x6fu8, 0x6eu8, 0x53u8, 0x74u8, 0x6fu8, 0x70u8, 0x3au8].push(flag_byte(state)), Expect::NonStop(state)),
    {
        self.set_flag(&[0x51u8, 0x4eu8, 0x6fu8, 0x6eu8, 0x53u8, 0x74u8, 0x6fu8, 0x70u8, 0x3au8], state, Expect::NonStop(state))
    }

    /// Turns thread creation and exit events on or off: `QThreadEvents:1`
    /// or `:0`.
    pub fn set_thread_events(&mut self, state: bool)
        requires
            idle(old(self)@),
        ensures
            final(self)@ == requested(old(self)@, seq![0x51u8, 0x54u8, 0x68u8, 0x72u8, 0x65u8, 0x61u8, 0x64u8, 0x45u8, 0x76u8, 0x65u8, 0x6eu8, 0x74u8, 0x73u8, 0x3au8].push(flag_byte(state)), Expect::Simple),
    {
        self.set_flag(&[0x51u8, 0x54u8, 0x68u8, 0x72u8, 0x65u8, 0x61u8, 0x64u8, 0x45u8, 0x76u8, 0x65u8, 0x6eu8, 0x74u8, 0x73u8, 0x3au8], state, Expect::Simple)
    }

    fn signal_op(&mut self, command: &[u8], signals: &[u8])
        requires
            idle(old(self)@),
        ensures
            final(self)@ == requested(old(self)@, command@ + signal_list(sorted_bytes(signals@)), Expect::Simple),
    {
        let sorted = sort_bytes(signals);
        let mut body: Vec<u8> = Vec::new();
        push_all(&mut body, command);
        let mut i: usize = 0;
        while i < sorted.len()
            invariant
                i <= sorted@.len(),
                body@ == command@ + signal_list(sorted@.take(i as int)),
            decreases sorted@.len() - i,
        {
            if i == 0 {
                body.push(0x3a);
            } else {
                body.push(0x3b);
            }
            push_hex_digits(&mut body, sorted[i] as u64);
            proof {
                let t = sorted@.take(i as int + 1);
                assert(t.drop_last() == sorted@.take(i as int));
                assert(body@ == command@ + signal_list(t));
            }
            i = i + 1;
        }
        assert(sorted@.take(i as int) == sorted@);
        self.request(body.as_slice(), Expect::Simple)
    }

    /// Sets the signals to pass straight to the program: `QPassSignals`,
    /// then the signals in ascending order, in hex, after `:` and `;`.
    pub fn set_pass_signals(&mut self, signals: &[u8])
        requires
            idle(old(self)@),
        ensures
            final(self)@ == requested(old(self)@, seq![0x51u8, 0x50u8, 0x61u8, 0x73u8, 0x73u8, 0x53u8, 0x69u8, 0x67u8, 0x6eu8, 0x61u8, 0x6cu8, 0x73u8] + signal_list(sorted_bytes(signals@)), Expect::Simple),
    {
        self.signal_op(&[0x51u8, 0x50u8, 0x61u8, 0x73u8, 0x73u8, 0x53u8, 0x69u8, 0x67u8, 0x6eu8, 0x61u8, 0x6cu8, 0x73u8], signals)
    }

    /// Sets the signals the program may see: `QProgramSignals`, then the
    /// signals in ascending order, in hex, after `:` and `;`.
    pub fn set_program_signals(&mut self, signals: &[u8])
        requires
            idle(old(self)@),
        ensures
            final(self)@ == requested(old(self)@, seq![0x51u8, 0x50u8, 0x72u8, 0x6fu8, 0x67u8, 0x72u8, 0x61u8, 0x6du8, 0x53u8, 0x69u8, 0x67u8, 0x6eu8, 0x61u8, 0x6cu8, 0x73u8] + signal_list(sorted_bytes(signals@)), Expect::Simple),
    {
        self.signal_op(&[0x51u8, 0x50u8, 0x72u8, 0x6fu8, 0x67u8, 0x72u8, 0x61u8, 0x6du8, 0x53u8, 0x69u8, 0x67u8, 0x6eu8, 0x61u8, 0x6cu8, 0x73u8], signals)
    }

    /// Catches the given system calls, `QCatchSyscalls:1` and each in hex
    /// after `;`; or, with `None`, stops catching them: `QCatchSyscalls:0`.
    pub fn catch_syscalls(&mut self, syscalls: Option<&[u8]>)
        requires
            idle(old(self)@),
        ensures
            final(self)@ == requested(
                old(self)@,
                match syscalls {
                    Some(calls) => seq![0x51u8, 0x43u8, 0x61u8, 0x74u8, 0x63u8, 0x68u8, 0x53u8, 0x79u8, 0x73u8, 0x63u8, 0x61u8, 0x6cu8, 0x6cu8, 0x73u8, 0x3au8, 0x31u8] + syscall_list(calls@),
                    None => seq![0x51u8, 0x43u8, 0x61u8, 0x74u8, 0x63u8, 0x68u8, 0x53u8, 0x79u8, 0x73u8, 0x63u8, 0x61u8, 0x6cu8, 0x6cu8, 0x73u8, 0x3au8, 0x30u8],
                },
                Expect::Simple,
            ),
    {
        match syscalls {
            Some(calls) => {
                let mut body: Vec<u8> = Vec::new();
                push_all(&mut body, &[0x51u8, 0x43u8, 0x61u8, 0x74u8, 0x63u8, 0x68u8, 0x53u8, 0x79u8, 0x73u8, 0x63u8, 0x61u8, 0x6cu8, 0x6cu8, 0x73u8, 0x3au8, 0x31u8]);
                let mut i: usize = 0;
                while i < calls.len()
                    invariant
                        i <= calls@.len(),
                        body@ == seq![0x51u8, 0x43u8, 0x61u8, 0x74u8, 0x63u8, 0x68u8, 0x53u8, 0x79u8, 0x73u8, 0x63u8, 0x61u8, 0x6cu8, 0x6cu8, 0x73u8, 0x3au8, 0x31u8] + syscall_list(calls@.take(i as int)),
                    decreases calls@.len() - i,
                {
                    body.push(0x3b);
                    push_hex_digits(&mut body, calls[i] as u64);
                    proof {
                        let t = calls@.take(i as int + 1);
                        assert(t.drop_last() == calls@.take(i as int));
                        assert(body@ == seq![0x51u8, 0x43u8, 0x61u8, 0x74u8, 0x63u8, 0x68u8, 0x53u8, 0x79u8, 0x73u8, 0x63u8, 0x61u8, 0x6cu8, 0x6cu8, 0x73u8, 0x3au8, 0x31u8] + syscall_list(t));
                    }
                    i = i + 1;
                }
                assert(calls@.take(i as int) == calls@);
                self.request(body.as_slice(), Expect::Simple)
            },
            None => self.request(&[0x51u8, 0x43u8, 0x61u8, 0x74u8, 0x63u8, 0x68u8, 0x53u8, 0x79u8, 0x73u8, 0x63u8, 0x61u8, 0x6cu8, 0x6cu8, 0x73u8, 0x3au8, 0x30u8], Expect::Simple),
        }
    }

    /// Answers the target's symbol lookup: `qSymbol::` when there is
    /// nothing to give, else `qSymbol:`, the address in hex, `:` and the
    /// name. The reply names the next symbol wanted, if any.
    pub fn send_qsymbol(&mut self, symbol: Option<(&[u8], u64)>)
        requires
            idle(old(self)@),
        ensures
            final(self)@ == requested(
                old(self)@,
                match symbol {
                    Some((name, addr)) => seq![0x71u8, 0x53u8, 0x79u8, 0x6du8, 0x62u8, 0x6fu8, 0x6cu8, 0x3au8] + hex_digits(addr as nat) + seq![0x3au8] + name@,
                    None => seq![0x71u8, 0x53u8, 0x79u8, 0x6du8, 0x62u8, 0x6fu8, 0x6cu8, 0x3au8, 0x3au8],
                },
                Expect::Symbol,
            ),
    {
        match symbol {
            None => {
                let body: &[u8] = &[0x71u8, 0x53u8, 0x79u8, 0x6du8, 0x62u8, 0x6fu8, 0x6cu8, 0x3au8, 0x3au8];
                assert(body@ == seq![0x71u8, 0x53u8, 0x79u8, 0x6du8, 0x62u8, 0x6fu8, 0x6cu8, 0x3au8, 0x3au8]);
                self.request(body, Expect::Symbol)
            },
            Some((name, addr)) => {
                let mut body: Vec<u8> = Vec::new();
                push_all(&mut body, &[0x71u8, 0x53u8, 0x79u8, 0x6du8, 0x62u8, 0x6fu8, 0x6cu8, 0x3au8]);
                push_hex_digits(&mut body, addr);
                body.push(0x3a);
                push_all(&mut body, name);
                assert(body@ == seq![0x71u8, 0x53u8, 0x79u8, 0x6du8, 0x62u8, 0x6fu8, 0x6cu8, 0x3au8] + hex_digits(addr as nat) + seq![0x3au8] + name@);
                self.request(body.as_slice(), Expect::Symbol)
            },
        }
    }
}

fn slice_vec(s: &[u8]) -> (r: Vec<u8>)
    ensures
        r@ == s@,
{
    let mut v: Vec<u8> = Vec::new();
    push_all(&mut v, s);
    v
}

/// A breakpoint or watchpoint request: the command, `,`, the address in
/// hex, `,`, and the size in decimal (`0` when not given).
pub open spec fn breakpoint_wire(cmd: Seq<u8>, addr: u64, kind: Option<u8>) -> Seq<u8> {
    cmd + seq![0x2cu8] + hex_digits(addr as nat) + seq![0x2cu8] + dec_digits(
        match kind {
            Some(v) => v as nat,
            None => 0,
        },
    )
}

} // verus!

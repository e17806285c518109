//! Packet framing over a byte stream: checksums, acknowledgments and
//! resends, run-length expansion, binary escapes and thread-ids.
//!
//! `RspConnection` holds the framing state only. Bytes it wants on the wire
//! collect in an output buffer (see `take_output`); bytes from the peer are
//! handed in through `receive_ack` and `read_packet`.
use vstd::prelude::*;

use vstd::arithmetic::div_mod::lemma_add_mod_noop;

use crate::util::{
    hex_char_of, lemma_hex_char, lemma_hex_char_of_value,
    hex_char, hex_digit, hex_digit_value, hex_digits, hex_pair, is_hex_digit, push_hex_digits,
    push_hex_pair,
};

verus! {

/// A framing error.
#[derive(Debug, Clone, Copy, PartialEq, Eq, Structural)]
pub enum RspError {
    /// A normal packet arrived whose checksum did not match its body
    /// (checked only while acking); a `-` was sent so that the peer resends.
    InvalidChecksum,
    /// The peer refused a packet more times than the retry limit allows.
    TooManyRetries,
}

/// The result of a framing operation.
pub type RspResult<T> = Result<T, RspError>;

/// The type of a packet.
#[derive(Debug, Clone, Copy, PartialEq, Eq, Structural)]
pub enum PacketType {
    /// A normal packet, started by `$`.
    Normal,
    /// A notification packet, started by `%`.
    Notification,
}

/// Part of a process id.
#[derive(Debug, Clone, Copy, PartialEq, Eq, Structural)]
pub enum Id {
    /// A particular process or thread; never 0, which means `Any`.
    Specific(u32),
    /// All processes, or all threads of a process (`-1` on the wire).
    All,
    /// Any process, or any thread of a process (`0` on the wire).
    Any,
}

/// A thread-id: a process and a thread within it.
#[derive(Debug, Clone, Copy, PartialEq, Eq, Structural)]
pub struct ProcessId {
    /// The process.
    pub pid: Id,
    /// The thread.
    pub tid: Id,
}

impl ProcessId {
    /// Makes a thread-id from a positive process id and, if given, a
    /// positive thread id; without one the thread is `Any`.
    pub fn new(pid: i32, tid: Option<i32>) -> (r: ProcessId)
        requires
            pid > 0,
            tid matches Some(t) ==> t > 0,
        ensures
            r.pid == Id::Specific(pid as u32),
            r.tid == (match tid {
                Some(t) => Id::Specific(t as u32),
                None => Id::Any,
            }),
    {
        let mut result = ProcessId { pid: Id::Specific(pid as u32), tid: Id::Any };
        match tid {
            Some(value) => {
                result.tid = Id::Specific(value as u32);
            },
            None => {},
        }
        result
    }
}

/// The byte that starts a packet of type `k`.
pub open spec fn start_byte(k: PacketType) -> u8 {
    match k {
        PacketType::Normal => 0x24,
        PacketType::Notification => 0x25,
    }
}

/// The sum of the bytes of `s`.
pub open spec fn byte_sum(s: Seq<u8>) -> nat
    decreases s.len(),
{
    if s.len() == 0 {
        0
    } else {
        byte_sum(s.drop_last()) + s.last() as nat
    }
}

/// The checksum of a packet body: the sum of its bytes modulo 256.
pub open spec fn checksum_of(body: Seq<u8>) -> u8 {
    (byte_sum(body) % 256) as u8
}

/// `a + b` modulo 256.
pub open spec fn add_mod(a: u8, b: u8) -> u8 {
    ((a + b) % 256) as u8
}

/// The checksum trailer: `#` and two lowercase hex digits.
pub open spec fn trailer(cs: u8) -> Seq<u8> {
    seq![0x23u8] + hex_pair(cs)
}

/// A whole packet of type `k` with body `body`, as it goes on the wire.
pub open spec fn frame(k: PacketType, body: Seq<u8>) -> Seq<u8> {
    seq![start_byte(k)] + body + trailer(checksum_of(body))
}

/// Where the packet reader stands.
#[derive(Debug, Clone, Copy, PartialEq, Eq, Structural)]
pub enum ReadPhase {
    /// Between packets: bytes are skipped until `$` or `%`.
    Idle,
    /// Inside a body.
    Body,
    /// After a `*`: the next byte gives the run length.
    Repeat,
    /// After `#`: the first checksum digit comes next.
    Check1,
    /// The second checksum digit comes next.
    Check2,
}

/// The packet reader's state, as a value.
pub struct ReadState {
    /// Where the reader stands.
    pub phase: ReadPhase,
    /// The type of the packet being read.
    pub kind: PacketType,
    /// Its body so far, run-length encoding expanded.
    pub contents: Seq<u8>,
    /// The sum modulo 256 of the body bytes as they came on the wire.
    pub sum: u8,
    /// The last body byte, which a `*` would repeat.
    pub prev: Option<u8>,
    /// The first checksum digit, once read.
    pub digit: u8,
}

/// A connection's state, as a value.
pub struct ConnectionView {
    /// Packets are acknowledged and checksums checked.
    pub acking: bool,
    /// This end is the client (it expands run-length encoding).
    pub is_client: bool,
    /// The type of the packet being written, if one is open.
    pub in_packet: Option<PacketType>,
    /// The running checksum of the packet being written.
    pub checksum: u8,
    /// The body written so far, kept for resending while acking.
    pub last_packet: Seq<u8>,
    /// The most resends allowed for one packet, if limited.
    pub max_retries: Option<u16>,
    /// Bytes for the peer that have not been taken yet.
    pub output: Seq<u8>,
    /// The type of the sent packet that waits for its acknowledgment.
    pub awaiting_ack: Option<PacketType>,
    /// Resends of that packet so far (counted only under a limit).
    pub retries: u16,
    /// The packet reader.
    pub reader: ReadState,
}

/// One end of an RSP connection: the framing state of both directions.
pub struct RspConnection {
    acking: bool,
    is_client: bool,
    in_packet: Option<PacketType>,
    checksum: u8,
    last_packet: Vec<u8>,
    max_retries: Option<u16>,
    output: Vec<u8>,
    awaiting_ack: Option<PacketType>,
    retries: u16,
    read_phase: ReadPhase,
    read_kind: PacketType,
    read_contents: Vec<u8>,
    read_sum: u8,
    read_prev: Option<u8>,
    read_digit: u8,
}

impl View for RspConnection {
    type V = ConnectionView;

    closed spec fn view(&self) -> ConnectionView {
        ConnectionView {
            acking: self.acking,
            is_client: self.is_client,
            in_packet: self.in_packet,
            checksum: self.checksum,
            last_packet: self.last_packet@,
            max_retries: self.max_retries,
            output: self.output@,
            awaiting_ack: self.awaiting_ack,
            retries: self.retries,
            reader: ReadState {
                phase: self.read_phase,
                kind: self.read_kind,
                contents: self.read_contents@,
                sum: self.read_sum,
                prev: self.read_prev,
                digit: self.read_digit,
            },
        }
    }
}

/// The reader between packets.
pub open spec fn idle_reader() -> ReadState {
    ReadState {
        phase: ReadPhase::Idle,
        kind: PacketType::Normal,
        contents: Seq::empty(),
        sum: 0,
        prev: None,
        digit: 0,
    }
}

/// The view after a packet of type `k` is opened: its start byte is sent
/// and the checksum starts from zero.
pub open spec fn after_start(v: ConnectionView, k: PacketType) -> ConnectionView {
    ConnectionView {
        in_packet: Some(k),
        checksum: 0,
        output: v.output.push(start_byte(k)),
        ..v
    }
}

/// No packet is open, and none waits for its acknowledgment.
pub open spec fn ready(v: ConnectionView) -> bool {
    v.in_packet is None && v.awaiting_ack is None
}

/// The view after body bytes `buf` are written into the open packet.
pub open spec fn after_body_write(v: ConnectionView, buf: Seq<u8>) -> ConnectionView {
    ConnectionView {
        checksum: ((v.checksum + byte_sum(buf)) % 256) as u8,
        last_packet: if v.acking {
            v.last_packet + buf
        } else {
            v.last_packet
        },
        output: v.output + buf,
        ..v
    }
}

/// The bytes of `b` are reserved in a packet body: `$`, `#`, `}` and `*`.
pub open spec fn is_reserved(b: u8) -> bool {
    b == 0x24 || b == 0x23 || b == 0x7d || b == 0x2a
}

/// One byte as the binary encoding sends it: a reserved byte becomes `}`
/// followed by the byte XOR 0x20; any other byte stands for itself.
pub open spec fn escape_byte(b: u8) -> Seq<u8> {
    if is_reserved(b) {
        seq![0x7du8, b ^ 0x20u8]
    } else {
        seq![b]
    }
}

/// `s` in the binary encoding.
pub open spec fn escaped(s: Seq<u8>) -> Seq<u8>
    decreases s.len(),
{
    if s.len() == 0 {
        Seq::empty()
    } else {
        escaped(s.drop_last()) + escape_byte(s.last())
    }
}

/// `s` in the hex encoding: two lowercase digits per byte.
pub open spec fn hex_encoded(s: Seq<u8>) -> Seq<u8>
    decreases s.len(),
{
    if s.len() == 0 {
        Seq::empty()
    } else {
        hex_encoded(s.drop_last()) + hex_pair(s.last())
    }
}

/// One part of a thread-id on the wire.
pub open spec fn id_wire(id: Id) -> Seq<u8> {
    match id {
        Id::Specific(n) => hex_digits(n as nat),
        Id::All => seq![0x2du8, 0x31u8],
        Id::Any => seq![0x30u8],
    }
}

/// A thread-id in the multiprocess form `p<pid>.<tid>`.
pub open spec fn thread_id_wire(p: ProcessId) -> Seq<u8> {
    seq![0x70u8] + id_wire(p.pid) + seq![0x2eu8] + id_wire(p.tid)
}

/// The view after the open packet is closed with its trailer. A normal
/// packet sent while acking then waits for its acknowledgment, and keeps
/// its body for resending; otherwise the body is let go.
pub open spec fn after_finish(v: ConnectionView) -> ConnectionView {
    let waits = v.acking && v.in_packet == Some(PacketType::Normal);
    ConnectionView {
        in_packet: None,
        output: v.output + trailer(v.checksum),
        awaiting_ack: if waits {
            v.in_packet
        } else {
            None
        },
        retries: 0,
        last_packet: if waits {
            v.last_packet
        } else {
            Seq::empty()
        },
        ..v
    }
}

/// What is sent again when the packet that waits is refused.
pub open spec fn resend_bytes(v: ConnectionView) -> Seq<u8> {
    seq![start_byte(v.awaiting_ack->0)] + v.last_packet + trailer(v.checksum)
}

/// One more refusal would pass the retry limit.
pub open spec fn over_limit(v: ConnectionView) -> bool {
    match v.max_retries {
        Some(m) => v.retries + 1 > m,
        None => false,
    }
}

/// The result of handing the byte `b` to a packet that waits for its
/// acknowledgment: `+` accepts it; any other byte refuses it.
pub open spec fn ack_result(v: ConnectionView, b: u8) -> RspResult<bool> {
    if b == 0x2b {
        Ok(true)
    } else if over_limit(v) {
        Err(RspError::TooManyRetries)
    } else {
        Ok(false)
    }
}

/// The view after the byte `b` is handed to a packet that waits for its
/// acknowledgment. A refusal within the limit sends the packet again.
pub open spec fn after_ack(v: ConnectionView, b: u8) -> ConnectionView {
    if b == 0x2b || over_limit(v) {
        ConnectionView { awaiting_ack: None, retries: 0, last_packet: Seq::empty(), ..v }
    } else {
        ConnectionView {
            retries: if v.max_retries is Some {
                (v.retries + 1) as u16
            } else {
                v.retries
            },
            output: v.output + resend_bytes(v),
            ..v
        }
    }
}

/// The sum of the bytes of `a + b` is the sum of the two sums.
pub proof fn lemma_byte_sum_concat(a: Seq<u8>, b: Seq<u8>)
    ensures
        byte_sum(a + b) == byte_sum(a) + byte_sum(b),
    decreases b.len(),
{
    if b.len() == 0 {
        assert(a + b == a);
    } else {
        lemma_byte_sum_concat(a, b.drop_last());
        assert((a + b).drop_last() == a + b.drop_last());
    }
}

/// Two body writes in a row are one write of both.
pub proof fn lemma_body_writes_concat(v: ConnectionView, a: Seq<u8>, b: Seq<u8>)
    ensures
        after_body_write(after_body_write(v, a), b) == after_body_write(v, a + b),
{
    lemma_byte_sum_concat(a, b);
    let x = v.checksum + byte_sum(a);
    vstd::arithmetic::div_mod::lemma_add_mod_noop_right(byte_sum(b) as int, x, 256);
    assert((x % 256 + byte_sum(b)) % 256 == (x + byte_sum(b)) % 256);
    assert(v.output + a + b == v.output + (a + b));
    assert(v.last_packet + a + b == v.last_packet + (a + b));
}

/// The number of extra copies that the run-length byte `r` asks for:
/// `r - 29`, and none for a byte below 29.
pub open spec fn run_length(r: u8) -> nat {
    if r >= 29 {
        (r - 29) as nat
    } else {
        0
    }
}

/// `n` copies of the byte before a `*`; none if there was no such byte.
pub open spec fn repeated(prev: Option<u8>, n: nat) -> Seq<u8> {
    match prev {
        Some(p) => Seq::new(n, |_i: int| p),
        None => Seq::empty(),
    }
}

/// The reader's state after the byte `b`. Outside a packet, bytes are
/// skipped until `$` or `%`. In a body every byte counts towards the sum;
/// on a client `*` and the byte after it expand the byte before the `*`,
/// and the copies do not count. `#` ends the body; two checksum digits
/// follow, after which the reader is between packets again.
pub open spec fn read_step(st: ReadState, is_client: bool, b: u8) -> ReadState {
    match st.phase {
        ReadPhase::Idle => {
            if b == 0x24 || b == 0x25 {
                ReadState {
                    phase: ReadPhase::Body,
                    kind: if b == 0x24 {
                        PacketType::Normal
                    } else {
                        PacketType::Notification
                    },
                    contents: Seq::empty(),
                    sum: 0,
                    prev: None,
                    ..st
                }
            } else {
                st
            }
        },
        ReadPhase::Body => {
            if b == 0x23 {
                ReadState { phase: ReadPhase::Check1, ..st }
            } else if b == 0x2a && is_client {
                ReadState { phase: ReadPhase::Repeat, sum: add_mod(st.sum, b), ..st }
            } else {
                ReadState {
                    contents: st.contents.push(b),
                    sum: add_mod(st.sum, b),
                    prev: Some(b),
                    ..st
                }
            }
        },
        ReadPhase::Repeat => ReadState {
            phase: ReadPhase::Body,
            contents: st.contents + repeated(st.prev, run_length(b)),
            sum: add_mod(st.sum, b),
            prev: None,
            ..st
        },
        ReadPhase::Check1 => ReadState { phase: ReadPhase::Check2, digit: b, ..st },
        ReadPhase::Check2 => idle_reader(),
    }
}

/// The reader's state after the bytes `s`, one after another.
pub open spec fn feed(st: ReadState, is_client: bool, s: Seq<u8>) -> ReadState
    decreases s.len(),
{
    if s.len() == 0 {
        st
    } else {
        read_step(feed(st, is_client, s.drop_last()), is_client, s.last())
    }
}

/// The byte at index `j` of `s` completes a packet: it is the second
/// checksum digit.
pub open spec fn completes_at(st: ReadState, is_client: bool, s: Seq<u8>, j: int) -> bool {
    feed(st, is_client, s.take(j)).phase == ReadPhase::Check2
}

/// The checksum that the digits `d1 d2` transmit, if both are hex digits.
pub open spec fn transmitted(d1: u8, d2: u8) -> Option<u8> {
    if is_hex_digit(d1) && is_hex_digit(d2) {
        Some((hex_digit_value(d1) * 16 + hex_digit_value(d2)) as u8)
    } else {
        None
    }
}

/// The packet that `b` completes is accepted: its checksum is checked only
/// for a normal packet while acking.
pub open spec fn checksum_accepted(st: ReadState, acking: bool, b: u8) -> bool {
    !acking || st.kind == PacketType::Notification || transmitted(st.digit, b) == Some(st.sum)
}

/// What the reader sends back when `b` completes a packet: while acking, a
/// normal packet gets `+` if its checksum matches and `-` if not.
pub open spec fn ack_reply(st: ReadState, acking: bool, b: u8) -> Seq<u8> {
    if acking && st.kind == PacketType::Normal {
        if transmitted(st.digit, b) == Some(st.sum) {
            seq![0x2bu8]
        } else {
            seq![0x2du8]
        }
    } else {
        Seq::empty()
    }
}

/// Reading `s` from the reader state `st`, byte after byte, until a packet
/// completes: how many bytes that takes, the state the reader is in before
/// the completing byte (or, if none completes, after all of `s`), and
/// whether a packet completed.
pub open spec fn scan(st: ReadState, is_client: bool, s: Seq<u8>) -> (nat, ReadState, bool)
    decreases s.len(),
{
    if s.len() == 0 {
        (0, st, false)
    } else if st.phase == ReadPhase::Check2 {
        (1, st, true)
    } else {
        let r = scan(read_step(st, is_client, s[0]), is_client, s.skip(1));
        (r.0 + 1, r.1, r.2)
    }
}

/// Reading packets from `s`, starting in the reader state `st`, until one
/// is accepted or `s` runs out; a packet whose checksum is refused is
/// dropped and reading goes on. Gives the bytes consumed, the accepted
/// packet's type and body, the acknowledgments sent along the way (one per
/// completed packet, as `ack_reply` says), and the reader's state after.
pub open spec fn read_accepted(st: ReadState, is_client: bool, acking: bool, s: Seq<u8>) -> (
    nat,
    Option<(PacketType, Seq<u8>)>,
    Seq<u8>,
    ReadState,
)
    decreases s.len(),
{
    let (n, p, done) = scan(st, is_client, s);
    if done && 0 < n <= s.len() {
        let b = s[n - 1];
        let ack = ack_reply(p, acking, b);
        if checksum_accepted(p, acking, b) {
            (n, Some((p.kind, p.contents)), ack, idle_reader())
        } else {
            let r = read_accepted(idle_reader(), is_client, acking, s.skip(n as int));
            (n + r.0, r.1, ack + r.2, r.3)
        }
    } else {
        (s.len(), None, Seq::empty(), p)
    }
}

/// `o` is the result of the packet that `b` completes.
pub open spec fn is_packet_outcome(
    o: RspResult<(PacketType, Vec<u8>)>,
    st: ReadState,
    acking: bool,
    b: u8,
) -> bool {
    match o {
        Ok((k, c)) => checksum_accepted(st, acking, b) && k == st.kind && c@ == st.contents,
        Err(e) => !checksum_accepted(st, acking, b) && e == RspError::InvalidChecksum,
    }
}

/// `s` with its binary escapes undone: `}` and the byte after it stand for
/// that byte XOR 0x20.
pub open spec fn unescaped(s: Seq<u8>) -> Seq<u8>
    decreases s.len(),
{
    if s.len() >= 2 && s[0] == 0x7d {
        seq![s[1] ^ 0x20u8] + unescaped(s.skip(2))
    } else if s.len() >= 1 {
        seq![s[0]] + unescaped(s.skip(1))
    } else {
        Seq::empty()
    }
}

/// Undoes the binary encoding that `write_binary` applies: `}` and the byte
/// after it become that byte XOR 0x20. A `}` at the very end is kept.
pub fn decode_binary(data: &[u8]) -> (r: Vec<u8>)
    ensures
        r@ == unescaped(data@),
{
    let mut out: Vec<u8> = Vec::new();
    let mut i: usize = 0;
    let len = data.len();
    assert(data@.skip(0) == data@);
    while i < len
        invariant
            len == data@.len(),
            i <= len,
            unescaped(data@) == out@ + unescaped(data@.skip(i as int)),
        decreases len - i,
    {
        let ghost rest = data@.skip(i as int);
        if data[i] == 0x7d && i + 1 < len {
            let b = data[i + 1] ^ 0x20;
            proof {
                assert(rest.skip(2) == data@.skip(i as int + 2));
                assert(out@.push(b) + unescaped(rest.skip(2)) == out@ + (seq![b] + unescaped(rest.skip(2))));
            }
            out.push(b);
            i = i + 2;
        } else {
            let b = data[i];
            proof {
                assert(rest.skip(1) == data@.skip(i as int + 1));
                assert(out@.push(b) + unescaped(rest.skip(1)) == out@ + (seq![b] + unescaped(rest.skip(1))));
            }
            out.push(b);
            i = i + 1;
        }
    }
    assert(out@ + unescaped(data@.skip(i as int)) == out@);
    out
}

/// The reader's state inside a packet of type `k` whose body so far is `body`,
/// read without run-length expansion.
pub open spec fn body_state(k: PacketType, body: Seq<u8>) -> ReadState {
    ReadState {
        phase: ReadPhase::Body,
        kind: k,
        contents: body,
        sum: checksum_of(body),
        prev: if body.len() > 0 {
            Some(body.last())
        } else {
            None
        },
        digit: 0,
    }
}

proof fn lemma_checksum_push(body: Seq<u8>, b: u8)
    ensures
        checksum_of(body.push(b)) == add_mod(checksum_of(body), b),
{
    assert(body.push(b).drop_last() == body);
    vstd::arithmetic::div_mod::lemma_add_mod_noop_right(b as int, byte_sum(body) as int, 256);
}

proof fn lemma_read_body(k: PacketType, body: Seq<u8>, wire: Seq<u8>, is_client: bool, j: int)
    requires
        0 <= j <= body.len(),
        wire.len() > body.len(),
        wire[0] == start_byte(k),
        forall|i: int| 0 <= i < body.len() ==> wire[i + 1] == body[i],
        forall|i: int| 0 <= i < body.len() ==> body[i] != 0x23 && (is_client ==> body[i] != 0x2a),
    ensures
        feed(idle_reader(), is_client, wire.take(1 + j)) == body_state(k, body.take(j)),
        forall|i: int| 0 <= i <= 1 + j ==> !completes_at(idle_reader(), is_client, wire, i),
    decreases j,
{
    if j == 0 {
        assert(wire.take(1).drop_last() == Seq::<u8>::empty());
        assert(body.take(0) == Seq::<u8>::empty());
        assert(wire.take(0) == Seq::<u8>::empty());
        assert(checksum_of(Seq::<u8>::empty()) == 0);
    } else {
        lemma_read_body(k, body, wire, is_client, j - 1);
        let b = body[j - 1];
        assert(wire.take(1 + j).drop_last() == wire.take(j));
        assert(wire.take(1 + j).last() == b);
        assert(body.take(j) == body.take(j - 1).push(b));
        lemma_checksum_push(body.take(j - 1), b);
    }
}

/// A packet is read back as it was written. The bytes that `start_packet`
/// (or `start_notification_packet`), a body write of `body` and
/// `finish_packet` send are the packet's frame; a reader between packets
/// completes exactly one packet on them, at the last byte, with the same
/// type and body, and accepts its checksum. This holds for every body
/// without `#`, and without `*` where the reader is a client (which expands
/// `*` as a repeat).
pub proof fn lemma_packet_round_trip(
    v: ConnectionView,
    k: PacketType,
    body: Seq<u8>,
    is_client: bool,
    acking: bool,
)
    requires
        ready(v),
        forall|i: int| 0 <= i < body.len() ==> body[i] != 0x23 && (is_client ==> body[i] != 0x2a),
    ensures
        ({
            let sent = after_finish(after_body_write(after_start(v, k), body));
            let wire = frame(k, body);
            let n = wire.len() as int;
            let st = feed(idle_reader(), is_client, wire.take(n - 1));
            &&& sent.output == v.output + wire
            &&& forall|j: int| 0 <= j < n - 1 ==> !completes_at(idle_reader(), is_client, wire, j)
            &&& completes_at(idle_reader(), is_client, wire, n - 1)
            &&& st.kind == k
            &&& st.contents == body
            &&& checksum_accepted(st, acking, wire[n - 1])
        }),
{
    let wire = frame(k, body);
    let l = body.len() as int;
    let cs = checksum_of(body);
    let n = wire.len() as int;
    assert(n == l + 4);
    assert(after_body_write(after_start(v, k), body).checksum == cs);
    assert(v.output.push(start_byte(k)) + body + trailer(cs) == v.output + wire);
    lemma_read_body(k, body, wire, is_client, l);
    assert(body.take(l) == body);
    let st0 = body_state(k, body);
    assert(wire.take(l + 2).drop_last() == wire.take(l + 1));
    assert(wire[l + 1] == 0x23);
    let st1 = feed(idle_reader(), is_client, wire.take(l + 2));
    assert(st1 == ReadState { phase: ReadPhase::Check1, ..st0 });
    assert(wire.take(l + 3).drop_last() == wire.take(l + 2));
    let st2 = feed(idle_reader(), is_client, wire.take(l + 3));
    assert(st2 == ReadState { phase: ReadPhase::Check2, digit: wire[l + 2], ..st0 });
    assert forall|j: int| 0 <= j < n - 1 implies !completes_at(idle_reader(), is_client, wire, j) by {
        if j == l + 2 {
            assert(feed(idle_reader(), is_client, wire.take(j)) == st1);
        }
    }
    assert(wire[l + 2] == hex_char(cs as nat / 16));
    assert(wire[l + 3] == hex_char(cs as nat % 16));
    lemma_hex_char(cs as nat / 16);
    lemma_hex_char(cs as nat % 16);
    assert(cs as nat == (cs as nat / 16) * 16 + cs as nat % 16);
    assert(transmitted(wire[l + 2], wire[l + 3]) == Some(cs));
}

proof fn lemma_escape_byte(b: u8)
    ensures
        escape_byte(b).len() >= 1,
        forall|i: int|
            0 <= i < escape_byte(b).len() ==> escape_byte(b)[i] != 0x24 && escape_byte(b)[i] != 0x23
                && escape_byte(b)[i] != 0x2a,
        escape_byte(b)[0] == 0x7d <==> is_reserved(b),
        is_reserved(b) ==> escape_byte(b).len() == 2 && escape_byte(b)[1] ^ 0x20u8 == b,
        !is_reserved(b) ==> escape_byte(b) == seq![b],
{
    if is_reserved(b) {
        assert((b ^ 0x20u8) != 0x24 && (b ^ 0x20u8) != 0x23 && (b ^ 0x20u8) != 0x2a && ((b ^ 0x20u8)
            ^ 0x20u8) == b) by (bit_vector)
            requires
                b == 0x24 || b == 0x23 || b == 0x7d || b == 0x2a,
        ;
    }
}

proof fn lemma_escaped_front(b: u8, rest: Seq<u8>)
    ensures
        escaped(seq![b] + rest) == escape_byte(b) + escaped(rest),
    decreases rest.len(),
{
    if rest.len() == 0 {
        assert(seq![b] + rest == seq![b]);
        assert(seq![b].drop_last() == Seq::<u8>::empty());
        reveal_with_fuel(escaped, 2);
        assert(escaped(seq![b]) == Seq::<u8>::empty() + escape_byte(b));
        assert(escape_byte(b) + Seq::<u8>::empty() == escape_byte(b));
    } else {
        lemma_escaped_front(b, rest.drop_last());
        assert((seq![b] + rest).drop_last() == seq![b] + rest.drop_last());
        assert(escape_byte(b) + escaped(rest.drop_last()) + escape_byte(rest.last()) == escape_byte(b)
            + escaped(rest));
    }
}

/// Bytes in the binary encoding hold no `$`, `#` or `*`, and un-escaping
/// them gives back the bytes.
pub proof fn lemma_escaped_clean(data: Seq<u8>)
    ensures
        forall|i: int|
            0 <= i < escaped(data).len() ==> escaped(data)[i] != 0x24 && escaped(data)[i] != 0x23
                && escaped(data)[i] != 0x2a,
        unescaped(escaped(data)) == data,
    decreases data.len(),
{
    if data.len() > 0 {
        let b = data[0];
        let rest = data.skip(1);
        assert(data == seq![b] + rest);
        lemma_escaped_clean(rest);
        lemma_escaped_front(b, rest);
        lemma_escape_byte(b);
        let e = escaped(data);
        let eb = escape_byte(b);
        assert(e == eb + escaped(rest));
        assert(forall|i: int| 0 <= i < e.len() ==> (i < eb.len() ==> e[i] == eb[i]) && (i >= eb.len()
            ==> e[i] == escaped(rest)[i - eb.len()]));
        if is_reserved(b) {
            assert(e.skip(2) == escaped(rest));
        } else {
            assert(e.skip(1) == escaped(rest));
        }
    }
}

/// Bytes written with `write_binary` come back through a client reader, which
/// expands `*`: the packet's body is the escaped bytes, and `decode_binary`
/// turns it back into the bytes that were written.
pub proof fn lemma_binary_round_trip(v: ConnectionView, k: PacketType, data: Seq<u8>, acking: bool)
    requires
        ready(v),
    ensures
        ({
            let body = escaped(data);
            let wire = frame(k, body);
            let n = wire.len() as int;
            let st = feed(idle_reader(), true, wire.take(n - 1));
            &&& after_finish(after_body_write(after_start(v, k), body)).output == v.output + wire
            &&& forall|j: int| 0 <= j < n - 1 ==> !completes_at(idle_reader(), true, wire, j)
            &&& completes_at(idle_reader(), true, wire, n - 1)
            &&& st.kind == k
            &&& st.contents == body
            &&& unescaped(st.contents) == data
            &&& checksum_accepted(st, acking, wire[n - 1])
        }),
{
    lemma_escaped_clean(data);
    lemma_packet_round_trip(v, k, escaped(data), true, acking);
}

/// While acking, the checksum digits of a normal packet are accepted exactly
/// when they are the two lowercase hex digits of the sum of its bytes
/// modulo 256. (Upper case hex digits of the right value are accepted too;
/// they are left out here, as they differ from the lowercase pair.)
pub proof fn lemma_checksum_check(st: ReadState, d2: u8)
    requires
        st.kind == PacketType::Normal,
        !(0x41 <= st.digit <= 0x46),
        !(0x41 <= d2 <= 0x46),
    ensures
        checksum_accepted(st, true, d2) <==> seq![st.digit, d2] == hex_pair(st.sum),
        checksum_accepted(st, true, d2) <==> ack_reply(st, true, d2) == seq![0x2bu8],
{
    let cs = st.sum;
    assert(seq![0x2du8][0] != seq![0x2bu8][0]);
    lemma_hex_char(cs as nat / 16);
    lemma_hex_char(cs as nat % 16);
    if checksum_accepted(st, true, d2) {
        lemma_hex_char_of_value(st.digit);
        lemma_hex_char_of_value(d2);
        let h = hex_digit_value(st.digit);
        let l = hex_digit_value(d2);
        assert(h * 16 + l == cs as nat);
        assert(h == cs as nat / 16 && l == cs as nat % 16);
    }
    if seq![st.digit, d2] == hex_pair(cs) {
        assert(st.digit == hex_char(cs as nat / 16));
        assert(d2 == hex_char(cs as nat % 16));
    }
}

/// `s`, `j` times over.
pub open spec fn repeat_seq(s: Seq<u8>, j: nat) -> Seq<u8>
    decreases j,
{
    if j == 0 {
        Seq::empty()
    } else {
        repeat_seq(s, (j - 1) as nat) + s
    }
}

/// The view after `j` refusals in a row of the packet that waits.
pub open spec fn naks(v: ConnectionView, j: nat) -> ConnectionView
    decreases j,
{
    if j == 0 {
        v
    } else {
        after_ack(naks(v, (j - 1) as nat), 0x2d)
    }
}

/// The retry limit allows `j` resends.
pub open spec fn allows(max: Option<u16>, j: nat) -> bool {
    match max {
        Some(m) => j <= m,
        None => true,
    }
}

proof fn lemma_naks(v: ConnectionView, j: nat)
    requires
        v.awaiting_ack is Some,
        v.retries == 0,
        allows(v.max_retries, j),
    ensures
        naks(v, j) == (ConnectionView {
            retries: if v.max_retries is Some {
                j as u16
            } else {
                0
            },
            output: v.output + repeat_seq(resend_bytes(v), j),
            ..v
        }),
        forall|i: nat| i < j ==> ack_result(#[trigger] naks(v, i), 0x2d) == Ok::<bool, RspError>(false),
    decreases j,
{
    if j == 0 {
        assert(v.output + Seq::<u8>::empty() == v.output);
    } else {
        lemma_naks(v, (j - 1) as nat);
        let p = naks(v, (j - 1) as nat);
        assert(!over_limit(p));
        assert(resend_bytes(p) == resend_bytes(v));
        assert(v.output + repeat_seq(resend_bytes(v), (j - 1) as nat) + resend_bytes(v) == v.output
            + repeat_seq(resend_bytes(v), j));
        assert forall|i: nat| i < j implies ack_result(#[trigger] naks(v, i), 0x2d) == Ok::<
            bool,
            RspError,
        >(false) by {
            if i == j - 1 {
                assert(!over_limit(naks(v, i)));
            }
        }
    }
}

/// Acknowledgments and resends. After `finish_packet` a normal packet
/// waits; if the peer then refuses it `k` times and accepts it, the packet
/// is sent again exactly `k` times and then accepted, provided the limit is
/// unset or at least `k`. Under a limit of `k - 1`, the `k`-th refusal
/// gives `TooManyRetries`, after `k - 1` resends.
pub proof fn lemma_ack_retries(v: ConnectionView, k: nat)
    requires
        v.awaiting_ack is Some,
        v.retries == 0,
    ensures
        allows(v.max_retries, k) ==> {
            &&& forall|i: nat| i < k ==> ack_result(#[trigger] naks(v, i), 0x2d) == Ok::<bool, RspError>(false)
            &&& naks(v, k).output == v.output + repeat_seq(resend_bytes(v), k)
            &&& ack_result(naks(v, k), 0x2b) == Ok::<bool, RspError>(true)
            &&& after_ack(naks(v, k), 0x2b).awaiting_ack is None
        },
        (v.max_retries matches Some(m) && k == m + 1) ==> {
            &&& forall|i: nat| i < k - 1 ==> ack_result(#[trigger] naks(v, i), 0x2d) == Ok::<bool, RspError>(false)
            &&& naks(v, (k - 1) as nat).output == v.output + repeat_seq(resend_bytes(v), (k - 1) as nat)
            &&& ack_result(naks(v, (k - 1) as nat), 0x2d) == Err::<bool, RspError>(RspError::TooManyRetries)
            &&& after_ack(naks(v, (k - 1) as nat), 0x2d).awaiting_ack is None
        },
{
    if allows(v.max_retries, k) {
        lemma_naks(v, k);
    }
    if v.max_retries matches Some(m) && k == m + 1 {
        lemma_naks(v, (k - 1) as nat);
    }
}

/// Without acking nothing acknowledges: a finished packet does not wait,
/// reading a packet sends nothing back and checks no checksum, and no step
/// turns acking on again (the steps not listed here, such as reading,
/// setting the retry limit and taking the output, leave `acking` as it is
/// by their contracts).
pub proof fn lemma_no_ack_mode(v: ConnectionView, k: PacketType, buf: Seq<u8>, st: ReadState, b: u8)
    requires
        !v.acking,
    ensures
        !after_start(v, k).acking,
        !after_body_write(v, buf).acking,
        after_body_write(v, buf).last_packet == v.last_packet,
        !after_finish(v).acking,
        after_finish(v).awaiting_ack is None,
        !after_ack(v, b).acking,
        ack_reply(st, v.acking, b) == Seq::<u8>::empty(),
        checksum_accepted(st, v.acking, b),
{
}

/// The connection's invariant. The resend buffer holds something only
/// while acking and while a packet is open or waits for its
/// acknowledgment; then it holds exactly the body written so far, and the
/// running checksum is the checksum of that body. Only a normal packet
/// sent while acking waits, and no packet is open meanwhile.
pub open spec fn wf(v: ConnectionView) -> bool {
    &&& !v.acking ==> v.last_packet.len() == 0
    &&& ready(v) ==> v.last_packet.len() == 0
    &&& v.acking && !ready(v) ==> v.checksum == checksum_of(v.last_packet)
    &&& v.awaiting_ack is Some ==> v.in_packet is None && v.acking && v.awaiting_ack == Some(
        PacketType::Normal,
    )
}

/// Every step keeps the invariant: opening a packet, writing its body,
/// closing it, each acknowledgment byte, turning acking off, taking the
/// output, and reading. While a packet waits, what a refusal sends again is
/// exactly that packet's frame.
pub proof fn lemma_wf_preserved(
    v: ConnectionView,
    k: PacketType,
    buf: Seq<u8>,
    b: u8,
    st: ReadState,
)
    requires
        wf(v),
    ensures
        ready(v) ==> wf(after_start(v, k)),
        v.in_packet is Some ==> wf(after_body_write(v, buf)),
        v.in_packet is Some && v.awaiting_ack is None ==> wf(after_finish(v)),
        v.awaiting_ack is Some ==> wf(after_ack(v, b)),
        v.awaiting_ack is Some ==> resend_bytes(v) == frame(PacketType::Normal, v.last_packet),
        wf(ConnectionView { acking: false, last_packet: Seq::empty(), awaiting_ack: None, retries: 0, ..v }),
        wf(ConnectionView { output: Seq::empty(), ..v }),
        wf(ConnectionView { reader: st, ..v }),
        wf(ConnectionView { output: v.output + buf, reader: st, ..v }),
        wf(ConnectionView { max_retries: None, ..v }),
{
    assert(byte_sum(Seq::<u8>::empty()) == 0);
    if v.in_packet is Some && v.acking {
        let x = byte_sum(v.last_packet);
        lemma_byte_sum_concat(v.last_packet, buf);
        vstd::arithmetic::div_mod::lemma_add_mod_noop_right(byte_sum(buf) as int, x as int, 256);
        assert(checksum_of(v.last_packet + buf) == ((v.checksum + byte_sum(buf)) % 256) as u8);
    }
}

/// After the start byte of a packet of type `k`, the reader stays inside
/// the body through all of `raw`: after each prefix it is in the body or
/// just after a `*`, and at the end it is in the body, so that a `#` next
/// ends it.
pub open spec fn stays_in_body(k: PacketType, is_client: bool, raw: Seq<u8>) -> bool {
    &&& forall|j: int|
        0 <= j <= raw.len() ==> {
            let ph = (#[trigger] feed(idle_reader(), is_client, seq![start_byte(k)] + raw.take(j))).phase;
            ph == ReadPhase::Body || ph == ReadPhase::Repeat
        }
    &&& feed(idle_reader(), is_client, seq![start_byte(k)] + raw).phase == ReadPhase::Body
}

proof fn lemma_body_sum(k: PacketType, is_client: bool, raw: Seq<u8>, j: int)
    requires
        stays_in_body(k, is_client, raw),
        0 <= j <= raw.len(),
    ensures
        feed(idle_reader(), is_client, seq![start_byte(k)] + raw.take(j)).kind == k,
        feed(idle_reader(), is_client, seq![start_byte(k)] + raw.take(j)).sum == checksum_of(raw.take(j)),
    decreases j,
{
    let pre = seq![start_byte(k)] + raw.take(j);
    if j == 0 {
        assert(raw.take(0) == Seq::<u8>::empty());
        assert(pre == seq![start_byte(k)]);
        assert(pre.drop_last() == Seq::<u8>::empty());
        reveal_with_fuel(feed, 2);
        assert(checksum_of(Seq::<u8>::empty()) == 0);
    } else {
        lemma_body_sum(k, is_client, raw, j - 1);
        let b = raw[j - 1];
        assert(pre.drop_last() == seq![start_byte(k)] + raw.take(j - 1));
        assert(pre.last() == b);
        assert(raw.take(j) == raw.take(j - 1).push(b));
        lemma_checksum_push(raw.take(j - 1), b);
        let p = feed(idle_reader(), is_client, seq![start_byte(k)] + raw.take(j - 1));
        assert(p.phase == ReadPhase::Body || p.phase == ReadPhase::Repeat);
        let q = feed(idle_reader(), is_client, pre);
        assert(q.phase == ReadPhase::Body || q.phase == ReadPhase::Repeat);
    }
}

/// Any frame whose body keeps the reader inside the packet (run-length
/// bytes included) is read as one packet that completes at its last byte.
/// The checksum checked is the sum modulo 256 of the body bytes as they
/// came on the wire, not of the expanded copies. While acking, a normal
/// packet is acknowledged with `+` exactly when the two digits are hex and
/// spell that sum, and is refused with `-` otherwise; without acking
/// nothing is sent back and the packet is always accepted.
pub proof fn lemma_frame_checked(
    k: PacketType,
    is_client: bool,
    acking: bool,
    raw: Seq<u8>,
    d1: u8,
    d2: u8,
)
    requires
        stays_in_body(k, is_client, raw),
    ensures
        ({
            let w = seq![start_byte(k)] + raw + seq![0x23u8, d1, d2];
            let n = w.len() as int;
            let st = feed(idle_reader(), is_client, w.take(n - 1));
            let ok = transmitted(d1, d2) == Some(checksum_of(raw));
            &&& forall|j: int| 0 <= j < n - 1 ==> !completes_at(idle_reader(), is_client, w, j)
            &&& completes_at(idle_reader(), is_client, w, n - 1)
            &&& w[n - 1] == d2
            &&& st.kind == k
            &&& st.sum == checksum_of(raw)
            &&& st.contents == feed(idle_reader(), is_client, seq![start_byte(k)] + raw).contents
            &&& (acking && k == PacketType::Normal) ==> {
                &&& checksum_accepted(st, acking, d2) == ok
                &&& ack_reply(st, acking, d2) == if ok {
                    seq![0x2bu8]
                } else {
                    seq![0x2du8]
                }
            }
            &&& !acking ==> checksum_accepted(st, acking, d2) && ack_reply(st, acking, d2) == Seq::<u8>::empty()
        }),
{
    let w = seq![start_byte(k)] + raw + seq![0x23u8, d1, d2];
    let l = raw.len() as int;
    let n = w.len() as int;
    lemma_body_sum(k, is_client, raw, l);
    assert(raw.take(l) == raw);
    let head = seq![start_byte(k)] + raw;
    assert(w.take(l + 1) == head);
    let st0 = feed(idle_reader(), is_client, head);
    assert(w.take(l + 2).drop_last() == w.take(l + 1));
    let st1 = feed(idle_reader(), is_client, w.take(l + 2));
    assert(st1 == ReadState { phase: ReadPhase::Check1, ..st0 });
    assert(w.take(l + 3).drop_last() == w.take(l + 2));
    let st2 = feed(idle_reader(), is_client, w.take(l + 3));
    assert(st2 == ReadState { phase: ReadPhase::Check2, digit: d1, ..st0 });
    assert forall|j: int| 0 <= j < n - 1 implies !completes_at(idle_reader(), is_client, w, j) by {
        if j == 0 {
            assert(w.take(0) == Seq::<u8>::empty());
        } else if j <= l + 1 {
            assert(w.take(j) == seq![start_byte(k)] + raw.take(j - 1));
            assert(feed(idle_reader(), is_client, seq![start_byte(k)] + raw.take(j - 1)).phase
                != ReadPhase::Check2);
        } else {
            assert(j == l + 2);
        }
    }
    assert(seq![0x2du8][0] != seq![0x2bu8][0]);
}

/// A run-length pair: a byte `x` then `*` and the count byte `r`. A client
/// reads `x` and `r - 29` more copies of it, a server reads the three bytes
/// as they are; either way the checksum covers `x`, `*` and `r` and the
/// frame this library writes for them is accepted.
pub proof fn lemma_run_length_frame(x: u8, r: u8, is_client: bool, acking: bool)
    requires
        x != 0x23 && x != 0x2a,
        r >= 29,
        !is_client ==> r != 0x23,
    ensures
        ({
            let raw = seq![x, 0x2au8, r];
            let w = frame(PacketType::Normal, raw);
            let n = w.len() as int;
            let st = feed(idle_reader(), is_client, w.take(n - 1));
            &&& forall|j: int| 0 <= j < n - 1 ==> !completes_at(idle_reader(), is_client, w, j)
            &&& completes_at(idle_reader(), is_client, w, n - 1)
            &&& st.kind == PacketType::Normal
            &&& st.sum == ((x + 0x2a + r) % 256) as u8
            &&& checksum_accepted(st, acking, w[n - 1])
            &&& is_client ==> st.contents == seq![x] + Seq::new((r - 29) as nat, |_i: int| x)
            &&& !is_client ==> st.contents == raw
        }),
{
    let raw = seq![x, 0x2au8, r];
    let k = PacketType::Normal;
    let c = is_client;
    let s0 = seq![start_byte(k)];
    let f0 = feed(idle_reader(), c, s0);
    assert(s0.drop_last() == Seq::<u8>::empty());
    reveal_with_fuel(feed, 2);
    assert(raw.take(0) == Seq::<u8>::empty());
    assert(s0 + raw.take(0) == s0);
    assert((s0 + raw.take(1)).drop_last() == s0);
    assert((s0 + raw.take(2)).drop_last() == s0 + raw.take(1));
    assert((s0 + raw.take(3)).drop_last() == s0 + raw.take(2));
    assert(raw.take(3) == raw);
    let f1 = feed(idle_reader(), c, s0 + raw.take(1));
    let f2 = feed(idle_reader(), c, s0 + raw.take(2));
    let f3 = feed(idle_reader(), c, s0 + raw.take(3));
    assert(f0.phase == ReadPhase::Body && f0.contents == Seq::<u8>::empty());
    assert(f1.phase == ReadPhase::Body && f1.contents == seq![x] && f1.prev == Some(x));
    if c {
        assert(f2.phase == ReadPhase::Repeat && f2.contents == seq![x]);
        assert(f3.contents == seq![x] + Seq::new((r - 29) as nat, |_i: int| x));
    } else {
        assert(f2.contents == seq![x, 0x2au8]);
        assert(f3.contents == raw);
    }
    assert forall|j: int| 0 <= j <= raw.len() implies {
        let ph = (#[trigger] feed(idle_reader(), c, s0 + raw.take(j))).phase;
        ph == ReadPhase::Body || ph == ReadPhase::Repeat
    } by {
        if j == 0 {
        } else if j == 1 {
        } else if j == 2 {
        } else {
        }
    }
    let cs = checksum_of(raw);
    lemma_frame_checked(k, c, acking, raw, hex_char(cs as nat / 16), hex_char(cs as nat % 16));
    assert(frame(k, raw) == s0 + raw + seq![0x23u8, hex_char(cs as nat / 16), hex_char(cs as nat % 16)]);
    lemma_hex_char(cs as nat / 16);
    lemma_hex_char(cs as nat % 16);
    assert(cs as nat == (cs as nat / 16) * 16 + cs as nat % 16);
    reveal_with_fuel(byte_sum, 4);
    assert(raw.drop_last().drop_last().drop_last() == Seq::<u8>::empty());
}

/// A normal packet finished while acking waits for its acknowledgment, and
/// what each refusal sends again is exactly the packet's frame: after `k`
/// refusals and a `+` the packet went out `k + 1` times in all (with the
/// limit unset or at least `k`); under a limit of `k - 1` the `k`-th
/// refusal gives `TooManyRetries` after `k - 1` resends.
pub proof fn lemma_finish_with_retries(v: ConnectionView, k: nat)
    requires
        wf(v),
        v.acking,
        v.in_packet == Some(PacketType::Normal),
        v.awaiting_ack is None,
    ensures
        ({
            let w = after_finish(v);
            let f = frame(PacketType::Normal, v.last_packet);
            &&& w.output == v.output + trailer(checksum_of(v.last_packet))
            &&& w.awaiting_ack == Some(PacketType::Normal)
            &&& allows(v.max_retries, k) ==> {
                &&& forall|i: nat| i < k ==> ack_result(#[trigger] naks(w, i), 0x2d) == Ok::<bool, RspError>(false)
                &&& naks(w, k).output == w.output + repeat_seq(f, k)
                &&& ack_result(naks(w, k), 0x2b) == Ok::<bool, RspError>(true)
                &&& after_ack(naks(w, k), 0x2b).awaiting_ack is None
            }
            &&& (v.max_retries matches Some(m) && k == m + 1) ==> {
                &&& forall|i: nat| i < k - 1 ==> ack_result(#[trigger] naks(w, i), 0x2d) == Ok::<bool, RspError>(false)
                &&& naks(w, (k - 1) as nat).output == w.output + repeat_seq(f, (k - 1) as nat)
                &&& ack_result(naks(w, (k - 1) as nat), 0x2d) == Err::<bool, RspError>(RspError::TooManyRetries)
            }
        }),
{
    let w = after_finish(v);
    lemma_wf_preserved(v, PacketType::Normal, Seq::empty(), 0, idle_reader());
    lemma_wf_preserved(w, PacketType::Normal, Seq::empty(), 0, idle_reader());
    lemma_ack_retries(w, k);
}

impl RspConnection {
    /// Makes a connection; `is_client` tells which end of the protocol this is.
    /// Acking is on, no packet is open and resends are unlimited.
    pub fn new(is_client: bool) -> (r: RspConnection)
        ensures
            r@.acking,
            r@.is_client == is_client,
            ready(r@),
            r@.checksum == 0,
            r@.last_packet.len() == 0,
            r@.max_retries is None,
            r@.output.len() == 0,
            r@.retries == 0,
            r@.reader == idle_reader(),
            wf(r@),
    {
        RspConnection {
            acking: true,
            is_client: is_client,
            in_packet: None,
            checksum: 0,
            last_packet: Vec::new(),
            max_retries: None,
            output: Vec::new(),
            awaiting_ack: None,
            retries: 0,
            read_phase: ReadPhase::Idle,
            read_kind: PacketType::Normal,
            read_contents: Vec::new(),
            read_sum: 0,
            read_prev: None,
            read_digit: 0,
        }
    }

    /// Sets the most times that one packet may be resent while acking;
    /// `None` means no limit.
    pub fn set_maximum_retries(&mut self, max: Option<u16>)
        ensures
            final(self)@ == (ConnectionView { max_retries: max, ..old(self)@ }),
    {
        self.max_retries = max;
    }

    /// Takes the bytes produced for the peer, leaving the buffer empty.
    pub fn take_output(&mut self) -> (r: Vec<u8>)
        ensures
            r@ == old(self)@.output,
            final(self)@ == (ConnectionView { output: Seq::empty(), ..old(self)@ }),
    {
        let mut out = Vec::new();
        std::mem::swap(&mut out, &mut self.output);
        out
    }

    /// Packets are acknowledged and checksums checked.
    pub fn is_acking(&self) -> (r: bool)
        ensures
            r == self@.acking,
    {
        self.acking
    }

    /// This end is the client.
    pub fn is_client(&self) -> (r: bool)
        ensures
            r == self@.is_client,
    {
        self.is_client
    }

    /// The type of the packet being written, if one is open.
    pub fn open_packet(&self) -> (r: Option<PacketType>)
        ensures
            r == self@.in_packet,
    {
        self.in_packet
    }

    /// A sent packet waits for its acknowledgment.
    pub fn is_awaiting_ack(&self) -> (r: bool)
        ensures
            r == self@.awaiting_ack is Some,
    {
        self.awaiting_ack.is_some()
    }

    fn start(&mut self, kind: PacketType)
        requires
            ready(old(self)@),
        ensures
            final(self)@ == after_start(old(self)@, kind),
    {
        self.checksum = 0;
        self.in_packet = Some(kind);
        match kind {
            PacketType::Normal => self.output.push(0x24),
            PacketType::Notification => self.output.push(0x25),
        }
    }

    /// Opens a normal packet: writes `$` and resets the checksum.
    pub fn start_packet(&mut self)
        requires
            ready(old(self)@),
        ensures
            final(self)@ == after_start(old(self)@, PacketType::Normal),
    {
        self.start(PacketType::Normal)
    }

    /// Opens a notification packet: writes `%` and resets the checksum.
    pub fn start_notification_packet(&mut self)
        requires
            ready(old(self)@),
        ensures
            final(self)@ == after_start(old(self)@, PacketType::Notification),
    {
        self.start(PacketType::Notification)
    }

    /// Writes body bytes into the open packet: each is sent, added to the
    /// checksum and, while acking, kept for a resend.
    pub fn write_all(&mut self, buf: &[u8])
        requires
            old(self)@.in_packet is Some,
        ensures
            final(self)@ == after_body_write(old(self)@, buf@),
    {
        let mut i: usize = 0;
        while i < buf.len()
            invariant
                i <= buf@.len(),
                self@ == after_body_write(old(self)@, buf@.subrange(0, i as int)),
            decreases buf@.len() - i,
        {
            let b = buf[i];
            let ghost pre = buf@.subrange(0, i as int);
            proof {
                let s = buf@.subrange(0, i as int + 1);
                assert(s.drop_last() == pre);
                assert(s == pre.push(b));
                let x = old(self)@.checksum + byte_sum(pre);
                lemma_add_mod_noop(x, b as int, 256);
                assert(((x + b) % 256) == ((old(self)@.checksum + byte_sum(s)) % 256));
            }
            self.checksum = self.checksum.wrapping_add(b);
            if self.acking {
                self.last_packet.push(b);
            }
            self.output.push(b);
            proof {
                let s = buf@.subrange(0, i as int + 1);
                assert(old(self)@.output + s == old(self)@.output + pre + seq![b]);
                assert(old(self)@.last_packet + s == old(self)@.last_packet + pre + seq![b]);
            }
            i = i + 1;
        }
        assert(buf@.subrange(0, i as int) == buf@);
    }
    fn write_byte(&mut self, b: u8)
        requires
            old(self)@.in_packet is Some,
        ensures
            final(self)@ == after_body_write(old(self)@, seq![b]),
    {
        proof {
            assert(seq![b].drop_last() == Seq::<u8>::empty());
            reveal_with_fuel(byte_sum, 2);
            assert(byte_sum(seq![b]) == b);
        }
        self.checksum = self.checksum.wrapping_add(b);
        if self.acking {
            self.last_packet.push(b);
        }
        self.output.push(b);
        assert(self.output@ == old(self)@.output + seq![b]);
        assert(self.last_packet@ == if self.acking {
            old(self)@.last_packet + seq![b]
        } else {
            old(self)@.last_packet
        });
    }

    fn push_trailer(&mut self)
        ensures
            final(self)@ == (ConnectionView {
                output: old(self)@.output + trailer(old(self)@.checksum),
                ..old(self)@
            }),
    {
        self.output.push(0x23);
        push_hex_pair(&mut self.output, self.checksum);
        assert(self.output@ == old(self)@.output + trailer(old(self)@.checksum));
    }

    /// Closes the open packet: writes `#` and the checksum as two lowercase
    /// hex digits, which do not count towards the checksum. A normal packet
    /// sent while acking then waits for its acknowledgment (see
    /// `receive_ack`).
    pub fn finish_packet(&mut self)
        requires
            old(self)@.in_packet is Some,
            old(self)@.awaiting_ack is None,
        ensures
            final(self)@ == after_finish(old(self)@),
    {
        let kind = self.in_packet;
        self.in_packet = None;
        self.push_trailer();
        self.retries = 0;
        if self.acking && kind == Some(PacketType::Normal) {
            self.awaiting_ack = kind;
        } else {
            self.last_packet = Vec::new();
        }
    }

    /// Hands a byte from the peer to the packet that waits for its
    /// acknowledgment. `+` accepts the packet: `Ok(true)`. Any other byte
    /// refuses it: within the retry limit the packet is sent again and the
    /// result is `Ok(false)`; past it the packet is given up with
    /// `TooManyRetries`.
    pub fn receive_ack(&mut self, b: u8) -> (r: RspResult<bool>)
        requires
            old(self)@.awaiting_ack is Some,
        ensures
            r == ack_result(old(self)@, b),
            final(self)@ == after_ack(old(self)@, b),
    {
        let over = match self.max_retries {
            Some(m) => self.retries as u32 + 1 > m as u32,
            None => false,
        };
        if b == 0x2b || over {
            self.awaiting_ack = None;
            self.retries = 0;
            self.last_packet = Vec::new();
            if b == 0x2b {
                Ok(true)
            } else {
                Err(RspError::TooManyRetries)
            }
        } else {
            if self.max_retries.is_some() {
                self.retries = self.retries + 1;
            }
            match self.awaiting_ack {
                Some(PacketType::Normal) => self.output.push(0x24),
                _ => self.output.push(0x25),
            }
            let ghost start = seq![start_byte(old(self)@.awaiting_ack->0)];
            assert(self.output@ == old(self)@.output + start + self.last_packet@.subrange(0, 0));
            let ghost mid = self@;
            let mut i: usize = 0;
            while i < self.last_packet.len()
                invariant
                    i <= self.last_packet@.len(),
                    self@ == (ConnectionView { output: self@.output, ..mid }),
                    mid.last_packet == old(self)@.last_packet,
                    mid.checksum == old(self)@.checksum,
                    self.output@ == old(self)@.output + seq![start_byte(old(self)@.awaiting_ack->0)]
                        + self.last_packet@.subrange(0, i as int),
                decreases self.last_packet@.len() - i,
            {
                let c = self.last_packet[i];
                self.output.push(c);
                proof {
                    let l = self.last_packet@;
                    assert(l.subrange(0, i as int + 1) == l.subrange(0, i as int).push(c));
                    assert(old(self)@.output + start + l.subrange(0, i as int + 1)
                        == (old(self)@.output + start + l.subrange(0, i as int)).push(c));
                }
                i = i + 1;
            }
            assert(self.last_packet@.subrange(0, i as int) == self.last_packet@);
            self.push_trailer();
            assert(self.output@ == old(self)@.output + resend_bytes(old(self)@)) by {
                let v = old(self)@;
                assert(v.output + start + v.last_packet + trailer(v.checksum) == v.output
                    + resend_bytes(v));
            }
            Ok(false)
        }
    }

    /// A convenience that sends a whole normal packet: `start_packet`,
    /// `write_all` of `contents`, then `finish_packet`.
    pub fn full_packet(&mut self, contents: &[u8])
        requires
            ready(old(self)@),
        ensures
            final(self)@ == after_finish(
                after_body_write(after_start(old(self)@, PacketType::Normal), contents@),
            ),
    {
        self.start_packet();
        self.write_all(contents);
        self.finish_packet();
    }

    /// Turns acking off for good, after the peer agreed to it (through
    /// `QStartNoAckMode`): from then on no acknowledgment is sent or awaited
    /// and no checksum is checked. The resend buffer is let go.
    pub fn disable_acking(&mut self)
        ensures
            final(self)@ == (ConnectionView {
                acking: false,
                last_packet: Seq::empty(),
                awaiting_ack: None,
                retries: 0,
                ..old(self)@
            }),
    {
        self.acking = false;
        self.awaiting_ack = None;
        self.retries = 0;
        self.last_packet = Vec::new();
    }

    /// Writes `buf` into the open packet in the 8-bit-clean binary encoding:
    /// each reserved byte (`$`, `#`, `}`, `*`) goes as `}` and the byte XOR
    /// 0x20. Runs of other bytes are written in one piece.
    pub fn write_binary(&mut self, buf: &[u8])
        requires
            old(self)@.in_packet is Some,
        ensures
            final(self)@ == after_body_write(old(self)@, escaped(buf@)),
    {
        let mut last_index: usize = 0;
        let mut i: usize = 0;
        while i < buf.len()
            invariant
                last_index <= i <= buf@.len(),
                self@.in_packet is Some,
                self@ == after_body_write(old(self)@, escaped(buf@.subrange(0, last_index as int))),
                escaped(buf@.subrange(0, i as int)) == escaped(buf@.subrange(0, last_index as int))
                    + buf@.subrange(last_index as int, i as int),
            decreases buf@.len() - i,
        {
            let b = buf[i];
            let ghost pre = buf@.subrange(0, i as int);
            proof {
                assert(buf@.subrange(0, i as int + 1).drop_last() == pre);
            }
            if b == 0x24 || b == 0x23 || b == 0x7d || b == 0x2a {
                let run = vstd::slice::slice_subrange(buf, last_index, i);
                self.write_all(run);
                proof {
                    lemma_body_writes_concat(
                        old(self)@,
                        escaped(buf@.subrange(0, last_index as int)),
                        run@,
                    );
                }
                let ghost v1 = self@;
                self.write_byte(0x7d);
                self.write_byte(b ^ 0x20);
                proof {
                    lemma_body_writes_concat(v1, seq![0x7du8], seq![b ^ 0x20u8]);
                    assert(seq![0x7du8] + seq![b ^ 0x20u8] == escape_byte(b));
                    lemma_body_writes_concat(old(self)@, escaped(pre), escape_byte(b));
                }
                last_index = i + 1;
                assert(buf@.subrange(last_index as int, i as int + 1) == Seq::<u8>::empty());
            } else {
                proof {
                    assert(escape_byte(b) == seq![b]);
                    assert(buf@.subrange(last_index as int, i as int + 1)
                        == buf@.subrange(last_index as int, i as int).push(b));
                }
            }
            i = i + 1;
        }
        let run = vstd::slice::slice_subrange(buf, last_index, buf.len());
        self.write_all(run);
        proof {
            lemma_body_writes_concat(old(self)@, escaped(buf@.subrange(0, last_index as int)), run@);
            assert(buf@.subrange(0, i as int) == buf@);
        }
    }

    /// Writes `data` into the open packet as hex: two lowercase digits per byte.
    pub fn write_hex(&mut self, data: &[u8])
        requires
            old(self)@.in_packet is Some,
        ensures
            final(self)@ == after_body_write(old(self)@, hex_encoded(data@)),
    {
        let mut i: usize = 0;
        while i < data.len()
            invariant
                i <= data@.len(),
                self@.in_packet is Some,
                self@ == after_body_write(old(self)@, hex_encoded(data@.subrange(0, i as int))),
            decreases data@.len() - i,
        {
            let b = data[i];
            let ghost pre = data@.subrange(0, i as int);
            let ghost v0 = self@;
            self.write_byte(hex_char_of(b / 16));
            self.write_byte(hex_char_of(b % 16));
            proof {
                assert(data@.subrange(0, i as int + 1).drop_last() == pre);
                lemma_body_writes_concat(v0, seq![hex_char(b as nat / 16)], seq![hex_char(b as nat % 16)]);
                assert(seq![hex_char(b as nat / 16)] + seq![hex_char(b as nat % 16)] == hex_pair(b));
                lemma_body_writes_concat(old(self)@, hex_encoded(pre), hex_pair(b));
            }
            i = i + 1;
        }
        assert(data@.subrange(0, i as int) == data@);
    }

    /// Writes a thread-id into the open packet, always in the multiprocess
    /// form `p<pid>.<tid>`: a particular id as lowercase hex without
    /// leading zeros, `All` as `-1`, `Any` as `0`.
    pub fn write_thread_id(&mut self, pid: ProcessId)
        requires
            old(self)@.in_packet is Some,
        ensures
            final(self)@ == after_body_write(old(self)@, thread_id_wire(pid)),
    {
        let mut text: Vec<u8> = Vec::new();
        text.push(0x70);
        push_id(&mut text, pid.pid);
        text.push(0x2e);
        push_id(&mut text, pid.tid);
        assert(text@ == thread_id_wire(pid));
        self.write_all(text.as_slice());
    }

    /// Sends the out-of-band interrupt byte, 0x03. Only a client sends it,
    /// and only between packets; it does not count towards any checksum.
    pub fn interrupt(&mut self)
        requires
            ready(old(self)@),
            old(self)@.is_client,
        ensures
            final(self)@ == (ConnectionView { output: old(self)@.output.push(0x03), ..old(self)@ }),
    {
        self.output.push(0x03);
    }
    fn step_byte(&mut self, b: u8)
        requires
            old(self)@.reader.phase != ReadPhase::Check2,
        ensures
            final(self)@ == (ConnectionView {
                reader: read_step(old(self)@.reader, old(self)@.is_client, b),
                ..old(self)@
            }),
    {
        proof {
            lemma_add_mod_noop(self.read_sum as int, b as int, 256);
        }
        match self.read_phase {
            ReadPhase::Idle => {
                if b == 0x24 || b == 0x25 {
                    self.read_phase = ReadPhase::Body;
                    self.read_kind = if b == 0x24 {
                        PacketType::Normal
                    } else {
                        PacketType::Notification
                    };
                    self.read_contents = Vec::new();
                    self.read_sum = 0;
                    self.read_prev = None;
                }
            },
            ReadPhase::Body => {
                if b == 0x23 {
                    self.read_phase = ReadPhase::Check1;
                } else if b == 0x2a && self.is_client {
                    self.read_phase = ReadPhase::Repeat;
                    self.read_sum = self.read_sum.wrapping_add(b);
                } else {
                    self.read_contents.push(b);
                    self.read_sum = self.read_sum.wrapping_add(b);
                    self.read_prev = Some(b);
                }
            },
            ReadPhase::Repeat => {
                if let Some(p) = self.read_prev {
                    let count: u8 = if b >= 29 {
                        b - 29
                    } else {
                        0
                    };
                    let ghost before = self.read_contents@;
                    let mut k: u8 = 0;
                    while k < count
                        invariant
                            k <= count,
                            count == run_length(b),
                            self@ == (ConnectionView {
                                reader: ReadState { contents: self.read_contents@, ..old(self)@.reader },
                                ..old(self)@
                            }),
                            self.read_contents@ == before + Seq::new(k as nat, |_i: int| p),
                        decreases count - k,
                    {
                        self.read_contents.push(p);
                        assert(before + Seq::new((k + 1) as nat, |_i: int| p) == (before + Seq::new(
                            k as nat,
                            |_i: int| p,
                        )).push(p));
                        k = k + 1;
                    }
                }
                self.read_phase = ReadPhase::Body;
                self.read_sum = self.read_sum.wrapping_add(b);
                self.read_prev = None;
                proof {
                    if old(self)@.reader.prev is None {
                        assert(self.read_contents@ == old(self)@.reader.contents + Seq::<u8>::empty());
                    }
                }
            },
            ReadPhase::Check1 => {
                self.read_phase = ReadPhase::Check2;
                self.read_digit = b;
            },
            ReadPhase::Check2 => {},
        }
    }

    fn complete_packet(&mut self, b: u8) -> (r: RspResult<(PacketType, Vec<u8>)>)
        requires
            old(self)@.reader.phase == ReadPhase::Check2,
        ensures
            is_packet_outcome(r, old(self)@.reader, old(self)@.acking, b),
            final(self)@ == (ConnectionView {
                reader: idle_reader(),
                output: old(self)@.output + ack_reply(old(self)@.reader, old(self)@.acking, b),
                ..old(self)@
            }),
    {
        let mut contents: Vec<u8> = Vec::new();
        std::mem::swap(&mut contents, &mut self.read_contents);
        let kind = self.read_kind;
        let sum = self.read_sum;
        let digit = self.read_digit;
        self.read_phase = ReadPhase::Idle;
        self.read_kind = PacketType::Normal;
        self.read_sum = 0;
        self.read_prev = None;
        self.read_digit = 0;
        if self.acking && kind == PacketType::Normal {
            let sent = match (hex_digit(digit), hex_digit(b)) {
                (Some(hi), Some(lo)) => Some(hi * 16 + lo),
                _ => None,
            };
            assert(sent == transmitted(digit, b));
            if sent == Some(sum) {
                self.output.push(0x2b);
                assert(self.output@ == old(self)@.output + seq![0x2bu8]);
            } else {
                self.output.push(0x2d);
                assert(self.output@ == old(self)@.output + seq![0x2du8]);
                return Err(RspError::InvalidChecksum);
            }
        } else {
            assert(self.output@ == old(self)@.output + Seq::<u8>::empty());
        }
        Ok((kind, contents))
    }

    /// Reads from `input` until a packet is complete or `input` runs out,
    /// and returns how many bytes were consumed with the packet, if one
    /// completed: its type and body, run-length encoding expanded.
    ///
    /// A packet in progress carries over to the next call. While acking, a
    /// normal packet is acknowledged: `+` if its checksum matches, else `-`
    /// and `InvalidChecksum`; the caller reads again, as the peer resends.
    /// Notifications are never acknowledged, and without acking no
    /// checksum is checked.
    pub fn read_packet(&mut self, input: &[u8]) -> (r: (usize, Option<RspResult<(PacketType, Vec<u8>)>>))
        ensures
            ({
                let (n, res) = r;
                let v = old(self)@;
                let s = input@;
                &&& n <= s.len()
                &&& scan(v.reader, v.is_client, s) == (n as nat, if res is Some {
                    feed(v.reader, v.is_client, s.take(n - 1))
                } else {
                    feed(v.reader, v.is_client, s)
                }, res is Some)
                &&& forall|j: int|
                    0 <= j < (if res is Some {
                        n - 1
                    } else {
                        n as int
                    }) ==> !completes_at(v.reader, v.is_client, s, j)
                &&& match res {
                    None => n == s.len() && final(self)@ == (ConnectionView {
                        reader: feed(v.reader, v.is_client, s),
                        ..v
                    }),
                    Some(o) => {
                        let st = feed(v.reader, v.is_client, s.take(n - 1));
                        &&& n >= 1
                        &&& completes_at(v.reader, v.is_client, s, n - 1)
                        &&& is_packet_outcome(o, st, v.acking, s[n - 1])
                        &&& final(self)@ == (ConnectionView {
                            reader: idle_reader(),
                            output: v.output + ack_reply(st, v.acking, s[n - 1]),
                            ..v
                        })
                    },
                }
            }),
    {
        let ghost v = self@;
        let mut i: usize = 0;
        assert(input@.skip(0) == input@);
        while i < input.len()
            invariant
                i <= input@.len(),
                self@ == (ConnectionView {
                    reader: feed(v.reader, v.is_client, input@.take(i as int)),
                    ..v
                }),
                ({
                    let t = scan(self@.reader, v.is_client, input@.skip(i as int));
                    scan(v.reader, v.is_client, input@) == ((t.0 + i) as nat, t.1, t.2)
                }),
                v == old(self)@,
                forall|j: int| 0 <= j < i ==> !completes_at(v.reader, v.is_client, input@, j),
            decreases input@.len() - i,
        {
            let b = input[i];
            proof {
                assert(input@.take(i as int + 1).drop_last() == input@.take(i as int));
                assert(input@.skip(i as int)[0] == b);
                assert(input@.skip(i as int).skip(1) == input@.skip(i as int + 1));
            }
            if self.read_phase == ReadPhase::Check2 {
                let res = self.complete_packet(b);
                return (i + 1, Some(res));
            }
            self.step_byte(b);
            i = i + 1;
        }
        assert(input@.take(i as int) == input@);
        assert(input@.skip(i as int).len() == 0);
        (i, None)
    }
}

fn push_id(out: &mut Vec<u8>, id: Id)
    ensures
        final(out)@ == old(out)@ + id_wire(id),
{
    match id {
        Id::Specific(n) => push_hex_digits(out, n as u64),
        Id::All => {
            out.push(0x2d);
            out.push(0x31);
        },
        Id::Any => out.push(0x30),
    }
}

/// Appends a thread-id in the multiprocess form.
pub(crate) fn push_thread_id(out: &mut Vec<u8>, pid: ProcessId)
    ensures
        final(out)@ == old(out)@ + thread_id_wire(pid),
{
    out.push(0x70);
    push_id(out, pid.pid);
    out.push(0x2e);
    push_id(out, pid.tid);
    assert(final(out)@ == old(out)@ + thread_id_wire(pid));
}

} // verus!

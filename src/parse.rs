//! Parsers for the bodies of RSP replies.
//!
//! Each parser reads a prefix of its input and returns how many bytes it
//! consumed together with the value, or `None` when the input does not
//! start with what the grammar asks for. Each is proved equal to a spec
//! function of the same grammar. Alternatives are tried in order and the
//! first that matches wins; where a reply must fill the whole input, the
//! parser says so.
use vstd::prelude::*;

use crate::low::{hex_encoded, id_wire, thread_id_wire, Id, ProcessId, RspError};
use crate::util::{
    all_hex, decode_hex, hex_digit, hex_digit_value, hex_digits, hex_pair, hex_value, is_hex_digit,
    lemma_hex_char, lemma_hex_digits,
};

verus! {

/// Why a client operation failed.
#[derive(Debug, Clone, Copy, PartialEq, Eq, Structural)]
pub enum ClientError {
    /// A framing error.
    RspError(RspError),
    /// The peer replied with an error packet `Exx`.
    ErrorPacket(u8),
    /// The peer replied with an empty packet: it does not know the request.
    Unsupported,
    /// The reply fits no grammar that the request allows.
    Unrecognized,
}

/// The result of a client operation.
pub type ClientResult<T> = Result<T, ClientError>;

/// What a parser returns: the number of bytes consumed and the value.
pub type Parsed<T> = Option<(usize, T)>;

/// The parser's result `r` is the grammar's result `m`.
pub open spec fn same<T>(r: Parsed<T>, m: Option<(nat, T)>) -> bool {
    match r {
        Some((n, v)) => m == Some((n as nat, v)),
        None => m is None,
    }
}

/// The parser's result `r` is the grammar's result `m`, bytes compared by view.
pub open spec fn same_bytes(r: Parsed<Vec<u8>>, m: Option<(nat, Seq<u8>)>) -> bool {
    match r {
        Some((n, v)) => m == Some((n as nat, v@)),
        None => m is None,
    }
}

/// `s` begins with `t`.
pub open spec fn starts_with(s: Seq<u8>, t: Seq<u8>) -> bool {
    t.len() <= s.len() && s.take(t.len() as int) == t
}

fn has_prefix(s: &[u8], t: &[u8]) -> (r: bool)
    ensures
        r == starts_with(s@, t@),
{
    if t.len() > s.len() {
        return false;
    }
    let mut i: usize = 0;
    while i < t.len()
        invariant
            i <= t@.len(),
            t@.len() <= s@.len(),
            forall|j: int| 0 <= j < i ==> s@[j] == t@[j],
        decreases t@.len() - i,
    {
        if s[i] != t[i] {
            assert(s@.take(t@.len() as int)[i as int] != t@[i as int]);
            return false;
        }
        i = i + 1;
    }
    assert(s@.take(t@.len() as int) =~= t@);
    true
}

fn tail(s: &[u8], n: usize) -> (r: &[u8])
    requires
        n <= s@.len(),
    ensures
        r@ == s@.skip(n as int),
        s@.len() <= usize::MAX,
{
    vstd::slice::slice_subrange(s, n, s.len())
}

/// The byte that the hex digits `a b` spell.
pub open spec fn pair_value(a: u8, b: u8) -> u8 {
    (hex_digit_value(a) * 16 + hex_digit_value(b)) as u8
}

/// Two hex digits.
pub open spec fn two_hex(s: Seq<u8>) -> Option<(nat, u8)> {
    if s.len() >= 2 && is_hex_digit(s[0]) && is_hex_digit(s[1]) {
        Some((2, pair_value(s[0], s[1])))
    } else {
        None
    }
}

/// Accepts two hex digits, in either case, and gives the byte they spell.
pub fn parse_2_hex(input: &[u8]) -> (r: Parsed<u8>)
    ensures
        same(r, two_hex(input@)),
{
    if input.len() >= 2 {
        match (hex_digit(input[0]), hex_digit(input[1])) {
            (Some(hi), Some(lo)) => Some((2, hi * 16 + lo)),
            _ => None,
        }
    } else {
        None
    }
}

/// The bytes that the leading pairs of hex digits of `s` spell, as many
/// pairs as there are.
pub open spec fn hex_data_bytes(s: Seq<u8>) -> Seq<u8>
    decreases s.len(),
{
    if s.len() >= 2 && is_hex_digit(s[0]) && is_hex_digit(s[1]) {
        seq![pair_value(s[0], s[1])] + hex_data_bytes(s.skip(2))
    } else {
        Seq::empty()
    }
}

/// One or more pairs of hex digits, as bytes.
pub open spec fn hex_data(s: Seq<u8>) -> Option<(nat, Seq<u8>)> {
    let d = hex_data_bytes(s);
    if d.len() > 0 {
        Some((2 * d.len(), d))
    } else {
        None
    }
}

/// Parses one or more pairs of hex digits into the bytes they spell.
pub fn parse_hex_data(input: &[u8]) -> (r: Parsed<Vec<u8>>)
    ensures
        same_bytes(r, hex_data(input@)),
        r matches Some((n, _)) ==> n <= input@.len(),
{
    let mut out: Vec<u8> = Vec::new();
    let mut i: usize = 0;
    let len = input.len();
    assert(input@.skip(0) == input@);
    loop
        invariant
            len == input@.len(),
            i <= input@.len(),
            i == 2 * out@.len(),
            hex_data_bytes(input@) == out@ + hex_data_bytes(input@.skip(i as int)),
        ensures
            i <= input@.len(),
            i == 2 * out@.len(),
            hex_data_bytes(input@) == out@,
        decreases input@.len() - i,
    {
        let rest = tail(input, i);
        assert(rest@.len() == input@.len() - i);
        match parse_2_hex(rest) {
            Some((_, b)) => {
                proof {
                    assert(rest@.skip(2) == input@.skip(i as int + 2));
                    assert(out@.push(b) + hex_data_bytes(input@.skip(i as int + 2)) == out@ + (seq![b]
                        + hex_data_bytes(rest@.skip(2))));
                }
                out.push(b);
                i = i + 2;
            },
            None => {
                assert(hex_data_bytes(rest@) == Seq::<u8>::empty());
                assert(out@ + Seq::<u8>::empty() == out@);
                break ;
            },
        }
    }
    if out.len() > 0 {
        Some((i, out))
    } else {
        None
    }
}

/// The number that the bytes `d` spell, most significant first.
pub open spec fn be_value(d: Seq<u8>) -> nat
    decreases d.len(),
{
    if d.len() == 0 {
        0
    } else {
        be_value(d.drop_last()) * 256 + d.last() as nat
    }
}

proof fn lemma_be_value_prefix_grows(d: Seq<u8>, k: int)
    requires
        0 <= k <= d.len(),
    ensures
        be_value(d) >= be_value(d.take(k)),
    decreases d.len() - k,
{
    if k < d.len() {
        lemma_be_value_prefix_grows(d, k + 1);
        assert(d.take(k + 1).drop_last() == d.take(k));
    } else {
        assert(d.take(k) == d);
    }
}

/// One or more pairs of hex digits, as a number that fits in 64 bits.
pub open spec fn hex_number(s: Seq<u8>) -> Option<(nat, u64)> {
    match hex_data(s) {
        Some((n, d)) => if be_value(d) <= u64::MAX {
            Some((n, be_value(d) as u64))
        } else {
            None
        },
        None => None,
    }
}

/// Parses one or more pairs of hex digits as a big-endian number. A value
/// that does not fit in 64 bits is rejected.
pub fn parse_hex_number(input: &[u8]) -> (r: Parsed<u64>)
    ensures
        same(r, hex_number(input@)),
        r matches Some((n, _)) ==> n <= input@.len(),
{
    match parse_hex_data(input) {
        None => None,
        Some((n, d)) => {
            let mut acc: u64 = 0;
            let mut i: usize = 0;
            while i < d.len()
                invariant
                    i <= d@.len(),
                    acc == be_value(d@.take(i as int)),
                    hex_data(input@) == Some((n as nat, d@)),
                    n <= input@.len(),
                decreases d@.len() - i,
            {
                let b = d[i];
                assert(d@.take(i as int + 1).drop_last() == d@.take(i as int));
                assert(d@.take(i as int + 1).last() == b);
                let next: u128 = acc as u128 * 256 + b as u128;
                if next > u64::MAX as u128 {
                    proof {
                        lemma_be_value_prefix_grows(d@, i as int + 1);
                    }
                    return None;
                }
                acc = next as u64;
                i = i + 1;
            }
            assert(d@.take(i as int) == d@);
            Some((n, acc))
        },
    }
}

/// The number of hex digits at the start of `s`.
pub open spec fn digit_run(s: Seq<u8>) -> nat
    decreases s.len(),
{
    if s.len() > 0 && is_hex_digit(s[0]) {
        1 + digit_run(s.skip(1))
    } else {
        0
    }
}

/// One or more hex digits, as a number that fits in 64 bits.
pub open spec fn hex_digits_number(s: Seq<u8>) -> Option<(nat, u64)> {
    let k = digit_run(s);
    if k > 0 && hex_value(s.take(k as int)) <= u64::MAX {
        Some((k, hex_value(s.take(k as int)) as u64))
    } else {
        None
    }
}

/// Parses one or more hex digits, as many as there are, as a number. A
/// value that does not fit in 64 bits is rejected.
pub fn parse_hex_digits(input: &[u8]) -> (r: Parsed<u64>)
    ensures
        same(r, hex_digits_number(input@)),
        r matches Some((n, _)) ==> n <= input@.len(),
{
    let mut i: usize = 0;
    assert(input@.skip(0) == input@);
    loop
        invariant
            i <= input@.len(),
            all_hex(input@.take(i as int)),
            digit_run(input@) == i + digit_run(input@.skip(i as int)),
        ensures
            i <= input@.len(),
            all_hex(input@.take(i as int)),
            digit_run(input@) == i,
        decreases input@.len() - i,
    {
        if i >= input.len() {
            assert(input@.skip(i as int).len() == 0);
            break ;
        }
        if hex_digit(input[i]).is_none() {
            assert(input@.skip(i as int)[0] == input@[i as int]);
            break ;
        }
        assert(input@.skip(i as int).skip(1) == input@.skip(i as int + 1));
        assert(input@.take(i as int + 1) == input@.take(i as int).push(input@[i as int]));
        i = i + 1;
    }
    if i == 0 {
        return None;
    }
    let digits = vstd::slice::slice_subrange(input, 0, i);
    assert(digits@ == input@.take(i as int));
    match decode_hex(digits) {
        Some(v) => Some((i, v)),
        None => None,
    }
}

/// An error reply: `E`, two hex digits, and nothing more.
pub open spec fn error_reply(s: Seq<u8>) -> Option<(nat, u8)> {
    if s.len() == 3 && s[0] == 0x45 && is_hex_digit(s[1]) && is_hex_digit(s[2]) {
        Some((3, pair_value(s[1], s[2])))
    } else {
        None
    }
}

/// Parses an error reply, `Exx`, which must fill the input.
pub fn parse_error(input: &[u8]) -> (r: Parsed<u8>)
    ensures
        same(r, error_reply(input@)),
{
    if input.len() == 3 && input[0] == 0x45 {
        match parse_2_hex(tail(input, 1)) {
            Some((_, e)) => Some((3, e)),
            None => None,
        }
    } else {
        None
    }
}

/// The reply `OK`, and nothing more.
pub open spec fn ok_reply(s: Seq<u8>) -> bool {
    s == seq![0x4fu8, 0x4bu8]
}

/// Parses the reply `OK`, which must fill the input.
pub fn parse_ok(input: &[u8]) -> (r: Parsed<()>)
    ensures
        r matches Some((n, _)) ==> n == 2,
        r is Some <==> ok_reply(input@),
{
    proof {
        assert(input@.len() == 2 ==> input@.take(2) == input@);
    }
    if input.len() == 2 && has_prefix(input, &[0x4fu8, 0x4bu8]) {
        Some((2, ()))
    } else {
        None
    }
}

/// A simple reply: `OK`, an error packet, or the empty packet.
pub open spec fn simple_reply(s: Seq<u8>) -> Option<(nat, ClientResult<()>)> {
    if ok_reply(s) {
        Some((2, Ok(())))
    } else {
        match error_reply(s) {
            Some((n, e)) => Some((n, Err(ClientError::ErrorPacket(e)))),
            None => if s.len() == 0 {
                Some((0, Err(ClientError::Unsupported)))
            } else {
                None
            },
        }
    }
}

/// Parses a simple reply: `OK` gives `Ok`, `Exx` gives `ErrorPacket`, the
/// empty packet gives `Unsupported`; each must fill the input.
pub fn parse_simple_reply(input: &[u8]) -> (r: Parsed<ClientResult<()>>)
    ensures
        same(r, simple_reply(input@)),
{
    if parse_ok(input).is_some() {
        return Some((2, Ok(())));
    }
    match parse_error(input) {
        Some((n, e)) => Some((n, Err(ClientError::ErrorPacket(e)))),
        None => if input.len() == 0 {
            Some((0, Err(ClientError::Unsupported)))
        } else {
            None
        },
    }
}

/// A stop reply for a signal: `S`, two hex digits, and nothing more.
pub open spec fn stop_signal(s: Seq<u8>) -> Option<(nat, u8)> {
    if s.len() == 3 && s[0] == 0x53 && is_hex_digit(s[1]) && is_hex_digit(s[2]) {
        Some((3, pair_value(s[1], s[2])))
    } else {
        None
    }
}

/// Parses a stop reply `Sxx`, which must fill the input, giving the signal.
pub fn parse_stop_signal(input: &[u8]) -> (r: Parsed<u8>)
    ensures
        same(r, stop_signal(input@)),
{
    if input.len() == 3 && input[0] == 0x53 {
        match parse_2_hex(tail(input, 1)) {
            Some((_, v)) => Some((3, v)),
            None => None,
        }
    } else {
        None
    }
}

/// One part of a thread-id: `0` is any, `-1` is all, and otherwise hex
/// digits give a particular id, which must fit in 32 bits.
pub open spec fn id_element(s: Seq<u8>) -> Option<(nat, Id)> {
    if s.len() > 0 && s[0] == 0x30 {
        Some((1, Id::Any))
    } else if s.len() >= 2 && s[0] == 0x2d && s[1] == 0x31 {
        Some((2, Id::All))
    } else {
        match hex_digits_number(s) {
            Some((k, v)) => if v <= u32::MAX {
                Some((k, Id::Specific(v as u32)))
            } else {
                None
            },
            None => None,
        }
    }
}

/// Parses one part of a thread-id.
pub fn parse_thread_id_element(input: &[u8]) -> (r: Parsed<Id>)
    ensures
        same(r, id_element(input@)),
        r matches Some((n, _)) ==> n <= input@.len(),
{
    if input.len() > 0 && input[0] == 0x30 {
        Some((1, Id::Any))
    } else if input.len() >= 2 && input[0] == 0x2d && input[1] == 0x31 {
        Some((2, Id::All))
    } else {
        match parse_hex_digits(input) {
            Some((k, v)) => if v <= 0xffff_ffff {
                Some((k, Id::Specific(v as u32)))
            } else {
                None
            },
            None => None,
        }
    }
}

/// A thread-id: a bare part, which names a process with any thread, or the
/// multiprocess form `p<pid>.<tid>`.
pub open spec fn thread_id(s: Seq<u8>) -> Option<(nat, ProcessId)> {
    match id_element(s) {
        Some((n, e)) => Some((n, ProcessId { pid: e, tid: Id::Any })),
        None => if s.len() > 0 && s[0] == 0x70 {
            let r = s.skip(1);
            match id_element(r) {
                Some((n1, p)) => if n1 < r.len() && r[n1 as int] == 0x2e {
                    match id_element(r.skip((n1 + 1) as int)) {
                        Some((n2, t)) => Some((1 + n1 + 1 + n2, ProcessId { pid: p, tid: t })),
                        None => None,
                    }
                } else {
                    None
                },
                None => None,
            }
        } else {
            None
        },
    }
}

/// Parses a thread-id.
pub fn parse_thread_id(input: &[u8]) -> (r: Parsed<ProcessId>)
    ensures
        same(r, thread_id(input@)),
        r matches Some((n, _)) ==> n <= input@.len(),
{
    match parse_thread_id_element(input) {
        Some((n, e)) => Some((n, ProcessId { pid: e, tid: Id::Any })),
        None => {
            if input.len() > 0 && input[0] == 0x70 {
                let r = tail(input, 1);
                match parse_thread_id_element(r) {
                    Some((n1, p)) => {
                        if n1 < r.len() && r[n1] == 0x2e {
                            match parse_thread_id_element(tail(r, n1 + 1)) {
                                Some((n2, t)) => Some((1 + n1 + 1 + n2, ProcessId { pid: p, tid: t })),
                                None => None,
                            }
                        } else {
                            None
                        }
                    },
                    None => None,
                }
            } else {
                None
            }
        },
    }
}

/// One element of a `T` stop reply.
#[derive(Debug, Clone, PartialEq, Eq)]
pub enum StopReplyValue {
    /// A register number and its value, in target byte order.
    Register(u64, Vec<u8>),
    /// The thread that stopped.
    Thread(ProcessId),
    /// The core it stopped on.
    Core(u64),
    /// An element of another kind; `parse_stop_signal_full` rejects a reply
    /// with such an element rather than produce this.
    Unknown(Vec<u8>),
    /// A write watchpoint triggered at this address.
    Watch(u64),
    /// An access watchpoint triggered at this address.
    Awatch(u64),
    /// A read watchpoint triggered at this address.
    Rwatch(u64),
    /// The thread entered this system call.
    SyscallEntry(u64),
    /// The thread returned from this system call.
    SyscallReturn(u64),
    /// The set of loaded libraries changed.
    LibraryChange,
    /// The replay log reached its beginning (`true`) or end (`false`).
    ReplayLog(bool),
    /// A software breakpoint was hit.
    SoftwareBreak,
    /// A hardware breakpoint was hit.
    HardwareBreak,
    /// The thread forked; this is the child.
    Fork(ProcessId),
    /// The thread vforked; this is the child.
    VFork(ProcessId),
    /// The vfork child is done with the parent's memory.
    VForkDone,
    /// The process ran exec with this path.
    Exec(Vec<u8>),
    /// The thread was created.
    Create,
}

/// A `T` stop reply element, as a value.
pub enum StopValue {
    Register(u64, Seq<u8>),
    Thread(ProcessId),
    Core(u64),
    Unknown(Seq<u8>),
    Watch(u64),
    Awatch(u64),
    Rwatch(u64),
    SyscallEntry(u64),
    SyscallReturn(u64),
    LibraryChange,
    ReplayLog(bool),
    SoftwareBreak,
    HardwareBreak,
    Fork(ProcessId),
    VFork(ProcessId),
    VForkDone,
    Exec(Seq<u8>),
    Create,
}

impl View for StopReplyValue {
    type V = StopValue;

    open spec fn view(&self) -> StopValue {
        match self {
            StopReplyValue::Register(n, v) => StopValue::Register(*n, v@),
            StopReplyValue::Thread(p) => StopValue::Thread(*p),
            StopReplyValue::Core(n) => StopValue::Core(*n),
            StopReplyValue::Unknown(v) => StopValue::Unknown(v@),
            StopReplyValue::Watch(n) => StopValue::Watch(*n),
            StopReplyValue::Awatch(n) => StopValue::Awatch(*n),
            StopReplyValue::Rwatch(n) => StopValue::Rwatch(*n),
            StopReplyValue::SyscallEntry(n) => StopValue::SyscallEntry(*n),
            StopReplyValue::SyscallReturn(n) => StopValue::SyscallReturn(*n),
            StopReplyValue::LibraryChange => StopValue::LibraryChange,
            StopReplyValue::ReplayLog(b) => StopValue::ReplayLog(*b),
            StopReplyValue::SoftwareBreak => StopValue::SoftwareBreak,
            StopReplyValue::HardwareBreak => StopValue::HardwareBreak,
            StopReplyValue::Fork(p) => StopValue::Fork(*p),
            StopReplyValue::VFork(p) => StopValue::VFork(*p),
            StopReplyValue::VForkDone => StopValue::VForkDone,
            StopReplyValue::Exec(v) => StopValue::Exec(v@),
            StopReplyValue::Create => StopValue::Create,
        }
    }
}

/// The elements `v`, as values.
pub open spec fn stop_values(v: Seq<StopReplyValue>) -> Seq<StopValue> {
    v.map_values(|x: StopReplyValue| x@)
}

/// The number of bytes before the first `;` of `s`, or all of them.
pub open spec fn semi_run(s: Seq<u8>) -> nat
    decreases s.len(),
{
    if s.len() == 0 || s[0] == 0x3b {
        0
    } else {
        1 + semi_run(s.skip(1))
    }
}

/// `key` and then a thread-id.
pub open spec fn key_thread_id(s: Seq<u8>, key: Seq<u8>) -> Option<(nat, ProcessId)> {
    if starts_with(s, key) {
        match thread_id(s.skip(key.len() as int)) {
            Some((m, id)) => Some((key.len() + m, id)),
            None => None,
        }
    } else {
        None
    }
}

/// `key` and then hex digits.
pub open spec fn key_number(s: Seq<u8>, key: Seq<u8>) -> Option<(nat, u64)> {
    if starts_with(s, key) {
        match hex_digits_number(s.skip(key.len() as int)) {
            Some((m, v)) => Some((key.len() + m, v)),
            None => None,
        }
    } else {
        None
    }
}

/// `key` and then pairs of hex digits.
pub open spec fn key_data(s: Seq<u8>, key: Seq<u8>) -> Option<(nat, Seq<u8>)> {
    if starts_with(s, key) {
        match hex_data(s.skip(key.len() as int)) {
            Some((m, d)) => Some((key.len() + m, d)),
            None => None,
        }
    } else {
        None
    }
}

/// `key` and then anything up to the next `;` or the end.
pub open spec fn key_skip(s: Seq<u8>, key: Seq<u8>) -> Option<nat> {
    if starts_with(s, key) {
        Some(key.len() + semi_run(s.skip(key.len() as int)))
    } else {
        None
    }
}

fn parse_key_thread_id(input: &[u8], key: &[u8]) -> (r: Parsed<ProcessId>)
    ensures
        same(r, key_thread_id(input@, key@)),
        r matches Some((n, _)) ==> n <= input@.len(),
{
    if has_prefix(input, key) {
        let rest = tail(input, key.len());
        assert(rest@.len() == input@.len() - key@.len());
        match parse_thread_id(rest) {
            Some((m, id)) => Some((key.len() + m, id)),
            None => None,
        }
    } else {
        None
    }
}

fn parse_key_number(input: &[u8], key: &[u8]) -> (r: Parsed<u64>)
    ensures
        same(r, key_number(input@, key@)),
        r matches Some((n, _)) ==> n <= input@.len(),
{
    if has_prefix(input, key) {
        let rest = tail(input, key.len());
        assert(rest@.len() == input@.len() - key@.len());
        match parse_hex_digits(rest) {
            Some((m, v)) => Some((key.len() + m, v)),
            None => None,
        }
    } else {
        None
    }
}

fn parse_key_data(input: &[u8], key: &[u8]) -> (r: Parsed<Vec<u8>>)
    ensures
        same_bytes(r, key_data(input@, key@)),
        r matches Some((n, _)) ==> n <= input@.len(),
{
    if has_prefix(input, key) {
        let rest = tail(input, key.len());
        assert(rest@.len() == input@.len() - key@.len());
        match parse_hex_data(rest) {
            Some((m, d)) => Some((key.len() + m, d)),
            None => None,
        }
    } else {
        None
    }
}

fn parse_key_skip(input: &[u8], key: &[u8]) -> (r: Option<usize>)
    ensures
        r matches Some(n) ==> key_skip(input@, key@) == Some(n as nat) && n <= input@.len(),
        r is None ==> key_skip(input@, key@) is None,
{
    if has_prefix(input, key) {
        let rest = tail(input, key.len());
        assert(rest@.len() == input@.len() - key@.len());
        let mut i: usize = 0;
        assert(rest@.skip(0) == rest@);
        while i < rest.len() && rest[i] != 0x3b
            invariant
                i <= rest@.len(),
                semi_run(rest@) == i + semi_run(rest@.skip(i as int)),
            decreases rest@.len() - i,
        {
            assert(rest@.skip(i as int).skip(1) == rest@.skip(i as int + 1));
            i = i + 1;
        }
        Some(key.len() + i)
    } else {
        None
    }
}

/// A register element of a `T` reply: a number in pairs of hex digits, `:`,
/// and the value in pairs of hex digits.
pub open spec fn t_register(s: Seq<u8>) -> Option<(nat, StopValue)> {
    match hex_number(s) {
        Some((n, r)) => if n < s.len() && s[n as int] == 0x3a {
            match hex_data(s.skip((n + 1) as int)) {
                Some((m, d)) => Some((n + 1 + m, StopValue::Register(r, d))),
                None => None,
            }
        } else {
            None
        },
        None => None,
    }
}

fn parse_t_register(input: &[u8]) -> (r: Parsed<StopReplyValue>)
    ensures
        match r {
            Some((n, v)) => t_register(input@) == Some((n as nat, v@)) && n <= input@.len(),
            None => t_register(input@) is None,
        },
{
    match parse_hex_number(input) {
        Some((n, regno)) => {
            if n < input.len() && input[n] == 0x3a {
                match parse_hex_data(tail(input, n + 1)) {
                    Some((m, d)) => Some((n + 1 + m, StopReplyValue::Register(regno, d))),
                    None => None,
                }
            } else {
                None
            }
        },
        None => None,
    }
}

/// The alternative numbered `i` of a `T` reply element.
pub open spec fn t_alt(s: Seq<u8>, i: int) -> Option<(nat, StopValue)> {
    if i == 0 {
        t_register(s)
    } else if i == 1 {
        match key_thread_id(s, seq![0x74u8, 0x68u8, 0x72u8, 0x65u8, 0x61u8, 0x64u8, 0x3au8]) {
            Some((n, id)) => Some((n, StopValue::Thread(id))),
            None => None,
        }
    } else if i == 2 {
        match key_number(s, seq![0x63u8, 0x6fu8, 0x72u8, 0x65u8, 0x3au8]) {
            Some((n, v)) => Some((n, StopValue::Core(v))),
            None => None,
        }
    } else if i == 3 {
        match key_number(s, seq![0x77u8, 0x61u8, 0x74u8, 0x63u8, 0x68u8, 0x3au8]) {
            Some((n, v)) => Some((n, StopValue::Watch(v))),
            None => None,
        }
    } else if i == 4 {
        match key_number(s, seq![0x61u8, 0x77u8, 0x61u8, 0x74u8, 0x63u8, 0x68u8, 0x3au8]) {
            Some((n, v)) => Some((n, StopValue::Awatch(v))),
            None => None,
        }
    } else if i == 5 {
        match key_number(s, seq![0x72u8, 0x77u8, 0x61u8, 0x74u8, 0x63u8, 0x68u8, 0x3au8]) {
            Some((n, v)) => Some((n, StopValue::Rwatch(v))),
            None => None,
        }
    } else if i == 6 {
        match key_number(s, seq![0x73u8, 0x79u8, 0x73u8, 0x63u8, 0x61u8, 0x6cu8, 0x6cu8, 0x5fu8, 0x65u8, 0x6eu8, 0x74u8, 0x72u8, 0x79u8, 0x3au8]) {
            Some((n, v)) => Some((n, StopValue::SyscallEntry(v))),
            None => None,
        }
    } else if i == 7 {
        match key_number(s, seq![0x73u8, 0x79u8, 0x73u8, 0x63u8, 0x61u8, 0x6cu8, 0x6cu8, 0x5fu8, 0x72u8, 0x65u8, 0x74u8, 0x75u8, 0x72u8, 0x6eu8, 0x3au8]) {
            Some((n, v)) => Some((n, StopValue::SyscallReturn(v))),
            None => None,
        }
    } else if i == 8 {
        match key_skip(s, seq![0x6cu8, 0x69u8, 0x62u8, 0x72u8, 0x61u8, 0x72u8, 0x79u8, 0x3au8]) {
            Some(n) => Some((n, StopValue::LibraryChange)),
            None => None,
        }
    } else if i == 9 {
        if starts_with(s, seq![0x72u8, 0x65u8, 0x70u8, 0x6cu8, 0x61u8, 0x79u8, 0x6cu8, 0x6fu8, 0x67u8, 0x3au8]) {
            let r = s.skip(seq![0x72u8, 0x65u8, 0x70u8, 0x6cu8, 0x61u8, 0x79u8, 0x6cu8, 0x6fu8, 0x67u8, 0x3au8].len() as int);
            if starts_with(r, seq![0x62u8, 0x65u8, 0x67u8, 0x69u8, 0x6eu8]) {
                Some((seq![0x72u8, 0x65u8, 0x70u8, 0x6cu8, 0x61u8, 0x79u8, 0x6cu8, 0x6fu8, 0x67u8, 0x3au8].len() + 5, StopValue::ReplayLog(true)))
            } else if starts_with(r, seq![0x65u8, 0x6eu8, 0x64u8]) {
                Some((seq![0x72u8, 0x65u8, 0x70u8, 0x6cu8, 0x61u8, 0x79u8, 0x6cu8, 0x6fu8, 0x67u8, 0x3au8].len() + 3, StopValue::ReplayLog(false)))
            } else {
                None
            }
        } else {
            None
        }
    } else if i == 10 {
        if starts_with(s, seq![0x73u8, 0x77u8, 0x62u8, 0x72u8, 0x65u8, 0x61u8, 0x6bu8, 0x3au8]) {
            Some((seq![0x73u8, 0x77u8, 0x62u8, 0x72u8, 0x65u8, 0x61u8, 0x6bu8, 0x3au8].len(), StopValue::SoftwareBreak))
        } else {
            None
        }
    } else if i == 11 {
        if starts_with(s, seq![0x68u8, 0x77u8, 0x62u8, 0x72u8, 0x65u8, 0x61u8, 0x6bu8, 0x3au8]) {
            Some((seq![0x68u8, 0x77u8, 0x62u8, 0x72u8, 0x65u8, 0x61u8, 0x6bu8, 0x3au8].len(), StopValue::HardwareBreak))
        } else {
            None
        }
    } else if i == 12 {
        match key_thread_id(s, seq![0x66u8, 0x6fu8, 0x72u8, 0x6bu8, 0x3au8]) {
            Some((n, id)) => Some((n, StopValue::Fork(id))),
            None => None,
        }
    } else if i == 13 {
        match key_thread_id(s, seq![0x76u8, 0x66u8, 0x6fu8, 0x72u8, 0x6bu8, 0x3au8]) {
            Some((n, id)) => Some((n, StopValue::VFork(id))),
            None => None,
        }
    } else if i == 14 {
        match key_skip(s, seq![0x76u8, 0x66u8, 0x6fu8, 0x72u8, 0x6bu8, 0x64u8, 0x6fu8, 0x6eu8, 0x65u8, 0x3au8]) {
            Some(n) => Some((n, StopValue::VForkDone)),
            None => None,
        }
    } else if i == 15 {
        match key_data(s, seq![0x65u8, 0x78u8, 0x65u8, 0x63u8, 0x3au8]) {
            Some((n, d)) => Some((n, StopValue::Exec(d))),
            None => None,
        }
    } else if i == 16 {
        match key_skip(s, seq![0x63u8, 0x72u8, 0x65u8, 0x61u8, 0x74u8, 0x65u8, 0x3au8]) {
            Some(n) => Some((n, StopValue::Create)),
            None => None,
        }
    } else {
        None
    }
}

/// The first alternative from number `i` on that matches.
pub open spec fn t_first(s: Seq<u8>, i: int) -> Option<(nat, StopValue)>
    decreases 17 - i,
{
    if i >= 17 {
        None
    } else if t_alt(s, i) is Some {
        t_alt(s, i)
    } else {
        t_first(s, i + 1)
    }
}

/// One element of a `T` stop reply, the first alternative that matches.
pub open spec fn t_pair(s: Seq<u8>) -> Option<(nat, StopValue)> {
    t_first(s, 0)
}

fn parse_t_alt(input: &[u8], i: usize) -> (r: Parsed<StopReplyValue>)
    requires
        i < 17,
    ensures
        match r {
            Some((n, v)) => t_alt(input@, i as int) == Some((n as nat, v@)) && n <= input@.len(),
            None => t_alt(input@, i as int) is None,
        },
{
    match i {
            0 => parse_t_register(input),
            1 => match parse_key_thread_id(input, &[0x74u8, 0x68u8, 0x72u8, 0x65u8, 0x61u8, 0x64u8, 0x3au8]) {
                Some((n, id)) => Some((n, StopReplyValue::Thread(id))),
                None => None,
            },
            2 => match parse_key_number(input, &[0x63u8, 0x6fu8, 0x72u8, 0x65u8, 0x3au8]) {
                Some((n, v)) => Some((n, StopReplyValue::Core(v))),
                None => None,
            },
            3 => match parse_key_number(input, &[0x77u8, 0x61u8, 0x74u8, 0x63u8, 0x68u8, 0x3au8]) {
                Some((n, v)) => Some((n, StopReplyValue::Watch(v))),
                None => None,
            },
            4 => match parse_key_number(input, &[0x61u8, 0x77u8, 0x61u8, 0x74u8, 0x63u8, 0x68u8, 0x3au8]) {
                Some((n, v)) => Some((n, StopReplyValue::Awatch(v))),
                None => None,
            },
            5 => match parse_key_number(input, &[0x72u8, 0x77u8, 0x61u8, 0x74u8, 0x63u8, 0x68u8, 0x3au8]) {
                Some((n, v)) => Some((n, StopReplyValue::Rwatch(v))),
                None => None,
            },
            6 => match parse_key_number(input, &[0x73u8, 0x79u8, 0x73u8, 0x63u8, 0x61u8, 0x6cu8, 0x6cu8, 0x5fu8, 0x65u8, 0x6eu8, 0x74u8, 0x72u8, 0x79u8, 0x3au8]) {
                Some((n, v)) => Some((n, StopReplyValue::SyscallEntry(v))),
                None => None,
            },
            7 => match parse_key_number(input, &[0x73u8, 0x79u8, 0x73u8, 0x63u8, 0x61u8, 0x6cu8, 0x6cu8, 0x5fu8, 0x72u8, 0x65u8, 0x74u8, 0x75u8, 0x72u8, 0x6eu8, 0x3au8]) {
                Some((n, v)) => Some((n, StopReplyValue::SyscallReturn(v))),
                None => None,
            },
            8 => match parse_key_skip(input, &[0x6cu8, 0x69u8, 0x62u8, 0x72u8, 0x61u8, 0x72u8, 0x79u8, 0x3au8]) {
                Some(n) => Some((n, StopReplyValue::LibraryChange)),
                None => None,
            },
            9 => if has_prefix(input, &[0x72u8, 0x65u8, 0x70u8, 0x6cu8, 0x61u8, 0x79u8, 0x6cu8, 0x6fu8, 0x67u8, 0x3au8]) {
                let r = tail(input, 10);
                if has_prefix(r, &[0x62u8, 0x65u8, 0x67u8, 0x69u8, 0x6eu8]) {
                    Some((10 + 5, StopReplyValue::ReplayLog(true)))
                } else if has_prefix(r, &[0x65u8, 0x6eu8, 0x64u8]) {
                    Some((10 + 3, StopReplyValue::ReplayLog(false)))
                } else {
                    None
                }
            } else {
                None
            },
            10 => if has_prefix(input, &[0x73u8, 0x77u8, 0x62u8, 0x72u8, 0x65u8, 0x61u8, 0x6bu8, 0x3au8]) {
                Some((8, StopReplyValue::SoftwareBreak))
            } else {
                None
            },
            11 => if has_prefix(input, &[0x68u8, 0x77u8, 0x62u8, 0x72u8, 0x65u8, 0x61u8, 0x6bu8, 0x3au8]) {
                Some((8, StopReplyValue::HardwareBreak))
            } else {
                None
            },
            12 => match parse_key_thread_id(input, &[0x66u8, 0x6fu8, 0x72u8, 0x6bu8, 0x3au8]) {
                Some((n, id)) => Some((n, StopReplyValue::Fork(id))),
                None => None,
            },
            13 => match parse_key_thread_id(input, &[0x76u8, 0x66u8, 0x6fu8, 0x72u8, 0x6bu8, 0x3au8]) {
                Some((n, id)) => Some((n, StopReplyValue::VFork(id))),
                None => None,
            },
            14 => match parse_key_skip(input, &[0x76u8, 0x66u8, 0x6fu8, 0x72u8, 0x6bu8, 0x64u8, 0x6fu8, 0x6eu8, 0x65u8, 0x3au8]) {
                Some(n) => Some((n, StopReplyValue::VForkDone)),
                None => None,
            },
            15 => match parse_key_data(input, &[0x65u8, 0x78u8, 0x65u8, 0x63u8, 0x3au8]) {
                Some((n, d)) => Some((n, StopReplyValue::Exec(d))),
                None => None,
            },
            16 => match parse_key_skip(input, &[0x63u8, 0x72u8, 0x65u8, 0x61u8, 0x74u8, 0x65u8, 0x3au8]) {
                Some(n) => Some((n, StopReplyValue::Create)),
                None => None,
            },
            _ => None,
    }
}

fn parse_any_t_pair(input: &[u8]) -> (r: Parsed<StopReplyValue>)
    ensures
        match r {
            Some((n, v)) => t_pair(input@) == Some((n as nat, v@)) && n <= input@.len(),
            None => t_pair(input@) is None,
        },
{
    let mut i: usize = 0;
    while i < 17
        invariant
            i <= 17,
            t_pair(input@) == t_first(input@, i as int),
        decreases 17 - i,
    {
        let r = parse_t_alt(input, i);
        if r.is_some() {
            return r;
        }
        i = i + 1;
    }
    None
}

/// One or more `T` reply elements separated by `;`.
pub open spec fn t_pairs(s: Seq<u8>) -> Option<(nat, Seq<StopValue>)>
    decreases s.len(),
{
    match t_pair(s) {
        Some((n, v)) => if n < s.len() && s[n as int] == 0x3b && t_pairs(s.skip((n + 1) as int)) is Some {
            let (m, vs) = t_pairs(s.skip((n + 1) as int))->0;
            Some((n + 1 + m, seq![v] + vs))
        } else {
            Some((n, seq![v]))
        },
        None => None,
    }
}

fn parse_t_pairs(input: &[u8]) -> (r: Parsed<Vec<StopReplyValue>>)
    ensures
        match r {
            Some((n, vs)) => t_pairs(input@) == Some((n as nat, stop_values(vs@))) && n <= input@.len(),
            None => t_pairs(input@) is None,
        },
    decreases input@.len(),
{
    match parse_any_t_pair(input) {
        None => None,
        Some((n, v)) => {
            if n < input.len() && input[n] == 0x3b {
                let rest = tail(input, n + 1);
                match parse_t_pairs(rest) {
                    Some((m, mut vs)) => {
                        let ghost old_vs = vs@;
                        vs.insert(0, v);
                        proof {
                            assert(stop_values(vs@) == seq![v@] + stop_values(old_vs));
                        }
                        return Some((n + 1 + m, vs));
                    },
                    None => {},
                }
            }
            let mut vs: Vec<StopReplyValue> = Vec::new();
            vs.push(v);
            assert(stop_values(vs@) == seq![v@]);
            Some((n, vs))
        },
    }
}

/// A `T` stop reply: `T`, the signal in two hex digits, and one or more
/// elements separated by `;`, filling the input.
pub open spec fn stop_signal_full(s: Seq<u8>) -> Option<(nat, (u8, Seq<StopValue>))> {
    if s.len() >= 3 && s[0] == 0x54 && is_hex_digit(s[1]) && is_hex_digit(s[2]) {
        match t_pairs(s.skip(3)) {
            Some((m, vs)) => if 3 + m == s.len() {
                Some((s.len(), (pair_value(s[1], s[2]), vs)))
            } else {
                None
            },
            None => None,
        }
    } else {
        None
    }
}

/// Parses a `T` stop reply into its signal and its elements.
pub fn parse_stop_signal_full(input: &[u8]) -> (r: Parsed<(u8, Vec<StopReplyValue>)>)
    ensures
        match r {
            Some((n, (sig, vs))) => stop_signal_full(input@) == Some((n as nat, (sig, stop_values(vs@)))),
            None => stop_signal_full(input@) is None,
        },
{
    if input.len() >= 3 && input[0] == 0x54 {
        match parse_2_hex(tail(input, 1)) {
            Some((_, sig)) => match parse_t_pairs(tail(input, 3)) {
                Some((m, vs)) => if 3 + m == input.len() {
                    Some((input.len(), (sig, vs)))
                } else {
                    None
                },
                None => None,
            },
            None => None,
        }
    } else {
        None
    }
}

/// An optional `;process:` and a number in pairs of hex digits, then the
/// end of the input.
pub open spec fn process_suffix(r: Seq<u8>) -> Option<Option<u64>> {
    if r.len() == 0 {
        Some(None)
    } else if starts_with(r, seq![0x3bu8, 0x70u8, 0x72u8, 0x6fu8, 0x63u8, 0x65u8, 0x73u8, 0x73u8, 0x3au8]) {
        match hex_number(r.skip(9)) {
            Some((m, p)) => if 9 + m == r.len() {
                Some(Some(p))
            } else {
                None
            },
            None => None,
        }
    } else {
        None
    }
}

fn parse_process_suffix(r: &[u8]) -> (o: Option<Option<u64>>)
    ensures
        o == process_suffix(r@),
{
    if r.len() == 0 {
        Some(None)
    } else if has_prefix(r, &[0x3bu8, 0x70u8, 0x72u8, 0x6fu8, 0x63u8, 0x65u8, 0x73u8, 0x73u8, 0x3au8]) {
        match parse_hex_number(tail(r, 9)) {
            Some((m, p)) => if 9 + m == r.len() {
                Some(Some(p))
            } else {
                None
            },
            None => None,
        }
    } else {
        None
    }
}

/// An exit stop reply: `W`, the exit status in two hex digits, and an
/// optional `;process:` with the process id, filling the input.
pub open spec fn stop_exit(s: Seq<u8>) -> Option<(nat, (u8, Option<u64>))> {
    if s.len() >= 3 && s[0] == 0x57 && is_hex_digit(s[1]) && is_hex_digit(s[2]) {
        match process_suffix(s.skip(3)) {
            Some(p) => Some((s.len(), (pair_value(s[1], s[2]), p))),
            None => None,
        }
    } else {
        None
    }
}

/// Parses an exit stop reply `Wxx[;process:pid]`.
pub fn parse_stop_exit(input: &[u8]) -> (r: Parsed<(u8, Option<u64>)>)
    ensures
        same(r, stop_exit(input@)),
{
    if input.len() >= 3 && input[0] == 0x57 {
        match parse_2_hex(tail(input, 1)) {
            Some((_, v)) => match parse_process_suffix(tail(input, 3)) {
                Some(p) => Some((input.len(), (v, p))),
                None => None,
            },
            None => None,
        }
    } else {
        None
    }
}

/// A stop reply for an exit by signal: `X`, the signal in pairs of hex
/// digits, and an optional `;process:` with the process id, filling the
/// input.
pub open spec fn stop_exit_signal(s: Seq<u8>) -> Option<(nat, (u64, Option<u64>))> {
    if s.len() >= 1 && s[0] == 0x58 {
        match hex_number(s.skip(1)) {
            Some((n, v)) => match process_suffix(s.skip(1).skip(n as int)) {
                Some(p) => Some((s.len(), (v, p))),
                None => None,
            },
            None => None,
        }
    } else {
        None
    }
}

/// Parses a stop reply `X<sig>[;process:pid]`; the signal may have any
/// number of digit pairs.
pub fn parse_stop_exit_signal(input: &[u8]) -> (r: Parsed<(u64, Option<u64>)>)
    ensures
        same(r, stop_exit_signal(input@)),
{
    if input.len() >= 1 && input[0] == 0x58 {
        let rest = tail(input, 1);
        match parse_hex_number(rest) {
            Some((n, v)) => match parse_process_suffix(tail(rest, n)) {
                Some(p) => Some((input.len(), (v, p))),
                None => None,
            },
            None => None,
        }
    } else {
        None
    }
}

/// A thread-exit stop reply: `w`, the exit status, `;`, and the thread,
/// each in pairs of hex digits, filling the input.
pub open spec fn stop_thread_exit(s: Seq<u8>) -> Option<(nat, (u64, u64))> {
    if s.len() >= 1 && s[0] == 0x77 {
        let r = s.skip(1);
        match hex_number(r) {
            Some((n, v)) => if n < r.len() && r[n as int] == 0x3b {
                match hex_number(r.skip((n + 1) as int)) {
                    Some((m, t)) => if 1 + n + 1 + m == s.len() {
                        Some((s.len(), (v, t)))
                    } else {
                        None
                    },
                    None => None,
                }
            } else {
                None
            },
            None => None,
        }
    } else {
        None
    }
}

/// Parses a thread-exit stop reply `w<status>;<tid>`.
pub fn parse_stop_thread_exit(input: &[u8]) -> (r: Parsed<(u64, u64)>)
    ensures
        same(r, stop_thread_exit(input@)),
{
    if input.len() >= 1 && input[0] == 0x77 {
        let r = tail(input, 1);
        match parse_hex_number(r) {
            Some((n, v)) => if n < r.len() && r[n] == 0x3b {
                match parse_hex_number(tail(r, n + 1)) {
                    Some((m, t)) => if 1 + n + 1 + m == input.len() {
                        Some((input.len(), (v, t)))
                    } else {
                        None
                    },
                    None => None,
                }
            } else {
                None
            },
            None => None,
        }
    } else {
        None
    }
}

/// Output of the program being debugged: `O` and the bytes in pairs of hex
/// digits.
pub open spec fn inferior_output(s: Seq<u8>) -> Option<(nat, Seq<u8>)> {
    if s.len() >= 1 && s[0] == 0x4f {
        match hex_data(s.skip(1)) {
            Some((m, d)) => Some((1 + m, d)),
            None => None,
        }
    } else {
        None
    }
}

/// Parses an output packet `O<hex data>`.
pub fn parse_inferior_output(input: &[u8]) -> (r: Parsed<Vec<u8>>)
    ensures
        same_bytes(r, inferior_output(input@)),
{
    if input.len() >= 1 && input[0] == 0x4f {
        match parse_hex_data(tail(input, 1)) {
            Some((m, d)) => Some((1 + m, d)),
            None => None,
        }
    } else {
        None
    }
}

/// The reply to `qC`: `QC` and a thread-id.
pub open spec fn qc_reply(s: Seq<u8>) -> Option<(nat, ProcessId)> {
    key_thread_id(s, seq![0x51u8, 0x43u8])
}

/// Parses the reply to `qC`, `QC<thread-id>`.
pub fn parse_qc_reply(input: &[u8]) -> (r: Parsed<ProcessId>)
    ensures
        same(r, qc_reply(input@)),
{
    parse_key_thread_id(input, &[0x51u8, 0x43u8])
}

/// One or more thread-ids separated by `,`.
pub open spec fn thread_id_list(s: Seq<u8>) -> Option<(nat, Seq<ProcessId>)>
    decreases s.len(),
{
    match thread_id(s) {
        Some((n, id)) => if n < s.len() && s[n as int] == 0x2c && thread_id_list(s.skip((n + 1) as int)) is Some {
            let (m, ids) = thread_id_list(s.skip((n + 1) as int))->0;
            Some((n + 1 + m, seq![id] + ids))
        } else {
            Some((n, seq![id]))
        },
        None => None,
    }
}

/// Parses one or more thread-ids separated by `,`.
pub fn parse_thread_id_list(input: &[u8]) -> (r: Parsed<Vec<ProcessId>>)
    ensures
        match r {
            Some((n, ids)) => thread_id_list(input@) == Some((n as nat, ids@)) && n <= input@.len(),
            None => thread_id_list(input@) is None,
        },
    decreases input@.len(),
{
    match parse_thread_id(input) {
        None => None,
        Some((n, id)) => {
            if n < input.len() && input[n] == 0x2c {
                let rest = tail(input, n + 1);
                match parse_thread_id_list(rest) {
                    Some((m, mut ids)) => {
                        let ghost old_ids = ids@;
                        ids.insert(0, id);
                        assert(ids@ == seq![id] + old_ids);
                        return Some((n + 1 + m, ids));
                    },
                    None => {},
                }
            }
            let mut ids: Vec<ProcessId> = Vec::new();
            ids.push(id);
            assert(ids@ == seq![id]);
            Some((n, ids))
        },
    }
}

/// A reply to `qfThreadInfo` or `qsThreadInfo`: `l` ends the list
/// (`None`); otherwise a list of thread-ids.
pub open spec fn thread_info_reply(s: Seq<u8>) -> Option<(nat, Option<Seq<ProcessId>>)> {
    if s.len() >= 1 && s[0] == 0x6c {
        Some((1, None))
    } else {
        match thread_id_list(s) {
            Some((n, ids)) => Some((n, Some(ids))),
            None => None,
        }
    }
}

/// Parses a reply to `qfThreadInfo` or `qsThreadInfo`.
pub fn parse_thread_info_reply(input: &[u8]) -> (r: Parsed<Option<Vec<ProcessId>>>)
    ensures
        match r {
            Some((n, None)) => thread_info_reply(input@) == Some((n as nat, None::<Seq<ProcessId>>)),
            Some((n, Some(ids))) => thread_info_reply(input@) == Some((n as nat, Some(ids@))),
            None => thread_info_reply(input@) is None,
        },
{
    if input.len() >= 1 && input[0] == 0x6c {
        Some((1, None))
    } else {
        match parse_thread_id_list(input) {
            Some((n, ids)) => Some((n, Some(ids))),
            None => None,
        }
    }
}

/// A reply to `qSymbol`: `OK` (no symbol wanted: `None`), or `qSymbol:`
/// and the name of the symbol wanted, in pairs of hex digits.
pub open spec fn qsymbol_reply(s: Seq<u8>) -> Option<(nat, Option<Seq<u8>>)> {
    if starts_with(s, seq![0x4fu8, 0x4bu8]) {
        Some((2, None))
    } else {
        match key_data(s, seq![0x71u8, 0x53u8, 0x79u8, 0x6du8, 0x62u8, 0x6fu8, 0x6cu8, 0x3au8]) {
            Some((n, d)) => Some((n, Some(d))),
            None => None,
        }
    }
}

/// Parses a reply to `qSymbol`.
pub fn parse_qsymbol(input: &[u8]) -> (r: Parsed<Option<Vec<u8>>>)
    ensures
        match r {
            Some((n, None)) => qsymbol_reply(input@) == Some((n as nat, None::<Seq<u8>>)),
            Some((n, Some(d))) => qsymbol_reply(input@) == Some((n as nat, Some(d@))),
            None => qsymbol_reply(input@) is None,
        },
{
    if has_prefix(input, &[0x4fu8, 0x4bu8]) {
        Some((2, None))
    } else {
        match parse_key_data(input, &[0x71u8, 0x53u8, 0x79u8, 0x6du8, 0x62u8, 0x6fu8, 0x6cu8, 0x3au8]) {
            Some((n, d)) => Some((n, Some(d))),
            None => None,
        }
    }
}

/// A reply to `m`: an error packet, the memory in pairs of hex digits, or
/// the empty packet.
pub open spec fn memory_reply(s: Seq<u8>) -> Option<(nat, Result<Seq<u8>, ClientError>)> {
    match error_reply(s) {
        Some((n, e)) => Some((n, Err(ClientError::ErrorPacket(e)))),
        None => match hex_data(s) {
            Some((n, d)) => Some((n, Ok(d))),
            None => if s.len() == 0 {
                Some((0, Err(ClientError::Unsupported)))
            } else {
                None
            },
        },
    }
}

/// Parses a reply to `m`: `Exx` gives `ErrorPacket`, hex data gives the
/// bytes, the empty packet gives `Unsupported`.
pub fn parse_memory(input: &[u8]) -> (r: Parsed<ClientResult<Vec<u8>>>)
    ensures
        match r {
            Some((n, Ok(d))) => memory_reply(input@) == Some((n as nat, Ok::<Seq<u8>, ClientError>(d@))),
            Some((n, Err(e))) => memory_reply(input@) == Some((n as nat, Err::<Seq<u8>, ClientError>(e))),
            None => memory_reply(input@) is None,
        },
{
    match parse_error(input) {
        Some((n, e)) => Some((n, Err(ClientError::ErrorPacket(e)))),
        None => match parse_hex_data(input) {
            Some((n, d)) => Some((n, Ok(d))),
            None => if input.len() == 0 {
                Some((0, Err(ClientError::Unsupported)))
            } else {
                None
            },
        },
    }
}

/// The upper case hex digit for a value below 16.
pub open spec fn hex_char_upper(n: nat) -> u8 {
    if n < 10 {
        (0x30 + n) as u8
    } else {
        (0x41 + n - 10) as u8
    }
}

/// Two hex digits parse exactly when both are hex digits: every byte comes
/// back from its two digits, lowercase or upper case, and any other pair
/// is rejected.
pub proof fn lemma_two_hex(d1: u8, d2: u8, b: u8)
    ensures
        two_hex(seq![d1, d2]) is Some <==> is_hex_digit(d1) && is_hex_digit(d2),
        two_hex(hex_pair(b)) == Some((2nat, b)),
        two_hex(seq![hex_char_upper(b as nat / 16), hex_char_upper(b as nat % 16)]) == Some((2nat, b)),
{
    lemma_hex_char(b as nat / 16);
    lemma_hex_char(b as nat % 16);
    assert(b as nat == (b as nat / 16) * 16 + b as nat % 16);
}

/// The bytes of `n`, most significant first, without leading zero bytes
/// (one zero byte for zero).
pub open spec fn be_bytes(n: nat) -> Seq<u8>
    decreases n,
{
    if n < 256 {
        seq![n as u8]
    } else {
        be_bytes(n / 256).push((n % 256) as u8)
    }
}

proof fn lemma_be_bytes(n: nat)
    ensures
        be_bytes(n).len() >= 1,
        be_value(be_bytes(n)) == n,
    decreases n,
{
    if n < 256 {
        reveal_with_fuel(be_value, 2);
        assert(be_bytes(n).drop_last() == Seq::<u8>::empty());
    } else {
        lemma_be_bytes(n / 256);
        assert(be_bytes(n).drop_last() == be_bytes(n / 256));
        assert(n == (n / 256) * 256 + n % 256);
    }
}

proof fn lemma_hex_encoded_front(b: u8, rest: Seq<u8>)
    ensures
        hex_encoded(seq![b] + rest) == hex_pair(b) + hex_encoded(rest),
    decreases rest.len(),
{
    if rest.len() == 0 {
        reveal_with_fuel(hex_encoded, 2);
        assert(seq![b] + rest == seq![b]);
        assert(seq![b].drop_last() == Seq::<u8>::empty());
        assert(hex_pair(b) + Seq::<u8>::empty() == hex_pair(b));
        assert(Seq::<u8>::empty() + hex_pair(b) == hex_pair(b));
    } else {
        lemma_hex_encoded_front(b, rest.drop_last());
        assert((seq![b] + rest).drop_last() == seq![b] + rest.drop_last());
        assert(hex_pair(b) + hex_encoded(rest.drop_last()) + hex_pair(rest.last()) == hex_pair(b)
            + hex_encoded(rest));
    }
}

proof fn lemma_hex_encoded_parses(d: Seq<u8>)
    ensures
        hex_data_bytes(hex_encoded(d)) == d,
        hex_encoded(d).len() == 2 * d.len(),
    decreases d.len(),
{
    if d.len() > 0 {
        let b = d[0];
        let rest = d.skip(1);
        assert(d == seq![b] + rest);
        lemma_hex_encoded_front(b, rest);
        lemma_hex_encoded_parses(rest);
        lemma_two_hex(0, 0, b);
        let e = hex_encoded(d);
        assert(e.skip(2) == hex_encoded(rest));
        assert(e[0] == hex_pair(b)[0] && e[1] == hex_pair(b)[1]);
    }
}

/// Every 64-bit number, written as the hex pairs of its bytes, most
/// significant first, parses back to itself.
pub proof fn lemma_hex_number_round_trip(n: u64)
    ensures
        hex_number(hex_encoded(be_bytes(n as nat))) == Some((hex_encoded(be_bytes(n as nat)).len(), n)),
{
    lemma_be_bytes(n as nat);
    lemma_hex_encoded_parses(be_bytes(n as nat));
}

proof fn lemma_digit_run_concat(d: Seq<u8>, rest: Seq<u8>)
    requires
        all_hex(d),
        rest.len() == 0 || !is_hex_digit(rest[0]),
    ensures
        digit_run(d + rest) == d.len(),
    decreases d.len(),
{
    if d.len() == 0 {
        assert(d + rest == rest);
    } else {
        lemma_digit_run_concat(d.skip(1), rest);
        assert((d + rest).skip(1) == d.skip(1) + rest);
    }
}

proof fn lemma_id_element_round_trip(id: Id, rest: Seq<u8>)
    requires
        id matches Id::Specific(n) ==> n > 0,
        rest.len() == 0 || rest[0] == 0x2e,
    ensures
        id_element(id_wire(id) + rest) == Some((id_wire(id).len(), id)),
{
    let s = id_wire(id) + rest;
    match id {
        Id::Specific(n) => {
            let d = hex_digits(n as nat);
            lemma_hex_digits(n as nat);
            assert(s[0] == d[0]);
            lemma_digit_run_concat(d, rest);
            assert(s.take(d.len() as int) == d);
        },
        _ => {},
    }
}

/// A thread-id written by `write_thread_id` parses back to itself, for
/// every pair of parts whose particular ids are positive.
pub proof fn lemma_thread_id_round_trip(p: ProcessId)
    requires
        p.pid matches Id::Specific(n) ==> n > 0,
        p.tid matches Id::Specific(n) ==> n > 0,
    ensures
        thread_id(thread_id_wire(p)) == Some((thread_id_wire(p).len(), p)),
{
    let w = thread_id_wire(p);
    let a = id_wire(p.pid);
    let b = id_wire(p.tid);
    let r = w.skip(1);
    assert(r == a + (seq![0x2eu8] + b));
    lemma_id_element_round_trip(p.pid, seq![0x2eu8] + b);
    assert(r[a.len() as int] == 0x2e);
    assert(r.skip(a.len() + 1 as int) == b + Seq::<u8>::empty());
    lemma_id_element_round_trip(p.tid, Seq::<u8>::empty());
    assert(digit_run(w) == 0);
}

} // verus!

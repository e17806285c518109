//! Hex digits: decoding and lowercase encoding.
use vstd::prelude::*;

verus! {

/// `c` is an ASCII hex digit, in either case.
pub open spec fn is_hex_digit(c: u8) -> bool {
    (0x30 <= c <= 0x39) || (0x61 <= c <= 0x66) || (0x41 <= c <= 0x46)
}

/// The value of the hex digit `c`.
pub open spec fn hex_digit_value(c: u8) -> nat {
    if 0x30 <= c <= 0x39 {
        (c - 0x30) as nat
    } else if 0x61 <= c <= 0x66 {
        (c - 0x61 + 10) as nat
    } else {
        (c - 0x41 + 10) as nat
    }
}

/// Every byte of `s` is a hex digit.
pub open spec fn all_hex(s: Seq<u8>) -> bool {
    forall|i: int| 0 <= i < s.len() ==> is_hex_digit(#[trigger] s[i])
}

/// The number that the digits of `s` spell, most significant first.
pub open spec fn hex_value(s: Seq<u8>) -> nat
    decreases s.len(),
{
    if s.len() == 0 {
        0
    } else {
        hex_value(s.drop_last()) * 16 + hex_digit_value(s.last())
    }
}

/// The lowercase hex digit for a value below 16.
pub open spec fn hex_char(n: nat) -> u8 {
    if n < 10 {
        (0x30 + n) as u8
    } else {
        (0x61 + n - 10) as u8
    }
}

/// `n` in lowercase hex, without leading zeros (`0` for zero).
pub open spec fn hex_digits(n: nat) -> Seq<u8>
    decreases n,
{
    if n < 16 {
        seq![hex_char(n)]
    } else {
        hex_digits(n / 16).push(hex_char(n % 16))
    }
}

/// The byte `b` as exactly two lowercase hex digits.
pub open spec fn hex_pair(b: u8) -> Seq<u8> {
    seq![hex_char(b as nat / 16), hex_char(b as nat % 16)]
}

/// A lowercase digit is a hex digit with the value it was made from.
pub proof fn lemma_hex_char(n: nat)
    requires
        n < 16,
    ensures
        is_hex_digit(hex_char(n)),
        hex_digit_value(hex_char(n)) == n,
        hex_char(n) != 0x2e && hex_char(n) != 0x2d,
        n > 0 ==> hex_char(n) != 0x30,
{
}

/// A hex digit that is not an upper case letter is the lowercase digit of
/// its value.
pub proof fn lemma_hex_char_of_value(c: u8)
    requires
        is_hex_digit(c),
        !(0x41 <= c <= 0x46),
    ensures
        hex_digit_value(c) < 16,
        hex_char(hex_digit_value(c)) == c,
{
}

/// The digits of `n` are hex digits that spell `n`; the first is not `0`
/// unless `n` is zero.
pub proof fn lemma_hex_digits(n: nat)
    ensures
        hex_digits(n).len() > 0,
        all_hex(hex_digits(n)),
        hex_value(hex_digits(n)) == n,
        n > 0 ==> hex_digits(n)[0] != 0x30,
        hex_digits(n)[0] != 0x2d,
    decreases n,
{
    if n < 16 {
        lemma_hex_char(n);
        assert(seq![hex_char(n)].drop_last() == Seq::<u8>::empty());
        assert(hex_value(hex_digits(n)) == hex_value(Seq::<u8>::empty()) * 16 + n);
    } else {
        lemma_hex_digits(n / 16);
        lemma_hex_char(n % 16);
        let d = hex_digits(n / 16);
        assert(hex_digits(n).drop_last() == d);
        assert(hex_digits(n).last() == hex_char(n % 16));
        assert(hex_value(hex_digits(n)) == hex_value(d) * 16 + n % 16);
        assert(n == (n / 16) * 16 + n % 16);
        assert(hex_digits(n)[0] == d[0]);
    }
}

/// The value of a single hex digit, if `c` is one.
pub fn hex_digit(c: u8) -> (r: Option<u8>)
    ensures
        r == (if is_hex_digit(c) {
            Some(hex_digit_value(c) as u8)
        } else {
            None::<u8>
        }),
        r matches Some(v) ==> v < 16,
{
    if 0x30 <= c && c <= 0x39 {
        Some(c - 0x30)
    } else if 0x61 <= c && c <= 0x66 {
        Some(c - 0x61 + 10)
    } else if 0x41 <= c && c <= 0x46 {
        Some(c - 0x41 + 10)
    } else {
        None
    }
}

/// The lowercase hex digit for `n`.
pub fn hex_char_of(n: u8) -> (r: u8)
    requires
        n < 16,
    ensures
        r == hex_char(n as nat),
{
    if n < 10 {
        0x30 + n
    } else {
        0x61 + n - 10
    }
}

/// Decodes a sequence of hex digits, most significant first.
///
/// Returns `None` when a byte is not a hex digit, and also when the value
/// does not fit in 64 bits; the empty sequence decodes to zero.
pub fn decode_hex(seq: &[u8]) -> (r: Option<u64>)
    ensures
        r is Some <==> all_hex(seq@) && hex_value(seq@) <= u64::MAX,
        r matches Some(v) ==> v == hex_value(seq@),
{
    let mut result: u64 = 0;
    let mut i: usize = 0;
    while i < seq.len()
        invariant
            i <= seq@.len(),
            all_hex(seq@.subrange(0, i as int)),
            result == hex_value(seq@.subrange(0, i as int)),
        decreases seq@.len() - i,
    {
        let c = seq[i];
        assert(seq@.subrange(0, i as int + 1).drop_last() == seq@.subrange(0, i as int));
        match hex_digit(c) {
            None => {
                assert(!all_hex(seq@));
                return None;
            },
            Some(v) => {
                if result > (u64::MAX - v as u64) / 16 {
                    proof {
                        lemma_hex_value_prefix_grows(seq@, i as int + 1);
                    }
                    return None;
                }
                result = result * 16 + v as u64;
            },
        }
        i = i + 1;
    }
    assert(seq@.subrange(0, i as int) == seq@);
    Some(result)
}

/// A longer prefix of hex digits never spells a smaller number.
proof fn lemma_hex_value_prefix_grows(s: Seq<u8>, k: int)
    requires
        0 <= k <= s.len(),
    ensures
        hex_value(s) >= hex_value(s.subrange(0, k)),
    decreases s.len() - k,
{
    if k < s.len() {
        lemma_hex_value_prefix_grows(s, k + 1);
        assert(s.subrange(0, k + 1).drop_last() == s.subrange(0, k));
    } else {
        assert(s.subrange(0, k) == s);
    }
}

/// Appends `n` in lowercase hex, without leading zeros.
pub fn push_hex_digits(out: &mut Vec<u8>, n: u64)
    ensures
        final(out)@ == old(out)@ + hex_digits(n as nat),
    decreases n,
{
    if n >= 16 {
        push_hex_digits(out, n / 16);
    }
    out.push(hex_char_of((n % 16) as u8));
    proof {
        if n >= 16 {
            assert(out@ == old(out)@ + hex_digits(n as nat / 16).push(hex_char(n as nat % 16)));
        }
    }
}

/// Appends `b` as two lowercase hex digits.
pub fn push_hex_pair(out: &mut Vec<u8>, b: u8)
    ensures
        final(out)@ == old(out)@ + hex_pair(b),
{
    out.push(hex_char_of(b / 16));
    out.push(hex_char_of(b % 16));
}

} // verus!

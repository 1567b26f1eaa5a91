//! Decimal numerals as they appear in frame headers and command arguments.

use vstd::prelude::*;
use vstd::slice::slice_subrange;

verus! {

/// The byte `0`.
pub const ZERO: u8 = 48;

/// The byte `9`.
pub const NINE: u8 = 57;

/// The byte `+`.
pub const PLUS_SIGN: u8 = 43;

/// Whether `b` is one of the bytes `0` to `9`.
pub open spec fn is_digit(b: u8) -> bool {
    ZERO <= b <= NINE
}

/// Whether `s` consists of digits only.
pub open spec fn all_digits(s: Seq<u8>) -> bool {
    forall|i: int| 0 <= i < s.len() ==> is_digit(#[trigger] s[i])
}

/// The number that the digits of `s` denote, most significant digit first.
pub open spec fn digits_value(s: Seq<u8>) -> nat
    decreases s.len(),
{
    if s.len() == 0 {
        0
    } else {
        (digits_value(s.drop_last()) * 10 + (s.last() - ZERO)) as nat
    }
}

/// The shortest numeral for `n`: no leading zero, and `0` for zero.
pub open spec fn numeral(n: nat) -> Seq<u8>
    decreases n,
{
    if n < 10 {
        seq![(ZERO + n) as u8]
    } else {
        numeral(n / 10).push((ZERO + n % 10) as u8)
    }
}

/// The number that `s` denotes, if `s` is a non-empty run of digits.
pub open spec fn parse_number(s: Seq<u8>) -> Option<nat> {
    if s.len() > 0 && all_digits(s) {
        Some(digits_value(s))
    } else {
        None
    }
}

/// The number that `s` denotes when a plus sign may stand before the digits.
pub open spec fn parse_signed(s: Seq<u8>) -> Option<nat> {
    if s.len() > 0 && s[0] == PLUS_SIGN {
        parse_number(s.skip(1))
    } else {
        parse_number(s)
    }
}

/// The number `n` as 64 bits, if there is one and it fits.
pub open spec fn fit_u64(n: Option<nat>) -> Option<u64> {
    match n {
        Some(n) => if n <= u64::MAX {
            Some(n as u64)
        } else {
            None
        },
        None => None,
    }
}

/// A numeral is a non-empty run of digits that denotes its number.
pub proof fn lemma_numeral(n: nat)
    ensures
        numeral(n).len() > 0,
        all_digits(numeral(n)),
        digits_value(numeral(n)) == n,
        parse_number(numeral(n)) == Some(n),
    decreases n,
{
    if n < 10 {
        let s = numeral(n);
        assert(s.drop_last() =~= Seq::<u8>::empty());
        assert(digits_value(s.drop_last()) == 0);
    } else {
        lemma_numeral(n / 10);
        let s = numeral(n);
        assert(s.drop_last() =~= numeral(n / 10));
    }
}

/// Appending digits never makes the denoted number smaller.
pub proof fn lemma_digits_value_prefix(s: Seq<u8>, k: int)
    requires
        all_digits(s),
        0 <= k <= s.len(),
    ensures
        digits_value(s.take(k)) <= digits_value(s),
    decreases s.len() - k,
{
    if k == s.len() {
        assert(s.take(k) =~= s);
    } else {
        lemma_digits_value_prefix(s.drop_last(), k);
        assert(s.drop_last().take(k) =~= s.take(k));
    }
}

/// Reads a non-empty run of digits as a number, if the number fits in 64 bits.
pub fn parse_u64(bytes: &[u8]) -> (r: Option<u64>)
    ensures
        r == fit_u64(parse_number(bytes@)),
{
    if bytes.len() == 0 {
        return None;
    }
    let mut acc: u64 = 0;
    let mut i: usize = 0;
    while i < bytes.len()
        invariant
            0 <= i <= bytes.len(),
            all_digits(bytes@.take(i as int)),
            acc == digits_value(bytes@.take(i as int)),
        decreases bytes.len() - i,
    {
        let b = bytes[i];
        if b < ZERO || b > NINE {
            assert(!is_digit(bytes@[i as int]));
            return None;
        }
        let ghost next = bytes@.take(i + 1);
        assert(next.drop_last() =~= bytes@.take(i as int));
        assert(next.last() == b);
        assert(all_digits(next)) by {
            assert forall|j: int| 0 <= j < next.len() implies is_digit(#[trigger] next[j]) by {
                if j < i {
                    assert(bytes@.take(i as int)[j] == next[j]);
                }
            }
        }
        let digit: u64 = (b - ZERO) as u64;
        let scaled = acc.checked_mul(10);
        let sum = match scaled {
            Some(m) => m.checked_add(digit),
            None => None,
        };
        match sum {
            Some(v) => {
                acc = v;
            },
            None => {
                proof {
                    assert(digits_value(next) > u64::MAX);
                    if all_digits(bytes@) {
                        lemma_digits_value_prefix(bytes@, i + 1);
                    }
                }
                return None;
            },
        }
        i = i + 1;
    }
    assert(bytes@.take(i as int) =~= bytes@);
    Some(acc)
}

/// Reads a non-empty run of digits, with or without a plus sign before it, as a
/// number, if the number fits in 64 bits.
pub fn parse_signed_u64(bytes: &[u8]) -> (r: Option<u64>)
    ensures
        r == fit_u64(parse_signed(bytes@)),
{
    if bytes.len() > 0 && bytes[0] == PLUS_SIGN {
        let digits = slice_subrange(bytes, 1, bytes.len());
        assert(digits@ =~= bytes@.skip(1));
        parse_u64(digits)
    } else {
        parse_u64(bytes)
    }
}

/// Appends the shortest numeral for `n` to `out`.
pub fn push_numeral(out: &mut Vec<u8>, n: usize)
    ensures
        final(out)@ == old(out)@ + numeral(n as nat),
    decreases n,
{
    if n < 10 {
        out.push(ZERO + n as u8);
        assert(final(out)@ =~= old(out)@ + numeral(n as nat));
    } else {
        push_numeral(out, n / 10);
        out.push(ZERO + (n % 10) as u8);
        assert(final(out)@ =~= old(out)@ + numeral(n as nat));
    }
}

} // verus!

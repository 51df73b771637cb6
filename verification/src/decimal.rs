//! Decimal numerals as byte strings: what a digit string denotes, and the
//! canonical digit string of a number.
use vstd::prelude::*;

verus! {

/// The ASCII code of the digit `0`.
pub const ZERO: u8 = 0x30;

/// Whether `b` is an ASCII decimal digit.
pub open spec fn is_digit(b: u8) -> bool {
    0x30 <= b <= 0x39
}

/// Whether every byte of `s` is an ASCII decimal digit.
pub open spec fn all_digits(s: Seq<u8>) -> bool {
    forall|i: int| 0 <= i < s.len() ==> is_digit(#[trigger] s[i])
}

/// The number that the digit string `s` denotes, most significant digit
/// first. Leading zeros are allowed; the empty string denotes zero.
pub open spec fn decimal_value(s: Seq<u8>) -> nat
    decreases s.len(),
{
    if s.len() == 0 {
        0
    } else {
        decimal_value(s.drop_last()) * 10 + (s.last() - 0x30) as nat
    }
}

/// The reading of `s` as a numeral: a non-empty string of digits whose
/// value does not exceed `max`.
pub open spec fn parse_decimal(s: Seq<u8>, max: nat) -> Option<nat> {
    if s.len() > 0 && all_digits(s) && decimal_value(s) <= max {
        Some(decimal_value(s))
    } else {
        None
    }
}

/// The shortest digit string that denotes `n`.
pub open spec fn decimal_digits(n: nat) -> Seq<u8>
    decreases n,
{
    if n < 10 {
        seq![(0x30 + n) as u8]
    } else {
        decimal_digits(n / 10).push((0x30 + n % 10) as u8)
    }
}

/// A digit string denotes at least as much as each of its prefixes.
pub proof fn lemma_value_of_prefix(s: Seq<u8>, k: int)
    requires
        all_digits(s),
        0 <= k <= s.len(),
    ensures
        decimal_value(s.take(k)) <= decimal_value(s),
    decreases s.len() - k,
{
    if k == s.len() {
        assert(s.take(k) =~= s);
    } else {
        lemma_value_of_prefix(s, k + 1);
        assert(s.take(k + 1).drop_last() =~= s.take(k));
        assert(is_digit(s[k]));
    }
}

/// The canonical digit string of a number is made of digits only, is not
/// empty, and denotes that number.
pub proof fn lemma_digits_denote(n: nat)
    ensures
        decimal_digits(n).len() > 0,
        all_digits(decimal_digits(n)),
        decimal_value(decimal_digits(n)) == n,
    decreases n,
{
    if n < 10 {
        let s = decimal_digits(n);
        assert(s.drop_last() =~= Seq::<u8>::empty());
        assert(decimal_value(s.drop_last()) == 0);
    } else {
        lemma_digits_denote(n / 10);
        let s = decimal_digits(n);
        assert(s.drop_last() =~= decimal_digits(n / 10));
    }
}

/// Reading the canonical digit string of `n` gives `n` back, under every
/// bound that admits `n`.
pub proof fn lemma_parse_of_digits(n: nat, max: nat)
    requires
        n <= max,
    ensures
        parse_decimal(decimal_digits(n), max) == Some(n),
{
    lemma_digits_denote(n);
}

/// Reads the bytes `bytes[start..end]` as a decimal numeral no larger than
/// `max`.
pub fn parse_decimal_range(bytes: &[u8], start: usize, end: usize, max: u64) -> (r: Option<u64>)
    requires
        start <= end <= bytes@.len(),
    ensures
        match r {
            Some(n) => parse_decimal(bytes@.subrange(start as int, end as int), max as nat)
                == Some(n as nat),
            None => parse_decimal(bytes@.subrange(start as int, end as int), max as nat) is None,
        },
{
    let ghost s = bytes@.subrange(start as int, end as int);
    if start == end {
        return None;
    }
    let mut acc: u128 = 0;
    let mut i: usize = start;
    while i < end
        invariant
            start <= i <= end <= bytes@.len(),
            s == bytes@.subrange(start as int, end as int),
            all_digits(s.take(i - start)),
            acc == decimal_value(s.take(i - start)),
            acc <= max,
        decreases end - i,
    {
        let b = bytes[i];
        assert(s[i - start] == b);
        if b < 0x30 || b > 0x39 {
            return None;
        }
        proof {
            assert(s.take(i - start + 1).drop_last() =~= s.take(i - start));
        }
        acc = acc * 10 + (b - 0x30) as u128;
        if acc > max as u128 {
            proof {
                if all_digits(s) {
                    lemma_value_of_prefix(s, i - start + 1);
                }
            }
            return None;
        }
        i = i + 1;
    }
    proof {
        assert(s.take(i - start) =~= s);
    }
    Some(acc as u64)
}

/// Appends the canonical digit string of `n` to `out`.
pub fn push_decimal(out: &mut Vec<u8>, n: u64)
    ensures
        final(out)@ == old(out)@ + decimal_digits(n as nat),
    decreases n,
{
    if n >= 10 {
        push_decimal(out, n / 10);
    }
    let d: u8 = (n % 10) as u8;
    out.push(0x30 + d);
    assert(final(out)@ =~= old(out)@ + decimal_digits(n as nat));
}

} // verus!

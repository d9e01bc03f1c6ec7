//! Decimal text to machine words.

use vstd::prelude::*;

verus! {

/// The byte of `0`.
pub const ZERO: u8 = 0x30;

/// The byte of `9`.
pub const NINE: u8 = 0x39;

/// The byte of `+`.
pub const PLUS: u8 = 0x2b;

/// The byte of `-`.
pub const MINUS: u8 = 0x2d;

/// One of the ASCII digits `0` to `9`.
pub open spec fn is_digit(b: u8) -> bool {
    ZERO <= b && b <= NINE
}

/// Every byte of `s` is a digit.
pub open spec fn all_digits(s: Seq<u8>) -> bool {
    forall|i: int| 0 <= i < s.len() ==> is_digit(#[trigger] s[i])
}

/// The value of a run of digits, read in base ten (zero for the empty run).
pub open spec fn digits_value(s: Seq<u8>) -> nat
    decreases s.len(),
{
    if s.len() == 0 {
        0
    } else {
        digits_value(s.drop_last()) * 10 + (s.last() - ZERO) as nat
    }
}

/// A non-empty run of digits whose value is at most `limit`.
pub open spec fn bounded_digits(s: Seq<u8>, limit: nat) -> Option<nat> {
    if s.len() > 0 && all_digits(s) && digits_value(s) <= limit {
        Some(digits_value(s))
    } else {
        None
    }
}

/// An unsigned decimal: an optional `+`, then digits, with a value that fits
/// in a machine word.
pub open spec fn decimal_value(s: Seq<u8>) -> Option<usize> {
    let d = if s.len() > 0 && s[0] == PLUS {
        s.drop_first()
    } else {
        s
    };
    match bounded_digits(d, usize::MAX as nat) {
        Some(v) => Some(v as usize),
        None => None,
    }
}

/// The number of distinct machine words.
pub open spec fn word_modulus() -> nat {
    usize::MAX as nat + 1
}

/// A numeric argument as a machine word. A leading `-` takes a magnitude that
/// fits the signed range (at most `isize::MAX + 1`) and gives its two's
/// complement, so `-1` is the all-ones word; any other text reads as
/// `decimal_value`.
pub open spec fn word_value(s: Seq<u8>) -> Option<usize> {
    if s.len() > 0 && s[0] == MINUS {
        match bounded_digits(s.drop_first(), isize::MAX as nat + 1) {
            Some(m) => Some(((word_modulus() - m) % (word_modulus() as int)) as usize),
            None => None,
        }
    } else {
        decimal_value(s)
    }
}

/// A longer run of digits never reads as less than its prefix.
proof fn lemma_digits_prefix(s: Seq<u8>, k: int)
    requires
        0 <= k <= s.len(),
    ensures
        digits_value(s.take(k)) <= digits_value(s),
    decreases s.len(),
{
    if k < s.len() {
        lemma_digits_prefix(s.drop_last(), k);
        assert(s.drop_last().take(k) =~= s.take(k));
    } else {
        assert(s.take(k) =~= s);
    }
}

/// Reads `s[start..end]` as a run of digits of value at most `limit`.
fn read_digits(s: &[u8], start: usize, end: usize, limit: usize) -> (r: Option<usize>)
    requires
        start <= end <= s@.len(),
        limit >= 9,
    ensures
        r == (match bounded_digits(s@.subrange(start as int, end as int), limit as nat) {
            Some(v) => Some(v as usize),
            None => None::<usize>,
        }),
{
    let ghost all = s@.subrange(start as int, end as int);
    if start == end {
        return None;
    }
    let mut acc: usize = 0;
    let mut i: usize = start;
    while i < end
        invariant
            start <= i <= end <= s@.len(),
            all == s@.subrange(start as int, end as int),
            all_digits(s@.subrange(start as int, i as int)),
            acc as nat == digits_value(s@.subrange(start as int, i as int)),
            acc <= limit,
            limit >= 9,
        decreases end - i,
    {
        let b = s[i];
        let ghost before = s@.subrange(start as int, i as int);
        let ghost after = s@.subrange(start as int, i + 1);
        assert(after.drop_last() =~= before);
        if !(ZERO <= b && b <= NINE) {
            assert(!is_digit(all[i - start]));
            return None;
        }
        let d: usize = (b - ZERO) as usize;
        if acc > (limit - d) / 10 {
            proof {
                assert(acc * 10 + d > limit) by (nonlinear_arith)
                    requires acc > (limit - d) / 10, d <= limit;
                if all_digits(all) {
                    assert(all.take(i + 1 - start) =~= after);
                    lemma_digits_prefix(all, i + 1 - start);
                }
            }
            return None;
        }
        proof {
            assert(acc * 10 + d <= limit) by (nonlinear_arith)
                requires acc <= (limit - d) / 10, d <= limit;
        }
        acc = acc * 10 + d;
        i = i + 1;
    }
    Some(acc)
}

/// Parses an unsigned decimal (`+` allowed, no `-`) that fits in a machine word.
pub fn parse_decimal(s: &[u8]) -> (r: Option<usize>)
    ensures
        r == decimal_value(s@),
{
    if s.len() > 0 && s[0] == PLUS {
        assert(s@.drop_first() =~= s@.subrange(1, s@.len() as int));
        read_digits(s, 1, s.len(), usize::MAX)
    } else {
        assert(s@ =~= s@.subrange(0, s@.len() as int));
        read_digits(s, 0, s.len(), usize::MAX)
    }
}

/// Parses a numeric argument into a machine word, as `word_value` says.
pub fn parse_word(s: &[u8]) -> (r: Option<usize>)
    ensures
        r == word_value(s@),
{
    if s.len() > 0 && s[0] == MINUS {
        assert(s@.drop_first() =~= s@.subrange(1, s@.len() as int));
        assert(isize::MAX as usize + 1 == isize::MAX as nat + 1);
        match read_digits(s, 1, s.len(), isize::MAX as usize + 1) {
            Some(m) => {
                if m == 0 {
                    assert((word_modulus() - 0) % (word_modulus() as int) == 0);
                    Some(0)
                } else {
                    assert((word_modulus() - m) % (word_modulus() as int) == word_modulus() - m);
                    Some(usize::MAX - m + 1)
                }
            },
            None => None,
        }
    } else {
        parse_decimal(s)
    }
}

} // verus!

//! Reading and writing the decimal numbers of the grammar.

use super::model::{
    decimal_value, digits, integer_text, is_decimal, is_digit, BYTE_MINUS, BYTE_NINE, BYTE_ZERO,
};
use super::numbers::lemma_decimal_value_monotone;
use vstd::prelude::*;

verus! {

/// Whether the bytes from `lo` to `hi` are a number of the grammar: `0`, or
/// digits of which the first is not `0`.
pub fn is_number(buf: &[u8], lo: usize, hi: usize) -> (r: bool)
    requires
        lo <= hi <= buf@.len(),
    ensures
        r == is_decimal(buf@.subrange(lo as int, hi as int)),
{
    let ghost text = buf@.subrange(lo as int, hi as int);
    if lo == hi {
        return false;
    }
    if hi - lo > 1 && buf[lo] == BYTE_ZERO {
        assert(text[0] == BYTE_ZERO);
        return false;
    }
    let mut i = lo;
    while i < hi
        invariant
            lo <= i <= hi <= buf@.len(),
            text == buf@.subrange(lo as int, hi as int),
            forall|k: int| 0 <= k < i - lo ==> is_digit(#[trigger] text[k]),
        decreases hi - i,
    {
        let c = buf[i];
        if c < BYTE_ZERO || c > BYTE_NINE {
            assert(text[i - lo] == c);
            return false;
        }
        assert(text[i - lo] == c);
        i += 1;
    }
    assert(text[0] == buf@[lo as int]);
    true
}

/// The number that the digits from `lo` to `hi` denote, where it is at most
/// `limit`; `None` where it is greater.
pub fn number_within(buf: &[u8], lo: usize, hi: usize, limit: u64) -> (r: Option<u64>)
    requires
        lo <= hi <= buf@.len(),
        forall|k: int| lo <= k < hi ==> is_digit(#[trigger] buf@[k]),
    ensures
        match r {
            Some(n) => n == decimal_value(buf@.subrange(lo as int, hi as int), hi - lo) && n
                <= limit,
            None => decimal_value(buf@.subrange(lo as int, hi as int), hi - lo) > limit,
        },
{
    let ghost text = buf@.subrange(lo as int, hi as int);
    assert forall|k: int| 0 <= k < hi - lo implies is_digit(#[trigger] text[k]) by {
        assert(text[k] == buf@[lo + k]);
    }
    let mut acc: u64 = 0;
    let mut i = lo;
    while i < hi
        invariant
            lo <= i <= hi <= buf@.len(),
            text == buf@.subrange(lo as int, hi as int),
            forall|k: int| 0 <= k < hi - lo ==> is_digit(#[trigger] text[k]),
            acc == decimal_value(text, i - lo),
            acc <= limit,
        decreases hi - i,
    {
        let c = buf[i];
        assert(text[i - lo] == c);
        let d: u64 = (c - BYTE_ZERO) as u64;
        assert(decimal_value(text, i - lo + 1) == 10 * acc + d);
        if acc > limit / 10 || (acc == limit / 10 && d > limit % 10) {
            proof {
                lemma_decimal_value_monotone(text, i - lo + 1, hi - lo);
            }
            return None;
        }
        acc = acc * 10 + d;
        i += 1;
    }
    Some(acc)
}

/// Appends the decimal text of `n`.
pub fn push_number(out: &mut Vec<u8>, n: u64)
    ensures
        final(out)@ == old(out)@ + digits(n as nat),
    decreases n,
{
    if n >= 10 {
        push_number(out, n / 10);
    }
    out.push(BYTE_ZERO + (n % 10) as u8);
    assert(out@ =~= old(out)@ + digits(n as nat));
}

/// Appends the text of the integer `i`: its decimal digits, behind a `-`
/// where it is negative.
pub fn push_integer(out: &mut Vec<u8>, i: i64)
    ensures
        final(out)@ == old(out)@ + integer_text(i as int),
{
    if i < 0 {
        out.push(BYTE_MINUS);
        let magnitude: u64 = if i == i64::MIN {
            0x8000_0000_0000_0000
        } else {
            (-i) as u64
        };
        push_number(out, magnitude);
        assert(out@ =~= old(out)@ + integer_text(i as int));
    } else {
        push_number(out, i as u64);
    }
}

} // verus!

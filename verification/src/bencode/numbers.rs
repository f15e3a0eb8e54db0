//! Facts about decimal texts and the numbers that they denote.

use super::model::{
    decimal_value, digits, integer_text, integer_value, is_decimal, is_digit, is_integer_text,
    BYTE_MINUS, BYTE_ZERO,
};
use vstd::prelude::*;

verus! {

/// The value of the first `n` bytes depends on those bytes alone.
pub proof fn lemma_decimal_value_prefix(s: Seq<u8>, t: Seq<u8>, n: int)
    requires
        0 <= n <= s.len(),
        n <= t.len(),
        forall|i: int| 0 <= i < n ==> s[i] == t[i],
    ensures
        decimal_value(s, n) == decimal_value(t, n),
    decreases n,
{
    if n > 0 {
        lemma_decimal_value_prefix(s, t, n - 1);
    }
}

/// More digits never denote less.
pub proof fn lemma_decimal_value_monotone(s: Seq<u8>, k: int, n: int)
    requires
        0 <= k <= n <= s.len(),
        forall|i: int| 0 <= i < n ==> is_digit(#[trigger] s[i]),
    ensures
        decimal_value(s, k) <= decimal_value(s, n),
    decreases n - k,
{
    if k < n {
        lemma_decimal_value_monotone(s, k, n - 1);
        assert(is_digit(s[n - 1]));
    }
}

/// Digits of which the first is not `0` denote a number that is not 0.
pub proof fn lemma_decimal_value_positive(s: Seq<u8>)
    requires
        s.len() >= 1,
        forall|i: int| 0 <= i < s.len() ==> is_digit(#[trigger] s[i]),
        s[0] != BYTE_ZERO,
    ensures
        decimal_value(s, s.len() as int) >= 1,
{
    assert(is_digit(s[0]));
    assert(decimal_value(s, 0) == 0);
    assert(decimal_value(s, 1) == (10 * decimal_value(s, 0) + (s[0] - BYTE_ZERO)) as nat);
    lemma_decimal_value_monotone(s, 1, s.len() as int);
}

/// A number of the grammar is the decimal text of what it denotes.
pub proof fn lemma_digits_of_value(s: Seq<u8>)
    requires
        is_decimal(s),
    ensures
        digits(decimal_value(s, s.len() as int)) == s,
    decreases s.len(),
{
    let n = s.len() as int;
    let c = s[n - 1];
    assert(is_digit(c));
    if n == 1 {
        assert(decimal_value(s, 0) == 0);
        assert(decimal_value(s, 1) == (c - BYTE_ZERO) as nat);
        assert(digits(decimal_value(s, 1)) =~= s);
    } else {
        let head = s.drop_last();
        assert(is_decimal(head)) by {
            assert forall|i: int| 0 <= i < head.len() implies is_digit(#[trigger] head[i]) by {
                assert(head[i] == s[i]);
            }
            assert(head[0] == s[0]);
        }
        lemma_digits_of_value(head);
        lemma_decimal_value_prefix(s, head, n - 1);
        lemma_decimal_value_positive(head);
        let q = decimal_value(head, n - 1);
        let total = decimal_value(s, n);
        assert(total == 10 * q + (c - BYTE_ZERO));
        assert(total / 10 == q && total % 10 == (c - BYTE_ZERO));
        assert(digits(total) == digits(q).push((BYTE_ZERO + total % 10) as u8));
        assert(digits(total) =~= s);
    }
}

/// The decimal text of a number is a number of the grammar, and denotes it.
pub proof fn lemma_value_of_digits(n: nat)
    ensures
        is_decimal(digits(n)),
        decimal_value(digits(n), digits(n).len() as int) == n,
        forall|i: int| 0 <= i < digits(n).len() ==> is_digit(#[trigger] digits(n)[i]),
        n == 0 <==> digits(n) == seq![48u8],
        n > 0 ==> digits(n)[0] != BYTE_ZERO,
    decreases n,
{
    let s = digits(n);
    if n < 10 {
        assert(s =~= seq![(BYTE_ZERO + n) as u8]);
        assert(decimal_value(s, 0) == 0);
        assert(decimal_value(s, 1) == n);
        if n != 0 {
            assert(s[0] != BYTE_ZERO);
        }
    } else {
        let q = n / 10;
        lemma_value_of_digits(q);
        let head = digits(q);
        assert(s == head.push((BYTE_ZERO + n % 10) as u8));
        assert(s.len() == head.len() + 1);
        assert(s[0] == head[0]);
        assert forall|i: int| 0 <= i < s.len() implies is_digit(#[trigger] s[i]) by {
            if i < head.len() {
                assert(s[i] == head[i]);
            }
        }
        lemma_decimal_value_prefix(s, head, head.len() as int);
        assert(decimal_value(s, s.len() as int) == 10 * decimal_value(s, s.len() - 1) + (s[s.len()
            - 1] - BYTE_ZERO));
        assert(s.len() >= 2);
        assert(s != seq![48u8]);
    }
}

/// An integer text of the grammar is the text of the integer that it denotes.
pub proof fn lemma_text_of_integer_value(s: Seq<u8>)
    requires
        is_integer_text(s),
    ensures
        integer_text(integer_value(s)) == s,
{
    if s.len() > 0 && s[0] == BYTE_MINUS {
        let tail = s.skip(1);
        assert(tail[0] == s[1]);
        lemma_digits_of_value(tail);
        lemma_decimal_value_positive(tail);
        assert(integer_text(integer_value(s)) =~= s);
    } else {
        lemma_digits_of_value(s);
    }
}

/// The text of an integer is an integer text of the grammar, denotes the
/// integer, and holds digits and `-` only.
pub proof fn lemma_integer_value_of_text(i: int)
    ensures
        is_integer_text(integer_text(i)),
        integer_value(integer_text(i)) == i,
        forall|k: int|
            0 <= k < integer_text(i).len() ==> (is_digit(#[trigger] integer_text(i)[k])
                || integer_text(i)[k] == BYTE_MINUS),
{
    let s = integer_text(i);
    if i < 0 {
        let m = (-i) as nat;
        lemma_value_of_digits(m);
        assert(s.skip(1) =~= digits(m));
        assert(s[1] == digits(m)[0]);
        assert forall|k: int| 0 <= k < s.len() implies (is_digit(#[trigger] s[k]) || s[k]
            == BYTE_MINUS) by {
            if k > 0 {
                assert(s[k] == digits(m)[k - 1]);
            }
        }
    } else {
        lemma_value_of_digits(i as nat);
        assert(is_digit(s[0]));
    }
}

} // verus!

//! What a successful decoding says of the bytes that it consumed: they are
//! the text of the decoded value, entry for entry in the order of the text.

use super::grammar::{find_byte, parse_bytes, parse_entries, parse_integer, parse_items, parse_value};
use super::model::{
    decimal_value, is_decimal, serialize, serialize_bytes, serialize_entries, serialize_items,
    Value, BYTE_COLON, BYTE_E, BYTE_I,
};
use super::numbers::{lemma_digits_of_value, lemma_text_of_integer_value};
use vstd::prelude::*;

verus! {

/// `find_byte` gives the first position of the delimiter from `from` on, and
/// `None` only where there is none.
pub proof fn lemma_find_byte(b: Seq<u8>, from: int, delimiter: u8)
    requires
        0 <= from,
    ensures
        match find_byte(b, from, delimiter) {
            Some(at) => {
                &&& from <= at < b.len()
                &&& b[at] == delimiter
                &&& forall|i: int| from <= i < at ==> b[i] != delimiter
            },
            None => forall|i: int| from <= i < b.len() ==> b[i] != delimiter,
        },
    decreases b.len() - from,
{
    if from < b.len() && b[from] != delimiter {
        lemma_find_byte(b, from + 1, delimiter);
    }
}

/// The text of a list is the text of its first item followed by that of the
/// others.
pub proof fn lemma_serialize_items_cons(first: Value, rest: Seq<Value>, n: int)
    requires
        0 <= n <= rest.len(),
    ensures
        serialize_items(seq![first] + rest, n + 1) == serialize(first) + serialize_items(rest, n),
    decreases n,
{
    let all = seq![first] + rest;
    if n == 0 {
        assert(all[0] == first);
        assert(serialize_items(all, 0) =~= Seq::<u8>::empty());
        assert(serialize_items(rest, 0) =~= Seq::<u8>::empty());
        assert(serialize_items(all, 1) =~= serialize(first) + serialize_items(rest, 0));
    } else {
        lemma_serialize_items_cons(first, rest, n - 1);
        assert(all[n] == rest[n - 1]);
        assert(serialize_items(all, n + 1) =~= serialize(first) + serialize_items(rest, n));
    }
}

/// The text of a dictionary's entries is the text of the first entry
/// followed by that of the others.
pub proof fn lemma_serialize_entries_cons(
    first: (Seq<u8>, Value),
    rest: Seq<(Seq<u8>, Value)>,
    n: int,
)
    requires
        0 <= n <= rest.len(),
    ensures
        serialize_entries(seq![first] + rest, n + 1) == serialize_bytes(first.0) + serialize(
            first.1,
        ) + serialize_entries(rest, n),
    decreases n,
{
    let all = seq![first] + rest;
    if n == 0 {
        assert(all[0] == first);
        assert(serialize_entries(all, 0) =~= Seq::<u8>::empty());
        assert(serialize_entries(rest, 0) =~= Seq::<u8>::empty());
        assert(serialize_entries(all, 1) =~= serialize_bytes(first.0) + serialize(first.1)
            + serialize_entries(rest, 0));
    } else {
        lemma_serialize_entries_cons(first, rest, n - 1);
        assert(all[n] == rest[n - 1]);
        assert(serialize_entries(all, n + 1) =~= serialize_bytes(first.0) + serialize(first.1)
            + serialize_entries(rest, n));
    }
}

/// A decoded integer lies in 64 bits, and its text is the bytes from its
/// `i` to its `e`.
pub proof fn lemma_parse_integer_sound(b: Seq<u8>, pos: int)
    requires
        0 <= pos < b.len(),
        b[pos] == BYTE_I,
    ensures
        parse_integer(b, pos) matches Ok((v, end)) ==> {
            &&& pos < end <= b.len()
            &&& serialize(v) == b.subrange(pos, end)
            &&& v.well_formed()
            &&& v is Integer
        },
{
    lemma_find_byte(b, pos + 1, BYTE_E);
    if let Ok((v, end)) = parse_integer(b, pos) {
        let text = b.subrange(pos + 1, end - 1);
        lemma_text_of_integer_value(text);
        assert(serialize(v) =~= b.subrange(pos, end));
    }
}

/// The text of a decoded byte string is the bytes from its length prefix to
/// its last byte.
pub proof fn lemma_parse_bytes_sound(b: Seq<u8>, pos: int)
    requires
        0 <= pos < b.len(),
    ensures
        parse_bytes(b, pos) matches Ok((s, end)) ==> {
            &&& pos < end <= b.len()
            &&& serialize_bytes(s) == b.subrange(pos, end)
        },
{
    lemma_find_byte(b, pos, BYTE_COLON);
    if let Ok((s, end)) = parse_bytes(b, pos) {
        let colon = find_byte(b, pos, BYTE_COLON).unwrap();
        let text = b.subrange(pos, colon);
        lemma_digits_of_value(text);
        assert(is_decimal(text));
        assert(s.len() == decimal_value(text, text.len() as int));
        assert(serialize_bytes(s) =~= b.subrange(pos, end));
    }
}

/// Span fidelity: where decoding from `pos` gives a value and the position
/// `end`, the bytes from `pos` to `end` are the text of that value, with
/// each dictionary's entries in the order of the text. The value's
/// integers fit in 64 bits, and no more than `depth` containers are nested
/// in it.
pub proof fn lemma_parse_value_sound(b: Seq<u8>, pos: int, depth: nat)
    ensures
        parse_value(b, pos, depth) matches Ok((v, end)) ==> {
            &&& 0 <= pos < end <= b.len()
            &&& serialize(v) == b.subrange(pos, end)
            &&& v.well_formed()
            &&& v.depth_at_most(depth)
        },
    decreases b.len() - pos, 0nat,
{
    if let Ok((v, end)) = parse_value(b, pos, depth) {
        if b[pos] == BYTE_I {
            lemma_parse_integer_sound(b, pos);
        } else if super::model::is_digit(b[pos]) {
            lemma_parse_bytes_sound(b, pos);
        } else if b[pos] == super::model::BYTE_L {
            lemma_parse_items_sound(b, pos + 1, (depth - 1) as nat);
            let items = v->List_0;
            assert(serialize(v) =~= b.subrange(pos, end));
        } else {
            lemma_parse_entries_sound(b, pos + 1, (depth - 1) as nat);
            let entries = v->Dictionary_0;
            assert(serialize(v) =~= b.subrange(pos, end));
        }
    }
}

/// Span fidelity for the items of a list: the bytes from `pos` up to the
/// closing `e` are the texts of the items, one after the other.
pub proof fn lemma_parse_items_sound(b: Seq<u8>, pos: int, depth: nat)
    ensures
        parse_items(b, pos, depth) matches Ok((items, end)) ==> {
            &&& 0 <= pos < end <= b.len()
            &&& b[end - 1] == BYTE_E
            &&& serialize_items(items, items.len() as int) == b.subrange(pos, end - 1)
            &&& forall|i: int| 0 <= i < items.len() ==> (#[trigger] items[i]).well_formed()
            &&& forall|i: int| 0 <= i < items.len() ==> (#[trigger] items[i]).depth_at_most(depth)
        },
    decreases b.len() - pos, 1nat,
{
    if let Ok((items, end)) = parse_items(b, pos, depth) {
        if b[pos] == BYTE_E {
            assert(serialize_items(items, 0) =~= b.subrange(pos, end - 1));
        } else {
            lemma_parse_value_sound(b, pos, depth);
            let (item, next) = parse_value(b, pos, depth).unwrap();
            lemma_parse_items_sound(b, next, depth);
            let (rest, end2) = parse_items(b, next, depth).unwrap();
            assert(items == seq![item] + rest);
            lemma_serialize_items_cons(item, rest, rest.len() as int);
            assert(serialize_items(items, items.len() as int) =~= b.subrange(pos, end - 1));
            assert forall|i: int| 0 <= i < items.len() implies (#[trigger] items[i]).well_formed()
                && items[i].depth_at_most(depth) by {
                if i > 0 {
                    assert(items[i] == rest[i - 1]);
                }
            }
        }
    }
}

/// Span fidelity for the entries of a dictionary: the bytes from `pos` up to
/// the closing `e` are the texts of the entries, in the order of the text.
pub proof fn lemma_parse_entries_sound(b: Seq<u8>, pos: int, depth: nat)
    ensures
        parse_entries(b, pos, depth) matches Ok((entries, end)) ==> {
            &&& 0 <= pos < end <= b.len()
            &&& b[end - 1] == BYTE_E
            &&& serialize_entries(entries, entries.len() as int) == b.subrange(pos, end - 1)
            &&& forall|i: int| 0 <= i < entries.len() ==> (#[trigger] entries[i]).1.well_formed()
            &&& forall|i: int|
                0 <= i < entries.len() ==> (#[trigger] entries[i]).1.depth_at_most(depth)
        },
    decreases b.len() - pos, 1nat,
{
    if let Ok((entries, end)) = parse_entries(b, pos, depth) {
        if b[pos] == BYTE_E {
            assert(serialize_entries(entries, 0) =~= b.subrange(pos, end - 1));
        } else {
            lemma_parse_value_sound(b, pos, depth);
            let (key_value, key_end) = parse_value(b, pos, depth).unwrap();
            let key = key_value->ByteString_0;
            lemma_parse_value_sound(b, key_end, depth);
            let (value, next) = parse_value(b, key_end, depth).unwrap();
            lemma_parse_entries_sound(b, next, depth);
            let (rest, end2) = parse_entries(b, next, depth).unwrap();
            assert(entries == seq![(key, value)] + rest);
            lemma_serialize_entries_cons((key, value), rest, rest.len() as int);
            assert(serialize(key_value) == serialize_bytes(key));
            assert(serialize_entries(entries, entries.len() as int) =~= b.subrange(pos, end - 1));
            assert forall|i: int| 0 <= i < entries.len() implies (#[trigger] entries[i]).1.well_formed()
                && entries[i].1.depth_at_most(depth) by {
                if i > 0 {
                    assert(entries[i] == rest[i - 1]);
                }
            }
        }
    }
}

/// The text of the first `n` items depends on those items alone.
pub proof fn lemma_serialize_items_prefix(a: Seq<Value>, b: Seq<Value>, n: int)
    requires
        0 <= n <= a.len(),
        n <= b.len(),
        forall|i: int| 0 <= i < n ==> a[i] == b[i],
    ensures
        serialize_items(a, n) == serialize_items(b, n),
    decreases n,
{
    if n > 0 {
        lemma_serialize_items_prefix(a, b, n - 1);
    }
}

/// The text of the first `n` entries depends on those entries alone.
pub proof fn lemma_serialize_entries_prefix(
    a: Seq<(Seq<u8>, Value)>,
    b: Seq<(Seq<u8>, Value)>,
    n: int,
)
    requires
        0 <= n <= a.len(),
        n <= b.len(),
        forall|i: int| 0 <= i < n ==> a[i] == b[i],
    ensures
        serialize_entries(a, n) == serialize_entries(b, n),
    decreases n,
{
    if n > 0 {
        lemma_serialize_entries_prefix(a, b, n - 1);
    }
}

} // verus!

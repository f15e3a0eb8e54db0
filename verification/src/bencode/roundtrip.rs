//! Decoding the text of a value gives the value back.

use super::grammar::{find_byte, parse_bytes, parse_entries, parse_integer, parse_items, parse_value};
use super::model::{
    digits, integer_text, is_digit, serialize, serialize_bytes, serialize_entries,
    serialize_items, Value, BYTE_COLON, BYTE_D, BYTE_E, BYTE_I, BYTE_L,
};
use super::numbers::{lemma_integer_value_of_text, lemma_value_of_digits};
use super::ErrorKind;
use vstd::prelude::*;

verus! {

/// Where `at` is the first position of the delimiter from `from` on,
/// `find_byte` finds it.
pub proof fn lemma_find_byte_is(b: Seq<u8>, from: int, delimiter: u8, at: int)
    requires
        0 <= from <= at < b.len(),
        b[at] == delimiter,
        forall|i: int| from <= i < at ==> b[i] != delimiter,
    ensures
        find_byte(b, from, delimiter) == Some(at),
    decreases at - from,
{
    if from < at {
        lemma_find_byte_is(b, from + 1, delimiter, at);
    }
}

/// The text of a value starts with `i`, `l`, `d` or a digit, and so with no
/// `e`.
pub proof fn lemma_serialize_lead(v: Value)
    ensures
        serialize(v).len() >= 2,
        match v {
            Value::Integer(_) => serialize(v)[0] == BYTE_I,
            Value::ByteString(_) => is_digit(serialize(v)[0]),
            Value::List(_) => serialize(v)[0] == BYTE_L,
            Value::Dictionary(_) => serialize(v)[0] == BYTE_D,
        },
        serialize(v)[0] != BYTE_E,
{
    match v {
        Value::ByteString(s) => {
            lemma_value_of_digits(s.len());
            assert(is_digit(digits(s.len())[0]));
            assert(serialize(v)[0] == digits(s.len())[0]);
        },
        _ => {},
    }
}

/// The text of the first `k` items is a prefix of the text of the first `n`.
pub proof fn lemma_serialize_items_grows(items: Seq<Value>, k: int, n: int)
    requires
        0 <= k <= n <= items.len(),
    ensures
        serialize_items(items, k).len() <= serialize_items(items, n).len(),
        serialize_items(items, n).subrange(0, serialize_items(items, k).len() as int)
            == serialize_items(items, k),
    decreases n - k,
{
    if k < n {
        lemma_serialize_items_grows(items, k, n - 1);
        let short = serialize_items(items, k);
        let most = serialize_items(items, n - 1);
        let all = serialize_items(items, n);
        assert(all == most + serialize(items[n - 1]));
        assert(all.subrange(0, short.len() as int) =~= most.subrange(0, short.len() as int));
    } else {
        assert(serialize_items(items, n).subrange(0, serialize_items(items, k).len() as int)
            =~= serialize_items(items, k));
    }
}

/// The text of the first `k` entries is a prefix of the text of the first
/// `n`.
pub proof fn lemma_serialize_entries_grows(entries: Seq<(Seq<u8>, Value)>, k: int, n: int)
    requires
        0 <= k <= n <= entries.len(),
    ensures
        serialize_entries(entries, k).len() <= serialize_entries(entries, n).len(),
        serialize_entries(entries, n).subrange(0, serialize_entries(entries, k).len() as int)
            == serialize_entries(entries, k),
    decreases n - k,
{
    if k < n {
        lemma_serialize_entries_grows(entries, k, n - 1);
        let short = serialize_entries(entries, k);
        let most = serialize_entries(entries, n - 1);
        let all = serialize_entries(entries, n);
        assert(all == most + serialize_bytes(entries[n - 1].0) + serialize(entries[n - 1].1));
        assert(all.subrange(0, short.len() as int) =~= most.subrange(0, short.len() as int));
    } else {
        assert(serialize_entries(entries, n).subrange(
            0,
            serialize_entries(entries, k).len() as int,
        ) =~= serialize_entries(entries, k));
    }
}

/// Decoding the text of an integer that fits in 64 bits gives the integer.
pub proof fn lemma_integer_round_trip(i: int, b: Seq<u8>, pos: int)
    requires
        i64::MIN <= i <= i64::MAX,
        0 <= pos,
        pos + serialize(Value::Integer(i)).len() <= b.len(),
        b.subrange(pos, pos + serialize(Value::Integer(i)).len()) == serialize(Value::Integer(i)),
    ensures
        b[pos] == BYTE_I,
        parse_integer(b, pos) == Ok::<(Value, int), ErrorKind>(
            (Value::Integer(i), pos + serialize(Value::Integer(i)).len()),
        ),
{
    let text = integer_text(i);
    let s = serialize(Value::Integer(i));
    let window = b.subrange(pos, pos + s.len());
    lemma_integer_value_of_text(i);
    assert(s.len() == text.len() + 2);
    assert(b[pos] == window[0]);
    let close = pos + 1 + text.len();
    assert(b[close] == window[1 + text.len() as int]);
    assert forall|k: int| pos + 1 <= k < close implies b[k] != BYTE_E by {
        assert(b[k] == window[k - pos]);
        assert(window[k - pos] == text[k - pos - 1]);
    }
    lemma_find_byte_is(b, pos + 1, BYTE_E, close);
    assert(b.subrange(pos + 1, close) =~= text) by {
        assert forall|k: int| 0 <= k < text.len() implies b.subrange(pos + 1, close)[k]
            == text[k] by {
            assert(b[pos + 1 + k] == window[1 + k]);
        }
    }
}

/// Decoding the text of a byte string gives the byte string.
pub proof fn lemma_bytes_round_trip(s: Seq<u8>, b: Seq<u8>, pos: int)
    requires
        0 <= pos,
        pos + serialize_bytes(s).len() <= b.len(),
        b.subrange(pos, pos + serialize_bytes(s).len()) == serialize_bytes(s),
    ensures
        is_digit(b[pos]),
        parse_bytes(b, pos) == Ok::<(Seq<u8>, int), ErrorKind>(
            (s, pos + serialize_bytes(s).len()),
        ),
{
    let prefix = digits(s.len());
    let text = serialize_bytes(s);
    let window = b.subrange(pos, pos + text.len());
    lemma_value_of_digits(s.len());
    assert(text.len() == prefix.len() + 1 + s.len());
    assert(b[pos] == window[0]);
    assert(window[0] == prefix[0]);
    let colon = pos + prefix.len();
    assert(b[colon] == window[prefix.len() as int]);
    assert forall|k: int| pos <= k < colon implies b[k] != BYTE_COLON by {
        assert(b[k] == window[k - pos]);
        assert(window[k - pos] == prefix[k - pos]);
        assert(is_digit(prefix[k - pos]));
    }
    lemma_find_byte_is(b, pos, BYTE_COLON, colon);
    assert(b.subrange(pos, colon) =~= prefix) by {
        assert forall|k: int| 0 <= k < prefix.len() implies b.subrange(pos, colon)[k]
            == prefix[k] by {
            assert(b[pos + k] == window[k]);
        }
    }
    assert(b.subrange(colon + 1, colon + 1 + s.len()) =~= s) by {
        assert forall|k: int| 0 <= k < s.len() implies b.subrange(colon + 1, colon + 1 + s.len())[k]
            == s[k] by {
            assert(b[colon + 1 + k] == window[prefix.len() + 1 + k]);
        }
    }
}

/// Decoding the text of a value gives the value back, wherever in a buffer
/// the text stands: for every value whose integers fit in 64 bits and in
/// which no more than `depth` containers are nested, with the entries of
/// each dictionary in the order in which the value holds them.
pub proof fn lemma_serialize_parse(v: Value, b: Seq<u8>, pos: int, depth: nat)
    requires
        v.well_formed(),
        v.depth_at_most(depth),
        0 <= pos,
        pos + serialize(v).len() <= b.len(),
        b.subrange(pos, pos + serialize(v).len()) == serialize(v),
    ensures
        parse_value(b, pos, depth) == Ok::<(Value, int), ErrorKind>((v, pos + serialize(v).len())),
    decreases v, 0nat,
{
    let text = serialize(v);
    let window = b.subrange(pos, pos + text.len());
    lemma_serialize_lead(v);
    assert(b[pos] == window[0]);
    match v {
        Value::Integer(i) => {
            lemma_integer_round_trip(i, b, pos);
        },
        Value::ByteString(s) => {
            lemma_bytes_round_trip(s, b, pos);
        },
        Value::List(items) => {
            let inner = serialize_items(items, items.len() as int);
            assert(text.len() == inner.len() + 2);
            assert(b.subrange(pos + 1, pos + 1 + inner.len()) =~= inner) by {
                assert forall|k: int| 0 <= k < inner.len() implies b.subrange(
                    pos + 1,
                    pos + 1 + inner.len(),
                )[k] == inner[k] by {
                    assert(b[pos + 1 + k] == window[1 + k]);
                }
            }
            assert(b[pos + 1 + inner.len()] == window[1 + inner.len() as int]);
            lemma_serialize_parse_items(items, 0, b, pos + 1, (depth - 1) as nat);
            assert(serialize_items(items, 0).len() == 0);
            assert(items.skip(0) =~= items);
        },
        Value::Dictionary(entries) => {
            let inner = serialize_entries(entries, entries.len() as int);
            assert(text.len() == inner.len() + 2);
            assert(b.subrange(pos + 1, pos + 1 + inner.len()) =~= inner) by {
                assert forall|k: int| 0 <= k < inner.len() implies b.subrange(
                    pos + 1,
                    pos + 1 + inner.len(),
                )[k] == inner[k] by {
                    assert(b[pos + 1 + k] == window[1 + k]);
                }
            }
            assert(b[pos + 1 + inner.len()] == window[1 + inner.len() as int]);
            lemma_serialize_parse_entries(entries, 0, b, pos + 1, (depth - 1) as nat);
            assert(serialize_entries(entries, 0).len() == 0);
            assert(entries.skip(0) =~= entries);
        },
    }
}

/// Decoding the texts of a list's items from the `k`-th on, up to the
/// closing `e`, gives those items.
pub proof fn lemma_serialize_parse_items(
    items: Seq<Value>,
    k: int,
    b: Seq<u8>,
    start: int,
    depth: nat,
)
    requires
        forall|i: int| 0 <= i < items.len() ==> (#[trigger] items[i]).well_formed(),
        forall|i: int| 0 <= i < items.len() ==> (#[trigger] items[i]).depth_at_most(depth),
        0 <= k <= items.len(),
        0 <= start,
        start + serialize_items(items, items.len() as int).len() < b.len(),
        b.subrange(start, start + serialize_items(items, items.len() as int).len())
            == serialize_items(items, items.len() as int),
        b[start + serialize_items(items, items.len() as int).len()] == BYTE_E,
    ensures
        parse_items(b, start + serialize_items(items, k).len(), depth) == Ok::<
            (Seq<Value>, int),
            ErrorKind,
        >((items.skip(k), start + serialize_items(items, items.len() as int).len() + 1)),
    decreases items, items.len() - k,
{
    let n = items.len() as int;
    let whole = serialize_items(items, n);
    let at = start + serialize_items(items, k).len();
    lemma_serialize_items_grows(items, k, n);
    if k == n {
        assert(items.skip(k) =~= Seq::<Value>::empty());
    } else {
        let item = items[k];
        let text = serialize(item);
        lemma_serialize_items_grows(items, k + 1, n);
        let upto = serialize_items(items, k + 1);
        assert(upto == serialize_items(items, k) + text);
        lemma_serialize_lead(item);
        assert(b.subrange(at, at + text.len()) =~= text) by {
            assert forall|j: int| 0 <= j < text.len() implies b.subrange(at, at + text.len())[j]
                == text[j] by {
                let off = serialize_items(items, k).len() + j;
                assert(b[at + j] == b.subrange(start, start + whole.len())[off]);
                assert(whole[off] == whole.subrange(0, upto.len() as int)[off]);
                assert(upto[off] == text[j]);
            }
        }
        assert(b[at] == b.subrange(at, at + text.len())[0]);
        lemma_serialize_parse(item, b, at, depth);
        lemma_serialize_parse_items(items, k + 1, b, start, depth);
        assert(seq![item] + items.skip(k + 1) =~= items.skip(k));
    }
}

/// Decoding the texts of a dictionary's entries from the `k`-th on, up to
/// the closing `e`, gives those entries in their order.
pub proof fn lemma_serialize_parse_entries(
    entries: Seq<(Seq<u8>, Value)>,
    k: int,
    b: Seq<u8>,
    start: int,
    depth: nat,
)
    requires
        forall|i: int| 0 <= i < entries.len() ==> (#[trigger] entries[i]).1.well_formed(),
        forall|i: int| 0 <= i < entries.len() ==> (#[trigger] entries[i]).1.depth_at_most(depth),
        0 <= k <= entries.len(),
        0 <= start,
        start + serialize_entries(entries, entries.len() as int).len() < b.len(),
        b.subrange(start, start + serialize_entries(entries, entries.len() as int).len())
            == serialize_entries(entries, entries.len() as int),
        b[start + serialize_entries(entries, entries.len() as int).len()] == BYTE_E,
    ensures
        parse_entries(b, start + serialize_entries(entries, k).len(), depth) == Ok::<
            (Seq<(Seq<u8>, Value)>, int),
            ErrorKind,
        >(
            (
                entries.skip(k),
                start + serialize_entries(entries, entries.len() as int).len() + 1,
            ),
        ),
    decreases entries, entries.len() - k,
{
    let n = entries.len() as int;
    let whole = serialize_entries(entries, n);
    let at = start + serialize_entries(entries, k).len();
    lemma_serialize_entries_grows(entries, k, n);
    if k == n {
        assert(entries.skip(k) =~= Seq::<(Seq<u8>, Value)>::empty());
    } else {
        let entry = entries[k];
        let key_text = serialize_bytes(entry.0);
        let text = serialize(entry.1);
        lemma_serialize_entries_grows(entries, k + 1, n);
        let upto = serialize_entries(entries, k + 1);
        assert(upto == serialize_entries(entries, k) + key_text + text);
        lemma_serialize_lead(Value::ByteString(entry.0));
        lemma_serialize_lead(entry.1);
        let value_at = at + key_text.len();
        assert(b.subrange(at, at + key_text.len()) =~= key_text) by {
            assert forall|j: int| 0 <= j < key_text.len() implies b.subrange(
                at,
                at + key_text.len(),
            )[j] == key_text[j] by {
                let off = serialize_entries(entries, k).len() + j;
                assert(b[at + j] == b.subrange(start, start + whole.len())[off]);
                assert(whole[off] == whole.subrange(0, upto.len() as int)[off]);
                assert(upto[off] == key_text[j]);
            }
        }
        assert(b.subrange(value_at, value_at + text.len()) =~= text) by {
            assert forall|j: int| 0 <= j < text.len() implies b.subrange(
                value_at,
                value_at + text.len(),
            )[j] == text[j] by {
                let off = serialize_entries(entries, k).len() + key_text.len() + j;
                assert(b[value_at + j] == b.subrange(start, start + whole.len())[off]);
                assert(whole[off] == whole.subrange(0, upto.len() as int)[off]);
                assert(upto[off] == text[j]);
            }
        }
        assert(b[at] == b.subrange(at, at + key_text.len())[0]);
        lemma_bytes_round_trip(entry.0, b, at);
        assert(parse_value(b, at, depth) == Ok::<(Value, int), ErrorKind>(
            (Value::ByteString(entry.0), value_at),
        ));
        lemma_serialize_parse(entry.1, b, value_at, depth);
        lemma_serialize_parse_entries(entries, k + 1, b, start, depth);
        assert(seq![entry] + entries.skip(k + 1) =~= entries.skip(k));
    }
}

} // verus!

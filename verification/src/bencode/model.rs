//! The mathematical model of a Bencode value and of its text.

use vstd::prelude::*;

verus! {

/// A Bencode value as a mathematical object: what an executable
/// [`BencodeType`](crate::bencode::BencodeType) stands for.
///
/// A dictionary is the sequence of its entries in the order in which they
/// are held. The mapping that it denotes gives each key the value of the
/// last entry with that key (see [`lookup`]); [`canonical`] lists that
/// mapping in ascending key order.
pub enum Value {
    Integer(int),
    ByteString(Seq<u8>),
    List(Seq<Value>),
    Dictionary(Seq<(Seq<u8>, Value)>),
}

/// The byte `i`, which opens an integer.
pub const BYTE_I: u8 = 105;

/// The byte `l`, which opens a list.
pub const BYTE_L: u8 = 108;

/// The byte `d`, which opens a dictionary.
pub const BYTE_D: u8 = 100;

/// The byte `e`, which closes an integer, a list or a dictionary.
pub const BYTE_E: u8 = 101;

/// The byte `:`, which stands between a length and its bytes.
pub const BYTE_COLON: u8 = 58;

/// The byte `-`, the sign of a negative integer.
pub const BYTE_MINUS: u8 = 45;

/// The byte `0`, the first of the ten digits.
pub const BYTE_ZERO: u8 = 48;

/// The byte `9`, the last of the ten digits.
pub const BYTE_NINE: u8 = 57;

/// Whether `c` is an ASCII decimal digit.
pub open spec fn is_digit(c: u8) -> bool {
    BYTE_ZERO <= c <= BYTE_NINE
}

/// Lexicographic order on byte strings from position `i` on, given that the
/// two agree before `i`: the first position at which they differ decides,
/// and a proper prefix comes first.
pub open spec fn bytes_less_from(a: Seq<u8>, b: Seq<u8>, i: int) -> bool
    decreases a.len() - i,
{
    if i < 0 || i >= b.len() {
        false
    } else if i >= a.len() {
        true
    } else if a[i] != b[i] {
        a[i] < b[i]
    } else {
        bytes_less_from(a, b, i + 1)
    }
}

/// Strict lexicographic order on raw key bytes.
pub open spec fn bytes_less(a: Seq<u8>, b: Seq<u8>) -> bool {
    bytes_less_from(a, b, 0)
}

/// The keys of `entries` are strictly ascending.
pub open spec fn keys_ascending(entries: Seq<(Seq<u8>, Value)>) -> bool {
    forall|i: int, j: int|
        0 <= i < j < entries.len() ==> bytes_less(#[trigger] entries[i].0, #[trigger] entries[j].0)
}

/// The decimal text of `n`, without leading zeros.
pub open spec fn digits(n: nat) -> Seq<u8>
    decreases n,
{
    if n < 10 {
        seq![(BYTE_ZERO + n) as u8]
    } else {
        digits(n / 10).push((BYTE_ZERO + n % 10) as u8)
    }
}

/// The number that the first `n` bytes of the decimal text `s` denote.
pub open spec fn decimal_value(s: Seq<u8>, n: int) -> nat
    decreases n,
{
    if n <= 0 {
        0
    } else {
        (10 * decimal_value(s, n - 1) + (s[n - 1] - BYTE_ZERO)) as nat
    }
}

/// `s` is a decimal number of the grammar: `0`, or digits of which the
/// first is not `0`.
pub open spec fn is_decimal(s: Seq<u8>) -> bool {
    &&& s.len() >= 1
    &&& forall|i: int| 0 <= i < s.len() ==> is_digit(#[trigger] s[i])
    &&& (s.len() == 1 || s[0] != BYTE_ZERO)
}

/// `s` is what may stand between `i` and `e`: a decimal number, or `-` and
/// a decimal number other than `0`.
pub open spec fn is_integer_text(s: Seq<u8>) -> bool {
    if s.len() > 0 && s[0] == BYTE_MINUS {
        is_decimal(s.skip(1)) && s[1] != BYTE_ZERO
    } else {
        is_decimal(s)
    }
}

/// The integer that an integer text denotes.
pub open spec fn integer_value(s: Seq<u8>) -> int {
    if s.len() > 0 && s[0] == BYTE_MINUS {
        -(decimal_value(s.skip(1), s.len() - 1) as int)
    } else {
        decimal_value(s, s.len() as int) as int
    }
}

/// The text of an integer between `i` and `e`.
pub open spec fn integer_text(i: int) -> Seq<u8> {
    if i < 0 {
        seq![BYTE_MINUS] + digits((-i) as nat)
    } else {
        digits(i as nat)
    }
}

/// The text of a byte string: its length, a colon, its bytes.
pub open spec fn serialize_bytes(s: Seq<u8>) -> Seq<u8> {
    digits(s.len()) + seq![BYTE_COLON] + s
}

/// The text of a value, with the entries of each dictionary in the order in
/// which the value holds them.
pub open spec fn serialize(v: Value) -> Seq<u8>
    decreases v, 0nat,
{
    match v {
        Value::Integer(i) => seq![BYTE_I] + integer_text(i) + seq![BYTE_E],
        Value::ByteString(s) => serialize_bytes(s),
        Value::List(items) => seq![BYTE_L] + serialize_items(items, items.len() as int) + seq![
            BYTE_E,
        ],
        Value::Dictionary(entries) => seq![BYTE_D] + serialize_entries(
            entries,
            entries.len() as int,
        ) + seq![BYTE_E],
    }
}

/// The texts of the first `n` items, one after the other.
pub open spec fn serialize_items(items: Seq<Value>, n: int) -> Seq<u8>
    decreases items, n,
{
    if n <= 0 || n > items.len() {
        Seq::empty()
    } else {
        serialize_items(items, n - 1) + serialize(items[n - 1])
    }
}

/// The texts of the first `n` entries, one after the other: each key as a
/// byte string, then its value.
pub open spec fn serialize_entries(entries: Seq<(Seq<u8>, Value)>, n: int) -> Seq<u8>
    decreases entries, n,
{
    if n <= 0 || n > entries.len() {
        Seq::empty()
    } else {
        serialize_entries(entries, n - 1) + serialize_bytes(entries[n - 1].0) + serialize(
            entries[n - 1].1,
        )
    }
}

/// The entries of a dictionary after `key` has been given `value`: the key's
/// entry replaced if it has one, else a new entry behind all smaller keys.
/// On ascending entries the result is ascending.
pub open spec fn dict_insert(entries: Seq<(Seq<u8>, Value)>, key: Seq<u8>, value: Value) -> Seq<
    (Seq<u8>, Value),
>
    decreases entries.len(),
{
    if entries.len() == 0 {
        seq![(key, value)]
    } else {
        let last = entries.last();
        if bytes_less(last.0, key) {
            entries.push((key, value))
        } else if last.0 == key {
            entries.drop_last().push((key, value))
        } else {
            dict_insert(entries.drop_last(), key, value).push(last)
        }
    }
}

/// The value with every dictionary in canonical form: one entry for each
/// key, holding the value of the last entry with that key, in ascending
/// order of the raw key bytes.
pub open spec fn canonical(v: Value) -> Value
    decreases v, 0nat,
{
    match v {
        Value::Integer(i) => v,
        Value::ByteString(s) => v,
        Value::List(items) => Value::List(
            Seq::new(
                items.len(),
                |i: int|
                    if 0 <= i < items.len() {
                        canonical(items[i])
                    } else {
                        Value::Integer(0)
                    },
            ),
        ),
        Value::Dictionary(entries) => Value::Dictionary(
            canonical_entries(entries, entries.len() as int),
        ),
    }
}

/// The canonical form of the first `n` entries of a dictionary.
pub open spec fn canonical_entries(entries: Seq<(Seq<u8>, Value)>, n: int) -> Seq<
    (Seq<u8>, Value),
>
    decreases entries, n,
{
    if n <= 0 || n > entries.len() {
        Seq::empty()
    } else {
        dict_insert(
            canonical_entries(entries, n - 1),
            entries[n - 1].0,
            canonical(entries[n - 1].1),
        )
    }
}

/// The value that the dictionary's first `n` entries give to `key`: that of
/// the last of them with this key.
pub open spec fn lookup(entries: Seq<(Seq<u8>, Value)>, n: int, key: Seq<u8>) -> Option<Value>
    decreases n,
{
    if n <= 0 || n > entries.len() {
        None
    } else if entries[n - 1].0 == key {
        Some(entries[n - 1].1)
    } else {
        lookup(entries, n - 1, key)
    }
}

impl Value {
    /// Every integer of the value fits in 64 bits, signed.
    pub open spec fn well_formed(self) -> bool
        decreases self,
    {
        match self {
            Value::Integer(i) => i64::MIN <= i <= i64::MAX,
            Value::ByteString(s) => true,
            Value::List(items) => forall|i: int|
                0 <= i < items.len() ==> (#[trigger] items[i]).well_formed(),
            Value::Dictionary(entries) => forall|i: int|
                0 <= i < entries.len() ==> (#[trigger] entries[i]).1.well_formed(),
        }
    }

    /// How many containers are nested in the value: 0 for an integer or a
    /// byte string, and for a list or a dictionary one more than the
    /// greatest bound that holds of all its members.
    pub open spec fn depth_at_most(self, d: nat) -> bool
        decreases self,
    {
        match self {
            Value::Integer(i) => true,
            Value::ByteString(s) => true,
            Value::List(items) => d > 0 && forall|i: int|
                0 <= i < items.len() ==> (#[trigger] items[i]).depth_at_most((d - 1) as nat),
            Value::Dictionary(entries) => d > 0 && forall|i: int|
                0 <= i < entries.len() ==> (#[trigger] entries[i]).1.depth_at_most(
                    (d - 1) as nat,
                ),
        }
    }

    /// Every dictionary of the value holds its entries in canonical order:
    /// keys strictly ascending, so none twice.
    pub open spec fn is_canonical(self) -> bool
        decreases self,
    {
        match self {
            Value::Integer(i) => true,
            Value::ByteString(s) => true,
            Value::List(items) => forall|i: int|
                0 <= i < items.len() ==> (#[trigger] items[i]).is_canonical(),
            Value::Dictionary(entries) => keys_ascending(entries) && forall|i: int|
                0 <= i < entries.len() ==> (#[trigger] entries[i]).1.is_canonical(),
        }
    }
}

} // verus!

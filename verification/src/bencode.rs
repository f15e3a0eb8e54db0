//! Bencode values, their decoder and their encoder.
//!
//! [`Bencode::from_u8`] decodes the value at the start of a buffer and
//! records, for every node of the value, the span of bytes that the node
//! was read from. A span can be hashed as it stands, so a part of a
//! document keeps the identifier that its producer gave it.

use vstd::prelude::*;
use vstd::slice::{slice_subrange, slice_to_vec};

pub mod canonical;
pub mod cursor;
pub mod encode;
pub mod fidelity;
pub mod grammar;
pub mod laws;
pub mod model;
pub mod numbers;
pub mod order;
pub mod roundtrip;
pub mod spans;
pub mod text;

use cursor::Cursor;
use fidelity::{
    lemma_parse_bytes_sound, lemma_parse_integer_sound, lemma_parse_value_sound,
    lemma_serialize_entries_prefix, lemma_serialize_items_prefix,
};
use grammar::{parse_bytes, parse_entries, parse_integer, parse_items, parse_value, Parsed};
use model::{
    decimal_value, integer_value, is_integer_text, serialize, serialize_bytes, serialize_entries,
    serialize_items, Value, BYTE_COLON, BYTE_D, BYTE_E, BYTE_I, BYTE_L, BYTE_MINUS, BYTE_NINE, BYTE_ZERO,
};
use text::{is_number, number_within};

verus! {

/// The ways in which a buffer can fail to be Bencode.
#[derive(Clone, Copy, Debug, PartialEq, Eq, Structural)]
pub enum ErrorKind {
    /// The buffer ends where a value, or the rest of one, is due.
    UnexpectedEnd,
    /// A value starts with a byte other than `i`, `l`, `d` or a digit.
    InvalidLeadByte,
    /// The text between `i` and `e` is no integer of the grammar.
    InvalidInteger,
    /// An integer does not fit in 64 bits, signed.
    IntegerOverflow,
    /// The text before `:` is no number of the grammar.
    InvalidLengthPrefix,
    /// An integer has no closing `e`, or a length prefix no `:`.
    MissingDelimiter,
    /// A dictionary key is not a byte string.
    InvalidDictionaryKey,
    /// Lists and dictionaries are nested deeper than the limit.
    NestingTooDeep,
}

impl ErrorKind {
    /// What is said of a fault of this kind.
    pub open spec fn text(self) -> Seq<char> {
        match self {
            ErrorKind::UnexpectedEnd => "the input ends before the value does"@,
            ErrorKind::InvalidLeadByte => "a value should start with 'i', 'l', 'd' or a digit"@,
            ErrorKind::InvalidInteger => "the part between 'i' and 'e' should be a properly formatted integer"@,
            ErrorKind::IntegerOverflow => "an integer should fit in 64 bits"@,
            ErrorKind::InvalidLengthPrefix => "the part before ':' should be a properly formatted integer"@,
            ErrorKind::MissingDelimiter => "an integer should end with 'e' and a length with ':'"@,
            ErrorKind::InvalidDictionaryKey => "a dictionary key should be a byte string"@,
            ErrorKind::NestingTooDeep => "lists and dictionaries are nested too deep"@,
        }
    }

    /// What is said of a fault of this kind.
    pub fn describe(self) -> (s: &'static str)
        ensures
            s@ == self.text(),
    {
        match self {
            ErrorKind::UnexpectedEnd => "the input ends before the value does",
            ErrorKind::InvalidLeadByte => "a value should start with 'i', 'l', 'd' or a digit",
            ErrorKind::InvalidInteger => "the part between 'i' and 'e' should be a properly formatted integer",
            ErrorKind::IntegerOverflow => "an integer should fit in 64 bits",
            ErrorKind::InvalidLengthPrefix => "the part before ':' should be a properly formatted integer",
            ErrorKind::MissingDelimiter => "an integer should end with 'e' and a length with ':'",
            ErrorKind::InvalidDictionaryKey => "a dictionary key should be a byte string",
            ErrorKind::NestingTooDeep => "lists and dictionaries are nested too deep",
        }
    }
}

/// Why a buffer was rejected.
#[derive(Clone, Copy, Debug, PartialEq, Eq, Structural)]
pub struct BencodeError {
    pub kind: ErrorKind,
}

impl BencodeError {
    /// The error for a fault of the given kind.
    pub fn new(kind: ErrorKind) -> (e: Self)
        ensures
            e.kind == kind,
    {
        BencodeError { kind }
    }

    /// What is said of the fault.
    pub fn message(&self) -> (s: &'static str)
        ensures
            s@ == self.kind.text(),
    {
        self.kind.describe()
    }
}

/// A Bencode value.
///
/// A dictionary holds its entries in a vector, in the order in which they
/// were read or pushed. Keys are raw bytes. Where a key occurs twice, the
/// later entry is the one that counts.
#[derive(Debug)]
pub enum BencodeType {
    Int(i64),
    Str(Vec<u8>),
    List(Vec<BencodeType>),
    Dict(Vec<(Vec<u8>, BencodeType)>),
}

/// The values that the items of a list stand for.
pub open spec fn view_items(items: Seq<BencodeType>) -> Seq<Value> {
    Seq::new(items.len(), |i: int| items[i]@)
}

/// The entries that the entries of a dictionary stand for.
pub open spec fn view_entries(entries: Seq<(Vec<u8>, BencodeType)>) -> Seq<(Seq<u8>, Value)> {
    Seq::new(entries.len(), |i: int| (entries[i].0@, entries[i].1@))
}

impl View for BencodeType {
    type V = Value;

    open spec fn view(&self) -> Value
        decreases self,
    {
        match self {
            BencodeType::Int(i) => Value::Integer(*i as int),
            BencodeType::Str(s) => Value::ByteString(s@),
            BencodeType::List(items) => Value::List(
                Seq::new(
                    items@.len(),
                    |i: int|
                        if 0 <= i < items@.len() {
                            items@[i].view()
                        } else {
                            Value::Integer(0)
                        },
                ),
            ),
            BencodeType::Dict(entries) => Value::Dictionary(
                Seq::new(
                    entries@.len(),
                    |i: int|
                        (
                            entries@[i].0@,
                            if 0 <= i < entries@.len() {
                                entries@[i].1.view()
                            } else {
                                Value::Integer(0)
                            },
                        ),
                ),
            ),
        }
    }
}

/// The model of a list is the list of its items' models.
pub proof fn lemma_view_list(items: Vec<BencodeType>)
    ensures
        BencodeType::List(items)@ == Value::List(view_items(items@)),
{
    assert(BencodeType::List(items)@->List_0 =~= view_items(items@));
}

/// The model of a dictionary is the list of its entries' models.
pub proof fn lemma_view_dict(entries: Vec<(Vec<u8>, BencodeType)>)
    ensures
        BencodeType::Dict(entries)@ == Value::Dictionary(view_entries(entries@)),
{
    assert(BencodeType::Dict(entries)@->Dictionary_0 =~= view_entries(entries@));
}

/// The half-open range of buffer positions from `start` to `end`.
///
/// A span holds positions, not bytes: it means something only together
/// with the buffer that was decoded, as long as that buffer is kept and
/// not changed. [`Bencode::slice`] borrows the buffer for that long.
#[derive(Clone, Copy, Debug, PartialEq, Eq, Structural)]
pub struct Span {
    pub start: usize,
    pub end: usize,
}

/// The spans of a decoded value and of every value in it.
///
/// The tree has the shape of the value: a list's children are its items'
/// trees, in order; a dictionary's children are, for each entry in order,
/// the span of the key and the tree of the value.
#[derive(Debug)]
pub enum SpanTree {
    Leaf(Span),
    List(Span, Vec<SpanTree>),
    Dict(Span, Vec<(Span, SpanTree)>),
}

impl SpanTree {
    /// The span of the node at the root of the tree.
    pub open spec fn root(&self) -> Span {
        match self {
            SpanTree::Leaf(s) => *s,
            SpanTree::List(s, _) => *s,
            SpanTree::Dict(s, _) => *s,
        }
    }

    /// The span of the node at the root of the tree.
    pub fn span(&self) -> (s: Span)
        ensures
            s == self.root(),
    {
        match self {
            SpanTree::Leaf(s) => *s,
            SpanTree::List(s, _) => *s,
            SpanTree::Dict(s, _) => *s,
        }
    }

    /// The tree holds the spans of `v` and of every value in it, where the
    /// text of `v` starts at `start`: each span starts where the text of its
    /// node starts and is as long as that text.
    pub open spec fn fits(&self, v: Value, start: int) -> bool
        decreases self,
    {
        &&& self.root().start == start
        &&& self.root().end == start + serialize(v).len()
        &&& match self {
            SpanTree::Leaf(_) => v is Integer || v is ByteString,
            SpanTree::List(_, kids) => {
                &&& v is List
                &&& kids@.len() == v->List_0.len()
                &&& forall|i: int|
                    0 <= i < kids@.len() ==> (#[trigger] kids@[i]).fits(
                        v->List_0[i],
                        start + 1 + serialize_items(v->List_0, i).len(),
                    )
            },
            SpanTree::Dict(_, kids) => {
                &&& v is Dictionary
                &&& kids@.len() == v->Dictionary_0.len()
                &&& forall|i: int|
                    0 <= i < kids@.len() ==> entry_fits(
                        #[trigger] kids@[i],
                        v->Dictionary_0[i],
                        start + 1 + serialize_entries(v->Dictionary_0, i).len(),
                    )
            },
        }
    }
}

/// The spans `kid` of a dictionary entry whose text starts at `start`: the
/// key's span, and behind it the tree of the value.
pub open spec fn entry_fits(kid: (Span, SpanTree), entry: (Seq<u8>, Value), start: int) -> bool
    decreases kid,
{
    &&& kid.0.start == start
    &&& kid.0.end == start + serialize_bytes(entry.0).len()
    &&& kid.1.fits(entry.1, start + serialize_bytes(entry.0).len())
}

/// The greatest number of containers that [`Bencode::from_u8`] lets a value
/// nest.
pub const DEFAULT_MAX_DEPTH: usize = 512;

/// A decoded value, with where it was found.
#[derive(Debug)]
pub struct Bencode<'a> {
    /// The value.
    pub node: BencodeType,
    /// The number of bytes that the value was read from.
    pub len: usize,
    /// The bytes that the value was read from: the first `len` of the input.
    /// Every span of `spans` is a range of these bytes.
    pub slice: &'a [u8],
    /// The span of the value and of every value in it.
    pub spans: SpanTree,
}

/// What a decoding function returned is what the grammar gives: on success
/// the value, the position behind it and the spans of its nodes; on failure
/// the kind of the fault.
spec fn agrees(
    r: Result<(BencodeType, SpanTree), BencodeError>,
    expected: Parsed<Value>,
    start: int,
    end: int,
) -> bool {
    match r {
        Ok((node, spans)) => expected == Ok::<(Value, int), ErrorKind>((node@, end)) && spans.fits(
            node@,
            start,
        ),
        Err(e) => expected == Err::<(Value, int), ErrorKind>(e.kind),
    }
}

/// The result of [`parse_items`] with `prefix` put before the items.
spec fn with_items(prefix: Seq<Value>, r: Parsed<Seq<Value>>) -> Parsed<Seq<Value>> {
    match r {
        Ok((rest, end)) => Ok((prefix + rest, end)),
        Err(e) => Err(e),
    }
}

/// The result of [`parse_entries`] with `prefix` put before the entries.
spec fn with_entries(
    prefix: Seq<(Seq<u8>, Value)>,
    r: Parsed<Seq<(Seq<u8>, Value)>>,
) -> Parsed<Seq<(Seq<u8>, Value)>> {
    match r {
        Ok((rest, end)) => Ok((prefix + rest, end)),
        Err(e) => Err(e),
    }
}

/// What the grammar gives for a list whose `l` stands at `pos`.
spec fn parse_list_at(b: Seq<u8>, pos: int, depth: nat) -> Parsed<Value> {
    match parse_items(b, pos + 1, depth) {
        Ok((items, end)) => Ok((Value::List(items), end)),
        Err(e) => Err(e),
    }
}

/// What the grammar gives for a dictionary whose `d` stands at `pos`.
spec fn parse_dict_at(b: Seq<u8>, pos: int, depth: nat) -> Parsed<Value> {
    match parse_entries(b, pos + 1, depth) {
        Ok((entries, end)) => Ok((Value::Dictionary(entries), end)),
        Err(e) => Err(e),
    }
}

/// What the grammar gives for a byte string whose length prefix starts at
/// `pos`.
spec fn parse_str_at(b: Seq<u8>, pos: int) -> Parsed<Value> {
    match parse_bytes(b, pos) {
        Ok((s, end)) => Ok((Value::ByteString(s), end)),
        Err(e) => Err(e),
    }
}

/// The integer that the text from `lo` to `hi` denotes.
///
/// The fault is `InvalidInteger` where the text is no integer of the
/// grammar, and `IntegerOverflow` where it is one that does not fit in 64
/// bits.
fn integer_from_text(buf: &[u8], lo: usize, hi: usize) -> (r: Result<i64, BencodeError>)
    requires
        lo <= hi <= buf@.len(),
    ensures
        match r {
            Ok(i) => {
                &&& is_integer_text(buf@.subrange(lo as int, hi as int))
                &&& integer_value(buf@.subrange(lo as int, hi as int)) == i
            },
            Err(e) => if is_integer_text(buf@.subrange(lo as int, hi as int)) {
                &&& e.kind == ErrorKind::IntegerOverflow
                &&& !(i64::MIN <= integer_value(buf@.subrange(lo as int, hi as int)) <= i64::MAX)
            } else {
                e.kind == ErrorKind::InvalidInteger
            },
        },
{
    let ghost text = buf@.subrange(lo as int, hi as int);
    let negative = lo < hi && buf[lo] == BYTE_MINUS;
    let first = if negative {
        lo + 1
    } else {
        lo
    };
    proof {
        if negative {
            assert(text[0] == BYTE_MINUS);
            assert(text.skip(1) =~= buf@.subrange(first as int, hi as int));
        } else {
            assert(lo < hi ==> text[0] == buf@[lo as int]);
        }
    }
    if !is_number(buf, first, hi) {
        return Err(BencodeError { kind: ErrorKind::InvalidInteger });
    }
    if negative && buf[first] == BYTE_ZERO {
        assert(text[1] == BYTE_ZERO);
        return Err(BencodeError { kind: ErrorKind::InvalidInteger });
    }
    proof {
        let digits = buf@.subrange(first as int, hi as int);
        assert forall|k: int| first <= k < hi implies model::is_digit(#[trigger] buf@[k]) by {
            assert(digits[k - first] == buf@[k]);
        }
        if negative {
            assert(text[1] == buf@[first as int]);
        }
    }
    let limit: u64 = if negative {
        0x8000_0000_0000_0000
    } else {
        0x7fff_ffff_ffff_ffff
    };
    match number_within(buf, first, hi, limit) {
        None => Err(BencodeError { kind: ErrorKind::IntegerOverflow }),
        Some(magnitude) => {
            if negative {
                if magnitude == 0x8000_0000_0000_0000 {
                    Ok(i64::MIN)
                } else {
                    Ok(-(magnitude as i64))
                }
            } else {
                Ok(magnitude as i64)
            }
        },
    }
}

impl<'a> Bencode<'a> {
    /// Decodes the value at the start of `bencoded_input`, with at most
    /// [`DEFAULT_MAX_DEPTH`] containers nested in it.
    ///
    /// The result is what the grammar gives from position 0: the value, the
    /// number of bytes that it takes, those bytes, which are the text of the
    /// value, and the spans of its nodes; or the kind of the first fault.
    /// Bytes behind the value are left unread.
    pub fn from_u8(bencoded_input: &'a [u8]) -> (r: Result<Bencode<'a>, BencodeError>)
        ensures
            match r {
                Ok(b) => {
                    &&& parse_value(bencoded_input@, 0, DEFAULT_MAX_DEPTH as nat) == Ok::<
                        (Value, int),
                        ErrorKind,
                    >((b.node@, b.len as int))
                    &&& b.slice@ == bencoded_input@.subrange(0, b.len as int)
                    &&& b.well_formed()
                },
                Err(e) => parse_value(bencoded_input@, 0, DEFAULT_MAX_DEPTH as nat) == Err::<
                    (Value, int),
                    ErrorKind,
                >(e.kind),
            },
    {
        Self::from_u8_with_depth(bencoded_input, DEFAULT_MAX_DEPTH)
    }

    /// Decodes the value at the start of `bencoded_input`, with at most
    /// `max_depth` containers nested in it.
    pub fn from_u8_with_depth(bencoded_input: &'a [u8], max_depth: usize) -> (r: Result<
        Bencode<'a>,
        BencodeError,
    >)
        ensures
            match r {
                Ok(b) => {
                    &&& parse_value(bencoded_input@, 0, max_depth as nat) == Ok::<
                        (Value, int),
                        ErrorKind,
                    >((b.node@, b.len as int))
                    &&& b.slice@ == bencoded_input@.subrange(0, b.len as int)
                    &&& b.well_formed()
                },
                Err(e) => parse_value(bencoded_input@, 0, max_depth as nat) == Err::<
                    (Value, int),
                    ErrorKind,
                >(e.kind),
            },
    {
        let mut cursor = Cursor::new(bencoded_input);
        match Self::parse_value(&mut cursor, max_depth) {
            Ok((node, spans)) => {
                let len = cursor.position();
                proof {
                    lemma_parse_value_sound(bencoded_input@, 0, max_depth as nat);
                }
                Ok(Bencode { node, len, slice: slice_subrange(bencoded_input, 0, len), spans })
            },
            Err(e) => Err(e),
        }
    }

    /// Decodes the value at the cursor, with at most `depth` containers
    /// nested in it, and leaves the cursor behind it.
    fn parse_value(cursor: &mut Cursor<'a>, depth: usize) -> (r: Result<
        (BencodeType, SpanTree),
        BencodeError,
    >)
        ensures
            final(cursor).buffer() == old(cursor).buffer(),
            agrees(
                r,
                parse_value(old(cursor).buffer(), old(cursor).offset(), depth as nat),
                old(cursor).offset(),
                final(cursor).offset(),
            ),
        decreases depth, 0nat,
    {
        let ghost buf = cursor.buffer();
        let ghost at = cursor.offset();
        match cursor.peek() {
            None => Err(BencodeError { kind: ErrorKind::UnexpectedEnd }),
            Some(lead) => {
                if lead == BYTE_I {
                    assert(parse_value(buf, at, depth as nat) == parse_integer(buf, at));
                    Self::parse_int(cursor)
                } else if BYTE_ZERO <= lead && lead <= BYTE_NINE {
                    assert(parse_value(buf, at, depth as nat) == parse_str_at(buf, at));
                    Self::parse_str(cursor)
                } else if lead == BYTE_L {
                    if depth == 0 {
                        Err(BencodeError { kind: ErrorKind::NestingTooDeep })
                    } else {
                        assert(parse_value(buf, at, depth as nat) == parse_list_at(
                            buf,
                            at,
                            (depth - 1) as nat,
                        ));
                        Self::parse_list(cursor, depth - 1)
                    }
                } else if lead == BYTE_D {
                    if depth == 0 {
                        Err(BencodeError { kind: ErrorKind::NestingTooDeep })
                    } else {
                        assert(parse_value(buf, at, depth as nat) == parse_dict_at(
                            buf,
                            at,
                            (depth - 1) as nat,
                        ));
                        Self::parse_dict(cursor, depth - 1)
                    }
                } else {
                    Err(BencodeError { kind: ErrorKind::InvalidLeadByte })
                }
            },
        }
    }

    /// Decodes the integer whose `i` stands at the cursor.
    fn parse_int(cursor: &mut Cursor<'a>) -> (r: Result<(BencodeType, SpanTree), BencodeError>)
        requires
            old(cursor).offset() < old(cursor).buffer().len(),
            old(cursor).buffer()[old(cursor).offset()] == BYTE_I,
        ensures
            final(cursor).buffer() == old(cursor).buffer(),
            agrees(
                r,
                parse_integer(old(cursor).buffer(), old(cursor).offset()),
                old(cursor).offset(),
                final(cursor).offset(),
            ),
    {
        let start = cursor.position();
        let buf = cursor.bytes();
        proof {
            lemma_parse_integer_sound(buf@, start as int);
        }
        if let Err(e) = cursor.advance(1) {
            return Err(e);
        }
        match cursor.take_until(BYTE_E) {
            Err(e) => Err(e),
            Ok((lo, hi)) => {
                match integer_from_text(buf, lo, hi) {
                    Err(e) => Err(e),
                    Ok(value) => {
                        if let Err(e) = cursor.advance(1) {
                            return Err(e);
                        }
                        let end = cursor.position();
                        Ok((BencodeType::Int(value), SpanTree::Leaf(Span { start, end })))
                    },
                }
            },
        }
    }

    /// Decodes the byte string whose length prefix starts at the cursor.
    fn parse_str(cursor: &mut Cursor<'a>) -> (r: Result<(BencodeType, SpanTree), BencodeError>)
        requires
            old(cursor).offset() < old(cursor).buffer().len(),
        ensures
            final(cursor).buffer() == old(cursor).buffer(),
            agrees(
                r,
                parse_str_at(old(cursor).buffer(), old(cursor).offset()),
                old(cursor).offset(),
                final(cursor).offset(),
            ),
    {
        let start = cursor.position();
        let buf = cursor.bytes();
        proof {
            lemma_parse_bytes_sound(buf@, start as int);
        }
        match cursor.take_until(BYTE_COLON) {
            Err(e) => Err(e),
            Ok((lo, hi)) => {
                let ghost text = buf@.subrange(lo as int, hi as int);
                let ghost n = decimal_value(text, text.len() as int);
                if !is_number(buf, lo, hi) {
                    return Err(BencodeError { kind: ErrorKind::InvalidLengthPrefix });
                }
                proof {
                    assert forall|k: int| lo <= k < hi implies model::is_digit(
                        #[trigger] buf@[k],
                    ) by {
                        assert(text[k - lo] == buf@[k]);
                    }
                }
                match number_within(buf, lo, hi, buf.len() as u64) {
                    None => {
                        assert(hi + 1 + n > buf@.len());
                        Err(BencodeError { kind: ErrorKind::UnexpectedEnd })
                    },
                    Some(length) => {
                        assert(length == n);
                        if let Err(e) = cursor.advance(1) {
                            return Err(e);
                        }
                        let from = cursor.position();
                        match cursor.advance(length as usize) {
                            Err(e) => {
                                assert(hi + 1 + n > buf@.len());
                                Err(e)
                            },
                            Ok(()) => {
                                let end = cursor.position();
                                let bytes = slice_to_vec(slice_subrange(buf, from, end));
                                assert(parse_bytes(buf@, start as int) == Ok::<
                                    (Seq<u8>, int),
                                    ErrorKind,
                                >((bytes@, end as int)));
                                Ok((BencodeType::Str(bytes), SpanTree::Leaf(Span { start, end })))
                            },
                        }
                    },
                }
            },
        }
    }

    /// Decodes the list whose `l` stands at the cursor, with at most `depth`
    /// containers nested in each item.
    fn parse_list(cursor: &mut Cursor<'a>, depth: usize) -> (r: Result<
        (BencodeType, SpanTree),
        BencodeError,
    >)
        requires
            old(cursor).offset() < old(cursor).buffer().len(),
            old(cursor).buffer()[old(cursor).offset()] == BYTE_L,
        ensures
            final(cursor).buffer() == old(cursor).buffer(),
            agrees(
                r,
                parse_list_at(old(cursor).buffer(), old(cursor).offset(), depth as nat),
                old(cursor).offset(),
                final(cursor).offset(),
            ),
        decreases depth, 1nat,
    {
        let start = cursor.position();
        let ghost buf = cursor.buffer();
        if let Err(e) = cursor.advance(1) {
            return Err(e);
        }
        let mut items: Vec<BencodeType> = Vec::new();
        let mut kids: Vec<SpanTree> = Vec::new();
        proof {
            assert(view_items(items@) =~= Seq::<Value>::empty());
            assert(with_items(view_items(items@), parse_items(buf, start + 1, depth as nat))
                =~= parse_items(buf, start + 1, depth as nat)) by {
                match parse_items(buf, start + 1, depth as nat) {
                    Ok((rest, end)) => {
                        assert(view_items(items@) + rest =~= rest);
                    },
                    Err(e) => {},
                }
            }
        }
        loop
            invariant
                cursor.buffer() == buf,
                buf == old(cursor).buffer(),
                start == old(cursor).offset(),
                start + 1 <= cursor.offset() <= buf.len(),
                items@.len() == kids@.len(),
                parse_items(buf, start + 1, depth as nat) == with_items(
                    view_items(items@),
                    parse_items(buf, cursor.offset(), depth as nat),
                ),
                cursor.offset() == start + 1 + serialize_items(
                    view_items(items@),
                    items@.len() as int,
                ).len(),
                forall|i: int|
                    0 <= i < kids@.len() ==> (#[trigger] kids@[i]).fits(
                        items@[i]@,
                        start + 1 + serialize_items(view_items(items@), i).len(),
                    ),
            decreases buf.len() - cursor.offset(),
        {
            let at = cursor.position();
            match cursor.peek() {
                None => {
                    return Err(BencodeError { kind: ErrorKind::UnexpectedEnd });
                },
                Some(lead) => {
                    if lead == BYTE_E {
                        if let Err(e) = cursor.advance(1) {
                            return Err(e);
                        }
                        let end = cursor.position();
                        proof {
                            lemma_view_list(items);
                            let found = view_items(items@);
                            assert(found + Seq::<Value>::empty() =~= found);
                            assert(serialize(Value::List(found)).len() == end - start);
                        }
                        return Ok(
                            (BencodeType::List(items), SpanTree::List(Span { start, end }, kids)),
                        );
                    }
                    let ghost before = view_items(items@);
                    proof {
                        lemma_parse_value_sound(buf, at as int, depth as nat);
                    }
                    match Self::parse_value(cursor, depth) {
                        Err(e) => {
                            return Err(e);
                        },
                        Ok((node, spans)) => {
                            let ghost item = node@;
                            items.push(node);
                            kids.push(spans);
                            proof {
                                let after = view_items(items@);
                                let next = cursor.offset();
                                assert(after =~= before.push(item));
                                match parse_items(buf, next, depth as nat) {
                                    Ok((rest, end)) => {
                                        assert(before + (seq![item] + rest) =~= after + rest);
                                    },
                                    Err(e) => {},
                                }
                                assert forall|i: int| 0 <= i <= before.len() implies serialize_items(
                                    after,
                                    i,
                                ) == serialize_items(before, i) by {
                                    lemma_serialize_items_prefix(after, before, i);
                                }
                                assert(after[before.len() as int] == item);
                            }
                        },
                    }
                },
            }
        }
    }

    /// Decodes the dictionary whose `d` stands at the cursor, with at most
    /// `depth` containers nested in each value. The entries are kept in the
    /// order of the text.
    fn parse_dict(cursor: &mut Cursor<'a>, depth: usize) -> (r: Result<
        (BencodeType, SpanTree),
        BencodeError,
    >)
        requires
            old(cursor).offset() < old(cursor).buffer().len(),
            old(cursor).buffer()[old(cursor).offset()] == BYTE_D,
        ensures
            final(cursor).buffer() == old(cursor).buffer(),
            agrees(
                r,
                parse_dict_at(old(cursor).buffer(), old(cursor).offset(), depth as nat),
                old(cursor).offset(),
                final(cursor).offset(),
            ),
        decreases depth, 1nat,
    {
        let start = cursor.position();
        let ghost buf = cursor.buffer();
        if let Err(e) = cursor.advance(1) {
            return Err(e);
        }
        let mut entries: Vec<(Vec<u8>, BencodeType)> = Vec::new();
        let mut kids: Vec<(Span, SpanTree)> = Vec::new();
        proof {
            assert(view_entries(entries@) =~= Seq::<(Seq<u8>, Value)>::empty());
            assert(with_entries(view_entries(entries@), parse_entries(buf, start + 1, depth as nat))
                =~= parse_entries(buf, start + 1, depth as nat)) by {
                match parse_entries(buf, start + 1, depth as nat) {
                    Ok((rest, end)) => {
                        assert(view_entries(entries@) + rest =~= rest);
                    },
                    Err(e) => {},
                }
            }
        }
        loop
            invariant
                cursor.buffer() == buf,
                buf == old(cursor).buffer(),
                start == old(cursor).offset(),
                start + 1 <= cursor.offset() <= buf.len(),
                entries@.len() == kids@.len(),
                parse_entries(buf, start + 1, depth as nat) == with_entries(
                    view_entries(entries@),
                    parse_entries(buf, cursor.offset(), depth as nat),
                ),
                cursor.offset() == start + 1 + serialize_entries(
                    view_entries(entries@),
                    entries@.len() as int,
                ).len(),
                forall|i: int|
                    0 <= i < kids@.len() ==> entry_fits(
                        #[trigger] kids@[i],
                        (entries@[i].0@, entries@[i].1@),
                        start + 1 + serialize_entries(view_entries(entries@), i).len(),
                    ),
            decreases buf.len() - cursor.offset(),
        {
            let at = cursor.position();
            match cursor.peek() {
                None => {
                    return Err(BencodeError { kind: ErrorKind::UnexpectedEnd });
                },
                Some(lead) => {
                    if lead == BYTE_E {
                        if let Err(e) = cursor.advance(1) {
                            return Err(e);
                        }
                        let end = cursor.position();
                        proof {
                            lemma_view_dict(entries);
                            let found = view_entries(entries@);
                            assert(found + Seq::<(Seq<u8>, Value)>::empty() =~= found);
                            assert(serialize(Value::Dictionary(found)).len() == end - start);
                        }
                        return Ok(
                            (
                                BencodeType::Dict(entries),
                                SpanTree::Dict(Span { start, end }, kids),
                            ),
                        );
                    }
                    let ghost before = view_entries(entries@);
                    proof {
                        lemma_parse_value_sound(buf, at as int, depth as nat);
                    }
                    match Self::parse_value(cursor, depth) {
                        Err(e) => {
                            return Err(e);
                        },
                        Ok((BencodeType::Str(key), key_spans)) => {
                            let key_span = key_spans.span();
                            let ghost key_end = cursor.offset();
                            proof {
                                lemma_parse_value_sound(buf, key_end, depth as nat);
                            }
                            match Self::parse_value(cursor, depth) {
                                Err(e) => {
                                    return Err(e);
                                },
                                Ok((node, spans)) => {
                                    let ghost entry = (key@, node@);
                                    entries.push((key, node));
                                    kids.push((key_span, spans));
                                    proof {
                                        let after = view_entries(entries@);
                                        let next = cursor.offset();
                                        assert(after =~= before.push(entry));
                                        match parse_entries(buf, next, depth as nat) {
                                            Ok((rest, end)) => {
                                                assert(before + (seq![entry] + rest) =~= after
                                                    + rest);
                                            },
                                            Err(e) => {},
                                        }
                                        assert forall|i: int|
                                            0 <= i <= before.len() implies serialize_entries(
                                            after,
                                            i,
                                        ) == serialize_entries(before, i) by {
                                            lemma_serialize_entries_prefix(after, before, i);
                                        }
                                        assert(after[before.len() as int] == entry);
                                    }
                                },
                            }
                        },
                        Ok(_) => {
                            return Err(BencodeError { kind: ErrorKind::InvalidDictionaryKey });
                        },
                    }
                },
            }
        }
    }
}

} // verus!

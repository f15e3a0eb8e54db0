//! The laws that tie the decoder and the encoder together.
//!
//! They are stated over the grammar ([`parse_value`]) and the canonical text
//! ([`encode_spec`]), which are what [`Bencode::from_u8`] and [`encode`]
//! are proved to compute.
//!
//! [`Bencode::from_u8`]: crate::bencode::Bencode::from_u8
//! [`encode`]: crate::bencode::encode::encode

use super::canonical::{
    lemma_canonical_depth, lemma_canonical_entries_lookup, lemma_canonical_fixed,
    lemma_canonical_is_canonical, lemma_canonical_well_formed,
};
use super::encode::encode_spec;
use super::fidelity::lemma_parse_value_sound;
use super::grammar::parse_value;
use super::model::{canonical, lookup, serialize, Value};
use super::roundtrip::lemma_serialize_parse;
use super::{BencodeType, ErrorKind};
use vstd::prelude::*;

verus! {

/// Two values have the same content: they differ at most in the order of
/// dictionary entries and in entries that a later entry with the same key
/// overrides.
pub open spec fn same_content(a: Value, b: Value) -> bool {
    canonical(a) == canonical(b)
}

/// Every value that an executable tree stands for has its integers within
/// 64 bits.
pub proof fn lemma_view_well_formed(v: BencodeType)
    ensures
        v@.well_formed(),
    decreases v,
{
    match v {
        BencodeType::Int(_) => {},
        BencodeType::Str(_) => {},
        BencodeType::List(items) => {
            assert forall|i: int| 0 <= i < items@.len() implies (#[trigger] v@->List_0[i]).well_formed() by {
                lemma_view_well_formed(items@[i]);
            }
        },
        BencodeType::Dict(entries) => {
            assert forall|i: int| 0 <= i < entries@.len() implies (#[trigger] v@->Dictionary_0[i]).1.well_formed() by {
                lemma_view_well_formed(entries@[i].1);
            }
        },
    }
}

/// Decoding, then encoding, gives back the bytes that were decoded, where
/// they are in canonical key order: for every buffer from which a value is
/// decoded at `pos`, if in every dictionary of that value the keys ascend
/// in the order of the text, then the canonical text of the value is the
/// span of the buffer that was decoded.
pub proof fn lemma_decode_then_encode(b: Seq<u8>, pos: int, depth: nat)
    requires
        parse_value(b, pos, depth) is Ok,
        parse_value(b, pos, depth)->Ok_0.0.is_canonical(),
    ensures
        encode_spec(parse_value(b, pos, depth)->Ok_0.0) == b.subrange(
            pos,
            parse_value(b, pos, depth)->Ok_0.1,
        ),
{
    let v = parse_value(b, pos, depth)->Ok_0.0;
    lemma_parse_value_sound(b, pos, depth);
    lemma_canonical_fixed(v);
}

/// Encoding, then decoding, gives back the value in canonical form, which
/// has the same content: for every value whose integers fit in 64 bits and
/// in which no more than `depth` containers are nested, the canonical text
/// decodes as a whole, to the canonical form of the value.
pub proof fn lemma_encode_then_decode(v: Value, depth: nat)
    requires
        v.well_formed(),
        v.depth_at_most(depth),
    ensures
        parse_value(encode_spec(v), 0, depth) == Ok::<(Value, int), ErrorKind>(
            (canonical(v), encode_spec(v).len() as int),
        ),
        same_content(canonical(v), v),
        canonical(v).is_canonical(),
{
    let w = canonical(v);
    let text = encode_spec(v);
    lemma_canonical_well_formed(v);
    lemma_canonical_depth(v, depth);
    lemma_canonical_is_canonical(v);
    lemma_canonical_fixed(w);
    assert(text.subrange(0, text.len() as int) =~= text);
    lemma_serialize_parse(w, text, 0, depth);
}

/// Encoding, then decoding, for a tree as the program holds it: whatever
/// tree is built, if no more than `depth` containers are nested in it, its
/// canonical text decodes as a whole, to the canonical form of the value
/// that the tree stands for, which has the same content.
pub proof fn lemma_encode_then_decode_tree(v: BencodeType, depth: nat)
    requires
        v@.depth_at_most(depth),
    ensures
        parse_value(encode_spec(v@), 0, depth) == Ok::<(Value, int), ErrorKind>(
            (canonical(v@), encode_spec(v@).len() as int),
        ),
        same_content(canonical(v@), v@),
{
    lemma_view_well_formed(v);
    lemma_encode_then_decode(v@, depth);
}

/// Decoding, then encoding, gives a text of the same content with the keys
/// in order, whatever the order of the keys in the buffer: for every
/// buffer from which a value is decoded at `pos`, the canonical text of
/// that value decodes as a whole, to the canonical form of the value; that
/// form is canonical, and encoding it again gives the same text.
pub proof fn lemma_decode_then_encode_any_order(b: Seq<u8>, pos: int, depth: nat)
    requires
        parse_value(b, pos, depth) is Ok,
    ensures
        ({
            let v = parse_value(b, pos, depth)->Ok_0.0;
            &&& parse_value(encode_spec(v), 0, depth) == Ok::<(Value, int), ErrorKind>(
                (canonical(v), encode_spec(v).len() as int),
            )
            &&& same_content(canonical(v), v)
            &&& canonical(v).is_canonical()
            &&& encode_spec(canonical(v)) == encode_spec(v)
        }),
{
    let v = parse_value(b, pos, depth)->Ok_0.0;
    lemma_parse_value_sound(b, pos, depth);
    lemma_encode_then_decode(v, depth);
}

/// The canonical form of a dictionary is the same mapping: it gives every
/// key the canonical form of the value that the dictionary gives it, and
/// no value to a key that the dictionary gives none.
pub proof fn lemma_canonical_same_mapping(entries: Seq<(Seq<u8>, Value)>, key: Seq<u8>)
    ensures
        ({
            let listed = canonical(Value::Dictionary(entries))->Dictionary_0;
            lookup(listed, listed.len() as int, key) == match lookup(
                entries,
                entries.len() as int,
                key,
            ) {
                Some(v) => Some(canonical(v)),
                None => None,
            }
        }),
{
    lemma_canonical_entries_lookup(entries, entries.len() as int, key);
}

/// The text of a value in the order in which the value holds its entries
/// is the canonical text where the value is canonical.
pub proof fn lemma_canonical_text(v: Value)
    requires
        v.is_canonical(),
    ensures
        encode_spec(v) == serialize(v),
{
    lemma_canonical_fixed(v);
}

} // verus!

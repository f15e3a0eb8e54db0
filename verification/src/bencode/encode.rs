//! The encoder: from a value to its canonical text.

use super::model::{
    bytes_less, bytes_less_from, canonical, canonical_entries, dict_insert, lookup, serialize,
    serialize_bytes, serialize_entries, serialize_items, Value, BYTE_COLON, BYTE_D, BYTE_E,
    BYTE_I, BYTE_L,
};
use super::text::{push_integer, push_number};
use super::{lemma_view_dict, lemma_view_list, view_entries, BencodeType};
use vstd::prelude::*;

verus! {

/// How one key stands to another in the order of the raw bytes.
#[derive(Clone, Copy, Debug, PartialEq, Eq, Structural)]
pub enum KeyOrder {
    Less,
    Equal,
    Greater,
}

/// Compares two keys byte by byte: the first position at which they differ
/// decides, and a proper prefix comes first.
pub fn compare_keys(a: &[u8], b: &[u8]) -> (r: KeyOrder)
    ensures
        r is Less <==> bytes_less(a@, b@),
        r is Equal <==> a@ == b@,
{
    let mut i: usize = 0;
    while i < a.len() && i < b.len()
        invariant
            i <= a@.len(),
            i <= b@.len(),
            forall|k: int| 0 <= k < i ==> a@[k] == b@[k],
            bytes_less(a@, b@) == bytes_less_from(a@, b@, i as int),
        decreases a@.len() - i,
    {
        if a[i] != b[i] {
            if a[i] < b[i] {
                return KeyOrder::Less;
            } else {
                return KeyOrder::Greater;
            }
        }
        i += 1;
    }
    if a.len() == b.len() {
        assert(a@ =~= b@);
        KeyOrder::Equal
    } else if a.len() < b.len() {
        KeyOrder::Less
    } else {
        KeyOrder::Greater
    }
}

/// Where `dict_insert` puts an entry: behind the last entry with a key that
/// is smaller or the same, and in the place of that entry where the key is
/// the same.
pub proof fn lemma_dict_insert_at(
    entries: Seq<(Seq<u8>, Value)>,
    key: Seq<u8>,
    value: Value,
    p: int,
)
    requires
        0 <= p <= entries.len(),
        forall|j: int|
            p <= j < entries.len() ==> !bytes_less((#[trigger] entries[j]).0, key) && entries[j].0
                != key,
        p > 0 ==> bytes_less(entries[p - 1].0, key) || entries[p - 1].0 == key,
    ensures
        dict_insert(entries, key, value) == if p > 0 && !bytes_less(entries[p - 1].0, key) {
            entries.update(p - 1, (key, value))
        } else {
            entries.insert(p, (key, value))
        },
    decreases entries.len() - p,
{
    if entries.len() == 0 {
        assert(dict_insert(entries, key, value) =~= entries.insert(p, (key, value)));
    } else if p == entries.len() {
        if bytes_less(entries.last().0, key) {
            assert(entries.push((key, value)) =~= entries.insert(p, (key, value)));
        } else {
            assert(entries.drop_last().push((key, value)) =~= entries.update(p - 1, (key, value)));
        }
    } else {
        let last = entries.last();
        let head = entries.drop_last();
        assert(!bytes_less(last.0, key) && last.0 != key);
        assert forall|j: int| p <= j < head.len() implies !bytes_less(
            (#[trigger] head[j]).0,
            key,
        ) && head[j].0 != key by {
            assert(head[j] == entries[j]);
        }
        if p > 0 {
            assert(head[p - 1] == entries[p - 1]);
        }
        lemma_dict_insert_at(head, key, value, p);
        if p > 0 && !bytes_less(entries[p - 1].0, key) {
            assert(head.update(p - 1, (key, value)).push(last) =~= entries.update(
                p - 1,
                (key, value),
            ));
        } else {
            assert(head.insert(p, (key, value)).push(last) =~= entries.insert(p, (key, value)));
        }
    }
}

/// The entries of `order` are indices into `entries`, and the entries that
/// they pick, each with its value in canonical form, are `listed`.
spec fn picks(
    order: Seq<usize>,
    entries: Seq<(Vec<u8>, BencodeType)>,
    listed: Seq<(Seq<u8>, Value)>,
) -> bool {
    &&& order.len() == listed.len()
    &&& forall|j: int|
        0 <= j < order.len() ==> {
            &&& (#[trigger] order[j]) < entries.len()
            &&& listed[j] == (entries[order[j] as int].0@, canonical(entries[order[j] as int].1@))
        }
}

/// The indices of the entries that a dictionary's canonical form lists, in
/// the order in which it lists them: ascending by key, and of entries with
/// the same key the last.
fn canonical_order(entries: &Vec<(Vec<u8>, BencodeType)>) -> (order: Vec<usize>)
    ensures
        picks(
            order@,
            entries@,
            canonical_entries(view_entries(entries@), entries@.len() as int),
        ),
{
    let ghost all = view_entries(entries@);
    let mut order: Vec<usize> = Vec::new();
    let mut i: usize = 0;
    while i < entries.len()
        invariant
            i <= entries@.len(),
            all == view_entries(entries@),
            picks(order@, entries@, canonical_entries(all, i as int)),
            forall|j: int| 0 <= j < order@.len() ==> (#[trigger] order@[j]) < i,
        decreases entries@.len() - i,
    {
        let ghost listed = canonical_entries(all, i as int);
        let ghost key = entries@[i as int].0@;
        let ghost value = canonical(entries@[i as int].1@);
        assert(all[i as int] == (key, entries@[i as int].1@));
        let mut p: usize = order.len();
        let mut replace = false;
        let mut placed = false;
        while p > 0 && !placed
            invariant
                p <= order@.len(),
                i < entries@.len(),
                key == entries@[i as int].0@,
                picks(order@, entries@, listed),
                forall|j: int|
                    p <= j < listed.len() ==> !bytes_less((#[trigger] listed[j]).0, key)
                        && listed[j].0 != key,
                placed ==> p > 0,
                placed && replace ==> listed[p - 1].0 == key && !bytes_less(listed[p - 1].0, key),
                placed && !replace ==> bytes_less(listed[p - 1].0, key),
                !placed ==> !replace,
            decreases p + (if placed { 0int } else { 1int }),
        {
            let held = order[p - 1];
            assert(listed[p - 1].0 == entries@[held as int].0@);
            match compare_keys(entries[held].0.as_slice(), entries[i].0.as_slice()) {
                KeyOrder::Less => {
                    placed = true;
                },
                KeyOrder::Equal => {
                    placed = true;
                    replace = true;
                },
                KeyOrder::Greater => {
                    p -= 1;
                },
            }
        }
        proof {
            lemma_dict_insert_at(listed, key, value, p as int);
        }
        if replace {
            order.set(p - 1, i);
        } else {
            order.insert(p, i);
        }
        i += 1;
    }
    order
}

/// Appends the text of a byte string: its length, a colon, its bytes.
fn push_bytes(out: &mut Vec<u8>, s: &[u8])
    ensures
        final(out)@ == old(out)@ + serialize_bytes(s@),
{
    push_number(out, s.len() as u64);
    out.push(BYTE_COLON);
    out.extend_from_slice(s);
    assert(out@ =~= old(out)@ + serialize_bytes(s@));
}

/// Appends the canonical text of `v`.
fn encode_into(v: &BencodeType, out: &mut Vec<u8>)
    ensures
        final(out)@ == old(out)@ + serialize(canonical(v@)),
    decreases v,
{
    match v {
        BencodeType::Int(i) => {
            out.push(BYTE_I);
            push_integer(out, *i);
            out.push(BYTE_E);
            assert(out@ =~= old(out)@ + serialize(canonical(v@)));
        },
        BencodeType::Str(s) => {
            push_bytes(out, s.as_slice());
        },
        BencodeType::List(items) => {
            proof {
                lemma_view_list(*items);
            }
            let ghost listed = canonical(v@)->List_0;
            out.push(BYTE_L);
            let mut i: usize = 0;
            while i < items.len()
                invariant
                    i <= items@.len(),
                    *v == BencodeType::List(*items),
                    listed.len() == items@.len(),
                    forall|k: int| 0 <= k < items@.len() ==> listed[k] == canonical(items@[k]@),
                    out@ == old(out)@ + seq![BYTE_L] + serialize_items(listed, i as int),
                decreases items@.len() - i,
            {
                proof {
                    assert(v->List_0 == *items);
                    assert(decreases_to!(*v => v->List_0));
                    vstd::std_specs::vec::axiom_vec_index_decreases(*items, i as int);
                }
                encode_into(&items[i], out);
                i += 1;
                assert(out@ =~= old(out)@ + seq![BYTE_L] + serialize_items(listed, i as int));
            }
            out.push(BYTE_E);
            assert(out@ =~= old(out)@ + serialize(canonical(v@)));
        },
        BencodeType::Dict(entries) => {
            proof {
                lemma_view_dict(*entries);
            }
            let ghost listed = canonical(v@)->Dictionary_0;
            let order = canonical_order(entries);
            out.push(BYTE_D);
            let mut j: usize = 0;
            while j < order.len()
                invariant
                    j <= order@.len(),
                    *v == BencodeType::Dict(*entries),
                    picks(order@, entries@, listed),
                    out@ == old(out)@ + seq![BYTE_D] + serialize_entries(listed, j as int),
                decreases order@.len() - j,
            {
                let at = order[j];
                proof {
                    assert(v->Dict_0 == *entries);
                    assert(decreases_to!(*v => v->Dict_0));
                    vstd::std_specs::vec::axiom_vec_index_decreases(*entries, at as int);
                    assert(decreases_to!(entries@[at as int] => entries@[at as int].1));
                }
                push_bytes(out, entries[at].0.as_slice());
                encode_into(&entries[at].1, out);
                j += 1;
                assert(out@ =~= old(out)@ + seq![BYTE_D] + serialize_entries(listed, j as int));
            }
            out.push(BYTE_E);
            assert(out@ =~= old(out)@ + serialize(canonical(v@)));
        },
    }
}

/// The text of `v` as [`canonical`] lists it.
pub open spec fn encode_spec(v: Value) -> Seq<u8> {
    serialize(canonical(v))
}

/// Encodes a value in canonical form: every dictionary with one entry for
/// each of its keys, the one that counts, in ascending order of the raw key
/// bytes. There is no value that cannot be encoded.
pub fn encode(v: &BencodeType) -> (out: Vec<u8>)
    ensures
        out@ == encode_spec(v@),
{
    let mut out: Vec<u8> = Vec::new();
    encode_into(v, &mut out);
    assert(out@ =~= encode_spec(v@));
    out
}

impl BencodeType {
    /// The value that a dictionary gives to `key`: that of its last entry
    /// with this key. `None` where it has no such entry, and where `self` is
    /// no dictionary.
    pub fn get(&self, key: &[u8]) -> (r: Option<&BencodeType>)
        ensures
            match self@ {
                Value::Dictionary(entries) => match r {
                    Some(found) => lookup(entries, entries.len() as int, key@) == Some(found@),
                    None => lookup(entries, entries.len() as int, key@) is None,
                },
                _ => r is None,
            },
    {
        match self {
            BencodeType::Dict(entries) => {
                proof {
                    lemma_view_dict(*entries);
                }
                let ghost all = view_entries(entries@);
                let mut n: usize = entries.len();
                while n > 0
                    invariant
                        n <= entries@.len(),
                        *self == BencodeType::Dict(*entries),
                        all == view_entries(entries@),
                        lookup(all, all.len() as int, key@) == lookup(all, n as int, key@),
                    decreases n,
                {
                    match compare_keys(entries[n - 1].0.as_slice(), key) {
                        KeyOrder::Equal => {
                            proof {
                                lemma_view_dict(*entries);
                                assert(all[n - 1] == (entries@[n - 1].0@, entries@[n - 1].1@));
                                assert(lookup(all, n as int, key@) == Some(entries@[n - 1].1@));
                            }
                            return Some(&entries[n - 1].1);
                        },
                        _ => {
                            assert(all[n - 1].0 != key@);
                            n -= 1;
                        },
                    }
                }
                None
            },
            _ => None,
        }
    }
}

} // verus!

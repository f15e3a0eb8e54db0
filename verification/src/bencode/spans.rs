//! Spans and the bytes under them.
//!
//! A span tree that fits a value gives every node the range of the text
//! that is the text of that node. So the bytes under the span of a node
//! can be hashed as they stand.

use super::model::{
    lookup, serialize, serialize_bytes, serialize_entries, serialize_items, Value,
};
use super::roundtrip::{lemma_serialize_entries_grows, lemma_serialize_items_grows};
use super::{entry_fits, lemma_view_dict, view_entries, Bencode, BencodeType, Span, SpanTree};
use crate::bencode::encode::{compare_keys, KeyOrder};
use vstd::prelude::*;
use vstd::slice::slice_subrange;

verus! {

/// The bytes of `text` under `span`.
pub open spec fn under(text: Seq<u8>, span: Span) -> Seq<u8> {
    text.subrange(span.start as int, span.end as int)
}

/// In the text of a list, the text of item `i` stands behind the `l` and
/// the texts of the items before it.
pub proof fn lemma_item_text(items: Seq<Value>, i: int)
    requires
        0 <= i < items.len(),
    ensures
        ({
            let text = serialize(Value::List(items));
            let at: int = 1 + serialize_items(items, i).len() as int;
            &&& at + serialize(items[i]).len() < text.len()
            &&& text.subrange(at, at + serialize(items[i]).len()) == serialize(items[i])
        }),
{
    let n = items.len() as int;
    let text = serialize(Value::List(items));
    let whole = serialize_items(items, n);
    let before = serialize_items(items, i);
    let upto = serialize_items(items, i + 1);
    let at: int = 1 + before.len() as int;
    lemma_serialize_items_grows(items, i + 1, n);
    assert(upto == before + serialize(items[i]));
    assert(text.len() == whole.len() + 2);
    assert forall|k: int| 0 <= k < serialize(items[i]).len() implies text.subrange(
        at,
        at + serialize(items[i]).len(),
    )[k] == serialize(items[i])[k] by {
        let off = before.len() + k;
        assert(text[at + k] == whole[off]);
        assert(whole[off] == whole.subrange(0, upto.len() as int)[off]);
    }
    assert(text.subrange(at, at + serialize(items[i]).len()) =~= serialize(items[i]));
}

/// In the text of a dictionary, the text of entry `i` stands behind the
/// `d` and the texts of the entries before it: first the key, as a byte
/// string, then the value.
pub proof fn lemma_entry_text(entries: Seq<(Seq<u8>, Value)>, i: int)
    requires
        0 <= i < entries.len(),
    ensures
        ({
            let text = serialize(Value::Dictionary(entries));
            let at: int = 1 + serialize_entries(entries, i).len() as int;
            let key_len: int = serialize_bytes(entries[i].0).len() as int;
            let value_len: int = serialize(entries[i].1).len() as int;
            &&& at + key_len + value_len < text.len()
            &&& text.subrange(at, at + key_len) == serialize_bytes(entries[i].0)
            &&& text.subrange(at + key_len, at + key_len + value_len) == serialize(entries[i].1)
        }),
{
    let n = entries.len() as int;
    let text = serialize(Value::Dictionary(entries));
    let whole = serialize_entries(entries, n);
    let before = serialize_entries(entries, i);
    let upto = serialize_entries(entries, i + 1);
    let key_text = serialize_bytes(entries[i].0);
    let value_text = serialize(entries[i].1);
    let at: int = 1 + before.len() as int;
    lemma_serialize_entries_grows(entries, i + 1, n);
    assert(upto == before + key_text + value_text);
    assert(text.len() == whole.len() + 2);
    assert forall|k: int| 0 <= k < key_text.len() implies text.subrange(at, at + key_text.len())[k]
        == key_text[k] by {
        let off = before.len() + k;
        assert(text[at + k] == whole[off]);
        assert(whole[off] == whole.subrange(0, upto.len() as int)[off]);
    }
    assert(text.subrange(at, at + key_text.len()) =~= key_text);
    assert forall|k: int| 0 <= k < value_text.len() implies text.subrange(
        at + key_text.len(),
        at + key_text.len() + value_text.len(),
    )[k] == value_text[k] by {
        let off = before.len() + key_text.len() + k;
        assert(text[at + key_text.len() + k] == whole[off]);
        assert(whole[off] == whole.subrange(0, upto.len() as int)[off]);
    }
    assert(text.subrange(at + key_text.len(), at + key_text.len() + value_text.len())
        =~= value_text);
}

/// The span invariant for the items of a list: where a tree fits a list
/// whose text stands at `start` in `b`, the bytes under the span of each
/// item are the text of that item, and the item's tree fits the item
/// there.
pub proof fn lemma_item_span(tree: SpanTree, items: Seq<Value>, b: Seq<u8>, start: int, i: int)
    requires
        tree.fits(Value::List(items), start),
        0 <= start,
        start + serialize(Value::List(items)).len() <= b.len(),
        b.subrange(start, start + serialize(Value::List(items)).len()) == serialize(
            Value::List(items),
        ),
        0 <= i < items.len(),
    ensures
        tree is List,
        tree->List_1@[i].fits(items[i], tree->List_1@[i].root().start as int),
        tree->List_1@[i].root().end <= b.len(),
        under(b, tree->List_1@[i].root()) == serialize(items[i]),
{
    let text = serialize(Value::List(items));
    let kid = tree->List_1@[i];
    lemma_item_text(items, i);
    let at: int = 1 + serialize_items(items, i).len() as int;
    assert(kid.fits(items[i], start + at));
    let len: int = serialize(items[i]).len() as int;
    assert forall|k: int| 0 <= k < len implies under(b, kid.root())[k] == serialize(items[i])[k] by {
        assert(b[start + at + k] == b.subrange(start, start + text.len())[at + k]);
        assert(text[at + k] == text.subrange(at, at + len)[k]);
    }
    assert(under(b, kid.root()) =~= serialize(items[i]));
}

/// The span invariant for the entries of a dictionary: where a tree fits a
/// dictionary whose text stands at `start` in `b`, the bytes under the
/// span of each key are the key as a byte string, the bytes under the span
/// of each value are the text of that value, and the value's tree fits the
/// value there.
pub proof fn lemma_entry_span(
    tree: SpanTree,
    entries: Seq<(Seq<u8>, Value)>,
    b: Seq<u8>,
    start: int,
    i: int,
)
    requires
        tree.fits(Value::Dictionary(entries), start),
        0 <= start,
        start + serialize(Value::Dictionary(entries)).len() <= b.len(),
        b.subrange(start, start + serialize(Value::Dictionary(entries)).len()) == serialize(
            Value::Dictionary(entries),
        ),
        0 <= i < entries.len(),
    ensures
        tree is Dict,
        tree->Dict_1@[i].1.fits(entries[i].1, tree->Dict_1@[i].1.root().start as int),
        tree->Dict_1@[i].0.end == tree->Dict_1@[i].1.root().start,
        tree->Dict_1@[i].1.root().end <= b.len(),
        under(b, tree->Dict_1@[i].0) == serialize_bytes(entries[i].0),
        under(b, tree->Dict_1@[i].1.root()) == serialize(entries[i].1),
{
    let text = serialize(Value::Dictionary(entries));
    let kid = tree->Dict_1@[i];
    lemma_entry_text(entries, i);
    let at: int = 1 + serialize_entries(entries, i).len() as int;
    assert(entry_fits(kid, entries[i], start + at));
    let key_len: int = serialize_bytes(entries[i].0).len() as int;
    let len: int = serialize(entries[i].1).len() as int;
    assert forall|k: int| 0 <= k < key_len implies under(b, kid.0)[k] == serialize_bytes(
        entries[i].0,
    )[k] by {
        assert(b[start + at + k] == b.subrange(start, start + text.len())[at + k]);
        assert(text[at + k] == text.subrange(at, at + key_len)[k]);
    }
    assert(under(b, kid.0) =~= serialize_bytes(entries[i].0));
    assert forall|k: int| 0 <= k < len implies under(b, kid.1.root())[k] == serialize(
        entries[i].1,
    )[k] by {
        assert(b[start + at + key_len + k] == b.subrange(start, start + text.len())[at + key_len
            + k]);
        assert(text[at + key_len + k] == text.subrange(at + key_len, at + key_len + len)[k]);
    }
    assert(under(b, kid.1.root()) =~= serialize(entries[i].1));
}

impl<'a> Bencode<'a> {
    /// The parts of a decoded value belong together: `slice` holds the text
    /// of `node`, `len` is its length, and `spans` gives every node of
    /// `node` its range of `slice`. [`Bencode::from_u8`] returns such values.
    pub open spec fn well_formed(&self) -> bool {
        &&& self.slice@ == serialize(self.node@)
        &&& self.len == self.slice@.len()
        &&& self.spans.fits(self.node@, 0)
    }

    /// The bytes that the value of `key` was read from, in a decoded
    /// dictionary: the text of the value that the dictionary gives to
    /// `key`, as the buffer holds it. `None` where the dictionary gives the
    /// key no value, and where the decoded value is no dictionary.
    pub fn source_of(&self, key: &[u8]) -> (r: Option<&'a [u8]>)
        requires
            self.well_formed(),
        ensures
            match self.node@ {
                Value::Dictionary(entries) => match lookup(entries, entries.len() as int, key@) {
                    Some(v) => r matches Some(s) && s@ == serialize(v),
                    None => r is None,
                },
                _ => r is None,
            },
    {
        match (&self.node, &self.spans) {
            (BencodeType::Dict(entries), SpanTree::Dict(_, kids)) => {
                proof {
                    lemma_view_dict(*entries);
                }
                let ghost all = view_entries(entries@);
                let source: &'a [u8] = self.slice;
                let mut n: usize = entries.len();
                while n > 0
                    invariant
                        n <= entries@.len(),
                        self.node == BencodeType::Dict(*entries),
                        self.spans is Dict,
                        self.spans->Dict_1 == *kids,
                        self.well_formed(),
                        source == self.slice,
                        all == view_entries(entries@),
                        lookup(all, all.len() as int, key@) == lookup(all, n as int, key@),
                    decreases n,
                {
                    match compare_keys(entries[n - 1].0.as_slice(), key) {
                        KeyOrder::Equal => {
                            proof {
                                lemma_view_dict(*entries);
                                assert(all[n - 1] == (entries@[n - 1].0@, entries@[n - 1].1@));
                                assert(self.slice@.subrange(0, self.slice@.len() as int)
                                    =~= self.slice@);
                                lemma_entry_span(self.spans, all, self.slice@, 0, n - 1);
                            }
                            let span = kids[n - 1].1.span();
                            return Some(slice_subrange(source, span.start, span.end));
                        },
                        _ => {
                            assert(all[n - 1].0 != key@);
                            n -= 1;
                        },
                    }
                }
                None
            },
            (BencodeType::Dict(_), _) => {
                // A tree that fits a dictionary is a dictionary's tree.
                assert(false);
                None
            },
            _ => None,
        }
    }
}

} // verus!

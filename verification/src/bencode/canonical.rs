//! What the canonical form of a value keeps and what it establishes.

use super::encode::{compare_keys, KeyOrder};
use super::model::{
    bytes_less, canonical, canonical_entries, dict_insert, keys_ascending, lookup, Value,
};
use super::order::{lemma_bytes_less_total, lemma_bytes_less_transitive};
use super::{lemma_view_dict, lemma_view_list, view_entries, view_items, BencodeType};
use vstd::prelude::*;

verus! {

/// The value that the first `n` entries give to a key depends on those
/// entries alone.
pub proof fn lemma_lookup_prefix(
    a: Seq<(Seq<u8>, Value)>,
    b: Seq<(Seq<u8>, Value)>,
    n: int,
    key: Seq<u8>,
)
    requires
        0 <= n <= a.len(),
        n <= b.len(),
        forall|i: int| 0 <= i < n ==> a[i] == b[i],
    ensures
        lookup(a, n, key) == lookup(b, n, key),
    decreases n,
{
    if n > 0 {
        lemma_lookup_prefix(a, b, n - 1, key);
    }
}

/// After `dict_insert` the key has the new value, and every other key the
/// value that it had.
pub proof fn lemma_dict_insert_lookup(
    entries: Seq<(Seq<u8>, Value)>,
    key: Seq<u8>,
    value: Value,
    other: Seq<u8>,
)
    ensures
        lookup(
            dict_insert(entries, key, value),
            dict_insert(entries, key, value).len() as int,
            other,
        ) == if other == key {
            Some(value)
        } else {
            lookup(entries, entries.len() as int, other)
        },
    decreases entries.len(),
{
    let result = dict_insert(entries, key, value);
    let n = entries.len() as int;
    if n == 0 {
        assert(result[0] == (key, value));
    } else {
        let last = entries.last();
        let head = entries.drop_last();
        if bytes_less(last.0, key) {
            assert(result[n] == (key, value));
            lemma_lookup_prefix(result, entries, n, other);
        } else if last.0 == key {
            assert(result[n - 1] == (key, value));
            lemma_lookup_prefix(result, entries, n - 1, other);
        } else {
            let inner = dict_insert(head, key, value);
            lemma_dict_insert_lookup(head, key, value, other);
            assert(result == inner.push(last));
            assert(result[inner.len() as int] == last);
            lemma_lookup_prefix(result, inner, inner.len() as int, other);
            lemma_lookup_prefix(head, entries, n - 1, other);
        }
    }
}

/// What holds of the value of every entry, and of the new value, holds of
/// the value of every entry after `dict_insert`.
pub proof fn lemma_dict_insert_values(
    entries: Seq<(Seq<u8>, Value)>,
    key: Seq<u8>,
    value: Value,
    holds: spec_fn(Value) -> bool,
)
    requires
        forall|i: int| 0 <= i < entries.len() ==> holds((#[trigger] entries[i]).1),
        holds(value),
    ensures
        forall|i: int|
            0 <= i < dict_insert(entries, key, value).len() ==> holds(
                (#[trigger] dict_insert(entries, key, value)[i]).1,
            ),
    decreases entries.len(),
{
    let result = dict_insert(entries, key, value);
    if entries.len() > 0 {
        let last = entries.last();
        let head = entries.drop_last();
        assert(holds(entries[entries.len() - 1].1));
        if bytes_less(last.0, key) {
        } else if last.0 == key {
            assert forall|i: int| 0 <= i < result.len() implies holds((#[trigger] result[i]).1) by {
                if i < head.len() {
                    assert(result[i] == entries[i]);
                }
            }
        } else {
            assert forall|i: int| 0 <= i < head.len() implies holds((#[trigger] head[i]).1) by {
                assert(head[i] == entries[i]);
            }
            lemma_dict_insert_values(head, key, value, holds);
            let inner = dict_insert(head, key, value);
            assert forall|i: int| 0 <= i < result.len() implies holds((#[trigger] result[i]).1) by {
                if i < inner.len() {
                    assert(result[i] == inner[i]);
                }
            }
        }
    }
}

/// Where every key of the entries, and the new key, comes before `bound`,
/// so does every key after `dict_insert`.
proof fn lemma_dict_insert_below(
    entries: Seq<(Seq<u8>, Value)>,
    key: Seq<u8>,
    value: Value,
    bound: Seq<u8>,
)
    requires
        forall|i: int| 0 <= i < entries.len() ==> bytes_less((#[trigger] entries[i]).0, bound),
        bytes_less(key, bound),
    ensures
        forall|i: int|
            0 <= i < dict_insert(entries, key, value).len() ==> bytes_less(
                (#[trigger] dict_insert(entries, key, value)[i]).0,
                bound,
            ),
    decreases entries.len(),
{
    let result = dict_insert(entries, key, value);
    if entries.len() > 0 {
        let last = entries.last();
        let head = entries.drop_last();
        assert(bytes_less(entries[entries.len() - 1].0, bound));
        if bytes_less(last.0, key) {
        } else if last.0 == key {
            assert forall|i: int| 0 <= i < result.len() implies bytes_less(
                (#[trigger] result[i]).0,
                bound,
            ) by {
                if i < head.len() {
                    assert(result[i] == entries[i]);
                }
            }
        } else {
            assert forall|i: int| 0 <= i < head.len() implies bytes_less(
                (#[trigger] head[i]).0,
                bound,
            ) by {
                assert(head[i] == entries[i]);
            }
            lemma_dict_insert_below(head, key, value, bound);
            let inner = dict_insert(head, key, value);
            assert forall|i: int| 0 <= i < result.len() implies bytes_less(
                (#[trigger] result[i]).0,
                bound,
            ) by {
                if i < inner.len() {
                    assert(result[i] == inner[i]);
                }
            }
        }
    }
}

/// `dict_insert` keeps ascending keys ascending.
pub proof fn lemma_dict_insert_ascending(
    entries: Seq<(Seq<u8>, Value)>,
    key: Seq<u8>,
    value: Value,
)
    requires
        keys_ascending(entries),
    ensures
        keys_ascending(dict_insert(entries, key, value)),
    decreases entries.len(),
{
    let result = dict_insert(entries, key, value);
    let n = entries.len() as int;
    if n > 0 {
        let last = entries.last();
        let head = entries.drop_last();
        if bytes_less(last.0, key) {
            assert forall|i: int, j: int| 0 <= i < j < result.len() implies bytes_less(
                #[trigger] result[i].0,
                #[trigger] result[j].0,
            ) by {
                if j < n {
                    assert(result[i] == entries[i] && result[j] == entries[j]);
                } else {
                    assert(result[i] == entries[i]);
                    if i < n - 1 {
                        assert(bytes_less(entries[i].0, entries[n - 1].0));
                        lemma_bytes_less_transitive(entries[i].0, last.0, key);
                    }
                }
            }
        } else if last.0 == key {
            assert forall|i: int, j: int| 0 <= i < j < result.len() implies bytes_less(
                #[trigger] result[i].0,
                #[trigger] result[j].0,
            ) by {
                assert(result[i].0 == entries[i].0 && result[j].0 == entries[j].0);
            }
        } else {
            lemma_bytes_less_total(last.0, key);
            assert(keys_ascending(head)) by {
                assert forall|i: int, j: int| 0 <= i < j < head.len() implies bytes_less(
                    #[trigger] head[i].0,
                    #[trigger] head[j].0,
                ) by {
                    assert(head[i] == entries[i] && head[j] == entries[j]);
                }
            }
            lemma_dict_insert_ascending(head, key, value);
            assert forall|i: int| 0 <= i < head.len() implies bytes_less(
                (#[trigger] head[i]).0,
                last.0,
            ) by {
                assert(head[i] == entries[i]);
                assert(bytes_less(entries[i].0, entries[n - 1].0));
            }
            lemma_dict_insert_below(head, key, value, last.0);
            let inner = dict_insert(head, key, value);
            assert forall|i: int, j: int| 0 <= i < j < result.len() implies bytes_less(
                #[trigger] result[i].0,
                #[trigger] result[j].0,
            ) by {
                assert(result[i] == inner[i]);
                if j < inner.len() {
                    assert(result[j] == inner[j]);
                }
            }
        }
    } else {
        assert(result.len() == 1);
    }
}

/// What holds of the canonical form of the value of each of the first `n`
/// entries holds of every value of their canonical form.
pub proof fn lemma_canonical_entries_values(
    entries: Seq<(Seq<u8>, Value)>,
    n: int,
    holds: spec_fn(Value) -> bool,
)
    requires
        0 <= n <= entries.len(),
        forall|i: int| 0 <= i < n ==> holds(canonical((#[trigger] entries[i]).1)),
    ensures
        forall|i: int|
            0 <= i < canonical_entries(entries, n).len() ==> holds(
                (#[trigger] canonical_entries(entries, n)[i]).1,
            ),
    decreases n,
{
    if n > 0 {
        lemma_canonical_entries_values(entries, n - 1, holds);
        assert(holds(canonical(entries[n - 1].1)));
        lemma_dict_insert_values(
            canonical_entries(entries, n - 1),
            entries[n - 1].0,
            canonical(entries[n - 1].1),
            holds,
        );
    }
}

/// The canonical form of the first `n` entries has ascending keys.
pub proof fn lemma_canonical_entries_ascending(entries: Seq<(Seq<u8>, Value)>, n: int)
    requires
        0 <= n <= entries.len(),
    ensures
        keys_ascending(canonical_entries(entries, n)),
    decreases n,
{
    if n > 0 {
        lemma_canonical_entries_ascending(entries, n - 1);
        lemma_dict_insert_ascending(
            canonical_entries(entries, n - 1),
            entries[n - 1].0,
            canonical(entries[n - 1].1),
        );
    }
}

/// The canonical form of a dictionary gives every key the canonical form of
/// the value that the dictionary gives it, and no value to a key that the
/// dictionary gives none.
pub proof fn lemma_canonical_entries_lookup(
    entries: Seq<(Seq<u8>, Value)>,
    n: int,
    key: Seq<u8>,
)
    requires
        0 <= n <= entries.len(),
    ensures
        lookup(
            canonical_entries(entries, n),
            canonical_entries(entries, n).len() as int,
            key,
        ) == match lookup(entries, n, key) {
            Some(v) => Some(canonical(v)),
            None => None,
        },
    decreases n,
{
    if n > 0 {
        lemma_canonical_entries_lookup(entries, n - 1, key);
        lemma_dict_insert_lookup(
            canonical_entries(entries, n - 1),
            entries[n - 1].0,
            canonical(entries[n - 1].1),
            key,
        );
    }
}

/// The canonical form of a value is canonical: in every dictionary of it
/// the keys ascend.
pub proof fn lemma_canonical_is_canonical(v: Value)
    ensures
        canonical(v).is_canonical(),
    decreases v,
{
    match v {
        Value::Integer(_) => {},
        Value::ByteString(_) => {},
        Value::List(items) => {
            assert forall|i: int| 0 <= i < items.len() implies (#[trigger] canonical(
                v,
            )->List_0[i]).is_canonical() by {
                lemma_canonical_is_canonical(items[i]);
            }
        },
        Value::Dictionary(entries) => {
            let n = entries.len() as int;
            assert forall|i: int| 0 <= i < n implies canonical(
                (#[trigger] entries[i]).1,
            ).is_canonical() by {
                lemma_canonical_is_canonical(entries[i].1);
            }
            lemma_canonical_entries_values(entries, n, |x: Value| x.is_canonical());
            lemma_canonical_entries_ascending(entries, n);
        },
    }
}

/// The canonical form keeps integers within 64 bits.
pub proof fn lemma_canonical_well_formed(v: Value)
    requires
        v.well_formed(),
    ensures
        canonical(v).well_formed(),
    decreases v,
{
    match v {
        Value::Integer(_) => {},
        Value::ByteString(_) => {},
        Value::List(items) => {
            assert forall|i: int| 0 <= i < items.len() implies (#[trigger] canonical(
                v,
            )->List_0[i]).well_formed() by {
                lemma_canonical_well_formed(items[i]);
            }
        },
        Value::Dictionary(entries) => {
            let n = entries.len() as int;
            assert forall|i: int| 0 <= i < n implies canonical(
                (#[trigger] entries[i]).1,
            ).well_formed() by {
                lemma_canonical_well_formed(entries[i].1);
            }
            let holds = |x: Value| x.well_formed();
            assert forall|i: int| 0 <= i < n implies holds(canonical((#[trigger] entries[i]).1)) by {
                assert(canonical(entries[i].1).well_formed());
            }
            lemma_canonical_entries_values(entries, n, holds);
            let listed = canonical_entries(entries, n);
            assert forall|i: int| 0 <= i < listed.len() implies (#[trigger] listed[i]).1.well_formed() by {
                assert(holds(listed[i].1));
            }
        },
    }
}

/// The canonical form nests no deeper than the value.
pub proof fn lemma_canonical_depth(v: Value, depth: nat)
    requires
        v.depth_at_most(depth),
    ensures
        canonical(v).depth_at_most(depth),
    decreases v,
{
    match v {
        Value::Integer(_) => {},
        Value::ByteString(_) => {},
        Value::List(items) => {
            assert forall|i: int| 0 <= i < items.len() implies (#[trigger] canonical(
                v,
            )->List_0[i]).depth_at_most((depth - 1) as nat) by {
                lemma_canonical_depth(items[i], (depth - 1) as nat);
            }
        },
        Value::Dictionary(entries) => {
            let n = entries.len() as int;
            assert forall|i: int| 0 <= i < n implies canonical(
                (#[trigger] entries[i]).1,
            ).depth_at_most((depth - 1) as nat) by {
                lemma_canonical_depth(entries[i].1, (depth - 1) as nat);
            }
            let holds = |x: Value| x.depth_at_most((depth - 1) as nat);
            assert forall|i: int| 0 <= i < n implies holds(canonical((#[trigger] entries[i]).1)) by {
                assert(canonical(entries[i].1).depth_at_most((depth - 1) as nat));
            }
            lemma_canonical_entries_values(entries, n, holds);
            let listed = canonical_entries(entries, n);
            assert forall|i: int| 0 <= i < listed.len() implies (#[trigger] listed[i]).1.depth_at_most(
                (depth - 1) as nat,
            ) by {
                assert(holds(listed[i].1));
            }
        },
    }
}

/// The canonical form of entries whose keys ascend, and whose values are
/// canonical, is those entries.
pub proof fn lemma_canonical_entries_fixed(entries: Seq<(Seq<u8>, Value)>, n: int)
    requires
        0 <= n <= entries.len(),
        keys_ascending(entries),
        forall|i: int| 0 <= i < n ==> canonical((#[trigger] entries[i]).1) == entries[i].1,
    ensures
        canonical_entries(entries, n) == entries.subrange(0, n),
    decreases n,
{
    if n > 0 {
        lemma_canonical_entries_fixed(entries, n - 1);
        let before = entries.subrange(0, n - 1);
        assert(canonical(entries[n - 1].1) == entries[n - 1].1);
        if n > 1 {
            assert(before.last() == entries[n - 2]);
            assert(bytes_less(entries[n - 2].0, entries[n - 1].0));
        }
        assert(dict_insert(before, entries[n - 1].0, entries[n - 1].1) =~= entries.subrange(0, n));
    } else {
        assert(canonical_entries(entries, n) =~= entries.subrange(0, n));
    }
}

/// A canonical value is its own canonical form.
pub proof fn lemma_canonical_fixed(v: Value)
    requires
        v.is_canonical(),
    ensures
        canonical(v) == v,
    decreases v,
{
    match v {
        Value::Integer(_) => {},
        Value::ByteString(_) => {},
        Value::List(items) => {
            assert forall|i: int| 0 <= i < items.len() implies canonical(v)->List_0[i]
                == items[i] by {
                lemma_canonical_fixed(items[i]);
            }
            assert(canonical(v)->List_0 =~= items);
        },
        Value::Dictionary(entries) => {
            let n = entries.len() as int;
            assert forall|i: int| 0 <= i < n implies canonical((#[trigger] entries[i]).1)
                == entries[i].1 by {
                lemma_canonical_fixed(entries[i].1);
            }
            lemma_canonical_entries_fixed(entries, n);
            assert(entries.subrange(0, n) =~= entries);
        },
    }
}

impl BencodeType {
    /// Whether the value is canonical: whether in every dictionary of it
    /// the keys ascend, so that [`encode`](super::encode::encode) writes the
    /// entries in the order in which the value holds them.
    pub fn is_canonical(&self) -> (r: bool)
        ensures
            r == self@.is_canonical(),
        decreases self,
    {
        match self {
            BencodeType::Int(_) => true,
            BencodeType::Str(_) => true,
            BencodeType::List(items) => {
                proof {
                    lemma_view_list(*items);
                }
                let ghost all = view_items(items@);
                let mut i: usize = 0;
                while i < items.len()
                    invariant
                        i <= items@.len(),
                        *self == BencodeType::List(*items),
                        all == view_items(items@),
                        self@ == Value::List(all),
                        forall|k: int| 0 <= k < i ==> (#[trigger] all[k]).is_canonical(),
                    decreases items@.len() - i,
                {
                    proof {
                        assert(self->List_0 == *items);
                        assert(decreases_to!(*self => self->List_0));
                        vstd::std_specs::vec::axiom_vec_index_decreases(*items, i as int);
                    }
                    assert(all[i as int] == items@[i as int]@);
                    if !items[i].is_canonical() {
                        assert(Value::List(all)->List_0 == all);
                        assert(Value::List(all).is_canonical() ==> all[i as int].is_canonical());
                        return false;
                    }
                    i += 1;
                }
                true
            },
            BencodeType::Dict(entries) => {
                proof {
                    lemma_view_dict(*entries);
                }
                let ghost all = view_entries(entries@);
                let mut i: usize = 0;
                while i < entries.len()
                    invariant
                        i <= entries@.len(),
                        *self == BencodeType::Dict(*entries),
                        all == view_entries(entries@),
                        self@ == Value::Dictionary(all),
                        forall|k: int| 0 <= k < i ==> (#[trigger] all[k]).1.is_canonical(),
                        forall|a: int, b: int|
                            0 <= a < b < i ==> bytes_less(#[trigger] all[a].0, #[trigger] all[b].0),
                    decreases entries@.len() - i,
                {
                    proof {
                        assert(self->Dict_0 == *entries);
                        assert(decreases_to!(*self => self->Dict_0));
                        vstd::std_specs::vec::axiom_vec_index_decreases(*entries, i as int);
                        assert(decreases_to!(entries@[i as int] => entries@[i as int].1));
                        assert(all[i as int] == (entries@[i as int].0@, entries@[i as int].1@));
                    }
                    if i > 0 {
                        assert(all[i - 1] == (entries@[i - 1].0@, entries@[i - 1].1@));
                        match compare_keys(entries[i - 1].0.as_slice(), entries[i].0.as_slice()) {
                            KeyOrder::Less => {
                                assert forall|a: int| 0 <= a < i implies bytes_less(
                                    #[trigger] all[a].0,
                                    all[i as int].0,
                                ) by {
                                    if a < i - 1 {
                                        assert(bytes_less(all[a].0, all[i - 1].0));
                                        lemma_bytes_less_transitive(
                                            all[a].0,
                                            all[i - 1].0,
                                            all[i as int].0,
                                        );
                                    }
                                }
                            },
                            _ => {
                                assert(!bytes_less(all[i - 1].0, all[i as int].0));
                                return false;
                            },
                        }
                    }
                    if !entries[i].1.is_canonical() {
                        assert(!all[i as int].1.is_canonical());
                        return false;
                    }
                    i += 1;
                }
                true
            },
        }
    }
}

} // verus!

//! A map as the sorted sequence of its entries.

use crate::order::{
    lemma_found_at_lower_bound, lemma_lower_bound, lemma_lower_bound_is, lemma_sorted_insert,
    lower_bound, strictly_sorted, TotalOrder,
};
use vstd::prelude::*;

verus! {

/// The views of the keys of `entries`, in their order.
pub open spec fn entry_keys<K: TotalOrder, V>(entries: Seq<(K, V)>) -> Seq<K::V> {
    Seq::new(entries.len(), |p: int| entries[p].0@)
}

/// The position of the first entry whose key does not come before `key`.
pub open spec fn rank_in<K: TotalOrder, V>(entries: Seq<(K, V)>, key: K::V) -> int {
    lower_bound::<K>(entry_keys(entries), key)
}

/// Whether sorted `entries` hold `key`.
pub open spec fn holds<K: TotalOrder, V>(entries: Seq<(K, V)>, key: K::V) -> bool {
    rank_in(entries, key) < entries.len() && entries[rank_in(entries, key)].0@ == key
}

/// The value that sorted `entries` hold under `key`.
pub open spec fn lookup_in<K: TotalOrder, V>(entries: Seq<(K, V)>, key: K::V) -> Option<V> {
    if holds(entries, key) {
        Some(entries[rank_in(entries, key)].1)
    } else {
        None
    }
}

/// What inserting `value` under `key` makes of sorted `entries`: the value
/// of the entry under that key is replaced, or a new entry enters at the
/// place of the key.
pub open spec fn inserted<K: TotalOrder, V>(entries: Seq<(K, V)>, key: K, value: V) -> Seq<(K, V)> {
    let at = rank_in(entries, key@);
    if holds(entries, key@) {
        entries.update(at, (entries[at].0, value))
    } else {
        entries.insert(at, (key, value))
    }
}

/// An empty map holds nothing.
pub proof fn lemma_lookup_empty<K: TotalOrder, V>(key: K::V)
    ensures
        lookup_in(Seq::<(K, V)>::empty(), key) is None,
{
}

/// An entry of a sorted map is found under its key.
pub proof fn lemma_lookup_entry<K: TotalOrder, V>(entries: Seq<(K, V)>, p: int)
    requires
        strictly_sorted::<K>(entry_keys(entries)),
        0 <= p < entries.len(),
    ensures
        rank_in(entries, entries[p].0@) == p,
        lookup_in(entries, entries[p].0@) == Some(entries[p].1),
{
    lemma_found_at_lower_bound::<K>(entry_keys(entries), entries[p].0@, p);
}

/// After an insertion the map is still sorted, holds the inserted value
/// under its key, and holds under every other key what it held before.
pub proof fn lemma_inserted<K: TotalOrder, V>(entries: Seq<(K, V)>, key: K, value: V, other: K::V)
    requires
        strictly_sorted::<K>(entry_keys(entries)),
    ensures
        strictly_sorted::<K>(entry_keys(inserted(entries, key, value))),
        lookup_in(inserted(entries, key, value), key@) == Some(value),
        other != key@ ==> lookup_in(inserted(entries, key, value), other) == lookup_in(
            entries,
            other,
        ),
        inserted(entries, key, value).len() == entries.len() + if holds(entries, key@) {
            0int
        } else {
            1int
        },
{
    let keys = entry_keys(entries);
    let at = rank_in(entries, key@);
    let after = inserted(entries, key, value);
    let keys2 = entry_keys(after);
    lemma_lower_bound::<K>(keys, key@);
    if holds(entries, key@) {
        assert(keys2 =~= keys);
        assert(rank_in(after, key@) == at);
        assert(keys[at] == key@);
        if other != key@ {
            let lb = rank_in(entries, other);
            lemma_lower_bound::<K>(keys, other);
            if lb < keys.len() && lb != at {
                assert(after[lb] == entries[lb]);
            }
            if lb < keys.len() {
                assert(keys[lb] == entries[lb].0@);
                assert(keys2[lb] == after[lb].0@);
            }
        }
    } else {
        assert(keys2 =~= keys.insert(at, key@));
        lemma_sorted_insert::<K>(keys, key@);
        lemma_found_at_lower_bound::<K>(keys2, key@, at);
        if other != key@ {
            lemma_lower_bound::<K>(keys, other);
            let lb = lower_bound::<K>(keys, other);
            K::lemma_total(key@, other);
            if K::precedes(key@, other) {
                assert(at <= lb) by {
                    if lb < at {
                        K::lemma_transitive(keys[lb], key@, other);
                    }
                }
                assert forall|p: int| 0 <= p < lb + 1 implies K::precedes(
                    #[trigger] keys2[p],
                    other,
                ) by {
                    if p < at {
                        assert(keys2[p] == keys[p]);
                    } else if p > at {
                        assert(keys2[p] == keys[p - 1]);
                    }
                }
                assert forall|p: int| lb + 1 <= p < keys2.len() implies !K::precedes(
                    #[trigger] keys2[p],
                    other,
                ) by {
                    assert(keys2[p] == keys[p - 1]);
                }
                lemma_lower_bound_is::<K>(keys2, other, lb + 1);
                if lb < keys.len() {
                    assert(after[lb + 1] == entries[lb]);
                }
            } else {
                assert(lb <= at) by {
                    if at < lb {
                        K::lemma_irreflexive(other);
                        K::lemma_total(keys[at], key@);
                        K::lemma_transitive(other, key@, keys[at]);
                        K::lemma_transitive(other, keys[at], other);
                    }
                }
                assert forall|p: int| 0 <= p < lb implies K::precedes(
                    #[trigger] keys2[p],
                    other,
                ) by {
                    assert(keys2[p] == keys[p]);
                }
                assert forall|p: int| lb <= p < keys2.len() implies !K::precedes(
                    #[trigger] keys2[p],
                    other,
                ) by {
                    if p < at {
                        assert(keys2[p] == keys[p]);
                    } else if p > at {
                        assert(keys2[p] == keys[p - 1]);
                    }
                }
                lemma_lower_bound_is::<K>(keys2, other, lb);
                assert(keys2[lb] == after[lb].0@);
                if lb < at {
                    assert(after[lb] == entries[lb]);
                    assert(keys[lb] == entries[lb].0@);
                } else if lb < keys.len() {
                    assert(keys[lb] == entries[lb].0@);
                }
            }
        }
    }
}

/// What a run of insertions into an empty map leaves, the first
/// insertion first.
pub open spec fn after_inserts<K: TotalOrder, V>(ops: Seq<(K, V)>) -> Seq<(K, V)>
    decreases ops.len(),
{
    if ops.len() == 0 {
        Seq::empty()
    } else {
        inserted(after_inserts(ops.drop_last()), ops.last().0, ops.last().1)
    }
}

/// The value of the last insertion of `ops` under `key`.
pub open spec fn last_inserted<K: TotalOrder, V>(ops: Seq<(K, V)>, key: K::V) -> Option<V>
    decreases ops.len(),
{
    if ops.len() == 0 {
        None
    } else if ops.last().0@ == key {
        Some(ops.last().1)
    } else {
        last_inserted(ops.drop_last(), key)
    }
}

/// After any run of insertions the entries are in strictly ascending order
/// of their keys, and a key holds the value that was inserted under it
/// last, or nothing where none was.
pub proof fn lemma_after_inserts<K: TotalOrder, V>(ops: Seq<(K, V)>, key: K::V)
    ensures
        strictly_sorted::<K>(entry_keys(after_inserts(ops))),
        lookup_in(after_inserts(ops), key) == last_inserted(ops, key),
    decreases ops.len(),
{
    if ops.len() > 0 {
        lemma_after_inserts(ops.drop_last(), key);
        lemma_inserted(after_inserts(ops.drop_last()), ops.last().0, ops.last().1, key);
    }
}

} // verus!

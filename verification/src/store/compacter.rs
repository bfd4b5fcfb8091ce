//! Compaction to a single version: of every row only the latest entry is
//! kept.

use crate::model::key::key_lt;
use crate::model::lexical::{
    bytes_lt, lemma_bytes_lt_irreflexive, lemma_bytes_lt_transitive,
};
use crate::model::{Key, Value};
use crate::order::{strictly_sorted, TotalOrder};
use crate::store::sstable::data::{entries_size, lemma_entries_size, Entry};
use vstd::prelude::*;

verus! {

/// The keys of `entries`, in their order.
pub open spec fn keys_of(entries: Seq<Entry>) -> Seq<(Seq<u8>, u64)> {
    Seq::new(entries.len(), |p: int| entries[p].0)
}

/// Whether the entry at `p` is the first of its row: the first entry, or
/// one whose row is not that of the entry before it.
pub open spec fn opens_row(entries: Seq<Entry>, p: int) -> bool {
    p == 0 || entries[p - 1].0.0 != entries[p].0.0
}

/// What single-version compaction leaves of `entries`: the entries that
/// open a row, in their order.
pub open spec fn compacted(entries: Seq<Entry>) -> Seq<Entry>
    decreases entries.len(),
{
    if entries.len() == 0 {
        Seq::empty()
    } else if opens_row(entries, entries.len() - 1) {
        compacted(entries.drop_last()).push(entries.last())
    } else {
        compacted(entries.drop_last())
    }
}

/// Whether `out` holds a version of the row of `e` that is `e` or later.
pub open spec fn keeps_latest(out: Seq<Entry>, e: Entry) -> bool {
    exists|q: int| 0 <= q < out.len() && (#[trigger] out[q]).0.0 == e.0.0 && out[q].0.1 >= e.0.1
}

/// Each row comes strictly before every later one.
pub open spec fn rows_ascending(entries: Seq<Entry>) -> bool {
    forall|p: int, q: int|
        0 <= p < q < entries.len() ==> bytes_lt(
            (#[trigger] entries[p]).0.0,
            (#[trigger] entries[q]).0.0,
        )
}

/// Compaction of sorted entries leaves exactly one entry for every row of
/// the input, the one with the largest timestamp, and leaves the rows in
/// strictly ascending order.
pub proof fn lemma_compacted(entries: Seq<Entry>)
    requires
        strictly_sorted::<Key>(keys_of(entries)),
    ensures
        rows_ascending(compacted(entries)),
        strictly_sorted::<Key>(keys_of(compacted(entries))),
        compacted(entries).len() <= entries.len(),
        entries.len() > 0 ==> compacted(entries).len() > 0 && compacted(entries).last().0.0
            == entries.last().0.0,
        forall|q: int|
            0 <= q < compacted(entries).len() ==> entries.contains(
                #[trigger] compacted(entries)[q],
            ),
        forall|p: int|
            0 <= p < entries.len() ==> keeps_latest(compacted(entries), #[trigger] entries[p]),
    decreases entries.len(),
{
    let out = compacted(entries);
    if entries.len() > 0 {
        let n = entries.len() - 1;
        let front = entries.drop_last();
        let last = entries.last();
        let before = compacted(front);
        assert forall|p: int, q: int| 0 <= p < q < front.len() implies Key::precedes(
            #[trigger] keys_of(front)[p],
            #[trigger] keys_of(front)[q],
        ) by {
            assert(keys_of(front)[p] == keys_of(entries)[p]);
            assert(keys_of(front)[q] == keys_of(entries)[q]);
        }
        lemma_compacted(front);
        assert forall|q: int| 0 <= q < before.len() implies entries.contains(
            #[trigger] before[q],
        ) by {
            let i = choose|i: int| 0 <= i < front.len() && front[i] == before[q];
            assert(entries[i] == before[q]);
        }
        if n > 0 {
            assert(Key::precedes(keys_of(entries)[n - 1], keys_of(entries)[n]));
            lemma_bytes_lt_irreflexive(last.0.0);
        }
        if opens_row(entries, n) {
            assert(out == before.push(last));
            assert(entries[n] == last);
            assert forall|p: int, q: int| 0 <= p < q < out.len() implies bytes_lt(
                (#[trigger] out[p]).0.0,
                (#[trigger] out[q]).0.0,
            ) by {
                if q == out.len() - 1 {
                    // The last kept row is that of `entries[n - 1]`, which
                    // comes before the row of `last`.
                    assert(before.last().0.0 == front.last().0.0);
                    assert(front.last() == entries[n - 1]);
                    assert(bytes_lt(entries[n - 1].0.0, last.0.0));
                    if p < before.len() - 1 {
                        assert(bytes_lt(before[p].0.0, before[before.len() - 1].0.0));
                        lemma_bytes_lt_transitive(out[p].0.0, before.last().0.0, last.0.0);
                    }
                } else {
                    assert(out[p] == before[p] && out[q] == before[q]);
                }
            }
            assert forall|q: int| 0 <= q < out.len() implies entries.contains(
                #[trigger] out[q],
            ) by {
                if q < before.len() {
                    assert(out[q] == before[q]);
                }
            }
            assert forall|p: int| 0 <= p < entries.len() implies keeps_latest(
                out,
                #[trigger] entries[p],
            ) by {
                if p == n {
                    assert(out[out.len() - 1] == last);
                } else {
                    assert(front[p] == entries[p]);
                    assert(keeps_latest(before, front[p]));
                    let q = choose|q: int|
                        0 <= q < before.len() && (#[trigger] before[q]).0.0 == front[p].0.0
                            && before[q].0.1 >= front[p].0.1;
                    assert(out[q] == before[q]);
                }
            }
        } else {
            assert(out == before);
            assert(front.last() == entries[n - 1]);
            assert forall|p: int| 0 <= p < entries.len() implies keeps_latest(
                out,
                #[trigger] entries[p],
            ) by {
                let near = if p == n { n - 1 } else { p };
                assert(front[near] == entries[near]);
                assert(keeps_latest(before, front[near]));
                let q = choose|q: int|
                    0 <= q < before.len() && (#[trigger] before[q]).0.0 == front[near].0.0
                        && before[q].0.1 >= front[near].0.1;
                assert(out[q] == before[q]);
                if p == n {
                    assert(Key::precedes(keys_of(entries)[n - 1], keys_of(entries)[n]));
                }
            }
        }
        assert forall|p: int, q: int| 0 <= p < q < out.len() implies Key::precedes(
            #[trigger] keys_of(out)[p],
            #[trigger] keys_of(out)[q],
        ) by {
            assert(bytes_lt(out[p].0.0, out[q].0.0));
        }
    }
}

/// Compaction leaves no more bytes than it was given.
pub proof fn lemma_compacted_size(entries: Seq<Entry>)
    ensures
        entries_size(compacted(entries)) <= entries_size(entries),
    decreases entries.len(),
{
    if entries.len() > 0 {
        lemma_compacted_size(entries.drop_last());
        if opens_row(entries, entries.len() - 1) {
            assert(compacted(entries).drop_last() =~= compacted(entries.drop_last()));
        }
    }
}

/// Compaction of a part of the input from its start leaves no more
/// entries than compaction of the whole.
pub proof fn lemma_compacted_prefix(entries: Seq<Entry>, n: int)
    requires
        0 <= n <= entries.len(),
    ensures
        compacted(entries.take(n)).len() <= compacted(entries).len(),
    decreases entries.len(),
{
    if n == entries.len() {
        assert(entries.take(n) =~= entries);
    } else {
        assert(entries.drop_last().take(n) =~= entries.take(n));
        lemma_compacted_prefix(entries.drop_last(), n);
    }
}

/// The rows of `entries`, in their order.
pub open spec fn rows_of(entries: Seq<Entry>) -> Seq<Seq<u8>> {
    Seq::new(entries.len(), |p: int| entries[p].0.0)
}

/// Compaction of sorted entries leaves as many entries as the input has
/// distinct rows, one for each.
pub proof fn lemma_compacted_rows(entries: Seq<Entry>)
    requires
        strictly_sorted::<Key>(keys_of(entries)),
    ensures
        rows_of(compacted(entries)).no_duplicates(),
        rows_of(compacted(entries)).to_set() == rows_of(entries).to_set(),
        compacted(entries).len() == rows_of(entries).to_set().len(),
{
    let out = compacted(entries);
    let kept = rows_of(out);
    let all = rows_of(entries);
    lemma_compacted(entries);
    assert forall|p: int, q: int|
        0 <= p < kept.len() && 0 <= q < kept.len() && p != q implies kept[p] != kept[q] by {
        if p < q {
            assert(bytes_lt(out[p].0.0, out[q].0.0));
            lemma_bytes_lt_irreflexive(out[p].0.0);
        } else {
            assert(bytes_lt(out[q].0.0, out[p].0.0));
            lemma_bytes_lt_irreflexive(out[q].0.0);
        }
    }
    assert forall|row: Seq<u8>| kept.to_set().contains(row) <==> all.to_set().contains(row) by {
        if kept.to_set().contains(row) {
            let q = choose|q: int| 0 <= q < kept.len() && kept[q] == row;
            assert(entries.contains(out[q]));
            let p = choose|p: int| 0 <= p < entries.len() && entries[p] == out[q];
            assert(all[p] == row);
        }
        if all.to_set().contains(row) {
            let p = choose|p: int| 0 <= p < all.len() && all[p] == row;
            assert(keeps_latest(out, entries[p]));
            let q = choose|q: int|
                0 <= q < out.len() && (#[trigger] out[q]).0.0 == entries[p].0.0 && out[q].0.1
                    >= entries[p].0.1;
            assert(kept[q] == row);
        }
    }
    assert(kept.to_set() =~= all.to_set());
    kept.unique_seq_to_set();
}

/// What one more entry of sorted input does to the compaction of the
/// entries before it: an entry of the row that was reached last is
/// dropped, and an entry of a later row is added.
pub proof fn lemma_compacted_step(entries: Seq<Entry>, i: int)
    requires
        strictly_sorted::<Key>(keys_of(entries)),
        0 <= i < entries.len(),
        entries_size(entries) <= u64::MAX,
    ensures
        i == 0 ==> compacted(entries.take(1)) == seq![entries[0]],
        i > 0 ==> {
            let before = compacted(entries.take(i));
            let after = compacted(entries.take(i + 1));
            &&& 0 < before.len() <= i
            &&& key_lt(before.last().0, entries[i].0)
            &&& before.last().0.0 == entries[i].0.0 ==> after == before
            &&& before.last().0.0 != entries[i].0.0 ==> after == before.push(entries[i])
            &&& entries_size(before) <= entries_size(entries)
        },
        entries_size(compacted(entries.take(i + 1))) <= entries_size(entries),
{
    let longer = entries.take(i + 1);
    assert(longer.drop_last() =~= entries.take(i));
    assert(longer.last() == entries[i]);
    lemma_compacted_size(longer);
    lemma_entries_size(entries, i + 1);
    if i == 0 {
        assert(compacted(longer.drop_last()) =~= Seq::<Entry>::empty());
        assert(compacted(longer) =~= seq![entries[0]]);
    } else {
        let prefix = entries.take(i);
        assert forall|p: int, q: int| 0 <= p < q < prefix.len() implies Key::precedes(
            #[trigger] keys_of(prefix)[p],
            #[trigger] keys_of(prefix)[q],
        ) by {
            assert(keys_of(prefix)[p] == keys_of(entries)[p]);
            assert(keys_of(prefix)[q] == keys_of(entries)[q]);
        }
        lemma_compacted(prefix);
        lemma_compacted_size(prefix);
        lemma_entries_size(entries, i);
        let held = compacted(prefix).last();
        assert(prefix.contains(held));
        let j = choose|j: int| 0 <= j < prefix.len() && prefix[j] == held;
        assert(keys_of(entries)[j] == held.0);
        assert(keys_of(entries)[i] == entries[i].0);
        assert(prefix.last() == entries[i - 1]);
        assert(longer[i - 1] == entries[i - 1]);
    }
}

/// The pending entry of a compaction: the latest version of the row that
/// the input has reached.
pub struct SingleVersionCompacter {
    key: Key,
    value: Value,
}

impl SingleVersionCompacter {
    /// The entry that is held back.
    pub closed spec fn pending(&self) -> (Key, Value) {
        (self.key, self.value)
    }

    pub fn new(key: Key, value: Value) -> (c: Self)
        ensures
            c.pending() == (key, value),
    {
        Self { key, value }
    }

    /// Takes the next entry of sorted input. An older version of the
    /// pending row is dropped; an entry of a later row takes the place of
    /// the pending one, which is handed out.
    pub fn compact(&mut self, key: Key, value: Value) -> (r: Option<(Key, Value)>)
        requires
            key_lt(old(self).pending().0@, key@),
        ensures
            old(self).pending().0@.0 == key@.0 ==> {
                &&& r is None
                &&& final(self).pending() == old(self).pending()
            },
            old(self).pending().0@.0 != key@.0 ==> {
                &&& r == Some(old(self).pending())
                &&& final(self).pending() == (key, value)
            },
    {
        if self.key.row().same(key.row()) {
            None
        } else {
            let mut key = key;
            let mut value = value;
            core::mem::swap(&mut self.key, &mut key);
            core::mem::swap(&mut self.value, &mut value);
            Some((key, value))
        }
    }

    pub fn into_key_value(self) -> (kv: (Key, Value))
        ensures
            kv == self.pending(),
    {
        (self.key, self.value)
    }
}

} // verus!

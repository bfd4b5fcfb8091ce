//! The volatile level: every version written since the last flush.

use crate::collections::bloom_filter::bits::max_bits;
use crate::collections::skip_list::entries::{entry_keys, holds, rank_in};
use crate::collections::skip_list::{LevelGenerator, SkipListMap};
use crate::model::key::key_size;
use crate::model::value::value_size;
use crate::model::{Key, Row, Value};
use crate::order::{
    lemma_lower_bound, lemma_sorted_insert, lower_bound, strictly_sorted, TotalOrder,
};
use crate::store::compacter::{compacted, keys_of, lemma_compacted};
use crate::store::sstable::data::{entries_encoding, entries_size, entry_size, Entry};
use crate::store::sstable::index::{has_row, row_rank};
use crate::store::sstable::{
    built_from, entry_views, offsets_of, rows_marking, SSTable, SSTableBuilder,
};
use crate::store::stat::{
    keys_total, lemma_totals, lemma_totals_insert, lemma_totals_update, values_total, Stat,
};
use vstd::arithmetic::power2::{lemma2_to64, lemma_pow2_unfold, pow2};
use vstd::prelude::*;
use vstd::std_specs::bits::u64_leading_zeros;

verus! {

/// A positive number lies between the powers of two that the count of its
/// leading zero bits gives.
pub proof fn lemma_leading_zeros(i: u64)
    requires
        i > 0,
    ensures
        0 <= u64_leading_zeros(i) < 64,
        pow2((63 - u64_leading_zeros(i)) as nat) <= i < pow2((64 - u64_leading_zeros(i)) as nat),
    decreases i,
{
    reveal(u64_leading_zeros);
    if i / 2 > 0 {
        lemma_leading_zeros(i / 2);
        let below = (63 - u64_leading_zeros(i / 2)) as nat;
        assert(pow2(below + 1) == 2 * pow2(below)) by {
            lemma_pow2_unfold(below + 1);
        }
        assert(pow2(below + 2) == 2 * pow2(below + 1)) by {
            lemma_pow2_unfold(below + 2);
        }
    } else {
        assert(i == 1);
        assert(u64_leading_zeros(0) == 64);
        lemma2_to64();
    }
}

/// The logarithm of `x` to the base 2, rounded down.
pub fn log2(x: usize) -> (l: usize)
    requires
        x > 0,
    ensures
        l < 64,
        pow2(l as nat) <= x < pow2((l + 1) as nat),
{
    proof {
        lemma_leading_zeros(x as u64);
    }
    63 - ((x as u64).leading_zeros() as usize)
}

/// What a put makes of sorted entries: the value under the key is
/// replaced, or the entry enters at the place of its key.
pub open spec fn put(entries: Seq<Entry>, key: (Seq<u8>, u64), value: Option<Seq<u8>>) -> Seq<
    Entry,
> {
    let at = lower_bound::<Key>(keys_of(entries), key);
    if at < entries.len() && entries[at].0 == key {
        entries.update(at, (key, value))
    } else {
        entries.insert(at, (key, value))
    }
}

/// The size that the entries have after a put.
pub open spec fn size_after_put(
    entries: Seq<Entry>,
    key: (Seq<u8>, u64),
    value: Option<Seq<u8>>,
) -> int {
    let at = lower_bound::<Key>(keys_of(entries), key);
    if at < entries.len() && entries[at].0 == key {
        entries_size(entries) - value_size(entries[at].1) + value_size(value)
    } else {
        (entries_size(entries) + entry_size((key, value))) as int
    }
}

/// After a put the entries are sorted, and they are the entry that was put
/// and the entries under other keys that were there before.
pub proof fn lemma_put(
    entries: Seq<Entry>,
    key: (Seq<u8>, u64),
    value: Option<Seq<u8>>,
    x: Entry,
)
    requires
        strictly_sorted::<Key>(keys_of(entries)),
    ensures
        strictly_sorted::<Key>(keys_of(put(entries, key, value))),
        put(entries, key, value).contains(x) <==> x == (key, value) || (entries.contains(x) && x.0
            != key),
{
    let keys = keys_of(entries);
    let at = lower_bound::<Key>(keys, key);
    let after = put(entries, key, value);
    lemma_lower_bound::<Key>(keys, key);
    Key::lemma_irreflexive(key);
    let replaces = at < entries.len() && entries[at].0 == key;
    if replaces {
        assert(keys_of(after) =~= keys);
    } else {
        assert(keys_of(after) =~= keys.insert(at, key));
        lemma_sorted_insert::<Key>(keys, key);
    }
    assert(after[at] == (key, value));
    if x == (key, value) {
        assert(after.contains(x));
    }
    if entries.contains(x) && x.0 != key {
        let p = choose|p: int| 0 <= p < entries.len() && entries[p] == x;
        assert(keys[p] == x.0);
        if replaces || p < at {
            assert(after[p] == x);
        } else {
            assert(after[p + 1] == x);
        }
        assert(after.contains(x));
    }
    if after.contains(x) && x != (key, value) {
        let p = choose|p: int| 0 <= p < after.len() && after[p] == x;
        let origin = if replaces || p < at { p } else { p - 1 };
        assert(entries[origin] == x);
        assert(keys[origin] == x.0);
        assert(entries.contains(x));
        if origin < at {
            assert(Key::precedes(keys[origin], key));
        } else if origin > at {
            assert(Key::precedes(keys[at], keys[origin]));
        }
    }
}

/// The writable level of the store: an ordered map of every version
/// written since the last flush, and the sizes that a flush needs.
pub struct VolatileStore {
    level: usize,
    map: SkipListMap<Key, Value>,
    stat: Stat,
}

impl View for VolatileStore {
    type V = Seq<Entry>;

    /// The entries, in ascending order of their keys.
    closed spec fn view(&self) -> Seq<Entry> {
        entry_views(self.map.entries())
    }
}

impl VolatileStore {
    /// The running totals.
    pub closed spec fn stat(&self) -> Stat {
        self.stat
    }

    /// The most levels that the map grows to.
    pub closed spec fn max_level(&self) -> usize {
        self.level
    }

    /// The map is sound, and every height that it draws is positive.
    pub closed spec fn linked(&self) -> bool {
        &&& self.map.wf()
        &&& self.map.generator().always_positive()
    }

    /// The entries are sorted, their encoding fits a buffer, and the
    /// totals are theirs.
    pub open spec fn wf(&self) -> bool {
        &&& self.linked()
        &&& strictly_sorted::<Key>(keys_of(self@))
        &&& self.stat().spec_len() == self@.len()
        &&& self.stat().spec_key_size() == keys_total(self@)
        &&& self.stat().spec_value_size() == values_total(self@)
        &&& entries_size(self@) <= isize::MAX
    }

    /// An empty level whose map is sized for `n` entries.
    pub fn new(n: usize) -> (store: Self)
        requires
            n > 0,
        ensures
            store.wf(),
            store@ == Seq::<Entry>::empty(),
            1 <= store.max_level() <= 64,
            pow2((store.max_level() - 1) as nat) <= n < pow2(store.max_level() as nat),
    {
        let level = log2(n) + 1;
        let store = Self { level, map: SkipListMap::new(level), stat: Stat::default() };
        proof {
            assert(store@ =~= Seq::<Entry>::empty());
        }
        store
    }

    /// What the views of the map's entries are to the map.
    proof fn lemma_views(&self)
        requires
            self.linked(),
        ensures
            self@.len() == self.map.entries().len(),
            keys_of(self@) == entry_keys(self.map.entries()),
            strictly_sorted::<Key>(keys_of(self@)),
            forall|p: int|
                0 <= p < self@.len() ==> (#[trigger] self@[p]) == (
                    self.map.entries()[p].0@,
                    self.map.entries()[p].1@,
                ),
    {
        assert(keys_of(self@) =~= entry_keys(self.map.entries()));
    }

    /// The latest version of `row`.
    pub fn get_latest(&self, row: &Row) -> (r: Option<(&Key, &Value)>)
        requires
            self.wf(),
        ensures
            match r {
                Some((k, v)) => has_row(keys_of(self@), row@) && (k@, v@) == self@[row_rank(
                    keys_of(self@),
                    row@,
                )],
                None => !has_row(keys_of(self@), row@),
            },
    {
        proof {
            self.lemma_views();
        }
        let key = Key::new(row.clone(), u64::MAX);
        match self.map.get_smallest_key_value(&key) {
            Some((k, v)) => {
                if k.row().same(row) {
                    Some((k, v))
                } else {
                    None
                }
            },
            None => None,
        }
    }

    /// Writes one version of `row`: a value, or a tombstone.
    pub fn insert(&mut self, row: Row, timestamp: u64, value: Value)
        requires
            old(self).wf(),
            size_after_put(old(self)@, (row@, timestamp), value@) <= isize::MAX,
        ensures
            final(self).wf(),
            final(self)@ == put(old(self)@, (row@, timestamp), value@),
            final(self).max_level() == old(self).max_level(),
    {
        let ghost before = self@;
        let ghost target = (row@, timestamp);
        let ghost entries0 = self.map.entries();
        proof {
            self.lemma_views();
            lemma_lower_bound::<Key>(keys_of(before), target);
            lemma_totals(before);
        }
        let key = Key::new(row, timestamp);
        let ghost at = rank_in(entries0, key@);
        let old_value = self.map.insert(key.clone(), value.clone());
        proof {
            let after = self@;
            if holds(entries0, key@) {
                assert(after =~= before.update(at, (target, value@)));
                lemma_totals_update(before, at, (target, value@));
            } else {
                assert(after =~= before.insert(at, (target, value@)));
                lemma_totals_insert(before, at, (target, value@));
            }
            lemma_totals(after);
            self.lemma_views();
        }
        self.stat.insert(&key, &value, old_value.as_ref());
    }

    /// The number of entries.
    pub fn len(&self) -> (n: usize)
        requires
            self.wf(),
        ensures
            n == self@.len(),
    {
        self.stat.len()
    }

    /// Whether the level has room for this version: whether its entries
    /// would still fit a buffer with it.
    pub fn has_room(&self, row: &Row, timestamp: u64, value: &Value) -> (r: bool)
        requires
            self.wf(),
        ensures
            r == (size_after_put(self@, (row@, timestamp), value@) <= isize::MAX),
    {
        proof {
            self.lemma_views();
            lemma_totals(self@);
            lemma_lower_bound::<Key>(keys_of(self@), (row@, timestamp));
        }
        let key = Key::new(row.clone(), timestamp);
        let total: u128 = self.stat.key_size() as u128 + self.stat.value_size() as u128;
        let incoming: u128 = match value {
            Value::Val(payload) => 9 + payload.len() as u128,
            Value::Del => 1,
        };
        let limit: u128 = isize::MAX as u128;
        match self.map.get(&key) {
            Some(held) => {
                let ghost at = rank_in(self.map.entries(), key@);
                proof {
                    lemma_totals_update(self@, at, ((row@, timestamp), value@));
                }
                let outgoing: u128 = match held {
                    Value::Val(payload) => 9 + payload.len() as u128,
                    Value::Del => 1,
                };
                total - outgoing + incoming <= limit
            },
            None => total + 16 + row.get().len() as u128 + incoming <= limit,
        }
    }

    /// The table of what the level holds, compacted to a single version,
    /// with a filter of `filter_bits` bits and `hash_count` hash functions.
    pub fn flush(&self, filter_bits: u64, hash_count: usize) -> (table: SSTable)
        requires
            self.wf(),
            self@.len() > 0,
            0 < filter_bits <= max_bits(),
        ensures
            table.wf(),
            table.entries() == compacted(self@),
            table.data.bytes() == entries_encoding(compacted(self@)),
            table.index@ == offsets_of(compacted(self@)),
            table.filter.bloom().hash_count() == hash_count,
            table.filter.bloom().hashers().modulus() == filter_bits,
            table.filter.bloom().bits().len() == filter_bits,
            table.filter.bloom().bits() == rows_marking(compacted(self@), filter_bits, hash_count),
            built_from(table, self@, filter_bits, hash_count),
    {
        proof {
            self.lemma_views();
            lemma_totals(self@);
            lemma_compacted(self@);
        }
        let builder = SSTableBuilder::new(&self.stat, filter_bits, hash_count);
        let pairs = self.map.iter();
        let mut entries: Vec<(Key, Value)> = Vec::new();
        let _ = entries.try_reserve(pairs.len());
        let mut i: usize = 0;
        while i < pairs.len()
            invariant
                i <= pairs@.len(),
                pairs@.len() == self@.len(),
                entries@.len() == i,
                forall|p: int|
                    0 <= p < pairs@.len() ==> (*(#[trigger] pairs@[p]).0, *pairs@[p].1)
                        == self.map.entries()[p],
                forall|p: int|
                    0 <= p < i ==> (#[trigger] entries@[p]).0@ == self.map.entries()[p].0@
                        && entries@[p].1@ == self.map.entries()[p].1@,
            decreases pairs@.len() - i,
        {
            let (k, v) = pairs[i];
            entries.push((k.clone(), v.clone()));
            i += 1;
        }
        proof {
            assert(entry_views(entries@) =~= self@);
        }
        builder.load(entries)
    }

    /// Drops every entry.
    pub fn clear(&mut self)
        ensures
            final(self).wf(),
            final(self)@ == Seq::<Entry>::empty(),
            final(self).max_level() == old(self).max_level(),
    {
        self.map = SkipListMap::new(self.level);
        self.stat = Stat::default();
        proof {
            assert(self@ =~= Seq::<Entry>::empty());
        }
    }
}

} // verus!

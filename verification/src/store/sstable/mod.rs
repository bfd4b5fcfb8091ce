//! Sorted string tables: the immutable unit of the persistent level.

pub mod data;
pub mod filter;
pub mod index;

pub use crate::store::sstable::data::Data;
pub use crate::store::sstable::filter::Filter;
pub use crate::store::sstable::index::Index;

use crate::collections::bloom_filter::bits::max_bits;
use crate::collections::bloom_filter::hash::km::{fx_digest_bytes, km_hashes, lemma_km_hashes};
use crate::collections::bloom_filter::hash::Hashes;
use crate::collections::bloom_filter::{lemma_marking_keeps, marking, uses, BloomFilter};
use crate::model::{Key, Row, Value};
use crate::order::strictly_sorted;
use crate::store::compacter::{
    compacted, keeps_latest, keys_of, lemma_compacted, lemma_compacted_prefix,
    lemma_compacted_rows, lemma_compacted_size, lemma_compacted_step, rows_ascending, rows_of,
    SingleVersionCompacter,
};
use crate::store::sstable::data::{
    entries_encoding, entries_size, entry_at, entry_decodable, entry_size, lemma_entries_count,
    lemma_entries_round_trip, lemma_entries_size, DataBuilder, Entry,
};
use crate::store::sstable::filter::row_marked;
use crate::store::sstable::index::{has_row, index_keys, index_view, lemma_row_rank, row_rank};
use crate::store::stat::Stat;
use vstd::prelude::*;

verus! {

/// The entries that an index finds in the data, in the order of the index.
pub open spec fn table_entries(data: Data, index: Index) -> Seq<Entry> {
    Seq::new(index@.len(), |p: int| entry_at(data.bytes(), index@[p].1 as int))
}

/// The three parts belong to one table: the index is sorted and names, for
/// each of its keys, the offset of an entry under that key; no row occurs
/// twice; and the filter was given every row.
pub open spec fn table_wf(data: Data, index: Index, filter: Filter) -> bool {
    &&& index.wf()
    &&& filter.wf()
    &&& rows_ascending(table_entries(data, index))
    &&& forall|p: int|
        0 <= p < index@.len() ==> entry_decodable(data.bytes(), (#[trigger] index@[p]).1 as int)
            && entry_at(data.bytes(), index@[p].1 as int).0 == index@[p].0
    &&& forall|p: int| 0 <= p < index@.len() ==> filter.holds((#[trigger] index@[p]).0.0)
}

/// A sorted string table: entries in ascending order of their rows, one
/// version of each row.
pub struct SSTable {
    pub data: Data,
    pub index: Index,
    pub filter: Filter,
}

impl SSTable {
    /// The entries of the table, in ascending order of their rows.
    pub open spec fn entries(&self) -> Seq<Entry> {
        table_entries(self.data, self.index)
    }

    pub open spec fn wf(&self) -> bool {
        table_wf(self.data, self.index, self.filter)
    }
}

/// A table of the compaction of sorted input holds the rows of the input
/// and no other, as many entries as the input has distinct rows, and each
/// row under its version of the largest timestamp: the index finds that
/// version, the data holds it at the offset that the index gives, and the
/// filter takes the row for a member.
pub proof fn lemma_loaded(table: SSTable, input: Seq<Entry>, row: Seq<u8>)
    requires
        strictly_sorted::<Key>(keys_of(input)),
        table.wf(),
        table.entries() == compacted(input),
    ensures
        table.index@.len() == rows_of(input).to_set().len(),
        has_row(table.index.keys(), row) <==> rows_of(input).contains(row),
        has_row(table.index.keys(), row) ==> {
            let found = table.index@[row_rank(table.index.keys(), row)];
            let held = entry_at(table.data.bytes(), found.1 as int);
            &&& entry_decodable(table.data.bytes(), found.1 as int)
            &&& held.0 == found.0
            &&& held.0.0 == row
            &&& input.contains(held)
            &&& forall|p: int|
                0 <= p < input.len() && (#[trigger] input[p]).0.0 == row ==> input[p].0.1
                    <= held.0.1
            &&& table.filter.holds(row)
        },
{
    let out = compacted(input);
    let keys = table.index.keys();
    lemma_compacted(input);
    lemma_compacted_rows(input);
    assert(keys =~= keys_of(out)) by {
        assert forall|p: int| 0 <= p < keys.len() implies keys[p] == keys_of(out)[p] by {
            assert(table.index@[p].0 == out[p].0);
        }
    }
    lemma_row_rank(keys, row);
    let at = row_rank(keys, row);
    if has_row(keys, row) {
        assert(keys[at] == out[at].0);
        assert(table.index@[at].0 == keys[at]);
        assert(input.contains(out[at]));
        let origin = choose|p: int| 0 <= p < input.len() && input[p] == out[at];
        assert(rows_of(input)[origin] == row);
        assert forall|p: int|
            0 <= p < input.len() && (#[trigger] input[p]).0.0 == row implies input[p].0.1
            <= out[at].0.1 by {
            assert(keeps_latest(out, input[p]));
            let q = choose|q: int|
                0 <= q < out.len() && (#[trigger] out[q]).0.0 == input[p].0.0 && out[q].0.1
                    >= input[p].0.1;
            assert(keys[q] == out[q].0);
        }
    }
    if rows_of(input).contains(row) {
        let p = choose|p: int| 0 <= p < input.len() && rows_of(input)[p] == row;
        assert(keeps_latest(out, input[p]));
        let q = choose|q: int|
            0 <= q < out.len() && (#[trigger] out[q]).0.0 == input[p].0.0 && out[q].0.1
                >= input[p].0.1;
        assert(keys[q] == out[q].0);
    }
}

/// Whether `table` is the table that a builder with a filter of
/// `filter_bits` bits and `hash_count` hash functions makes of sorted
/// `input`: it holds the compaction of the input, encoded without a gap,
/// with an index of the offsets and a filter that was given the rows kept.
pub open spec fn built_from(
    table: SSTable,
    input: Seq<Entry>,
    filter_bits: u64,
    hash_count: usize,
) -> bool {
    &&& table.wf()
    &&& table.entries() == compacted(input)
    &&& table.data.bytes() == entries_encoding(compacted(input))
    &&& table.index@ == offsets_of(compacted(input))
    &&& table.filter.bloom().hash_count() == hash_count
    &&& table.filter.bloom().hashers().modulus() == filter_bits
    &&& table.filter.bloom().bits().len() == filter_bits
    &&& table.filter.bloom().bits() == rows_marking(compacted(input), filter_bits, hash_count)
}

/// The views of entries.
pub open spec fn entry_views(entries: Seq<(Key, Value)>) -> Seq<Entry> {
    Seq::new(entries.len(), |p: int| (entries[p].0@, entries[p].1@))
}

/// Where the index of a table built from `entries` points: each key with
/// the size of the entries before it.
pub open spec fn offsets_of(entries: Seq<Entry>) -> Seq<((Seq<u8>, u64), usize)> {
    Seq::new(entries.len(), |p: int| (entries[p].0, entries_size(entries.take(p)) as usize))
}

/// The offsets of a table run through its data without a gap: the first is
/// 0, each next one is the one before it plus the size of the entry before
/// it, and the data ends where the last entry ends.
pub proof fn lemma_offsets(entries: Seq<Entry>, p: int)
    requires
        0 <= p < entries.len(),
        entries_size(entries) <= usize::MAX,
    ensures
        offsets_of(entries).len() == entries.len(),
        offsets_of(entries)[p].0 == entries[p].0,
        p == 0 ==> offsets_of(entries)[p].1 == 0,
        p > 0 ==> offsets_of(entries)[p].1 == offsets_of(entries)[p - 1].1 + entry_size(
            entries[p - 1],
        ),
        offsets_of(entries)[p].1 + entry_size(entries[p]) <= entries_size(entries),
        entries_encoding(entries).len() == entries_size(entries),
        p == entries.len() - 1 ==> offsets_of(entries)[p].1 + entry_size(entries[p])
            == entries_encoding(entries).len(),
{
    lemma_entries_size(entries, p);
    if p > 0 {
        lemma_entries_size(entries, p - 1);
        assert(entries.take(p).drop_last() =~= entries.take(p - 1));
        assert(entries.take(p).last() == entries[p - 1]);
    } else {
        assert(entries.take(0) =~= Seq::<Entry>::empty());
    }
    if p == entries.len() - 1 {
        assert(entries.take(p) =~= entries.drop_last());
    }
}

/// The bits of a filter of `m` bits that no row was given to.
pub open spec fn cleared(m: u64) -> Seq<bool> {
    Seq::new(m as nat, |i: int| false)
}

/// The bits of a filter of `m` bits and `k` hash functions that was given
/// the rows of `entries`, one after another.
pub open spec fn rows_marking(entries: Seq<Entry>, m: u64, k: usize) -> Seq<bool>
    decreases entries.len(),
{
    if entries.len() == 0 {
        cleared(m)
    } else {
        marking(
            rows_marking(entries.drop_last(), m, k),
            km_hashes(fx_digest_bytes(entries.last().0.0), m),
            k,
        )
    }
}

/// A filter has as many bits after rows were given to it as before.
pub proof fn lemma_rows_marking_len(entries: Seq<Entry>, m: u64, k: usize)
    ensures
        rows_marking(entries, m, k).len() == m,
    decreases entries.len(),
{
    if entries.len() > 0 {
        lemma_rows_marking_len(entries.drop_last(), m, k);
    }
}

/// A table under construction.
pub struct SSTableBuilder {
    max_len: usize,
    len: usize,
    offset: usize,
    data: DataBuilder,
    index: Vec<(Key, usize)>,
    filter: BloomFilter<Row>,
    /// The entries appended so far.
    appended: Ghost<Seq<Entry>>,
}

impl SSTableBuilder {
    /// The entries appended so far.
    pub closed spec fn entries(&self) -> Seq<Entry> {
        self.appended@
    }

    /// The most entries that the table is sized for.
    pub closed spec fn capacity(&self) -> usize {
        self.max_len
    }

    /// The number of bits of the filter.
    pub closed spec fn filter_bits(&self) -> u64 {
        self.filter.hashers().modulus()
    }

    /// The number of hash functions of the filter.
    pub closed spec fn hash_count(&self) -> usize {
        self.filter.hash_count()
    }

    /// The parts under construction agree with the entries appended.
    pub closed spec fn wf(&self) -> bool {
        &&& self.len == self.appended@.len()
        &&& self.offset == entries_size(self.appended@)
        &&& self.offset <= isize::MAX
        &&& self.data.bytes() == entries_encoding(self.appended@)
        &&& index_view(self.index@) == offsets_of(self.appended@)
        &&& self.filter.wf()
        &&& self.filter.bits() == rows_marking(
            self.appended@,
            self.filter.hashers().modulus(),
            self.filter.hash_count(),
        )
        &&& forall|p: int|
            0 <= p < self.appended@.len() ==> row_marked(
                self.filter,
                (#[trigger] self.appended@[p]).0.0,
            )
    }

    /// A builder for a table of the entries that `stat` has counted, with
    /// a filter of `filter_bits` bits and `hash_count` hash functions.
    pub fn new(stat: &Stat, filter_bits: u64, hash_count: usize) -> (builder: Self)
        requires
            stat.len() > 0,
            stat.key_size() + stat.value_size() <= isize::MAX,
            0 < filter_bits <= max_bits(),
        ensures
            builder.wf(),
            builder.entries() == Seq::<Entry>::empty(),
            builder.capacity() == stat.len(),
            builder.filter_bits() == filter_bits,
            builder.hash_count() == hash_count,
    {
        let max_len = stat.len();
        let data_size = stat.key_size() + stat.value_size();
        let mut index: Vec<(Key, usize)> = Vec::new();
        let _ = index.try_reserve(max_len);

        let builder = Self {
            max_len,
            len: 0,
            offset: 0,
            data: DataBuilder::new(data_size),
            index,
            filter: BloomFilter::new(hash_count, filter_bits),
            appended: Ghost(Seq::empty()),
        };
        proof {
            assert(index_view(builder.index@) =~= offsets_of(builder.appended@));
        }
        builder
    }

    /// Compacts sorted `entries` to a single version and builds the table
    /// of what is left.
    pub fn load(self, entries: Vec<(Key, Value)>) -> (table: SSTable)
        requires
            self.wf(),
            self.entries().len() == 0,
            entries@.len() > 0,
            compacted(entry_views(entries@)).len() <= self.capacity(),
            strictly_sorted::<Key>(keys_of(entry_views(entries@))),
            entries_size(entry_views(entries@)) <= isize::MAX,
        ensures
            table.wf(),
            table.entries() == compacted(entry_views(entries@)),
            table.data.bytes() == entries_encoding(compacted(entry_views(entries@))),
            table.index@ == offsets_of(compacted(entry_views(entries@))),
            table.filter.bloom().hash_count() == self.hash_count(),
            table.filter.bloom().hashers().modulus() == self.filter_bits(),
            table.filter.bloom().bits().len() == self.filter_bits(),
            table.filter.bloom().bits() == rows_marking(
                compacted(entry_views(entries@)),
                self.filter_bits(),
                self.hash_count(),
            ),
            built_from(table, entry_views(entries@), self.filter_bits(), self.hash_count()),
    {
        let mut builder = self;
        let ghost views = entry_views(entries@);
        let (k, v) = builder.feed(entries);
        proof {
            lemma_compacted(views);
            lemma_compacted_size(views);
            assert(compacted(views).drop_last() =~= builder.entries());
        }
        builder.append(k, v);
        proof {
            lemma_rows_marking_len(compacted(views), self.filter_bits(), self.hash_count());
        }
        builder.build()
    }

    /// Runs sorted `entries` through a compacter, appends what it hands
    /// out, and returns the entry that it holds back at the end.
    fn feed(&mut self, entries: Vec<(Key, Value)>) -> (last: (Key, Value))
        requires
            old(self).wf(),
            old(self).entries().len() == 0,
            entries@.len() > 0,
            compacted(entry_views(entries@)).len() <= old(self).capacity(),
            strictly_sorted::<Key>(keys_of(entry_views(entries@))),
            entries_size(entry_views(entries@)) <= isize::MAX,
        ensures
            final(self).wf(),
            final(self).capacity() == old(self).capacity(),
            final(self).filter_bits() == old(self).filter_bits(),
            final(self).hash_count() == old(self).hash_count(),
            final(self).entries().push((last.0@, last.1@)) == compacted(entry_views(entries@)),
    {
        let ghost views = entry_views(entries@);
        let ghost total = entries_size(views);
        let mut pending: Option<SingleVersionCompacter> = None;
        let n = entries.len();
        for kv in it: entries.into_iter()
            invariant
                it.seq() == entries@,
                views == entry_views(entries@),
                total == entries_size(views),
                total <= isize::MAX,
                strictly_sorted::<Key>(keys_of(views)),
                n == entries@.len(),
                compacted(views).len() <= self.capacity(),
                self.capacity() == old(self).capacity(),
                self.filter_bits() == old(self).filter_bits(),
                self.hash_count() == old(self).hash_count(),
                self.wf(),
                it.index() == 0 ==> pending is None && self.entries().len() == 0,
                it.index() > 0 ==> pending is Some && self.entries().push(
                    (pending.unwrap().pending().0@, pending.unwrap().pending().1@),
                ) == compacted(views.take(it.index() as int)),
        {
            let ghost i = it.index() as int;
            let (key, value) = kv;
            proof {
                assert(views[i] == (key@, value@));
                lemma_compacted_step(views, i);
                lemma_compacted_prefix(views, i);
                if i > 0 {
                    let before = compacted(views.take(i));
                    assert(before.drop_last() =~= self.entries());
                    assert(before.last() == (
                        pending.unwrap().pending().0@,
                        pending.unwrap().pending().1@,
                    ));
                }
            }
            pending = match pending {
                None => Some(SingleVersionCompacter::new(key, value)),
                Some(mut compacter) => {
                    if let Some((k, v)) = compacter.compact(key, value) {
                        self.append(k, v);
                    }
                    Some(compacter)
                },
            };
        }
        proof {
            assert(views.take(n as int) =~= views);
        }
        pending.unwrap().into_key_value()
    }

    /// The table of the entries appended.
    fn build(self) -> (table: SSTable)
        requires
            self.wf(),
            strictly_sorted::<Key>(keys_of(self.entries())),
            rows_ascending(self.entries()),
        ensures
            table.wf(),
            table.entries() == self.entries(),
            table.data.bytes() == entries_encoding(self.entries()),
            table.index@ == offsets_of(self.entries()),
            table.filter.bloom().hash_count() == self.hash_count(),
            table.filter.bloom().hashers().modulus() == self.filter_bits(),
            table.filter.bloom().bits() == rows_marking(
                self.entries(),
                self.filter_bits(),
                self.hash_count(),
            ),
    {
        let ghost built = self.appended@;
        let ghost bloom = self.filter;
        let ghost pairs = index_view(self.index@);
        proof {
            lemma_entries_count(built);
            assert(index_keys(pairs) =~= keys_of(built));
        }
        let table = SSTable {
            data: self.data.build(),
            index: Index::new(self.index),
            filter: Filter::new(self.filter),
        };
        proof {
            assert(table.data.bytes() =~= entries_encoding(built) + Seq::<u8>::empty());
            assert forall|p: int| 0 <= p < table.index@.len() implies entry_decodable(
                table.data.bytes(),
                (#[trigger] table.index@[p]).1 as int,
            ) && entry_at(table.data.bytes(), table.index@[p].1 as int) == built[p] by {
                lemma_entries_round_trip(built, p, Seq::empty());
                lemma_entries_size(built, p);
                assert(table.index@[p] == offsets_of(built)[p]);
            }
            assert(table.entries() =~= built);
            assert forall|p: int| 0 <= p < table.index@.len() implies table.filter.holds(
                (#[trigger] table.index@[p]).0.0,
            ) by {
                assert(table.index@[p] == offsets_of(built)[p]);
                assert(row_marked(bloom, built[p].0.0));
            }
        }
        table
    }

    /// Appends one entry to the three parts.
    fn append(&mut self, key: Key, value: Value)
        requires
            old(self).wf(),
            old(self).entries().len() < old(self).capacity(),
            entries_size(old(self).entries()) + entry_size((key@, value@)) <= isize::MAX,
        ensures
            final(self).wf(),
            final(self).capacity() == old(self).capacity(),
            final(self).filter_bits() == old(self).filter_bits(),
            final(self).hash_count() == old(self).hash_count(),
            final(self).entries() == old(self).entries().push((key@, value@)),
    {
        let ghost before = self.appended@;
        let ghost after = before.push((key@, value@));
        let ghost bloom0 = self.filter;
        proof {
            assert(after.drop_last() =~= before);
            lemma_entries_size(before, before.len() as int);
        }
        self.append_filter(&key);
        let size = self.data.append(key.clone(), value.clone());
        self.append_index(key, self.offset);
        self.len += 1;
        self.offset += size;
        proof {
            self.appended@ = after;
            assert(index_view(old(self).index@).len() == offsets_of(before).len());
            assert(self.index@.len() == after.len());
            assert(index_view(self.index@) =~= offsets_of(after)) by {
                assert forall|p: int| 0 <= p < after.len() implies index_view(self.index@)[p]
                    == offsets_of(after)[p] by {
                    if p < before.len() {
                        assert(index_view(old(self).index@)[p] == offsets_of(before)[p]);
                        assert(after.take(p) =~= before.take(p));
                    } else {
                        assert(after.take(p) =~= before);
                    }
                }
            }
            assert forall|p: int| 0 <= p < after.len() implies row_marked(
                self.filter,
                (#[trigger] after[p]).0.0,
            ) by {
                if p < before.len() {
                    let m = bloom0.hashers().modulus();
                    let k = bloom0.hash_count();
                    let theirs = km_hashes(fx_digest_bytes(before[p].0.0), m);
                    lemma_km_hashes(fx_digest_bytes(before[p].0.0), m);
                    assert(row_marked(bloom0, before[p].0.0));
                    assert forall|j: u64| uses(theirs, k, j) implies (
                    #[trigger] theirs.at(j)).unwrap() < bloom0.bits().len() by {
                        theirs.lemma_in_range(j);
                    }
                    lemma_marking_keeps(
                        bloom0.bits(),
                        km_hashes(fx_digest_bytes(key@.0), m),
                        k,
                        theirs,
                        k,
                    );
                }
            }
        }
    }

    fn append_index(&mut self, key: Key, offset: usize)
        ensures
            final(self).index@ == old(self).index@.push((key, offset)),
            final(self).max_len == old(self).max_len,
            final(self).len == old(self).len,
            final(self).offset == old(self).offset,
            final(self).data == old(self).data,
            final(self).filter == old(self).filter,
            final(self).appended == old(self).appended,
    {
        self.index.push((key, offset));
    }

    fn append_filter(&mut self, key: &Key)
        requires
            old(self).filter.wf(),
        ensures
            final(self).filter.wf(),
            final(self).filter.hash_count() == old(self).filter.hash_count(),
            final(self).filter.hashers() == old(self).filter.hashers(),
            final(self).filter.bits() == marking(
                old(self).filter.bits(),
                km_hashes(fx_digest_bytes(key@.0), old(self).filter.hashers().modulus()),
                old(self).filter.hash_count(),
            ),
            row_marked(final(self).filter, key@.0),
            final(self).index == old(self).index,
            final(self).max_len == old(self).max_len,
            final(self).len == old(self).len,
            final(self).offset == old(self).offset,
            final(self).data == old(self).data,
            final(self).appended == old(self).appended,
    {
        self.filter.insert(key.row());
    }
}

} // verus!

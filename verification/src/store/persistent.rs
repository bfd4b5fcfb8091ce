//! The persistent level: a pool of immutable tables.

use crate::model::{Key, Row, Value};
use crate::order::strictly_sorted;
use crate::store::compacter::{keys_of, rows_ascending};
use crate::store::sstable::data::Entry;
use crate::store::sstable::index::{has_row, lemma_row_rank, row_rank};
use crate::store::sstable::{table_entries, table_wf, Data, Filter, Index, SSTable};
use std::collections::HashMap;
use vstd::prelude::*;
use vstd::std_specs::hash::spec_hash_map_iter;
use vstd::std_specs::iter::IteratorSpec;

verus! {

/// The latest version of `row` in the sorted entries of one table.
pub open spec fn latest_in(entries: Seq<Entry>, row: Seq<u8>) -> Option<Entry> {
    if has_row(keys_of(entries), row) {
        Some(entries[row_rank(keys_of(entries), row)])
    } else {
        None
    }
}

/// Whether `e` is a latest version of `row` among `tables`: the latest of
/// one table, with a timestamp that the latest of no table exceeds.
pub open spec fn latest_among(tables: Map<u64, Seq<Entry>>, row: Seq<u8>, e: Entry) -> bool {
    &&& exists|id: u64| #[trigger] tables.contains_key(id) && latest_in(tables[id], row) == Some(e)
    &&& forall|id: u64| #[trigger]
        tables.contains_key(id) ==> (latest_in(tables[id], row) matches Some(other)
            ==> other.0.1 <= e.0.1)
}

/// Whether no table of `tables` holds a version of `row`.
pub open spec fn absent_among(tables: Map<u64, Seq<Entry>>, row: Seq<u8>) -> bool {
    forall|id: u64| #[trigger] tables.contains_key(id) ==> latest_in(tables[id], row) is None
}

/// The read-only level of the store. The parts of each table stand in three
/// pools under the id of the table.
pub struct PersistentStore {
    last_table_id: u64,
    data_pool: HashMap<u64, Data>,
    index_pool: HashMap<u64, Index>,
    filter_pool: HashMap<u64, Filter>,
}

impl PersistentStore {
    /// The id that was given out last.
    pub closed spec fn last_id(&self) -> u64 {
        self.last_table_id
    }

    /// The entries of the pooled tables, by the id of the table.
    pub closed spec fn tables(&self) -> Map<u64, Seq<Entry>> {
        Map::new(
            |id: u64| self.filter_pool@.contains_key(id),
            |id: u64| table_entries(self.data_pool@[id], self.index_pool@[id]),
        )
    }

    /// The pooled tables, by the id of the table.
    pub closed spec fn pool(&self) -> Map<u64, SSTable> {
        Map::new(
            |id: u64| self.filter_pool@.contains_key(id),
            |id: u64|
                (SSTable {
                    data: self.data_pool@[id],
                    index: self.index_pool@[id],
                    filter: self.filter_pool@[id],
                }),
        )
    }

    /// The three pools hold the same ids, none over the last one given
    /// out, and under each id the parts of one table.
    pub closed spec fn pooled(&self) -> bool {
        &&& self.data_pool@.dom() == self.filter_pool@.dom()
        &&& self.index_pool@.dom() == self.filter_pool@.dom()
        &&& forall|id: u64| #[trigger]
            self.filter_pool@.contains_key(id) ==> id <= self.last_table_id && table_wf(
                self.data_pool@[id],
                self.index_pool@[id],
                self.filter_pool@[id],
            )
    }

    /// The pools are sound, and every table is sorted with one version of
    /// each row.
    pub open spec fn wf(&self) -> bool {
        &&& self.pooled()
        &&& forall|id: u64| #[trigger]
            self.tables().contains_key(id) ==> strictly_sorted::<Key>(keys_of(self.tables()[id]))
                && rows_ascending(self.tables()[id])
    }

    /// What the pools say of the table under `id`.
    proof fn lemma_table(&self, id: u64)
        requires
            self.pooled(),
            self.filter_pool@.contains_key(id),
        ensures
            self.tables().contains_key(id),
            self.data_pool@.contains_key(id),
            self.index_pool@.contains_key(id),
            self.tables()[id] == table_entries(self.data_pool@[id], self.index_pool@[id]),
            table_wf(self.data_pool@[id], self.index_pool@[id], self.filter_pool@[id]),
            keys_of(self.tables()[id]) == self.index_pool@[id].keys(),
            strictly_sorted::<Key>(keys_of(self.tables()[id])),
            rows_ascending(self.tables()[id]),
    {
        let index = self.index_pool@[id];
        let data = self.data_pool@[id];
        assert(self.data_pool@.dom().contains(id));
        assert(self.index_pool@.dom().contains(id));
        assert(keys_of(table_entries(data, index)) =~= index.keys());
    }

    /// The pooled tables are sound, and `tables` holds their entries.
    pub proof fn lemma_pool(&self)
        requires
            self.wf(),
        ensures
            self.tables().dom() == self.pool().dom(),
            forall|id: u64| #[trigger]
                self.pool().contains_key(id) ==> self.pool()[id].wf() && self.tables()[id]
                    == self.pool()[id].entries(),
    {
        assert(self.tables().dom() =~= self.pool().dom());
    }

    /// Whether another table can get an id.
    pub fn has_next_id(&self) -> (r: bool)
        ensures
            r == (self.last_id() < u64::MAX),
    {
        self.last_table_id < u64::MAX
    }

    /// Takes a table under the next id. An uncached table is dropped; its
    /// id is used up all the same.
    pub fn add(&mut self, sstable: SSTable, cache: bool)
        requires
            old(self).wf(),
            sstable.wf(),
            old(self).last_id() < u64::MAX,
        ensures
            final(self).wf(),
            final(self).last_id() == old(self).last_id() + 1,
            !old(self).tables().contains_key(final(self).last_id()),
            final(self).tables() == if cache {
                old(self).tables().insert(final(self).last_id(), sstable.entries())
            } else {
                old(self).tables()
            },
            final(self).pool() == if cache {
                old(self).pool().insert(final(self).last_id(), sstable)
            } else {
                old(self).pool()
            },
    {
        let table_id = self.last_table_id + 1;
        self.last_table_id = table_id;
        let ghost entries = sstable.entries();
        let SSTable { data, index, filter } = sstable;
        proof {
            assert(keys_of(table_entries(data, index)) =~= index.keys());
        }
        if cache {
            self.data_pool.insert(table_id, data);
            self.index_pool.insert(table_id, index);
            self.filter_pool.insert(table_id, filter);
            proof {
                assert(self.data_pool@.dom() =~= self.filter_pool@.dom());
                assert(self.index_pool@.dom() =~= self.filter_pool@.dom());
                assert(self.tables() =~= old(self).tables().insert(table_id, entries));
                assert(self.pool() =~= old(self).pool().insert(table_id, sstable));
                assert forall|id: u64| #[trigger]
                    self.tables().contains_key(id) implies strictly_sorted::<Key>(
                    keys_of(self.tables()[id]),
                ) && rows_ascending(self.tables()[id]) by {
                    if id != table_id {
                        assert(old(self).tables().contains_key(id));
                    }
                }
            }
        } else {
            proof {
                assert(self.tables() =~= old(self).tables());
                assert(self.pool() =~= old(self).pool());
                assert forall|id: u64| #[trigger]
                    self.tables().contains_key(id) implies strictly_sorted::<Key>(
                    keys_of(self.tables()[id]),
                ) && rows_ascending(self.tables()[id]) by {
                    assert(old(self).tables().contains_key(id));
                }
            }
        }
    }

    /// A latest version of `row` among the tables. Where two tables hold
    /// one of the same timestamp, either may be returned.
    pub fn get_latest(&self, row: &Row) -> (r: Option<(Key, Value)>)
        requires
            self.wf(),
        ensures
            match r {
                Some((k, v)) => latest_among(self.tables(), row@, (k@, v@)),
                None => absent_among(self.tables(), row@),
            },
    {
        // (TableId, (Key, Offset))
        let mut res: Option<(&u64, (&Key, usize))> = None;
        let ghost seq = spec_hash_map_iter(&self.filter_pool).remaining();
        let ghost mut visited: int = 0;
        // Assuming that filters of all sstables are loaded
        for pair in it: self.filter_pool.iter()
            invariant
                self.wf(),
                it.seq() == seq,
                seq == spec_hash_map_iter(&self.filter_pool).remaining(),
                visited == it.index(),
                match res {
                    Some((id, (k, offset))) => {
                        &&& self.filter_pool@.contains_key(*id)
                        &&& has_row(self.index_pool@[*id].keys(), row@)
                        &&& (k@, offset) == self.index_pool@[*id]@[row_rank(
                            self.index_pool@[*id].keys(),
                            row@,
                        )]
                        &&& forall|j: int|
                            0 <= j < visited ==> (latest_in(
                                self.tables()[*(#[trigger] seq[j]).0],
                                row@,
                            ) matches Some(other) ==> other.0.1 <= k@.1)
                    },
                    None => forall|j: int|
                        0 <= j < visited ==> latest_in(
                            self.tables()[*(#[trigger] seq[j]).0],
                            row@,
                        ) is None,
                },
        {
            let (id, filter) = pair;
            let ghost at = it.index() as int;
            proof {
                assert(seq[at] == pair);
                assert(self.filter_pool@.contains_key(*seq[at].0));
                assert(self.filter_pool@[*seq[at].0] == *seq[at].1);
                self.lemma_table(*id);
                lemma_row_rank(self.index_pool@[*id].keys(), row@);
            }
            if filter.contains(row) {
                // The index of a pooled table is pooled.
                let index = self.index_pool.get(id).unwrap();
                match (res, index.get_latest(row)) {
                    (None, Some(p)) => {
                        res = Some((id, p));
                    },
                    (Some((_, (key, _))), Some((k, o))) => {
                        if key.timestamp() <= k.timestamp() {
                            res = Some((id, (k, o)));
                        }
                    },
                    _ => {},
                }
            } else {
                proof {
                    let index = self.index_pool@[*id];
                    if has_row(index.keys(), row@) {
                        let p = row_rank(index.keys(), row@);
                        assert(self.filter_pool@[*id].holds(index@[p].0.0));
                    }
                }
            }
            proof {
                visited = visited + 1;
            }
        }

        proof {
            assert(visited == seq.len());
            assert forall|id: u64| #[trigger] self.tables().contains_key(id) implies exists|j: int|
                0 <= j < seq.len() && *(#[trigger] seq[j]).0 == id by {
                assert(self.filter_pool@.contains_key(id));
                assert(seq.contains((&id, &self.filter_pool@[id])));
                let j = choose|j: int|
                    0 <= j < seq.len() && seq[j] == (&id, &self.filter_pool@[id]);
                assert(*seq[j].0 == id);
            }
        }

        if let Some((id, (_, offset))) = res {
            // The data of a pooled table is pooled.
            proof {
                self.lemma_table(*id);
                let index = self.index_pool@[*id];
                let p = row_rank(index.keys(), row@);
                lemma_row_rank(index.keys(), row@);
                assert(index@[p].1 == offset);
            }
            let data = self.data_pool.get(id).unwrap();
            Some(data.get(offset))
        } else {
            None
        }
    }
}

impl Default for PersistentStore {
    fn default() -> (store: Self)
        ensures
            store.wf(),
            store.last_id() == 0,
            store.tables() == Map::<u64, Seq<Entry>>::empty(),
            store.pool() == Map::<u64, SSTable>::empty(),
    {
        let store = PersistentStore {
            last_table_id: 0,
            data_pool: HashMap::new(),
            index_pool: HashMap::new(),
            filter_pool: HashMap::new(),
        };
        proof {
            assert(store.tables() =~= Map::<u64, Seq<Entry>>::empty());
            assert(store.pool() =~= Map::<u64, SSTable>::empty());
        }
        store
    }
}

} // verus!

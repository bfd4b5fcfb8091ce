//! The two levels of the store and what is built between them.

pub mod compacter;
pub mod persistent;
pub mod sstable;
pub mod stat;
pub mod volatile;

use crate::collections::bloom_filter::bits::max_bits;
use crate::model::buffer::contents;
use crate::model::{Key, Row, Value};
use crate::order::strictly_sorted;
use crate::store::compacter::{compacted, keeps_latest, keys_of, lemma_compacted};
use crate::store::persistent::{absent_among, latest_among, latest_in, PersistentStore};
use crate::store::sstable::data::Entry;
use crate::store::sstable::{built_from, SSTable};
use crate::store::sstable::index::{has_row, lemma_row_rank, row_rank};
use crate::store::volatile::{lemma_put, put, size_after_put, VolatileStore};
use bytes::Bytes;
use vstd::prelude::*;

verus! {

/// Whether `entries` hold an entry under `key`.
pub open spec fn has_key(entries: Seq<Entry>, key: (Seq<u8>, u64)) -> bool {
    exists|p: int| 0 <= p < entries.len() && (#[trigger] entries[p]).0 == key
}

/// Whether a table of `tables` holds a version of the row of `e` that is
/// `e` or later.
pub open spec fn covered(tables: Map<u64, Seq<Entry>>, e: Entry) -> bool {
    exists|id: u64| #[trigger] tables.contains_key(id) && keeps_latest(tables[id], e)
}

/// Whether every entry of `part` is one of `whole`.
#[verifier::opaque]
pub open spec fn within(part: Seq<Entry>, whole: Seq<Entry>) -> bool {
    forall|e: Entry| #[trigger] part.contains(e) ==> whole.contains(e)
}

/// Whether `entries` hold an entry under the key of every version of
/// `versions`.
#[verifier::opaque]
pub open spec fn keyed(versions: Seq<Entry>, entries: Seq<Entry>) -> bool {
    forall|e: Entry| #[trigger] versions.contains(e) ==> has_key(entries, e.0)
}

/// Whether every entry of every table of `tables` is one of `versions`.
#[verifier::opaque]
pub open spec fn tables_within(tables: Map<u64, Seq<Entry>>, versions: Seq<Entry>) -> bool {
    forall|id: u64, p: int|
        tables.contains_key(id) && 0 <= p < tables[id].len() ==> versions.contains(
            #[trigger] tables[id][p],
        )
}

/// Whether a table of `tables` holds, for every version of `versions`, a
/// version of its row that is as late or later.
#[verifier::opaque]
pub open spec fn all_covered(versions: Seq<Entry>, tables: Map<u64, Seq<Entry>>) -> bool {
    forall|e: Entry| #[trigger] versions.contains(e) ==> covered(tables, e)
}

/// Whether `e` is a version of `row` in `history` with a timestamp that no
/// version of the row in `history` exceeds.
pub open spec fn is_latest(history: Seq<Entry>, row: Seq<u8>, e: Entry) -> bool {
    &&& history.contains(e)
    &&& e.0.0 == row
    &&& forall|x: Entry| #[trigger] history.contains(x) && x.0.0 == row ==> x.0.1 <= e.0.1
}

/// Whether `history` has no version of `row`.
pub open spec fn unwritten(history: Seq<Entry>, row: Seq<u8>) -> bool {
    forall|x: Entry| #[trigger] history.contains(x) ==> x.0.0 != row
}

/// What a read of `row` gives after the writes of `history`: a latest
/// version of the row, unless that is a tombstone or the row was never
/// written.
pub open spec fn reads(history: Seq<Entry>, row: Seq<u8>, found: Option<Entry>) -> bool {
    match found {
        Some(e) => is_latest(history, row, e) && e.1 is Some,
        None => unwritten(history, row) || exists|e: Entry| #[trigger]
            is_latest(history, row, e) && e.1 is None,
    }
}

/// The views of what the volatile level gives for a row.
pub open spec fn entry_of(found: Option<(&Key, &Value)>) -> Option<Entry> {
    match found {
        Some((k, v)) => Some((k@, v@)),
        None => None,
    }
}

/// The views of what the persistent level gives for a row.
pub open spec fn views_of(found: Option<(Key, Value)>) -> Option<Entry> {
    match found {
        Some((k, v)) => Some((k@, v@)),
        None => None,
    }
}

/// The later of the versions that the two levels give for a row: the one
/// with the higher timestamp, and on a tie that of the volatile level.
pub open spec fn later(from_volatile: Option<Entry>, from_persistent: Option<Entry>) -> Option<
    Entry,
> {
    match (from_volatile, from_persistent) {
        (Some(a), Some(b)) => if a.0.1 >= b.0.1 {
            Some(a)
        } else {
            Some(b)
        },
        (Some(a), None) => Some(a),
        (None, Some(b)) => Some(b),
        (None, None) => None,
    }
}

/// Picks between what the two levels give for a row: the version with the
/// higher timestamp, and on a tie that of the volatile level.
pub fn later_of(volatile: Option<(&Key, &Value)>, persistent: Option<(Key, Value)>) -> (r: Option<
    (Key, Value),
>)
    ensures
        views_of(r) == later(entry_of(volatile), views_of(persistent)),
{
    match (volatile, persistent) {
        (Some((k1, v1)), Some((k2, v2))) => {
            if k1.timestamp() >= k2.timestamp() {
                Some((k1.clone(), v1.clone()))
            } else {
                Some((k2, v2))
            }
        },
        (Some((k1, v1)), None) => Some((k1.clone(), v1.clone())),
        (None, Some(kv2)) => Some(kv2),
        (None, None) => None,
    }
}

/// The tables hold written versions only, after a flush as before.
proof fn lemma_flush_written(
    tables: Map<u64, Seq<Entry>>,
    kept: Seq<Entry>,
    recent: Seq<Entry>,
    vol: Seq<Entry>,
    id: u64,
)
    requires
        tables_within(tables, kept),
        within(vol, recent),
        strictly_sorted::<Key>(keys_of(vol)),
    ensures
        tables_within(tables.insert(id, compacted(vol)), kept + recent),
{
    reveal(tables_within);
    reveal(within);
    lemma_compacted(vol);
    let tables2 = tables.insert(id, compacted(vol));
    let kept2 = kept + recent;
    assert forall|t: u64, p: int|
        tables2.contains_key(t) && 0 <= p < tables2[t].len() implies kept2.contains(
        #[trigger] tables2[t][p],
    ) by {
        let y = tables2[t][p];
        if t == id {
            assert(vol.contains(compacted(vol)[p]));
            assert(recent.contains(y));
            let i = choose|i: int| 0 <= i < recent.len() && recent[i] == y;
            assert(kept2[kept.len() + i] == y);
        } else {
            assert(tables.contains_key(t));
            assert(kept.contains(tables[t][p]));
            let i = choose|i: int| 0 <= i < kept.len() && kept[i] == y;
            assert(kept2[i] == y);
        }
    }
}

/// The tables cover every version that they were given, after a flush as
/// before.
proof fn lemma_flush_covered(
    tables: Map<u64, Seq<Entry>>,
    kept: Seq<Entry>,
    recent: Seq<Entry>,
    vol: Seq<Entry>,
    id: u64,
)
    requires
        all_covered(kept, tables),
        keyed(recent, vol),
        strictly_sorted::<Key>(keys_of(vol)),
        !tables.contains_key(id),
    ensures
        all_covered(kept + recent, tables.insert(id, compacted(vol))),
{
    reveal(all_covered);
    reveal(keyed);
    lemma_compacted(vol);
    let tables2 = tables.insert(id, compacted(vol));
    let kept2 = kept + recent;
    assert forall|y: Entry| #[trigger] kept2.contains(y) implies covered(tables2, y) by {
        let i = choose|i: int| 0 <= i < kept2.len() && kept2[i] == y;
        if i < kept.len() {
            assert(kept[i] == y);
            assert(kept.contains(y));
            assert(covered(tables, y));
            let t = choose|t: u64| #[trigger] tables.contains_key(t) && keeps_latest(tables[t], y);
            assert(tables2.contains_key(t) && tables2[t] == tables[t]);
        } else {
            assert(recent[i - kept.len()] == y);
            assert(recent.contains(y));
            assert(has_key(vol, y.0));
            let p = choose|p: int| 0 <= p < vol.len() && (#[trigger] vol[p]).0 == y.0;
            assert(keeps_latest(compacted(vol), vol[p]));
            assert(keeps_latest(compacted(vol), y));
            assert(tables2.contains_key(id));
        }
    }
}

/// A versioned key-value store of two levels: writes go to the volatile
/// level, a flush moves them to the persistent one, and a read takes the
/// later of what the two levels hold.
pub struct Store {
    volatile: VolatileStore,
    persistent: PersistentStore,
    /// The versions that cached flushes have moved to the persistent level.
    kept: Ghost<Seq<Entry>>,
    /// The versions written since the last flush.
    recent: Ghost<Seq<Entry>>,
}

impl Store {
    /// The versions written since the last flush, in the order of the
    /// writes.
    pub closed spec fn recent(&self) -> Seq<Entry> {
        self.recent@
    }

    /// The versions written before the last flush, in the order of the
    /// writes, but for those that an uncached flush dropped.
    pub closed spec fn kept(&self) -> Seq<Entry> {
        self.kept@
    }

    /// Every version that was written and not dropped, in the order of the
    /// writes.
    pub open spec fn history(&self) -> Seq<Entry> {
        self.kept() + self.recent()
    }

    /// The entries of the volatile level, in ascending order of their keys.
    pub closed spec fn volatile(&self) -> Seq<Entry> {
        self.volatile@
    }

    /// The entries of the tables of the persistent level, by table id.
    pub closed spec fn tables(&self) -> Map<u64, Seq<Entry>> {
        self.persistent.tables()
    }

    /// The tables of the persistent level, by table id.
    pub closed spec fn pool(&self) -> Map<u64, SSTable> {
        self.persistent.pool()
    }

    /// The id of the table that was flushed last.
    pub closed spec fn last_table_id(&self) -> u64 {
        self.persistent.last_id()
    }

    /// Both levels are sound, the volatile level holds the last version
    /// written under every key since the last flush, and the tables hold
    /// written versions only, and of every row they were given the latest.
    pub closed spec fn wf(&self) -> bool {
        &&& self.volatile.wf()
        &&& self.persistent.wf()
        &&& within(self.volatile@, self.recent@)
        &&& keyed(self.recent@, self.volatile@)
        &&& tables_within(self.persistent.tables(), self.kept@)
        &&& all_covered(self.kept@, self.persistent.tables())
    }

    /// The tables of the persistent level are sound, and `tables` holds
    /// their entries.
    pub proof fn lemma_pool(&self)
        requires
            self.wf(),
        ensures
            self.tables().dom() == self.pool().dom(),
            forall|id: u64| #[trigger]
                self.pool().contains_key(id) ==> self.pool()[id].wf() && self.tables()[id]
                    == self.pool()[id].entries(),
    {
        self.persistent.lemma_pool();
    }

    /// An empty store whose volatile level is sized for `n` entries.
    pub fn new(n: usize) -> (store: Self)
        requires
            n > 0,
        ensures
            store.wf(),
            store.history() == Seq::<Entry>::empty(),
            store.volatile() == Seq::<Entry>::empty(),
            store.tables() == Map::<u64, Seq<Entry>>::empty(),
            store.pool() == Map::<u64, SSTable>::empty(),
            store.last_table_id() == 0,
    {
        let store = Self {
            volatile: VolatileStore::new(n),
            persistent: PersistentStore::default(),
            kept: Ghost(Seq::empty()),
            recent: Ghost(Seq::empty()),
        };
        proof {
            assert(store.history() =~= Seq::<Entry>::empty());
            reveal(within);
            reveal(keyed);
            reveal(tables_within);
            reveal(all_covered);
        }
        store
    }

    /// No version of `row` since the last flush is later than the latest
    /// that the volatile level holds.
    proof fn lemma_volatile_latest(&self, row: Seq<u8>, x: Entry)
        requires
            self.wf(),
            self.recent@.contains(x),
            x.0.0 == row,
        ensures
            has_row(keys_of(self.volatile@), row),
            x.0.1 <= self.volatile@[row_rank(keys_of(self.volatile@), row)].0.1,
    {
        let vol = self.volatile@;
        reveal(keyed);
        assert(has_key(vol, x.0));
        let p = choose|p: int| 0 <= p < vol.len() && (#[trigger] vol[p]).0 == x.0;
        assert(keys_of(vol)[p] == x.0);
        lemma_row_rank(keys_of(vol), row);
        let at = row_rank(keys_of(vol), row);
        assert(keys_of(vol)[at] == vol[at].0);
    }

    /// No version of `row` that the persistent level was given is later
    /// than the latest that some table holds.
    proof fn lemma_persistent_latest(&self, row: Seq<u8>, x: Entry) -> (id: u64)
        requires
            self.wf(),
            self.kept@.contains(x),
            x.0.0 == row,
        ensures
            self.persistent.tables().contains_key(id),
            latest_in(self.persistent.tables()[id], row) is Some,
            x.0.1 <= latest_in(self.persistent.tables()[id], row).unwrap().0.1,
    {
        let tables = self.persistent.tables();
        reveal(all_covered);
        assert(covered(tables, x));
        let id = choose|id: u64| #[trigger] tables.contains_key(id) && keeps_latest(tables[id], x);
        let table = tables[id];
        let q = choose|q: int|
            0 <= q < table.len() && (#[trigger] table[q]).0.0 == x.0.0 && table[q].0.1 >= x.0.1;
        assert(keys_of(table)[q] == table[q].0);
        lemma_row_rank(keys_of(table), row);
        let at = row_rank(keys_of(table), row);
        assert(keys_of(table)[at] == table[at].0);
        id
    }

    /// The latest version of `row`, unless it is a tombstone: what was
    /// written last under the largest timestamp that the row was written
    /// with. Where the same timestamp was written again after a flush,
    /// the volatile level wins.
    pub fn get_latest(&self, row: &Row) -> (r: Option<(Key, Bytes)>)
        requires
            self.wf(),
        ensures
            reads(
                self.history(),
                row@,
                match r {
                    Some((k, payload)) => Some((k@, Some(contents(payload)))),
                    None => None,
                },
            ),
            r matches Some((k, _)) ==> k@.0 == row@,
            latest_in(self.volatile(), row@) matches Some(held) ==> (forall|id: u64| #[trigger]
                self.tables().contains_key(id) ==> (latest_in(self.tables()[id], row@) matches Some(
                    other,
                ) ==> other.0.1 <= held.0.1)) ==> match r {
                Some((k, payload)) => held == (k@, Some(contents(payload))),
                None => held.1 is None,
            },
    {
        let volatile = self.volatile.get_latest(row);
        let persistent = self.persistent.get_latest(row);
        let ghost from_volatile = entry_of(volatile);
        let ghost from_persistent = views_of(persistent);
        let kv = later_of(volatile, persistent);
        proof {
            self.lemma_merge(row@, from_volatile, from_persistent);
            assert(from_volatile == latest_in(self.volatile(), row@));
            if from_volatile is Some && from_persistent is Some && (forall|id: u64| #[trigger]
                self.tables().contains_key(id) ==> (latest_in(self.tables()[id], row@) matches Some(
                    other,
                ) ==> other.0.1 <= from_volatile.unwrap().0.1)) {
                let found = from_persistent.unwrap();
                let id = choose|id: u64| #[trigger]
                    self.tables().contains_key(id) && latest_in(self.tables()[id], row@) == Some(
                        found,
                    );
                assert(self.tables().contains_key(id));
                assert(later(from_volatile, from_persistent) == from_volatile);
            }
        }
        match kv {
            Some((k, Value::Val(v))) => Some((k, v)),
            _ => None,
        }
    }

    /// An entry of the volatile level is a version of the history.
    proof fn lemma_volatile_written(&self, e: Entry)
        requires
            self.wf(),
            self.volatile@.contains(e),
        ensures
            self.history().contains(e),
    {
        reveal(within);
        assert(self.recent@.contains(e));
        let i = choose|i: int| 0 <= i < self.recent@.len() && self.recent@[i] == e;
        assert(self.history()[self.kept@.len() + i] == e);
    }

    /// An entry of a table is a version of the history.
    proof fn lemma_table_written(&self, id: u64, p: int)
        requires
            self.wf(),
            self.persistent.tables().contains_key(id),
            0 <= p < self.persistent.tables()[id].len(),
        ensures
            self.history().contains(self.persistent.tables()[id][p]),
    {
        reveal(tables_within);
        let e = self.persistent.tables()[id][p];
        assert(self.kept@.contains(e));
        let i = choose|i: int| 0 <= i < self.kept@.len() && self.kept@[i] == e;
        assert(self.history()[i] == e);
    }

    /// The later of what the two levels give for a row is a latest version
    /// of the row in the history, and where neither level gives one the
    /// row was never written.
    proof fn lemma_merge(
        &self,
        row: Seq<u8>,
        from_volatile: Option<Entry>,
        from_persistent: Option<Entry>,
    )
        requires
            self.wf(),
            match from_volatile {
                Some(e) => has_row(keys_of(self.volatile@), row) && e == self.volatile@[row_rank(
                    keys_of(self.volatile@),
                    row,
                )],
                None => !has_row(keys_of(self.volatile@), row),
            },
            match from_persistent {
                Some(e) => latest_among(self.persistent.tables(), row, e),
                None => absent_among(self.persistent.tables(), row),
            },
        ensures
            match later(from_volatile, from_persistent) {
                Some(e) => is_latest(self.history(), row, e),
                None => unwritten(self.history(), row),
            },
    {
        let history = self.history();
        let vol = self.volatile@;
        let tables = self.persistent.tables();
        let winner = later(from_volatile, from_persistent);
        lemma_row_rank(keys_of(vol), row);
        if winner is Some {
            let e = winner.unwrap();
            if from_volatile == Some(e) {
                let at = row_rank(keys_of(vol), row);
                assert(keys_of(vol)[at] == e.0);
                assert(vol.contains(e));
                self.lemma_volatile_written(e);
            } else {
                let id = choose|id: u64| #[trigger]
                    tables.contains_key(id) && latest_in(tables[id], row) == Some(e);
                let at = row_rank(keys_of(tables[id]), row);
                lemma_row_rank(keys_of(tables[id]), row);
                assert(keys_of(tables[id]).len() == tables[id].len());
                self.lemma_table_written(id, at);
            }
            assert forall|x: Entry| #[trigger] history.contains(x) && x.0.0 == row implies x.0.1
                <= e.0.1 by {
                self.lemma_history_bound(row, x, from_volatile, from_persistent);
            }
        } else {
            assert forall|x: Entry| #[trigger] history.contains(x) implies x.0.0 != row by {
                if x.0.0 == row {
                    self.lemma_history_bound(row, x, from_volatile, from_persistent);
                }
            }
        }
    }

    /// A version of `row` in the history is no later than what one of the
    /// two levels gives for the row.
    proof fn lemma_history_bound(
        &self,
        row: Seq<u8>,
        x: Entry,
        from_volatile: Option<Entry>,
        from_persistent: Option<Entry>,
    )
        requires
            self.wf(),
            self.history().contains(x),
            x.0.0 == row,
            match from_volatile {
                Some(e) => has_row(keys_of(self.volatile@), row) && e == self.volatile@[row_rank(
                    keys_of(self.volatile@),
                    row,
                )],
                None => !has_row(keys_of(self.volatile@), row),
            },
            match from_persistent {
                Some(e) => latest_among(self.persistent.tables(), row, e),
                None => absent_among(self.persistent.tables(), row),
            },
        ensures
            later(from_volatile, from_persistent) is Some,
            x.0.1 <= later(from_volatile, from_persistent).unwrap().0.1,
    {
        let history = self.history();
        let i = choose|i: int| 0 <= i < history.len() && history[i] == x;
        if i < self.kept@.len() {
            assert(self.kept@[i] == x);
            assert(self.kept@.contains(x));
            let id = self.lemma_persistent_latest(row, x);
        } else {
            assert(self.recent@[i - self.kept@.len()] == x);
            assert(self.recent@.contains(x));
            self.lemma_volatile_latest(row, x);
        }
    }

    /// Whether the volatile level has room for this version.
    pub open spec fn admits(&self, row: Seq<u8>, timestamp: u64, value: Option<Seq<u8>>) -> bool {
        size_after_put(self.volatile(), (row, timestamp), value) <= isize::MAX
    }

    /// Whether the volatile level has room for this version.
    pub fn has_room(&self, row: &Row, timestamp: u64, value: &Value) -> (r: bool)
        requires
            self.wf(),
        ensures
            r == self.admits(row@, timestamp, value@),
    {
        self.volatile.has_room(row, timestamp, value)
    }

    /// Writes `value` as one version of `row`.
    fn write(&mut self, row: Row, timestamp: u64, value: Value)
        requires
            old(self).wf(),
            old(self).admits(row@, timestamp, value@),
        ensures
            final(self).wf(),
            final(self).recent() == old(self).recent().push(((row@, timestamp), value@)),
            final(self).kept() == old(self).kept(),
            final(self).volatile() == put(old(self).volatile(), (row@, timestamp), value@),
            final(self).tables() == old(self).tables(),
            final(self).pool() == old(self).pool(),
            final(self).last_table_id() == old(self).last_table_id(),
    {
        let ghost key = (row@, timestamp);
        let ghost e = (key, value@);
        let ghost vol = self.volatile@;
        let ghost recent = self.recent@;
        self.volatile.insert(row, timestamp, value);
        proof {
            self.recent@ = recent.push(e);
            let vol2 = self.volatile@;
            let recent2 = self.recent@;
            reveal(within);
            reveal(keyed);
            assert(recent2[recent.len() as int] == e);
            assert forall|y: Entry| #[trigger] vol2.contains(y) implies recent2.contains(y) by {
                lemma_put(vol, key, value@, y);
                if y != e {
                    assert(recent.contains(y));
                    let i = choose|i: int| 0 <= i < recent.len() && recent[i] == y;
                    assert(recent2[i] == y);
                }
            }
            assert forall|y: Entry| #[trigger] recent2.contains(y) implies has_key(vol2, y.0) by {
                let i = choose|i: int| 0 <= i < recent2.len() && recent2[i] == y;
                if i < recent.len() {
                    assert(recent[i] == y);
                    assert(recent.contains(y));
                    assert(has_key(vol, y.0));
                    let p = choose|p: int| 0 <= p < vol.len() && (#[trigger] vol[p]).0 == y.0;
                    let held = vol[p];
                    assert(vol.contains(held));
                    if held.0 == key {
                        lemma_put(vol, key, value@, e);
                        let q = choose|q: int| 0 <= q < vol2.len() && vol2[q] == e;
                        assert(vol2[q].0 == y.0);
                    } else {
                        lemma_put(vol, key, value@, held);
                        let q = choose|q: int| 0 <= q < vol2.len() && vol2[q] == held;
                        assert(vol2[q].0 == y.0);
                    }
                } else {
                    lemma_put(vol, key, value@, e);
                    let q = choose|q: int| 0 <= q < vol2.len() && vol2[q] == e;
                    assert(vol2[q].0 == y.0);
                }
            }
        }
    }

    /// Writes `val` as the version of `row` at `timestamp`.
    pub fn put(&mut self, row: Row, timestamp: u64, val: Bytes)
        requires
            old(self).wf(),
            old(self).admits(row@, timestamp, Some(contents(val))),
        ensures
            final(self).wf(),
            final(self).recent() == old(self).recent().push(
                ((row@, timestamp), Some(contents(val))),
            ),
            final(self).kept() == old(self).kept(),
            final(self).volatile() == put(
                old(self).volatile(),
                (row@, timestamp),
                Some(contents(val)),
            ),
            final(self).tables() == old(self).tables(),
            final(self).pool() == old(self).pool(),
            final(self).last_table_id() == old(self).last_table_id(),
    {
        let value = Value::Val(val);
        self.write(row, timestamp, value);
    }

    /// Writes a tombstone as the version of `row` at `timestamp`.
    pub fn delete(&mut self, row: Row, timestamp: u64)
        requires
            old(self).wf(),
            old(self).admits(row@, timestamp, None),
        ensures
            final(self).wf(),
            final(self).recent() == old(self).recent().push(((row@, timestamp), None)),
            final(self).kept() == old(self).kept(),
            final(self).volatile() == put(old(self).volatile(), (row@, timestamp), None),
            final(self).tables() == old(self).tables(),
            final(self).pool() == old(self).pool(),
            final(self).last_table_id() == old(self).last_table_id(),
    {
        self.write(row, timestamp, Value::Del);
    }

    /// The number of entries in the volatile level.
    pub fn pending(&self) -> (n: usize)
        requires
            self.wf(),
        ensures
            n == self.volatile().len(),
    {
        self.volatile.len()
    }

    /// Whether a flush can run: whether there is anything to flush, and an
    /// id left for the table.
    pub fn can_flush(&self) -> (r: bool)
        requires
            self.wf(),
        ensures
            r == (self.volatile().len() > 0 && self.last_table_id() < u64::MAX),
    {
        self.volatile.len() > 0 && self.persistent.has_next_id()
    }

    /// Moves what the volatile level holds, compacted to a single version,
    /// to a new table with a filter of `filter_bits` bits and `hash_count`
    /// hash functions, and empties the volatile level. With `cache` the
    /// table joins the persistent level; without, it is dropped.
    pub fn flush(&mut self, cache: bool, filter_bits: u64, hash_count: usize)
        requires
            old(self).wf(),
            old(self).volatile().len() > 0,
            old(self).last_table_id() < u64::MAX,
            0 < filter_bits <= max_bits(),
        ensures
            final(self).wf(),
            final(self).volatile() == Seq::<Entry>::empty(),
            final(self).recent() == Seq::<Entry>::empty(),
            final(self).last_table_id() == old(self).last_table_id() + 1,
            final(self).kept() == if cache {
                old(self).history()
            } else {
                old(self).kept()
            },
            final(self).tables() == if cache {
                old(self).tables().insert(
                    final(self).last_table_id(),
                    compacted(old(self).volatile()),
                )
            } else {
                old(self).tables()
            },
            !cache ==> final(self).pool() == old(self).pool(),
            cache ==> {
                &&& final(self).pool().contains_key(final(self).last_table_id())
                &&& built_from(
                    final(self).pool()[final(self).last_table_id()],
                    old(self).volatile(),
                    filter_bits,
                    hash_count,
                )
                &&& final(self).pool() == old(self).pool().insert(
                    final(self).last_table_id(),
                    final(self).pool()[final(self).last_table_id()],
                )
            },
    {
        let ghost vol = self.volatile@;
        let ghost kept = self.kept@;
        let ghost recent = self.recent@;
        let ghost tables = self.persistent.tables();
        let sstable = self.volatile.flush(filter_bits, hash_count);
        proof {
            lemma_compacted(vol);
        }
        self.persistent.add(sstable, cache);
        self.volatile.clear();
        proof {
            self.recent@ = Seq::empty();
            if cache {
                self.kept@ = kept + recent;
            }
            let tables2 = self.persistent.tables();
            let id2 = self.persistent.last_id();
            assert(within(self.volatile@, self.recent@)) by {
                reveal(within);
            }
            assert(keyed(self.recent@, self.volatile@)) by {
                reveal(keyed);
            }
            if cache {
                lemma_flush_written(tables, kept, recent, vol, id2);
                lemma_flush_covered(tables, kept, recent, vol, id2);
            }
            assert(self.volatile@.len() == 0);
        }
    }

    /// Flushes where a flush can run: where the volatile level holds
    /// anything, an id is left for the table and a filter can have
    /// `filter_bits` bits. Where it cannot, the store stays as it is.
    pub fn try_flush(&mut self, cache: bool, filter_bits: u64, hash_count: usize) -> (flushed: bool)
        requires
            old(self).wf(),
        ensures
            final(self).wf(),
            flushed == (old(self).volatile().len() > 0 && old(self).last_table_id() < u64::MAX && 0
                < filter_bits <= max_bits()),
            !flushed ==> *final(self) == *old(self),
            flushed ==> {
                &&& final(self).volatile() == Seq::<Entry>::empty()
                &&& final(self).recent() == Seq::<Entry>::empty()
                &&& final(self).last_table_id() == old(self).last_table_id() + 1
                &&& final(self).kept() == if cache {
                    old(self).history()
                } else {
                    old(self).kept()
                }
                &&& final(self).tables() == if cache {
                    old(self).tables().insert(
                        final(self).last_table_id(),
                        compacted(old(self).volatile()),
                    )
                } else {
                    old(self).tables()
                }
                &&& !cache ==> final(self).pool() == old(self).pool()
                &&& cache ==> {
                    &&& final(self).pool().contains_key(final(self).last_table_id())
                    &&& built_from(
                        final(self).pool()[final(self).last_table_id()],
                        old(self).volatile(),
                        filter_bits,
                        hash_count,
                    )
                    &&& final(self).pool() == old(self).pool().insert(
                        final(self).last_table_id(),
                        final(self).pool()[final(self).last_table_id()],
                    )
                }
            },
    {
        if self.can_flush() && 0 < filter_bits && filter_bits <= (usize::MAX / 8) as u64 {
            self.flush(cache, filter_bits, hash_count);
            true
        } else {
            false
        }
    }
}

} // verus!

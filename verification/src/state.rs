//! The state behind the service: a store, and the rule that gives a write
//! its timestamp.

use crate::collections::bloom_filter::bits::max_bits;
use crate::model::buffer::contents;
use crate::model::{Row, Value};
use crate::store::compacter::compacted;
use crate::store::sstable::built_from;
use crate::store::sstable::data::Entry;
use crate::store::{reads, Store};
use bytes::Bytes;
use vstd::prelude::*;

verus! {

/// Why an operation on the state gave no result.
#[derive(Debug, PartialEq, Eq, Structural, Clone, Copy)]
pub enum StateError {
    /// The clock could not give a timestamp: it stands before the epoch, or
    /// its milliseconds do not fit 64 bits.
    Clock,
    /// The row has no version, or its latest version is a tombstone.
    NotFound,
}

/// The timestamp of a write: the one that was asked for, and where that is
/// 0 the milliseconds that the clock has counted since the epoch.
pub open spec fn timestamp_of(requested: u64, clock_millis: Option<u128>) -> Result<
    u64,
    StateError,
> {
    if requested != 0 {
        Ok(requested)
    } else {
        match clock_millis {
            Some(millis) => if millis <= u64::MAX {
                Ok(millis as u64)
            } else {
                Err(StateError::Clock)
            },
            None => Err(StateError::Clock),
        }
    }
}

/// Gives a write its timestamp. `clock_millis` is what the clock has
/// counted since the epoch, or `None` where it stands before the epoch.
pub fn resolve_timestamp(requested: u64, clock_millis: Option<u128>) -> (r: Result<
    u64,
    StateError,
>)
    ensures
        r == timestamp_of(requested, clock_millis),
{
    if requested != 0 {
        Ok(requested)
    } else {
        match clock_millis {
            Some(millis) => {
                if millis <= u64::MAX as u128 {
                    Ok(millis as u64)
                } else {
                    Err(StateError::Clock)
                }
            },
            None => Err(StateError::Clock),
        }
    }
}

/// The state that the service applies its requests to.
pub struct BeatriceState {
    store: Store,
}

impl BeatriceState {
    /// The number of entries that the volatile level is sized for.
    pub const EXPECTED_ENTRIES: usize = 2048;

    /// The store.
    pub closed spec fn store(&self) -> Store {
        self.store
    }

    pub open spec fn wf(&self) -> bool {
        self.store().wf()
    }

    pub fn new() -> (state: Self)
        ensures
            state.wf(),
            state.store().history() == Seq::<Entry>::empty(),
    {
        Self { store: Store::new(Self::EXPECTED_ENTRIES) }
    }

    /// Whether the store has room for a value under `row`, whatever the
    /// timestamp.
    pub fn has_room(&self, row: &Row, timestamp: u64, value: &Value) -> (r: bool)
        requires
            self.wf(),
        ensures
            r == self.store().admits(row@, timestamp, value@),
    {
        self.store.has_room(row, timestamp, value)
    }

    /// Writes `value` as a version of `row`, at `timestamp` or, where that
    /// is 0, at the time of the clock. Where the clock fails nothing is
    /// written.
    pub fn put(&mut self, row: Row, timestamp: u64, value: Bytes, clock_millis: Option<u128>) -> (r:
        Result<(), StateError>)
        requires
            old(self).wf(),
            timestamp_of(timestamp, clock_millis) matches Ok(t) ==> old(self).store().admits(
                row@,
                t,
                Some(contents(value)),
            ),
        ensures
            final(self).wf(),
            match timestamp_of(timestamp, clock_millis) {
                Ok(t) => r is Ok && final(self).store().history() == old(
                    self,
                ).store().history().push(((row@, t), Some(contents(value)))),
                Err(e) => r == Err::<(), StateError>(e) && final(self).store() == old(self).store(),
            },
    {
        match resolve_timestamp(timestamp, clock_millis) {
            Ok(t) => {
                self.store.put(row, t, value);
                proof {
                    assert(self.store.history() =~= old(self).store.history().push(
                        ((row@, t), Some(contents(value))),
                    ));
                }
                Ok(())
            },
            Err(e) => Err(e),
        }
    }

    /// Writes a tombstone as a version of `row`, at `timestamp` or, where
    /// that is 0, at the time of the clock. Where the clock fails nothing
    /// is written.
    pub fn delete(&mut self, row: Row, timestamp: u64, clock_millis: Option<u128>) -> (r: Result<
        (),
        StateError,
    >)
        requires
            old(self).wf(),
            timestamp_of(timestamp, clock_millis) matches Ok(t) ==> old(self).store().admits(
                row@,
                t,
                None,
            ),
        ensures
            final(self).wf(),
            match timestamp_of(timestamp, clock_millis) {
                Ok(t) => r is Ok && final(self).store().history() == old(
                    self,
                ).store().history().push(((row@, t), None)),
                Err(e) => r == Err::<(), StateError>(e) && final(self).store() == old(self).store(),
            },
    {
        match resolve_timestamp(timestamp, clock_millis) {
            Ok(t) => {
                self.store.delete(row, t);
                proof {
                    assert(self.store.history() =~= old(self).store.history().push(
                        ((row@, t), None),
                    ));
                }
                Ok(())
            },
            Err(e) => Err(e),
        }
    }

    /// The latest version of `row`: its timestamp and its value.
    pub fn get(&self, row: &Row) -> (r: Result<(u64, Bytes), StateError>)
        requires
            self.wf(),
        ensures
            reads(
                self.store().history(),
                row@,
                match r {
                    Ok((timestamp, value)) => Some(((row@, timestamp), Some(contents(value)))),
                    Err(_) => None,
                },
            ),
            r is Err ==> r == Err::<(u64, Bytes), StateError>(StateError::NotFound),
    {
        match self.store.get_latest(row) {
            Some((k, v)) => Ok((k.timestamp(), v)),
            None => Err(StateError::NotFound),
        }
    }

    /// The number of entries that wait for a flush.
    pub fn pending(&self) -> (n: usize)
        requires
            self.wf(),
        ensures
            n == self.store().volatile().len(),
    {
        self.store.pending()
    }

    /// Whether a flush can run.
    pub fn can_flush(&self) -> (r: bool)
        requires
            self.wf(),
        ensures
            r == (self.store().volatile().len() > 0 && self.store().last_table_id() < u64::MAX),
    {
        self.store.can_flush()
    }

    /// Flushes the volatile level of the store.
    pub fn flush(&mut self, cache: bool, filter_bits: u64, hash_count: usize)
        requires
            old(self).wf(),
            old(self).store().volatile().len() > 0,
            old(self).store().last_table_id() < u64::MAX,
            0 < filter_bits <= max_bits(),
        ensures
            final(self).wf(),
            final(self).store().volatile() == Seq::<Entry>::empty(),
            final(self).store().recent() == Seq::<Entry>::empty(),
            final(self).store().last_table_id() == old(self).store().last_table_id() + 1,
            final(self).store().kept() == if cache {
                old(self).store().history()
            } else {
                old(self).store().kept()
            },
            final(self).store().tables() == if cache {
                old(self).store().tables().insert(
                    final(self).store().last_table_id(),
                    compacted(old(self).store().volatile()),
                )
            } else {
                old(self).store().tables()
            },
            !cache ==> final(self).store().pool() == old(self).store().pool(),
            cache ==> {
                &&& final(self).store().pool().contains_key(final(self).store().last_table_id())
                &&& built_from(
                    final(self).store().pool()[final(self).store().last_table_id()],
                    old(self).store().volatile(),
                    filter_bits,
                    hash_count,
                )
                &&& final(self).store().pool() == old(self).store().pool().insert(
                    final(self).store().last_table_id(),
                    final(self).store().pool()[final(self).store().last_table_id()],
                )
            },
    {
        self.store.flush(cache, filter_bits, hash_count);
    }
}

} // verus!

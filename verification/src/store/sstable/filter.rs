//! The filter of a table: which rows it may hold.

use crate::collections::bloom_filter::hash::km::{fx_digest_bytes, km_hashes};
use crate::collections::bloom_filter::{marked, BloomFilter};
use crate::model::Row;
use vstd::prelude::*;

verus! {

/// Whether `bloom` takes a row of these bytes for a member.
pub open spec fn row_marked(bloom: BloomFilter<Row>, row: Seq<u8>) -> bool {
    marked(
        bloom.bits(),
        km_hashes(fx_digest_bytes(row), bloom.hashers().modulus()),
        bloom.hash_count(),
    )
}

/// A bloom filter over the rows of a table.
pub struct Filter {
    filter: BloomFilter<Row>,
}

impl Filter {
    /// The bloom filter inside.
    pub closed spec fn bloom(&self) -> BloomFilter<Row> {
        self.filter
    }

    pub open spec fn wf(&self) -> bool {
        self.bloom().wf()
    }

    /// Whether the filter takes a row of these bytes for one of the table.
    pub open spec fn holds(&self, row: Seq<u8>) -> bool {
        row_marked(self.bloom(), row)
    }

    pub fn new(filter: BloomFilter<Row>) -> (r: Self)
        ensures
            r.bloom() == filter,
    {
        Self { filter }
    }

    /// Whether the table may hold `row`. A row that the filter was given
    /// is never denied.
    pub fn contains(&self, row: &Row) -> (r: bool)
        requires
            self.wf(),
        ensures
            r == self.holds(row@),
    {
        self.filter.contains(row)
    }
}

} // verus!

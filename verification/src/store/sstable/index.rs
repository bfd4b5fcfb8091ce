//! The index of a table: where in the data each key's entry starts.

use crate::model::lexical::{bytes_lt, lemma_bytes_lt_irreflexive};
use crate::model::{Key, Row};
use crate::order::{
    lemma_lower_bound, lemma_lower_bound_is, lower_bound, strictly_sorted, TotalOrder,
};
use vstd::prelude::*;

verus! {

/// The key that comes before every other key of `row`.
pub open spec fn first_of_row(row: Seq<u8>) -> (Seq<u8>, u64) {
    (row, u64::MAX)
}

/// The position in sorted `keys` of the first key of `row`, or of the first
/// key of a later row where `row` has none.
pub open spec fn row_rank(keys: Seq<(Seq<u8>, u64)>, row: Seq<u8>) -> int {
    lower_bound::<Key>(keys, first_of_row(row))
}

/// Whether sorted `keys` hold a key of `row`.
pub open spec fn has_row(keys: Seq<(Seq<u8>, u64)>, row: Seq<u8>) -> bool {
    row_rank(keys, row) < keys.len() && keys[row_rank(keys, row)].0 == row
}

/// In sorted keys the versions of a row stand together, the latest first:
/// a row that occurs at all occurs at its rank, with a timestamp that no
/// other version of the row exceeds, and the keys before the rank are of
/// earlier rows.
pub proof fn lemma_row_rank(keys: Seq<(Seq<u8>, u64)>, row: Seq<u8>)
    requires
        strictly_sorted::<Key>(keys),
    ensures
        0 <= row_rank(keys, row) <= keys.len(),
        forall|p: int| 0 <= p < row_rank(keys, row) ==> bytes_lt((#[trigger] keys[p]).0, row),
        forall|p: int|
            row_rank(keys, row) <= p < keys.len() ==> !bytes_lt((#[trigger] keys[p]).0, row),
        forall|p: int|
            0 <= p < keys.len() && (#[trigger] keys[p]).0 == row ==> has_row(keys, row)
                && row_rank(keys, row) <= p && keys[row_rank(keys, row)].1 >= keys[p].1,
{
    let target = first_of_row(row);
    let lb = row_rank(keys, row);
    lemma_lower_bound::<Key>(keys, target);
    lemma_bytes_lt_irreflexive(row);
    assert forall|p: int| 0 <= p < lb implies bytes_lt((#[trigger] keys[p]).0, row) by {
        assert(Key::precedes(keys[p], target));
    }
    assert forall|p: int| lb <= p < keys.len() implies !bytes_lt((#[trigger] keys[p]).0, row) by {
        assert(!Key::precedes(keys[p], target));
    }
    assert forall|p: int| 0 <= p < keys.len() && (#[trigger] keys[p]).0 == row implies has_row(
        keys,
        row,
    ) && lb <= p && keys[lb].1 >= keys[p].1 by {
        if p < lb {
            assert(bytes_lt(keys[p].0, row));
        }
        if lb < p {
            assert(Key::precedes(keys[lb], keys[p]));
            assert(!bytes_lt(keys[lb].0, row));
        }
    }
}

/// The keys of a table, each with the offset of its entry in the data.
#[derive(Clone, Default)]
pub struct Index {
    index: Vec<(Key, usize)>,
}

impl View for Index {
    type V = Seq<((Seq<u8>, u64), usize)>;

    closed spec fn view(&self) -> Seq<((Seq<u8>, u64), usize)> {
        Seq::new(self.index@.len(), |p: int| (self.index@[p].0@, self.index@[p].1))
    }
}

/// The keys of the pairs of an index.
pub open spec fn index_keys(pairs: Seq<((Seq<u8>, u64), usize)>) -> Seq<(Seq<u8>, u64)> {
    Seq::new(pairs.len(), |p: int| pairs[p].0)
}

/// The views of the keys of `pairs`, each with its offset.
pub open spec fn index_view(pairs: Seq<(Key, usize)>) -> Seq<((Seq<u8>, u64), usize)> {
    Seq::new(pairs.len(), |p: int| (pairs[p].0@, pairs[p].1))
}

impl Index {
    /// The keys of the index, in its order.
    pub open spec fn keys(&self) -> Seq<(Seq<u8>, u64)> {
        index_keys(self@)
    }

    /// The keys are strictly ascending, and fewer than `usize::MAX`.
    pub open spec fn wf(&self) -> bool {
        strictly_sorted::<Key>(self.keys()) && self@.len() < usize::MAX
    }

    /// An index of pairs that are sorted by key.
    pub fn new(index: Vec<(Key, usize)>) -> (r: Self)
        requires
            strictly_sorted::<Key>(index_keys(index_view(index@))),
            index@.len() < usize::MAX,
        ensures
            r.wf(),
            r@ == index_view(index@),
    {
        let r = Self { index };
        proof {
            assert(r@ =~= index_view(index@));
        }
        r
    }

    /// The latest version of `row` that the index holds, with its offset.
    pub fn get_latest(&self, row: &Row) -> (r: Option<(&Key, usize)>)
        requires
            self.wf(),
        ensures
            match r {
                Some((k, offset)) => has_row(self.keys(), row@) && (k@, offset)
                    == self@[row_rank(self.keys(), row@)],
                None => !has_row(self.keys(), row@),
            },
    {
        let key = Key::new(row.clone(), u64::MAX);
        let ghost keys = self.keys();
        let ghost target = first_of_row(row@);
        let ghost mut low: int = -1;

        let mut left = usize::MAX;
        let mut right = self.index.len();
        proof {
            lemma_lower_bound::<Key>(keys, target);
        }

        while right.wrapping_sub(left) > 1
            invariant
                self.wf(),
                keys == self.keys(),
                key@ == target,
                -1 <= low < right <= self.index@.len(),
                self.index@.len() == keys.len(),
                self.index@.len() < usize::MAX,
                left == if low == -1 { usize::MAX as int } else { low },
                forall|p: int| 0 <= p <= low ==> Key::precedes(#[trigger] keys[p], target),
                forall|p: int|
                    right <= p < keys.len() ==> !Key::precedes(#[trigger] keys[p], target),
            decreases right - low,
        {
            let m = left.wrapping_add(right.wrapping_sub(left) / 2);
            assert(m == low + (right - low) / 2);
            let k = &self.index[m].0;
            assert(k@ == keys[m as int]);

            if !k.less(&key) {
                proof {
                    assert forall|p: int| m <= p < keys.len() implies !Key::precedes(
                        #[trigger] keys[p],
                        target,
                    ) by {
                        if p > m && Key::precedes(keys[p], target) {
                            Key::lemma_transitive(keys[m as int], keys[p], target);
                        }
                    }
                }
                right = m;
            } else {
                proof {
                    assert forall|p: int| 0 <= p <= m implies Key::precedes(
                        #[trigger] keys[p],
                        target,
                    ) by {
                        if p < m {
                            Key::lemma_transitive(keys[p], keys[m as int], target);
                        }
                    }
                    low = m as int;
                }
                left = m;
            }
        }
        proof {
            lemma_lower_bound_is::<Key>(keys, target, right as int);
        }

        if right < self.index.len() {
            let k = &self.index[right].0;
            let offset = self.index[right].1;
            assert(k@ == keys[right as int]);
            assert(self@[right as int] == (k@, offset));
            if k.row().same(row) {
                Some((k, offset))
            } else {
                None
            }
        } else {
            None
        }
    }
}

} // verus!

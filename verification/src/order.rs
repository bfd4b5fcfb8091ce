//! Total orders on the views of key types.

use vstd::prelude::*;

verus! {

/// A type whose values are strictly and totally ordered by their views.
///
/// Two values with the same view are the same key; of two values with
/// different views exactly one comes before the other.
pub trait TotalOrder: View + Sized {
    /// `a` comes strictly before `b`.
    spec fn precedes(a: Self::V, b: Self::V) -> bool;

    /// Nothing comes before itself.
    proof fn lemma_irreflexive(a: Self::V)
        ensures
            !Self::precedes(a, a),
    ;

    /// The order is transitive.
    proof fn lemma_transitive(a: Self::V, b: Self::V, c: Self::V)
        requires
            Self::precedes(a, b),
            Self::precedes(b, c),
        ensures
            Self::precedes(a, c),
    ;

    /// Any two views are ordered or equal.
    proof fn lemma_total(a: Self::V, b: Self::V)
        ensures
            Self::precedes(a, b) || Self::precedes(b, a) || a == b,
    ;

    /// Whether `self` comes strictly before `other`.
    fn less(&self, other: &Self) -> (r: bool)
        ensures
            r == Self::precedes(self@, other@),
    ;

    /// Whether `self` and `other` are the same key.
    fn same(&self, other: &Self) -> (r: bool)
        ensures
            r == (self@ == other@),
    ;
}

/// Each key comes strictly before every later one.
pub open spec fn strictly_sorted<K: TotalOrder>(keys: Seq<K::V>) -> bool {
    forall|p: int, q: int|
        0 <= p < q < keys.len() ==> K::precedes(#[trigger] keys[p], #[trigger] keys[q])
}

/// The number of keys of a sorted sequence that come strictly before
/// `target`: the position of the first key that does not.
pub open spec fn lower_bound<K: TotalOrder>(keys: Seq<K::V>, target: K::V) -> int
    decreases keys.len(),
{
    if keys.len() == 0 {
        0
    } else if K::precedes(keys.last(), target) {
        keys.len() as int
    } else {
        lower_bound::<K>(keys.drop_last(), target)
    }
}

/// In a sorted sequence the keys before the lower bound come before the
/// target, and no other does.
pub proof fn lemma_lower_bound<K: TotalOrder>(keys: Seq<K::V>, target: K::V)
    requires
        strictly_sorted::<K>(keys),
    ensures
        0 <= lower_bound::<K>(keys, target) <= keys.len(),
        forall|p: int|
            0 <= p < lower_bound::<K>(keys, target) ==> K::precedes(#[trigger] keys[p], target),
        forall|p: int|
            lower_bound::<K>(keys, target) <= p < keys.len() ==> !K::precedes(
                #[trigger] keys[p],
                target,
            ),
    decreases keys.len(),
{
    if keys.len() > 0 {
        let last = keys.len() - 1;
        if K::precedes(keys.last(), target) {
            assert forall|p: int| 0 <= p < keys.len() implies K::precedes(
                #[trigger] keys[p],
                target,
            ) by {
                if p < last {
                    K::lemma_transitive(keys[p], keys[last], target);
                }
            }
        } else {
            let front = keys.drop_last();
            assert forall|p: int, q: int| 0 <= p < q < front.len() implies K::precedes(
                #[trigger] front[p],
                #[trigger] front[q],
            ) by {
                assert(front[p] == keys[p] && front[q] == keys[q]);
            }
            lemma_lower_bound::<K>(front, target);
            let lb = lower_bound::<K>(front, target);
            assert forall|p: int| 0 <= p < lb implies K::precedes(#[trigger] keys[p], target) by {
                assert(front[p] == keys[p]);
            }
            assert forall|p: int| lb <= p < keys.len() implies !K::precedes(
                #[trigger] keys[p],
                target,
            ) by {
                if p < last {
                    assert(front[p] == keys[p]);
                }
            }
        }
    }
}

/// A position that parts the keys before the target from the rest is the
/// lower bound.
pub proof fn lemma_lower_bound_is<K: TotalOrder>(keys: Seq<K::V>, target: K::V, b: int)
    requires
        strictly_sorted::<K>(keys),
        0 <= b <= keys.len(),
        forall|p: int| 0 <= p < b ==> K::precedes(#[trigger] keys[p], target),
        forall|p: int| b <= p < keys.len() ==> !K::precedes(#[trigger] keys[p], target),
    ensures
        lower_bound::<K>(keys, target) == b,
{
    lemma_lower_bound::<K>(keys, target);
    let lb = lower_bound::<K>(keys, target);
    if lb < b {
        assert(K::precedes(keys[lb], target));
    } else if b < lb {
        assert(K::precedes(keys[b], target));
    }
}

/// A key occurs in a sorted sequence at its lower bound or nowhere.
pub proof fn lemma_found_at_lower_bound<K: TotalOrder>(keys: Seq<K::V>, target: K::V, p: int)
    requires
        strictly_sorted::<K>(keys),
        0 <= p < keys.len(),
        keys[p] == target,
    ensures
        lower_bound::<K>(keys, target) == p,
{
    K::lemma_irreflexive(target);
    assert forall|r: int| 0 <= r < p implies K::precedes(#[trigger] keys[r], target) by {}
    assert forall|r: int| p <= r < keys.len() implies !K::precedes(#[trigger] keys[r], target) by {
        if r > p && K::precedes(keys[r], target) {
            K::lemma_transitive(target, keys[r], target);
        }
    }
    lemma_lower_bound_is::<K>(keys, target, p);
}

/// A key that a sorted sequence lacks can enter at its lower bound.
pub proof fn lemma_sorted_insert<K: TotalOrder>(keys: Seq<K::V>, target: K::V)
    requires
        strictly_sorted::<K>(keys),
        lower_bound::<K>(keys, target) < keys.len() ==> keys[lower_bound::<K>(keys, target)]
            != target,
    ensures
        strictly_sorted::<K>(keys.insert(lower_bound::<K>(keys, target), target)),
{
    lemma_lower_bound::<K>(keys, target);
    let lb = lower_bound::<K>(keys, target);
    let after = keys.insert(lb, target);
    assert forall|p: int, q: int| 0 <= p < q < after.len() implies K::precedes(
        #[trigger] after[p],
        #[trigger] after[q],
    ) by {
        if q < lb {
            assert(after[p] == keys[p] && after[q] == keys[q]);
        } else if q == lb {
            assert(after[p] == keys[p]);
        } else if p == lb {
            assert(after[q] == keys[q - 1]);
            K::lemma_total(keys[lb], target);
            if q - 1 > lb {
                K::lemma_transitive(target, keys[lb], keys[q - 1]);
            }
        } else if p < lb {
            assert(after[p] == keys[p] && after[q] == keys[q - 1]);
        } else {
            assert(after[p] == keys[p - 1] && after[q] == keys[q - 1]);
        }
    }
}

impl TotalOrder for u8 {
    open spec fn precedes(a: u8, b: u8) -> bool {
        a < b
    }

    proof fn lemma_irreflexive(a: u8) {
    }

    proof fn lemma_transitive(a: u8, b: u8, c: u8) {
    }

    proof fn lemma_total(a: u8, b: u8) {
    }

    fn less(&self, other: &Self) -> (r: bool) {
        *self < *other
    }

    fn same(&self, other: &Self) -> (r: bool) {
        *self == *other
    }
}

impl TotalOrder for u16 {
    open spec fn precedes(a: u16, b: u16) -> bool {
        a < b
    }

    proof fn lemma_irreflexive(a: u16) {
    }

    proof fn lemma_transitive(a: u16, b: u16, c: u16) {
    }

    proof fn lemma_total(a: u16, b: u16) {
    }

    fn less(&self, other: &Self) -> (r: bool) {
        *self < *other
    }

    fn same(&self, other: &Self) -> (r: bool) {
        *self == *other
    }
}

impl TotalOrder for u32 {
    open spec fn precedes(a: u32, b: u32) -> bool {
        a < b
    }

    proof fn lemma_irreflexive(a: u32) {
    }

    proof fn lemma_transitive(a: u32, b: u32, c: u32) {
    }

    proof fn lemma_total(a: u32, b: u32) {
    }

    fn less(&self, other: &Self) -> (r: bool) {
        *self < *other
    }

    fn same(&self, other: &Self) -> (r: bool) {
        *self == *other
    }
}

impl TotalOrder for u64 {
    open spec fn precedes(a: u64, b: u64) -> bool {
        a < b
    }

    proof fn lemma_irreflexive(a: u64) {
    }

    proof fn lemma_transitive(a: u64, b: u64, c: u64) {
    }

    proof fn lemma_total(a: u64, b: u64) {
    }

    fn less(&self, other: &Self) -> (r: bool) {
        *self < *other
    }

    fn same(&self, other: &Self) -> (r: bool) {
        *self == *other
    }
}

impl TotalOrder for usize {
    open spec fn precedes(a: usize, b: usize) -> bool {
        a < b
    }

    proof fn lemma_irreflexive(a: usize) {
    }

    proof fn lemma_transitive(a: usize, b: usize, c: usize) {
    }

    proof fn lemma_total(a: usize, b: usize) {
    }

    fn less(&self, other: &Self) -> (r: bool) {
        *self < *other
    }

    fn same(&self, other: &Self) -> (r: bool) {
        *self == *other
    }
}

} // verus!

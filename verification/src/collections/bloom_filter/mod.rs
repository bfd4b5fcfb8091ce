//! Approximate set membership.

pub mod bits;
pub mod hash;

use crate::collections::bloom_filter::bits::{
    bits_cleared, bits_clone, bits_get, bits_of, bits_set, max_bits, Bits,
};
use crate::collections::bloom_filter::hash::km::{FxDigest, KMHashers};
use crate::collections::bloom_filter::hash::{Hashers, Hashes, Iter};
use rustc_hash::FxHasher;
use std::hash::BuildHasherDefault;
use std::marker::PhantomData;
use vstd::prelude::*;

verus! {

/// Whether the `i`-th hash of `hashes` is one of the `k` that a filter
/// uses: the hashes before it exist, and so does it.
pub open spec fn uses<S: Hashes>(hashes: S, k: usize, i: u64) -> bool {
    i < k && forall|j: u64| j <= i ==> (#[trigger] hashes.at(j)) is Some
}

/// Whether `bits` has every bit set that a filter of `k` hash functions
/// uses for a value with these hashes.
pub open spec fn marked<S: Hashes>(bits: Seq<bool>, hashes: S, k: usize) -> bool {
    forall|i: u64| uses(hashes, k, i) ==> bits[(#[trigger] hashes.at(i)).unwrap() as int]
}

/// `bits` with every bit set that a filter of `k` hash functions uses for a
/// value with these hashes.
pub open spec fn marking<S: Hashes>(bits: Seq<bool>, hashes: S, k: usize) -> Seq<bool> {
    Seq::new(
        bits.len(),
        |b: int|
            bits[b] || exists|i: u64| uses(hashes, k, i) && (#[trigger] hashes.at(i)).unwrap() == b,
    )
}

/// A bloom filter: a set of values of `T` that may take a value for a
/// member which is none, and never a member for none.
pub struct BloomFilter<
    T,
    H = KMHashers<BuildHasherDefault<FxHasher>, BuildHasherDefault<FxHasher>>,
> {
    /// number of hash functions
    k: usize,
    bits: Bits,
    hashers: H,
    _t: PhantomData<T>,
}

impl<T, H: Hashers<T>> BloomFilter<T, H> {
    /// The bits of the filter.
    pub closed spec fn bits(&self) -> Seq<bool> {
        bits_of(self.bits)
    }

    /// The number of hash functions.
    pub closed spec fn hash_count(&self) -> usize {
        self.k
    }

    /// The hash functions.
    pub closed spec fn hashers(&self) -> H {
        self.hashers
    }

    /// Every hash is the index of a bit.
    pub open spec fn wf(&self) -> bool {
        0 < self.hashers().range() <= self.bits().len() <= max_bits()
    }

    /// Whether the filter takes `value` for a member.
    pub open spec fn holds(&self, value: &T) -> bool {
        marked(self.bits(), self.hashers().hashes_of(value), self.hash_count())
    }

    /// Create a new bloom-filter where
    /// - `k`: number of hash functions
    /// - `m`: number of bits
    pub fn with_hashers(k: usize, m: u64, hashers: H) -> (filter: Self)
        requires
            0 < hashers.range() <= m <= max_bits(),
        ensures
            filter.wf(),
            filter.bits() == Seq::new(m as nat, |i: int| false),
            filter.hash_count() == k,
            filter.hashers() == hashers,
    {
        Self { k, bits: bits_cleared(m as usize), hashers, _t: PhantomData }
    }

    /// Adds `value` to the set: sets the bits of its hashes.
    pub fn insert(&mut self, value: &T)
        requires
            old(self).wf(),
        ensures
            final(self).wf(),
            final(self).hash_count() == old(self).hash_count(),
            final(self).hashers() == old(self).hashers(),
            final(self).bits() == marking(
                old(self).bits(),
                old(self).hashers().hashes_of(value),
                old(self).hash_count(),
            ),
            final(self).holds(value),
            forall|member: &T| old(self).holds(member) ==> #[trigger] final(self).holds(member),
    {
        let hashes = self.hashers.hash(value);
        let ghost before = self.bits();
        let mut it = Iter::new(&hashes);
        let mut i: usize = 0;
        let mut more = true;
        proof {
            self.hashers.lemma_range(value);
        }
        while more && i < self.k
            invariant
                more ==> it.position() == i,
                it.hashes() == hashes,
                self.wf(),
                self.k == old(self).k,
                self.hashers == old(self).hashers,
                hashes == self.hashers.hashes_of(value),
                hashes.range() == self.hashers.range(),
                before == old(self).bits(),
                self.bits().len() == before.len(),
                i <= self.k,
                more ==> forall|j: u64| j < i ==> (#[trigger] hashes.at(j)) is Some,
                !more ==> i < self.k && hashes.at(i as u64) is None && forall|j: u64|
                    j < i ==> (#[trigger] hashes.at(j)) is Some,
                forall|b: int|
                    0 <= b < before.len() ==> (#[trigger] self.bits()[b]) == (before[b]
                        || exists|j: u64| j < i && (#[trigger] hashes.at(j)).unwrap() == b),
            decreases self.k - i + if more { 1int } else { 0int },
        {
            proof {
                hashes.lemma_in_range(i as u64);
            }
            match it.next() {
                Some(h) => {
                    let ghost bits_a = self.bits();
                    bits_set(&mut self.bits, h as usize, true);
                    proof {
                        assert forall|b: int| 0 <= b < before.len() implies (
                        #[trigger] self.bits()[b]) == (before[b] || exists|j: u64|
                            j < i + 1 && (#[trigger] hashes.at(j)).unwrap() == b) by {
                            if b == h {
                                assert(hashes.at(i as u64).unwrap() == b);
                            } else if bits_a[b] && !before[b] {
                                let j = choose|j: u64|
                                    j < i && (#[trigger] hashes.at(j)).unwrap() == b;
                                assert(j < i + 1);
                            } else if self.bits()[b] {
                            } else {
                                if exists|j: u64|
                                    j < i + 1 && (#[trigger] hashes.at(j)).unwrap() == b {
                                    let j = choose|j: u64|
                                        j < i + 1 && (#[trigger] hashes.at(j)).unwrap() == b;
                                    assert(j < i);
                                }
                            }
                        }
                    }
                    i += 1;
                },
                None => {
                    more = false;
                },
            }
        }
        proof {
            let k = self.k;
            let goal = marking(before, hashes, k);
            assert forall|b: int| 0 <= b < before.len() implies self.bits()[b] == goal[b] by {
                if exists|j: u64| uses(hashes, k, j) && (#[trigger] hashes.at(j)).unwrap() == b {
                    let j = choose|j: u64|
                        uses(hashes, k, j) && (#[trigger] hashes.at(j)).unwrap() == b;
                    if j >= i {
                        assert(hashes.at(i as u64) is Some);
                    }
                    assert(j < i);
                }
                if exists|j: u64| j < i && (#[trigger] hashes.at(j)).unwrap() == b {
                    let j = choose|j: u64| j < i && (#[trigger] hashes.at(j)).unwrap() == b;
                    assert(uses(hashes, k, j)) by {
                        assert forall|earlier: u64| earlier <= j implies (
                        #[trigger] hashes.at(earlier)) is Some by {}
                    }
                }
            }
            assert(self.bits() =~= goal);
            assert forall|j: u64| uses(hashes, k, j) implies (#[trigger] hashes.at(j)).unwrap()
                < before.len() by {
                hashes.lemma_in_range(j);
            }
            lemma_marking_marks(before, hashes, k);
            assert forall|member: &T| old(self).holds(member) implies #[trigger] self.holds(
                member,
            ) by {
                let theirs = self.hashers.hashes_of(member);
                self.hashers.lemma_range(member);
                assert forall|j: u64| uses(theirs, k, j) implies (#[trigger] theirs.at(j)).unwrap()
                    < before.len() by {
                    theirs.lemma_in_range(j);
                }
                lemma_marking_keeps(before, hashes, k, theirs, k);
            }
        }
    }

    /// Whether `value` may be in the set: whether the bits of its hashes
    /// are all set.
    pub fn contains(&self, value: &T) -> (r: bool)
        requires
            self.wf(),
        ensures
            r == self.holds(value),
    {
        let hashes = self.hashers.hash(value);
        let mut it = Iter::new(&hashes);
        let mut i: usize = 0;
        proof {
            self.hashers.lemma_range(value);
        }
        while i < self.k
            invariant
                it.position() == i,
                it.hashes() == hashes,
                self.wf(),
                hashes == self.hashers.hashes_of(value),
                hashes.range() == self.hashers.range(),
                i <= self.k,
                forall|j: u64| j < i ==> (#[trigger] hashes.at(j)) is Some,
                forall|j: u64|
                    j < i ==> self.bits()[(#[trigger] hashes.at(j)).unwrap() as int],
            decreases self.k - i,
        {
            proof {
                hashes.lemma_in_range(i as u64);
            }
            match it.next() {
                Some(h) => {
                    if !bits_get(&self.bits, h as usize) {
                        proof {
                            assert(uses(hashes, self.k, i as u64));
                        }
                        return false;
                    }
                },
                None => {
                    proof {
                        assert forall|j: u64| uses(hashes, self.k, j) implies self.bits()[(
                        #[trigger] hashes.at(j)).unwrap() as int] by {
                            if j >= i {
                                assert(hashes.at(i as u64) is Some);
                            }
                        }
                    }
                    return true;
                },
            }
            i += 1;
        }
        true
    }
}

impl<T, H: Hashers<T> + Clone> Clone for BloomFilter<T, H> {
    /// A filter of its own with the same bits and as many hash functions,
    /// over a clone of the hashers.
    fn clone(&self) -> (filter: Self)
        ensures
            filter.bits() == self.bits(),
            filter.hash_count() == self.hash_count(),
    {
        BloomFilter {
            k: self.k,
            bits: bits_clone(&self.bits),
            hashers: self.hashers.clone(),
            _t: PhantomData,
        }
    }
}

impl<T: FxDigest> BloomFilter<T> {
    /// Create a new bloom-filter where
    /// - `k`: number of hash functions
    /// - `m`: number of bits
    pub fn new(k: usize, m: u64) -> (filter: Self)
        requires
            0 < m <= max_bits(),
        ensures
            filter.wf(),
            filter.bits() == Seq::new(m as nat, |i: int| false),
            filter.hash_count() == k,
            filter.hashers().modulus() == m,
    {
        Self::with_hashers(
            k,
            m,
            KMHashers::with_build_hashers(
                m,
                BuildHasherDefault::<FxHasher>::default(),
                BuildHasherDefault::<FxHasher>::default(),
            ),
        )
    }
}

/// A value is a member once its bits are set.
pub proof fn lemma_marking_marks<S: Hashes>(bits: Seq<bool>, hashes: S, k: usize)
    requires
        forall|i: u64| uses(hashes, k, i) ==> (#[trigger] hashes.at(i)).unwrap() < bits.len(),
    ensures
        marked(marking(bits, hashes, k), hashes, k),
{
    let after = marking(bits, hashes, k);
    assert forall|i: u64| uses(hashes, k, i) implies after[(
    #[trigger] hashes.at(i)).unwrap() as int] by {}
}

/// Setting bits takes no member out: what was a member before another
/// value's bits were set is one after.
pub proof fn lemma_marking_keeps<S: Hashes, S2: Hashes>(
    bits: Seq<bool>,
    hashes: S,
    k: usize,
    member: S2,
    k2: usize,
)
    requires
        marked(bits, member, k2),
        forall|i: u64| uses(member, k2, i) ==> (#[trigger] member.at(i)).unwrap() < bits.len(),
    ensures
        marked(marking(bits, hashes, k), member, k2),
{
    let after = marking(bits, hashes, k);
    assert forall|i: u64| uses(member, k2, i) implies after[(
    #[trigger] member.at(i)).unwrap() as int] by {
        assert(bits[member.at(i).unwrap() as int]);
    }
}

} // verus!

//! Families of hash functions for a bloom filter.

pub mod km;

use vstd::prelude::*;

verus! {

/// A family of hash functions on values of `T`, all into `0..range()`.
pub trait Hashers<T> {
    type H: Hashes;

    /// The exclusive upper bound of every hash.
    spec fn range(&self) -> u64;

    /// The hashes of `value`: a function of the value alone for the life of
    /// these hashers.
    spec fn hashes_of(&self, value: &T) -> Self::H;

    /// The hashes of a value have the range of the family.
    proof fn lemma_range(&self, value: &T)
        ensures
            self.hashes_of(value).range() == self.range(),
    ;

    /// Hashes `value` once for the whole family.
    fn hash(&self, value: &T) -> (h: Self::H)
        requires
            self.range() > 0,
        ensures
            h == self.hashes_of(value),
    ;
}

/// The hashes of one value under a family of hash functions.
pub trait Hashes {
    /// The exclusive upper bound of every hash.
    spec fn range(&self) -> u64;

    /// The `i`-th hash, where the family has one.
    spec fn at(&self, i: u64) -> Option<u64>;

    /// Every hash is under the bound.
    proof fn lemma_in_range(&self, i: u64)
        requires
            self.range() > 0,
        ensures
            self.at(i) matches Some(x) ==> x < self.range(),
    ;

    /// The `i`-th hash, where the family has one.
    fn get(&self, i: u64) -> (h: Option<u64>)
        requires
            self.range() > 0,
        ensures
            h == self.at(i),
    ;
}

/// The hashes of one value, one after another.
pub struct Iter<'a, H: Hashes> {
    i: u64,
    hashes: &'a H,
}

impl<'a, H: Hashes> Iter<'a, H> {
    /// The number of the hash that comes next.
    pub closed spec fn position(&self) -> u64 {
        self.i
    }

    /// The hashes that are walked.
    pub closed spec fn hashes(&self) -> &'a H {
        self.hashes
    }

    /// The hashes of `hashes` from the first on.
    pub fn new(hashes: &'a H) -> (it: Self)
        ensures
            it.position() == 0,
            it.hashes() == hashes,
    {
        Iter { i: 0, hashes }
    }

    /// The next hash, where the family has one.
    pub fn next(&mut self) -> (h: Option<u64>)
        requires
            old(self).hashes().range() > 0,
            old(self).position() < u64::MAX,
        ensures
            h == old(self).hashes().at(old(self).position()),
            final(self).position() == old(self).position() + 1,
            final(self).hashes() == old(self).hashes(),
    {
        let h = self.hashes.get(self.i);
        self.i += 1;
        h
    }
}

} // verus!

//! Kirsch-Mitzenmacher double hashing: any number of hash functions from
//! two.

use crate::collections::bloom_filter::hash::{Hashers, Hashes};
use crate::model::buffer::contents;
use crate::model::Row;
use bytes::Bytes;
use rustc_hash::FxHasher;
use std::hash::{BuildHasher, BuildHasherDefault, Hash, Hasher};
use vstd::prelude::*;

verus! {

/// `rustc_hash::FxHasher`: the state of one hashing. Nothing inside it is
/// visible here.
#[verifier::external_type_specification]
#[verifier::external_body]
pub struct ExFxHasher(rustc_hash::FxHasher);

/// `std::hash::BuildHasherDefault`: a builder of hashers in their default
/// state. Nothing inside it is visible here.
#[verifier::external_type_specification]
#[verifier::external_body]
#[verifier::reject_recursive_types(H)]
pub struct ExBuildHasherDefault<H>(std::hash::BuildHasherDefault<H>);

/// `BuildHasherDefault::default`: a builder of default hashers. It holds
/// no state.
pub assume_specification<H>[ <BuildHasherDefault<H> as Default>::default ]() -> BuildHasherDefault<
    H,
>;

/// What a fresh `FxHasher` gives for a `u64` fed to it through
/// `std::hash::Hash`. The hasher has no seed: on one target the digest is
/// a function of the number alone.
pub uninterp spec fn fx_digest_u64(value: u64) -> u64;

/// What a fresh `FxHasher` gives for a byte string fed to it, as a slice,
/// through `std::hash::Hash`. The hasher has no seed: on one target the
/// digest is a function of the bytes alone.
pub uninterp spec fn fx_digest_bytes(value: Seq<u8>) -> u64;

/// `Hash::hash` of a `u64` into the `FxHasher` that `build` makes, then
/// `FxHasher::finish`.
#[verifier::external_body]
fn fx_hash_u64(build: &BuildHasherDefault<FxHasher>, value: u64) -> (digest: u64)
    ensures
        digest == fx_digest_u64(value),
{
    let mut hasher = build.build_hasher();
    value.hash(&mut hasher);
    hasher.finish()
}

/// `Hash::hash` of a `Bytes` into the `FxHasher` that `build` makes, then
/// `FxHasher::finish`. `Bytes` hashes as the slice of its bytes.
#[verifier::external_body]
fn fx_hash_bytes(build: &BuildHasherDefault<FxHasher>, value: &Bytes) -> (digest: u64)
    ensures
        digest == fx_digest_bytes(contents(*value)),
{
    let mut hasher = build.build_hasher();
    value.hash(&mut hasher);
    hasher.finish()
}

/// A logical set of hash functions derived from two inner hash functions
/// with Kirsch-Mitzenmacher Optimization.
#[derive(Clone)]
pub struct KMHashers<B1, B2> where B1: BuildHasher, B2: BuildHasher {
    bh1: B1,
    bh2: B2,
    m: u64,
}

impl<B1, B2> KMHashers<B1, B2> where B1: BuildHasher, B2: BuildHasher {
    /// The modulus of the hashes.
    pub closed spec fn modulus(&self) -> u64 {
        self.m
    }

    pub fn with_build_hashers(m: u64, bh1: B1, bh2: B2) -> (r: Self)
        ensures
            r.modulus() == m,
    {
        Self { m, bh1, bh2 }
    }
}

/// The two base hashes of a value, reduced, and their modulus.
#[derive(Clone, Debug)]
pub struct KMHashes {
    x1: u64,
    x2: u64,
    m: u64,
}

/// The `i`-th hash that double hashing derives from the base hashes `x1`
/// and `x2` modulo `m`.
pub open spec fn km_hash(x1: u64, x2: u64, m: u64, i: u64) -> u64 {
    ((x1 + i * x2) % (m as int)) as u64
}

impl KMHashes {
    pub closed spec fn spec_x1(&self) -> u64 {
        self.x1
    }

    pub closed spec fn spec_x2(&self) -> u64 {
        self.x2
    }

    pub closed spec fn spec_m(&self) -> u64 {
        self.m
    }
}

impl Hashes for KMHashes {
    open spec fn range(&self) -> u64 {
        self.spec_m()
    }

    open spec fn at(&self, i: u64) -> Option<u64> {
        Some(km_hash(self.spec_x1(), self.spec_x2(), self.spec_m(), i))
    }

    proof fn lemma_in_range(&self, i: u64) {
    }

    fn get(&self, i: u64) -> (h: Option<u64>) {
        assert(i * self.x2 <= 0xffff_ffff_ffff_ffff * 0xffff_ffff_ffff_ffff) by (nonlinear_arith)
            requires
                i <= 0xffff_ffff_ffff_ffff,
                self.x2 <= 0xffff_ffff_ffff_ffff,
        ;
        let wide: u128 = self.x1 as u128 + (i as u128) * (self.x2 as u128);
        let h: u128 = wide % (self.m as u128);
        Some(h as u64)
    }
}

/// A value that the unseeded Fx hasher digests through `std::hash::Hash`.
pub trait FxDigest {
    /// The digest: a function of the value's view alone.
    spec fn digest(&self) -> u64;

    /// Feeds the value to a hasher that `build` makes and finishes it.
    fn fx_hash(&self, build: &BuildHasherDefault<FxHasher>) -> (d: u64)
        ensures
            d == self.digest(),
    ;
}

impl FxDigest for u64 {
    open spec fn digest(&self) -> u64 {
        fx_digest_u64(*self)
    }

    fn fx_hash(&self, build: &BuildHasherDefault<FxHasher>) -> (d: u64) {
        fx_hash_u64(build, *self)
    }
}

impl FxDigest for Row {
    open spec fn digest(&self) -> u64 {
        fx_digest_bytes(self@)
    }

    fn fx_hash(&self, build: &BuildHasherDefault<FxHasher>) -> (d: u64) {
        fx_hash_bytes(build, self.get())
    }
}

/// The hashes that double hashing gives a value of digest `d` modulo `m`:
/// both base hashes come from the same hasher.
pub closed spec fn km_hashes(d: u64, m: u64) -> KMHashes {
    KMHashes { x1: (d % m) as u64, x2: (d % m) as u64, m }
}

/// Both base hashes of a digest are the digest modulo `m`, and the hashes
/// derived from them are under `m`.
pub proof fn lemma_km_hashes(d: u64, m: u64)
    requires
        m > 0,
    ensures
        km_hashes(d, m).spec_x1() == d % m,
        km_hashes(d, m).spec_x2() == d % m,
        km_hashes(d, m).spec_m() == m,
        km_hashes(d, m).range() == m,
{
}

impl<T: FxDigest> Hashers<T> for KMHashers<
    BuildHasherDefault<FxHasher>,
    BuildHasherDefault<FxHasher>,
> {
    type H = KMHashes;

    open spec fn range(&self) -> u64 {
        self.modulus()
    }

    open spec fn hashes_of(&self, value: &T) -> KMHashes {
        km_hashes(value.digest(), self.modulus())
    }

    proof fn lemma_range(&self, value: &T) {
    }

    fn hash(&self, value: &T) -> (h: KMHashes) {
        KMHashes {
            x1: value.fx_hash(&self.bh1) % self.m,
            x2: value.fx_hash(&self.bh2) % self.m,
            m: self.m,
        }
    }
}

} // verus!

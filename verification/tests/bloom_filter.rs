use beatrice::collections::bloom_filter::hash::km::{FxDigest, KMHashers, KMHashes};
use beatrice::collections::bloom_filter::hash::{Hashers, Hashes, Iter};
use beatrice::collections::bloom_filter::BloomFilter;
use beatrice::model::Row;
use bytes::Bytes;
use rustc_hash::FxHasher;
use std::f64::consts::LN_2;
use std::hash::{BuildHasherDefault, Hash, Hasher};

fn hash_count(n: u64, m: u64) -> usize {
    ((m as f64) / (n as f64) * LN_2) as usize
}

fn build() -> BloomFilter<u64, impl Hashers<u64>> {
    let n = 2048;
    let m = 30000;
    BloomFilter::with_hashers(
        hash_count(n, m),
        m,
        KMHashers::with_build_hashers(
            m,
            BuildHasherDefault::<FxHasher>::default(),
            BuildHasherDefault::<FxHasher>::default(),
        ),
    )
}

#[test]
fn empty() {
    let filter = build();
    assert!(!filter.contains(&10));
}

#[test]
fn same() {
    let mut filter = build();
    filter.insert(&10);
    assert!(filter.contains(&10));
}

#[test]
fn members_stay_members() {
    let mut filter: BloomFilter<u64> = BloomFilter::new(hash_count(100, 1438), 1438);
    for x in 0..100u64 {
        filter.insert(&(x * 7919));
        for y in 0..=x {
            assert!(filter.contains(&(y * 7919)));
        }
    }
}

#[test]
fn most_strangers_are_told_apart() {
    let mut filter: BloomFilter<u64> = BloomFilter::new(hash_count(100, 1438), 1438);
    for x in 0..100u64 {
        filter.insert(&x);
    }
    let taken = (1000..2000u64).filter(|x| filter.contains(x)).count();
    assert!(taken < 200);
}

#[test]
fn rows_are_hashed_by_their_bytes() {
    let mut filter: BloomFilter<Row> = BloomFilter::new(10, 144);
    assert!(!filter.contains(&Row::new(Bytes::from("r1"))));
    filter.insert(&Row::new(Bytes::from("r1")));
    assert!(filter.contains(&Row::new(Bytes::from(b"r1".to_vec()))));
    assert!(!filter.contains(&Row::new(Bytes::from("r2"))));
}

#[test]
fn filter_without_hash_functions_takes_everything() {
    let mut filter: BloomFilter<u64> = BloomFilter::new(0, 8);
    assert!(filter.contains(&1));
    filter.insert(&1);
    assert!(filter.contains(&2));
}

#[test]
fn double_hashing_steps_by_the_second_hash() {
    let hashers = KMHashers::with_build_hashers(
        1000,
        BuildHasherDefault::<FxHasher>::default(),
        BuildHasherDefault::<FxHasher>::default(),
    );
    let hashes: KMHashes = hashers.hash(&12345u64);
    let x1 = hashes.get(0).unwrap();
    assert!(x1 < 1000);
    // Both base hashes come from the same hasher.
    for i in 0..20u64 {
        assert_eq!(hashes.get(i), Some((x1 + i * x1) % 1000));
    }
    let far = (x1 as u128 + u64::MAX as u128 * x1 as u128) % 1000;
    assert_eq!(hashes.get(u64::MAX), Some(far as u64));
    let again: KMHashes = hashers.hash(&12345u64);
    assert_eq!(again.get(3), hashes.get(3));
}

#[test]
fn digests_are_those_of_the_fx_hasher() {
    let build = BuildHasherDefault::<FxHasher>::default();
    let mut hasher = FxHasher::default();
    12345u64.hash(&mut hasher);
    assert_eq!(12345u64.fx_hash(&build), hasher.finish());
    assert_ne!(12345u64.fx_hash(&build), 12345);
    if usize::BITS == 64 {
        assert_eq!(
            12345u64.fx_hash(&build),
            12345u64.wrapping_mul(0x517cc1b727220a95)
        );
    }

    let row = Row::new(Bytes::from("r1"));
    let mut hasher = FxHasher::default();
    b"r1"[..].hash(&mut hasher);
    assert_eq!(row.fx_hash(&build), hasher.finish());
    let other = Row::new(Bytes::from("r2"));
    assert_ne!(row.fx_hash(&build), other.fx_hash(&build));
}

#[test]
fn hashes_come_one_after_another() {
    let hashers = KMHashers::with_build_hashers(
        97,
        BuildHasherDefault::<FxHasher>::default(),
        BuildHasherDefault::<FxHasher>::default(),
    );
    let hashes: KMHashes = hashers.hash(&Row::new(Bytes::from("row")));
    let mut it = Iter::new(&hashes);
    for i in 0..5u64 {
        assert_eq!(it.next(), hashes.get(i));
    }
}

#[test]
fn a_cloned_filter_keeps_the_members() {
    let mut filter: BloomFilter<u64> = BloomFilter::new(10, 144);
    filter.insert(&3);
    let mut copy = filter.clone();
    assert!(copy.contains(&3));
    copy.insert(&4);
    assert!(copy.contains(&4));
    assert!(!filter.contains(&4));
    let hashers = KMHashers::with_build_hashers(
        7,
        BuildHasherDefault::<FxHasher>::default(),
        BuildHasherDefault::<FxHasher>::default(),
    );
    let hashes: KMHashes = hashers.clone().hash(&9u64);
    assert_eq!(hashes.clone().get(2), hashes.get(2));
    assert!(format!("{:?}", hashes).contains("KMHashes"));
}

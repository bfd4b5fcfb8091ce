use beatrice::collections::skip_list::{LevelGenerator, RandomLevelGenerator, SkipListMap};
use rand::Rng;
use std::{cell::RefCell, collections::HashMap, rc::Rc};

struct ControllableLevelGenerator {
    next_level: Rc<RefCell<usize>>,
}

impl ControllableLevelGenerator {
    fn create() -> (Self, ControllableLevelGeneratorHandle) {
        let next_level = Rc::new(RefCell::new(1));
        let handle = ControllableLevelGeneratorHandle {
            next_level: next_level.clone(),
        };
        let generator = Self { next_level };
        (generator, handle)
    }
}

impl LevelGenerator for ControllableLevelGenerator {
    fn generate(&mut self) -> usize {
        *self.next_level.as_ref().borrow()
    }
}

struct ControllableLevelGeneratorHandle {
    next_level: Rc<RefCell<usize>>,
}

impl ControllableLevelGeneratorHandle {
    fn set_next_level(&self, level: usize) {
        *self.next_level.as_ref().borrow_mut() = level;
    }
}

fn init<V>(
    max_level: usize,
) -> (
    SkipListMap<u8, V, ControllableLevelGenerator>,
    ControllableLevelGeneratorHandle,
) {
    let (generator, handle) = ControllableLevelGenerator::create();
    let list = SkipListMap::with_generator(max_level, generator);
    (list, handle)
}

#[test]
fn insert_first() {
    let (mut list, handle) = init(5);
    handle.set_next_level(3);
    list.insert(1u8, ());

    assert!(list.insert(1u8, ()).is_some());
}

#[test]
fn insert_second_next_shorter() {
    let (mut list, handle) = init(5);
    handle.set_next_level(3);
    list.insert(10u8, ());
    handle.set_next_level(2);
    list.insert(20u8, ());

    assert!(list.insert(10u8, ()).is_some());
    assert!(list.insert(20u8, ()).is_some());
}

#[test]
fn insert_second_next_taller() {
    let (mut list, handle) = init(5);
    handle.set_next_level(3);
    list.insert(10u8, ());
    handle.set_next_level(5);
    list.insert(30u8, ());
    handle.set_next_level(4);
    list.insert(20u8, ());

    assert!(list.insert(10u8, ()).is_some());
    assert!(list.insert(20u8, ()).is_some());
    assert!(list.insert(30u8, ()).is_some());
}

#[test]
fn insert_second_prev_shorter() {
    let (mut list, handle) = init(5);
    handle.set_next_level(3);
    list.insert(10u8, ());
    handle.set_next_level(2);
    list.insert(5u8, ());

    assert!(list.insert(10u8, ()).is_some());
    assert!(list.insert(5u8, ()).is_some());
}

#[test]
fn insert_second_prev_longer() {
    let (mut list, handle) = init(5);
    handle.set_next_level(3);
    list.insert(10u8, ());
    handle.set_next_level(1);
    list.insert(5u8, ());
    handle.set_next_level(2);
    list.insert(7u8, ());

    assert!(list.insert(5u8, ()).is_some());
    assert!(list.insert(7u8, ()).is_some());
    assert!(list.insert(10u8, ()).is_some());
}

#[test]
fn insert_random() {
    let mut list = SkipListMap::new(16);
    let mut rng = rand::thread_rng();
    let mut map = HashMap::new();
    for _ in 0..1000 {
        let key = rng.gen::<u64>();
        let value = rng.gen::<u64>();
        list.insert(key, value);
        map.insert(key, value);
    }

    let mut expected = map.into_iter().collect::<Vec<(u64, u64)>>();
    expected.sort();

    for (k, v) in expected.iter() {
        assert_eq!(list.get(k).unwrap(), v);
    }

    let actual = list
        .iter()
        .into_iter()
        .map(|(&k, &v)| (k, v))
        .collect::<Vec<(u64, u64)>>();

    assert_eq!(expected, actual);
}

#[test]
fn insert_existing_returns_prior_value() {
    let mut list: SkipListMap<u64, u64> = SkipListMap::new(4);
    assert_eq!(list.insert(7, 70), None);
    assert_eq!(list.insert(7, 71), Some(70));
    assert_eq!(list.insert(7, 72), Some(71));
    assert_eq!(list.get(&7), Some(&72));
    assert_eq!(list.get(&8), None);
}

#[test]
fn insert_with_level_threads_every_height() {
    let heights = [1usize, 4, 2, 7, 1, 3, 5, 2, 6, 1];
    let keys = [50u64, 10, 90, 30, 70, 20, 80, 40, 60, 0];
    let mut list: SkipListMap<u64, u64> = SkipListMap::new(3);
    for (k, h) in keys.iter().zip(heights.iter()) {
        assert_eq!(list.insert_with_level(*k, *k + 1, *h), None);
    }
    assert_eq!(list.level(), 7);
    let got: Vec<(u64, u64)> = list.iter().into_iter().map(|(&k, &v)| (k, v)).collect();
    let want: Vec<(u64, u64)> = (0..10).map(|i| (i * 10, i * 10 + 1)).collect();
    assert_eq!(got, want);
    for k in keys.iter() {
        assert_eq!(list.get(k), Some(&(k + 1)));
        assert_eq!(list.get(&(k + 5)), None);
    }
}

#[test]
fn node_of_height_zero_is_not_reachable() {
    let mut list: SkipListMap<u64, u64> = SkipListMap::new(3);
    assert_eq!(list.insert_with_level(1, 10, 2), None);
    assert_eq!(list.insert_with_level(2, 20, 0), None);
    assert_eq!(list.get(&2), None);
    assert_eq!(list.iter().len(), 1);
    assert_eq!(list.insert_with_level(2, 21, 1), None);
    assert_eq!(list.get(&2), Some(&21));
}

#[test]
fn get_smallest_finds_the_next_key() {
    let mut list: SkipListMap<u64, u64> = SkipListMap::new(4);
    for k in [10u64, 20, 30] {
        list.insert(k, k * 2);
    }
    assert_eq!(list.get_smallest(&5), Some(&20));
    assert_eq!(list.get_smallest(&10), Some(&20));
    assert_eq!(list.get_smallest(&11), Some(&40));
    assert_eq!(list.get_smallest_key_value(&30), Some((&30, &60)));
    assert_eq!(list.get_smallest_key_value(&31), None);
    let empty: SkipListMap<u64, u64> = SkipListMap::new(4);
    assert_eq!(empty.get_smallest(&0), None);
    assert_eq!(empty.level(), 0);
}

#[test]
fn random_levels_stay_in_range() {
    let mut generator = RandomLevelGenerator::new(5, RandomLevelGenerator::HALF);
    for _ in 0..200 {
        let level = generator.generate();
        assert!(1 <= level && level <= 5);
    }
    let mut never = RandomLevelGenerator::new(5, 0);
    assert_eq!(never.generate(), 1);
    let mut flat = RandomLevelGenerator::new(0, u64::MAX);
    assert_eq!(flat.generate(), 1);
    let fixed = RandomLevelGenerator::new(4, 100);
    assert_eq!(fixed.level_for(&vec![1, 99, 100, 5]), 3);
    assert_eq!(fixed.level_for(&vec![1, 2, 3, 4, 5]), 4);
    assert_eq!(fixed.level_for(&vec![]), 1);
}

#[test]
fn a_map_can_be_sized_beyond_memory() {
    let mut list: SkipListMap<u64, u64> = SkipListMap::new(usize::MAX);
    for k in 0..50u64 {
        assert_eq!(list.insert(k, k), None);
    }
    assert_eq!(list.iter().len(), 50);
    assert_eq!(list.get(&49), Some(&49));
}

#[test]
fn a_new_key_is_found_and_counted() {
    let mut list: SkipListMap<u64, u64> = SkipListMap::new(8);
    list.insert(1, 10);
    list.insert(3, 30);
    assert_eq!(list.get(&2), None);
    let n = list.iter().len();
    assert_eq!(list.insert(2, 20), None);
    assert_eq!(list.get(&2), Some(&20));
    assert_eq!(list.iter().len(), n + 1);
    assert_eq!(list.get(&1), Some(&10));
    assert_eq!(list.get(&3), Some(&30));
}

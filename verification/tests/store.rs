use beatrice::model::{Key, Row, Value};
use beatrice::store::persistent::PersistentStore;
use beatrice::store::volatile::{log2, VolatileStore};
use beatrice::store::{later_of, Store};
use bytes::Bytes;
use std::f64::consts::LN_2;

fn filter_bits(n: usize, p: f64) -> usize {
    ((n as f64 * p.ln()) / (1.0 / (2.0f64.powf(LN_2))).ln()).ceil() as usize
}

fn hash_count(n: usize, m: usize) -> usize {
    ((m as f64) / (n as f64) * LN_2) as usize
}

fn flush_store(store: &mut Store, cache: bool) {
    let n = store.pending();
    let m = filter_bits(n, 0.001);
    store.flush(cache, m as u64, hash_count(n, m));
}

#[test]
pub fn flush() {
    let mut store = Store::new(2048);
    let commands = vec![
        Some((Row::new(Bytes::from("r1")), 1, Bytes::from("v11"))),
        Some((Row::new(Bytes::from("r2")), 2, Bytes::from("v22"))),
        Some((Row::new(Bytes::from("r1")), 3, Bytes::from("v13"))),
        None,
        Some((Row::new(Bytes::from("r2")), 4, Bytes::from("v24"))),
        Some((Row::new(Bytes::from("r3")), 5, Bytes::from("v35"))),
    ];

    for command in commands {
        match command {
            Some((row, timestamp, val)) => {
                store.put(row, timestamp, val);
            }
            None => flush_store(&mut store, true),
        }
    }

    let r = Row::new(Bytes::from("r1"));
    let (k, v) = store.get_latest(&r).unwrap();
    assert_eq!(&r, k.row());
    assert_eq!(3, k.timestamp());
    assert_eq!(v, Bytes::from("v13"));

    let r = Row::new(Bytes::from("r2"));
    let (k, v) = store.get_latest(&r).unwrap();
    assert_eq!(&r, k.row());
    assert_eq!(4, k.timestamp());
    assert_eq!(v, Bytes::from("v24"));

    let r = Row::new(Bytes::from("r3"));
    let (k, v) = store.get_latest(&r).unwrap();
    assert_eq!(&r, k.row());
    assert_eq!(5, k.timestamp());
    assert_eq!(v, Bytes::from("v35"));
}

fn row(name: &'static str) -> Row {
    Row::new(Bytes::from(name))
}

fn read(store: &Store, name: &'static str) -> Option<(u64, Bytes)> {
    store.get_latest(&row(name)).map(|(k, v)| (k.timestamp(), v))
}

#[test]
fn delete_hides_and_a_later_put_revives() {
    let mut store = Store::new(16);
    assert_eq!(read(&store, "r"), None);
    store.put(row("r"), 10, Bytes::from("a"));
    assert_eq!(read(&store, "r"), Some((10, Bytes::from("a"))));
    store.delete(row("r"), 20);
    assert_eq!(read(&store, "r"), None);
    store.put(row("r"), 15, Bytes::from("late"));
    assert_eq!(read(&store, "r"), None);
    store.put(row("r"), 30, Bytes::from("b"));
    assert_eq!(read(&store, "r"), Some((30, Bytes::from("b"))));
}

#[test]
fn delete_hides_across_a_flush() {
    let mut store = Store::new(16);
    store.put(row("r"), 10, Bytes::from("a"));
    flush_store(&mut store, true);
    store.delete(row("r"), 20);
    assert_eq!(read(&store, "r"), None);
    flush_store(&mut store, true);
    assert_eq!(read(&store, "r"), None);
    store.put(row("r"), 5, Bytes::from("old"));
    assert_eq!(read(&store, "r"), None);
    store.put(row("r"), 21, Bytes::from("b"));
    assert_eq!(read(&store, "r"), Some((21, Bytes::from("b"))));
}

#[test]
fn the_latest_of_many_tables_wins() {
    let mut store = Store::new(16);
    for (t, v) in [(5u64, "five"), (9, "nine"), (7, "seven")] {
        store.put(row("r"), t, Bytes::from(v));
        store.put(row("other"), t, Bytes::from("x"));
        flush_store(&mut store, true);
    }
    assert_eq!(read(&store, "r"), Some((9, Bytes::from("nine"))));
    assert_eq!(read(&store, "other"), Some((9, Bytes::from("x"))));
    assert_eq!(read(&store, "none"), None);
}

#[test]
fn the_volatile_level_wins_a_tie() {
    let mut store = Store::new(16);
    store.put(row("r"), 5, Bytes::from("flushed"));
    flush_store(&mut store, true);
    store.put(row("r"), 5, Bytes::from("fresh"));
    assert_eq!(read(&store, "r"), Some((5, Bytes::from("fresh"))));
    store.put(row("r"), 5, Bytes::from("fresher"));
    assert_eq!(read(&store, "r"), Some((5, Bytes::from("fresher"))));
}

#[test]
fn an_uncached_flush_drops_what_it_takes() {
    let mut store = Store::new(16);
    store.put(row("kept"), 1, Bytes::from("a"));
    flush_store(&mut store, true);
    store.put(row("dropped"), 2, Bytes::from("b"));
    assert!(store.can_flush());
    flush_store(&mut store, false);
    assert_eq!(store.pending(), 0);
    assert!(!store.can_flush());
    assert_eq!(read(&store, "kept"), Some((1, Bytes::from("a"))));
    assert_eq!(read(&store, "dropped"), None);
}

#[test]
fn rooms_are_counted_in_bytes() {
    let store = Store::new(16);
    assert!(store.has_room(&row("r"), 1, &Value::Val(Bytes::from("v"))));
    assert!(store.has_room(&row("r"), 1, &Value::Del));
}

#[test]
fn volatile_level_keeps_every_version() {
    let mut level = VolatileStore::new(8);
    level.insert(row("b"), 1, Value::Val(Bytes::from("b1")));
    level.insert(row("a"), 2, Value::Del);
    level.insert(row("b"), 3, Value::Val(Bytes::from("b3")));
    level.insert(row("b"), 2, Value::Val(Bytes::from("b2")));
    level.insert(row("b"), 3, Value::Val(Bytes::from("b3 again")));
    assert_eq!(level.len(), 4);
    let (k, v) = level.get_latest(&row("b")).unwrap();
    assert_eq!(k.timestamp(), 3);
    assert_eq!(v, &Value::Val(Bytes::from("b3 again")));
    let (k, v) = level.get_latest(&row("a")).unwrap();
    assert_eq!(k.timestamp(), 2);
    assert_eq!(v, &Value::Del);
    assert!(level.get_latest(&row("ab")).is_none());
    assert!(level.get_latest(&row("c")).is_none());

    let table = level.flush(64, 9);
    let (k, o) = table.index.get_latest(&row("a")).unwrap();
    assert_eq!((k.timestamp(), o), (2, 0));
    let (k, o) = table.index.get_latest(&row("b")).unwrap();
    assert_eq!((k.timestamp(), o), (3, 18));
    assert_eq!(
        table.data.get(o),
        (Key::new(row("b"), 3), Value::Val(Bytes::from("b3 again")))
    );
    level.clear();
    assert_eq!(level.len(), 0);
    assert!(level.get_latest(&row("b")).is_none());
}

#[test]
fn persistent_level_counts_every_table() {
    let mut level = VolatileStore::new(8);
    level.insert(row("a"), 1, Value::Val(Bytes::from("a1")));
    let mut pool = PersistentStore::default();
    assert!(pool.get_latest(&row("a")).is_none());
    pool.add(level.flush(64, 9), false);
    assert!(pool.get_latest(&row("a")).is_none());
    pool.add(level.flush(64, 9), true);
    assert_eq!(
        pool.get_latest(&row("a")),
        Some((Key::new(row("a"), 1), Value::Val(Bytes::from("a1"))))
    );
    level.insert(row("a"), 2, Value::Del);
    pool.add(level.flush(64, 9), true);
    assert_eq!(pool.get_latest(&row("a")), Some((Key::new(row("a"), 2), Value::Del)));
    assert!(pool.has_next_id());
}

#[test]
fn later_of_prefers_the_volatile_level_on_a_tie() {
    let vk = Key::new(row("r"), 5);
    let vv = Value::Val(Bytes::from("volatile"));
    let pk = Key::new(row("r"), 5);
    let pv = Value::Val(Bytes::from("persistent"));
    assert_eq!(
        later_of(Some((&vk, &vv)), Some((pk.clone(), pv.clone()))),
        Some((vk.clone(), vv.clone()))
    );
    let newer = Key::new(row("r"), 6);
    assert_eq!(
        later_of(Some((&vk, &vv)), Some((newer.clone(), pv.clone()))),
        Some((newer, pv.clone()))
    );
    assert_eq!(later_of(Some((&vk, &vv)), None), Some((vk.clone(), vv.clone())));
    assert_eq!(later_of(None, Some((pk.clone(), pv.clone()))), Some((pk, pv)));
    assert_eq!(later_of(None, None), None);
}

#[test]
fn log2_rounds_down() {
    assert_eq!(log2(1), 0);
    assert_eq!(log2(2), 1);
    assert_eq!(log2(3), 1);
    assert_eq!(log2(2047), 10);
    assert_eq!(log2(2048), 11);
    assert_eq!(log2(usize::MAX), usize::BITS as usize - 1);
}

#[test]
fn tables_of_one_timestamp_give_one_of_their_values() {
    let mut store = Store::new(16);
    store.put(row("r"), 5, Bytes::from("first"));
    flush_store(&mut store, true);
    store.put(row("r"), 5, Bytes::from("second"));
    flush_store(&mut store, true);
    let (timestamp, value) = read(&store, "r").unwrap();
    assert_eq!(timestamp, 5);
    assert!(value == Bytes::from("first") || value == Bytes::from("second"));
}

#[test]
fn rows_can_be_hashed() {
    use_hash(&row("r"));
}

fn use_hash<T: std::hash::Hash>(value: &T) {
    let mut hasher = std::collections::hash_map::DefaultHasher::new();
    value.hash(&mut hasher);
}

#[test]
fn a_second_flush_in_a_row_does_nothing() {
    let mut store = Store::new(16);
    assert!(!store.try_flush(true, 15, 10));
    store.put(row("r"), 1, Bytes::from("a"));
    assert!(!store.try_flush(true, 0, 10));
    assert!(store.try_flush(true, 15, 10));
    assert!(!store.try_flush(true, 15, 10));
    assert_eq!(store.pending(), 0);
    assert_eq!(read(&store, "r"), Some((1, Bytes::from("a"))));
}

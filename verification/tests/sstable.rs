use beatrice::model::{Key, Row, Value};
use beatrice::store::compacter::SingleVersionCompacter;
use beatrice::store::sstable::data::DataBuilder;
use beatrice::store::sstable::{Data, Index, SSTableBuilder};
use beatrice::store::stat::Stat;
use bytes::Bytes;

#[test]
fn test() {
    let kvs = vec![
        (
            Key::new(Row::new(Bytes::from("k1")), 1),
            Value::Val(Bytes::from("v1")),
        ),
        (
            Key::new(Row::new(Bytes::from("k10")), 10),
            Value::Val(Bytes::from("v10")),
        ),
        (Key::new(Row::new(Bytes::from("k100")), 100), Value::Del),
        (
            Key::new(Row::new(Bytes::from("k100")), 100),
            Value::Val(Bytes::from("v100")),
        ),
    ];
    let mut builder = DataBuilder::new(kvs.len());
    let mut offsets = Vec::with_capacity(kvs.len());
    let mut offset = 0;
    for (key, value) in kvs.iter().cloned() {
        let len = builder.append(key, value);
        offsets.push(offset);
        offset += len;
    }
    let data = builder.build();

    for ((key, value), offset) in kvs.into_iter().zip(offsets.into_iter()) {
        let (k, v) = data.get(offset);
        assert_eq!(key, k);
        assert_eq!(value, v);
    }
}

#[test]
fn test_get_latest() {
    let idx = vec![
        (Key::new(Row::new(Bytes::from("b")), 100), 0),
        (Key::new(Row::new(Bytes::from("b")), 99), 1),
        (Key::new(Row::new(Bytes::from("c")), 200), 2),
        (Key::new(Row::new(Bytes::from("d")), 100), 3),
        (Key::new(Row::new(Bytes::from("d")), 99), 4),
        (Key::new(Row::new(Bytes::from("d")), 98), 5),
    ];
    let index = Index::new(idx.clone());

    // Nothing in the index is of row `a`: the place of the row holds the
    // first entry, which is of another row.
    assert!(index.get_latest(&Row::new(Bytes::from("a"))).is_none());

    let (k, o) = index.get_latest(&Row::new(Bytes::from("b"))).unwrap();
    assert_eq!(&idx[0].0, k);
    assert_eq!(idx[0].1, o);

    let (k, o) = index.get_latest(&Row::new(Bytes::from("c"))).unwrap();
    assert_eq!(&idx[2].0, k);
    assert_eq!(idx[2].1, o);

    let (k, o) = index.get_latest(&Row::new(Bytes::from("d"))).unwrap();
    assert_eq!(&idx[3].0, k);
    assert_eq!(idx[3].1, o);

    assert!(index.get_latest(&Row::new(Bytes::from("e"))).is_none());
}

#[test]
fn index_of_one_entry() {
    let index = Index::new(vec![(Key::new(Row::new(Bytes::from("m")), 7), 40)]);
    assert!(index.get_latest(&Row::new(Bytes::from("a"))).is_none());
    assert!(index.get_latest(&Row::new(Bytes::from("z"))).is_none());
    let (k, o) = index.get_latest(&Row::new(Bytes::from("m"))).unwrap();
    assert_eq!(k.timestamp(), 7);
    assert_eq!(o, 40);
    let empty = Index::new(vec![]);
    assert!(empty.get_latest(&Row::new(Bytes::from("m"))).is_none());
}

#[test]
fn data_offsets_are_byte_counts() {
    let mut builder = DataBuilder::new(0);
    let n1 = builder.append(
        Key::new(Row::new(Bytes::from("k1")), 1),
        Value::Val(Bytes::from("v1")),
    );
    assert_eq!(n1, 16 + 2 + 9 + 2);
    let n2 = builder.append(Key::new(Row::new(Bytes::from("")), 2), Value::Del);
    assert_eq!(n2, 16 + 1);
    let data = builder.build();
    let (k, v) = data.get(n1);
    assert_eq!(k, Key::new(Row::new(Bytes::new()), 2));
    assert_eq!(v, Value::Del);
}

fn entry(row: &'static str, timestamp: u64, value: Option<&'static str>) -> (Key, Value) {
    (
        Key::new(Row::new(Bytes::from(row)), timestamp),
        match value {
            Some(v) => Value::Val(Bytes::from(v)),
            None => Value::Del,
        },
    )
}

#[test]
fn compacter_keeps_the_first_of_a_row() {
    let (k, v) = entry("a", 9, Some("a9"));
    let mut compacter = SingleVersionCompacter::new(k, v);
    let (k, v) = entry("a", 8, Some("a8"));
    assert_eq!(compacter.compact(k, v), None);
    let (k, v) = entry("a", 1, None);
    assert_eq!(compacter.compact(k, v), None);
    let (k, v) = entry("b", 5, None);
    assert_eq!(compacter.compact(k, v), Some(entry("a", 9, Some("a9"))));
    let (k, v) = entry("c", 5, Some("c5"));
    assert_eq!(compacter.compact(k, v), Some(entry("b", 5, None)));
    assert_eq!(compacter.into_key_value(), entry("c", 5, Some("c5")));
}

#[test]
fn table_holds_one_version_of_each_row() {
    let entries = vec![
        entry("b", 100, Some("b100")),
        entry("b", 99, Some("b99")),
        entry("c", 200, None),
        entry("d", 100, Some("d100")),
        entry("d", 99, None),
        entry("d", 98, Some("d98")),
    ];
    let mut stat = Stat::default();
    for (k, v) in entries.iter() {
        stat.insert(k, v, None);
    }
    assert_eq!(stat.len(), 6);
    let builder = SSTableBuilder::new(&stat, 144, 9);
    let table = builder.load(entries);

    for (row, found) in [("a", false), ("b", true), ("c", true), ("d", true), ("e", false)] {
        let row = Row::new(Bytes::from(row));
        assert_eq!(table.index.get_latest(&row).is_some(), found);
        if found {
            assert!(table.filter.contains(&row));
        }
    }
    let (k, o) = table.index.get_latest(&Row::new(Bytes::from("b"))).unwrap();
    assert_eq!(k.timestamp(), 100);
    assert_eq!(o, 0);
    assert_eq!(table.data.get(o), entry("b", 100, Some("b100")));
    let (k, o) = table.index.get_latest(&Row::new(Bytes::from("c"))).unwrap();
    assert_eq!(k.timestamp(), 200);
    assert_eq!(o, 17 + 13);
    assert_eq!(table.data.get(o), entry("c", 200, None));
    let (_, o) = table.index.get_latest(&Row::new(Bytes::from("d"))).unwrap();
    assert_eq!(o, 17 + 13 + 17 + 1);
    assert_eq!(table.data.get(o), entry("d", 100, Some("d100")));
}

#[test]
fn stat_counts_and_replaces() {
    let mut stat = Stat::default();
    assert_eq!((stat.len(), stat.key_size(), stat.value_size()), (0, 0, 0));
    let (k, v) = entry("row", 1, Some("value"));
    stat.insert(&k, &v, None);
    assert_eq!((stat.len(), stat.key_size(), stat.value_size()), (1, 19, 14));
    let (_, shorter) = entry("row", 1, None);
    stat.insert(&k, &shorter, Some(&v));
    assert_eq!((stat.len(), stat.key_size(), stat.value_size()), (1, 19, 1));
    let (_, longer) = entry("row", 1, Some("a longer value"));
    stat.insert(&k, &longer, Some(&shorter));
    assert_eq!((stat.len(), stat.key_size(), stat.value_size()), (1, 19, 23));
}

#[test]
fn builder_is_sized_for_the_rows_kept() {
    // The totals cover one entry; the input holds two versions of its row.
    let (k, v) = entry("row", 2, Some("new"));
    let mut stat = Stat::default();
    stat.insert(&k, &v, None);
    assert_eq!(stat.len(), 1);
    let builder = SSTableBuilder::new(&stat, 15, 10);
    let table = builder.load(vec![
        entry("row", 2, Some("new")),
        entry("row", 1, Some("an older and longer value")),
    ]);
    let (key, offset) = table.index.get_latest(&Row::new(Bytes::from("row"))).unwrap();
    assert_eq!((key.timestamp(), offset), (2, 0));
    assert_eq!(table.data.get(0), entry("row", 2, Some("new")));
    assert!(table.filter.contains(&Row::new(Bytes::from("row"))));
}

#[test]
fn parts_of_a_table_can_be_cloned() {
    let entries = vec![entry("a", 1, Some("a1")), entry("b", 2, None)];
    let mut stat = Stat::default();
    for (k, v) in entries.iter() {
        stat.insert(k, v, None);
    }
    let table = SSTableBuilder::new(&stat, 29, 10).load(entries);
    let data = table.data.clone();
    let index = table.index.clone();
    let (_, offset) = index.get_latest(&Row::new(Bytes::from("b"))).unwrap();
    assert_eq!(offset, 17 + 11);
    assert_eq!(data.get(offset), entry("b", 2, None));
    assert!(Index::default().get_latest(&Row::new(Bytes::from("a"))).is_none());
    let _ = Data::default();
}

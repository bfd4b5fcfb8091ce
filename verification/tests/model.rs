use beatrice::model::{Key, Row, Value};
use beatrice::order::TotalOrder;
use bytes::{Buf, Bytes, BytesMut};

#[test]
fn test_read_write() {
    let mut buf = BytesMut::new();
    let key = Key::new(Row::new(Bytes::from("this is a test row")), 100);
    key.clone().write_to(&mut buf);

    let mut buf = buf.freeze();
    let k = Key::read_from(&mut buf);

    assert_eq!(key, k);
    assert_eq!(buf.remaining(), 0);
}

#[test]
fn test_read_write_val() {
    let mut buf = BytesMut::new();
    let value = Value::Val(Bytes::from("this is a test value"));
    value.clone().write_to(&mut buf);

    let mut buf = buf.freeze();
    let v = Value::read_from(&mut buf);

    assert_eq!(value, v);
    assert_eq!(buf.remaining(), 0);
}

#[test]
fn test_read_write_del() {
    let mut buf = BytesMut::new();
    let value = Value::Del;
    value.clone().write_to(&mut buf);

    let mut buf = buf.freeze();
    let v = Value::read_from(&mut buf);

    assert_eq!(value, v);
    assert_eq!(buf.remaining(), 0);
}

#[test]
fn keys_order_by_row_then_by_later_timestamp() {
    let key = |row: &'static str, t: u64| Key::new(Row::new(Bytes::from(row)), t);
    assert!(key("a", 1).less(&key("b", 9)));
    assert!(!key("b", 9).less(&key("a", 1)));
    assert!(key("a", 9).less(&key("a", 1)));
    assert!(!key("a", 1).less(&key("a", 9)));
    assert!(!key("a", 5).less(&key("a", 5)));
    assert!(key("a", 5).same(&key("a", 5)));
    assert!(!key("a", 5).same(&key("a", 6)));
    assert!(key("a", 0).less(&key("aa", u64::MAX)));
    assert!(key("", 0).less(&key("\u{0}", u64::MAX)));
    assert!(key("a", u64::MAX).less(&key("a", 0)));
    assert!(Row::new(Bytes::from("ab")).less(&Row::new(Bytes::from("b"))));
    assert!(!Row::new(Bytes::from("b")).less(&Row::new(Bytes::from("ab"))));
}

#[test]
fn key_encoding_is_little_endian() {
    let mut buf = BytesMut::new();
    let key = Key::new(Row::new(Bytes::from("ab")), 0x0102);
    assert_eq!(key.size(), 18);
    assert_eq!(key.write_to(&mut buf), 18);
    assert_eq!(
        &buf[..],
        &[2u8, 1, 0, 0, 0, 0, 0, 0, 2, 0, 0, 0, 0, 0, 0, 0, b'a', b'b'][..]
    );
}

#[test]
fn value_encoding_starts_with_its_tag() {
    let mut buf = BytesMut::new();
    let value = Value::Val(Bytes::from("xyz"));
    assert_eq!(value.size(), 12);
    assert_eq!(value.write_to(&mut buf), 12);
    assert_eq!(Value::Del.size(), 1);
    assert_eq!(Value::Del.write_to(&mut buf), 1);
    assert_eq!(
        &buf[..],
        &[0u8, 3, 0, 0, 0, 0, 0, 0, 0, b'x', b'y', b'z', 1][..]
    );
}

#[test]
fn reading_leaves_what_follows() {
    let mut buf = BytesMut::new();
    Key::new(Row::new(Bytes::from("row")), 7).write_to(&mut buf);
    Value::Val(Bytes::from("")).write_to(&mut buf);
    Value::Del.write_to(&mut buf);
    Key::new(Row::new(Bytes::from("")), u64::MAX).write_to(&mut buf);
    let mut buf = buf.freeze();
    assert_eq!(Key::read_from(&mut buf), Key::new(Row::new(Bytes::from("row")), 7));
    assert_eq!(buf.remaining(), 9 + 1 + 16);
    assert_eq!(Value::read_from(&mut buf), Value::Val(Bytes::new()));
    assert_eq!(Value::read_from(&mut buf), Value::Del);
    let last = Key::read_from(&mut buf);
    assert_eq!(last.timestamp(), u64::MAX);
    assert_eq!(last.row().get().len(), 0);
    assert_eq!(buf.remaining(), 0);
}

#[test]
fn any_tag_but_zero_reads_as_a_tombstone() {
    let mut buf = Bytes::from(vec![7u8, 0, 9]);
    assert_eq!(Value::read_from(&mut buf), Value::Del);
    assert_eq!(buf.remaining(), 2);
}

#[test]
fn keys_compare_with_the_operators() {
    let key = |row: &'static str, t: u64| Key::new(Row::new(Bytes::from(row)), t);
    assert!(key("a", 1) < key("b", 9));
    assert!(key("a", 9) < key("a", 1));
    assert!(key("a", 1) > key("a", 9));
    assert!(key("a", 5) <= key("a", 5));
    assert!(key("a", 5) >= key("a", 5));
    assert!(!(key("b", 5) < key("a", 5)));
    assert!(Row::new(Bytes::from("a")) < Row::new(Bytes::from("aa")));
    assert!(Row::new(Bytes::from("b")) > Row::new(Bytes::from("aa")));
    assert!(Row::new(Bytes::from("")) <= Row::new(Bytes::from("")));
}

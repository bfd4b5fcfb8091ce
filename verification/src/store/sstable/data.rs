//! The data of a table: its entries, encoded one after another.

use crate::model::buffer::{
    buffer_freeze, buffer_with_capacity, bytes_slice, contents, written,
};
use crate::model::key::{decoded_key, key_decodable, key_encoding, key_size, lemma_key_round_trip};
use crate::model::value::{
    decoded_value, lemma_value_round_trip, value_decodable, value_encoding, value_size,
};
use crate::model::{Key, Value};
use bytes::{Bytes, BytesMut};
use vstd::prelude::*;

verus! {

/// An entry as contracts speak of it: the views of its key and its value.
pub type Entry = ((Seq<u8>, u64), Option<Seq<u8>>);

/// The number of bytes that the encoding of an entry takes.
pub open spec fn entry_size(e: Entry) -> nat {
    key_size(e.0) + value_size(e.1)
}

/// The encoding of an entry: that of its key, then that of its value.
pub open spec fn entry_encoding(e: Entry) -> Seq<u8> {
    key_encoding(e.0) + value_encoding(e.1)
}

/// `s` holds the complete encoding of an entry from `offset` on.
pub open spec fn entry_decodable(s: Seq<u8>, offset: int) -> bool {
    &&& 0 <= offset <= s.len()
    &&& key_decodable(s.skip(offset))
    &&& value_decodable(s.skip(offset).skip(key_size(decoded_key(s.skip(offset))) as int))
}

/// The entry that `s` holds from `offset` on.
pub open spec fn entry_at(s: Seq<u8>, offset: int) -> Entry {
    (
        decoded_key(s.skip(offset)),
        decoded_value(s.skip(offset).skip(key_size(decoded_key(s.skip(offset))) as int)),
    )
}

/// The bytes that the encodings of `entries` take together.
pub open spec fn entries_size(entries: Seq<Entry>) -> nat
    decreases entries.len(),
{
    if entries.len() == 0 {
        0
    } else {
        entries_size(entries.drop_last()) + entry_size(entries.last())
    }
}

/// The encodings of `entries`, one after another.
pub open spec fn entries_encoding(entries: Seq<Entry>) -> Seq<u8>
    decreases entries.len(),
{
    if entries.len() == 0 {
        Seq::empty()
    } else {
        entries_encoding(entries.drop_last()) + entry_encoding(entries.last())
    }
}

/// An entry can be read back where it was written, whatever stands before
/// and behind it.
pub proof fn lemma_entry_round_trip(front: Seq<u8>, e: Entry, rest: Seq<u8>)
    requires
        entry_size(e) <= u64::MAX,
    ensures
        entry_encoding(e).len() == entry_size(e),
        entry_decodable(front + entry_encoding(e) + rest, front.len() as int),
        entry_at(front + entry_encoding(e) + rest, front.len() as int) == e,
{
    let s = front + entry_encoding(e) + rest;
    let tail = value_encoding(e.1) + rest;
    lemma_key_round_trip(e.0, tail);
    lemma_value_round_trip(e.1, rest);
    assert(s.skip(front.len() as int) =~= key_encoding(e.0) + tail);
}

/// The encodings of entries take the bytes that their sizes say, and a
/// prefix of the entries takes no more than all of them.
pub proof fn lemma_entries_size(entries: Seq<Entry>, n: int)
    requires
        0 <= n <= entries.len(),
        entries_size(entries) <= u64::MAX,
    ensures
        entries_encoding(entries).len() == entries_size(entries),
        entries_size(entries.take(n)) <= entries_size(entries),
        n < entries.len() ==> entries_size(entries.take(n)) + entry_size(entries[n])
            <= entries_size(entries),
    decreases entries.len(),
{
    if entries.len() > 0 {
        let front = entries.drop_last();
        lemma_entry_round_trip(Seq::empty(), entries.last(), Seq::empty());
        if n == entries.len() {
            assert(entries.take(n) =~= entries);
            lemma_entries_size(front, n - 1);
        } else {
            lemma_entries_size(front, n);
            assert(front.take(n) =~= entries.take(n));
            if n == entries.len() - 1 {
                assert(front.take(n) =~= front);
            } else {
                assert(front[n] == entries[n]);
            }
        }
    } else {
        assert(entries.take(n) =~= entries);
    }
}

/// Every entry takes at least one byte.
pub proof fn lemma_entries_count(entries: Seq<Entry>)
    ensures
        entries.len() <= entries_size(entries),
    decreases entries.len(),
{
    if entries.len() > 0 {
        lemma_entries_count(entries.drop_last());
    }
}

/// Every entry of an encoded sequence can be read back at the offset where
/// its encoding starts: the size of the entries before it.
pub proof fn lemma_entries_round_trip(entries: Seq<Entry>, i: int, rest: Seq<u8>)
    requires
        0 <= i < entries.len(),
        entries_size(entries) <= u64::MAX,
    ensures
        entry_decodable(
            entries_encoding(entries) + rest,
            entries_size(entries.take(i)) as int,
        ),
        entry_at(entries_encoding(entries) + rest, entries_size(entries.take(i)) as int)
            == entries[i],
    decreases entries.len(),
{
    let front = entries.drop_last();
    let last = entries.last();
    lemma_entries_size(entries, i);
    lemma_entries_size(front, front.len() as int);
    assert(front.take(front.len() as int) =~= front);
    if i == entries.len() - 1 {
        assert(entries.take(i) =~= front);
        lemma_entry_round_trip(entries_encoding(front), last, rest);
        assert(entries_encoding(entries) + rest =~= entries_encoding(front) + entry_encoding(last)
            + rest);
    } else {
        lemma_entries_round_trip(front, i, entry_encoding(last) + rest);
        assert(front.take(i) =~= entries.take(i));
        assert(entries_encoding(entries) + rest =~= entries_encoding(front) + (entry_encoding(
            last,
        ) + rest));
    }
}

/// The encoded entries of a table.
#[derive(Clone, Default)]
pub struct Data {
    data: Bytes,
}

impl Data {
    /// The bytes of the table.
    pub closed spec fn bytes(&self) -> Seq<u8> {
        contents(self.data)
    }

    /// Decodes the entry that starts at `offset`.
    pub fn get(&self, offset: usize) -> (kv: (Key, Value))
        requires
            entry_decodable(self.bytes(), offset as int),
        ensures
            (kv.0@, kv.1@) == entry_at(self.bytes(), offset as int),
    {
        let mut buf = bytes_slice(&self.data, offset, self.data.len());
        proof {
            assert(contents(buf) =~= self.bytes().skip(offset as int));
        }
        let key = Key::read_from(&mut buf);
        let value = Value::read_from(&mut buf);
        (key, value)
    }
}

/// The data of a table under construction.
pub struct DataBuilder {
    data: BytesMut,
}

impl DataBuilder {
    /// The bytes written so far.
    pub closed spec fn bytes(&self) -> Seq<u8> {
        written(self.data)
    }

    /// A builder with room for `size` bytes.
    pub fn new(size: usize) -> (builder: Self)
        requires
            size <= isize::MAX,
        ensures
            builder.bytes() == Seq::<u8>::empty(),
    {
        Self { data: buffer_with_capacity(size) }
    }

    /// Appends the encoding of an entry and returns its length.
    pub fn append(&mut self, key: Key, value: Value) -> (n: usize)
        requires
            old(self).bytes().len() + entry_size((key@, value@)) <= isize::MAX,
        ensures
            final(self).bytes() == old(self).bytes() + entry_encoding((key@, value@)),
            n == entry_size((key@, value@)),
    {
        proof {
            lemma_key_round_trip(key@, Seq::empty());
        }
        let key_size = key.write_to(&mut self.data);
        let value_size = value.write_to(&mut self.data);
        proof {
            assert(self.bytes() =~= old(self).bytes() + entry_encoding((key@, value@)));
        }
        key_size + value_size
    }

    /// The data written, now immutable.
    pub fn build(self) -> (data: Data)
        ensures
            data.bytes() == self.bytes(),
    {
        Data { data: buffer_freeze(self.data) }
    }
}

} // verus!

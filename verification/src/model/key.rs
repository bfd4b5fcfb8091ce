//! Composite keys: a row and the timestamp of one of its versions.

use crate::model::buffer::{
    buffer_put, buffer_put_u64_le, bytes_advance, bytes_get_u64_le, bytes_slice,
    contents, written,
};
use crate::model::lexical::{
    bytes_lt, lemma_bytes_lt_irreflexive, lemma_bytes_lt_total, lemma_bytes_lt_transitive,
};
use crate::model::Row;
use crate::order::TotalOrder;
use bytes::{Bytes, BytesMut};
use vstd::bytes::{
    lemma_auto_spec_u64_to_from_le_bytes, spec_u64_from_le_bytes, spec_u64_to_le_bytes,
};
use vstd::prelude::*;

verus! {

/// The order of keys, on their views: by row, and within a row the later
/// timestamp first.
pub open spec fn key_lt(a: (Seq<u8>, u64), b: (Seq<u8>, u64)) -> bool {
    bytes_lt(a.0, b.0) || (a.0 == b.0 && a.1 > b.1)
}

/// The number of bytes that the encoding of a key takes.
pub open spec fn key_size(k: (Seq<u8>, u64)) -> nat {
    16 + k.0.len()
}

/// The encoding of a key: the timestamp, the row's length, then the row, the
/// two integers as eight bytes each, least significant first.
pub open spec fn key_encoding(k: (Seq<u8>, u64)) -> Seq<u8> {
    spec_u64_to_le_bytes(k.1) + spec_u64_to_le_bytes(k.0.len() as u64) + k.0
}

/// The length that the row of the key at the head of `s` is said to have.
pub open spec fn key_row_len(s: Seq<u8>) -> int {
    spec_u64_from_le_bytes(s.subrange(8, 16)) as int
}

/// `s` starts with the complete encoding of a key.
pub open spec fn key_decodable(s: Seq<u8>) -> bool {
    s.len() >= 16 && 16 + key_row_len(s) <= s.len()
}

/// The key at the head of `s`.
pub open spec fn decoded_key(s: Seq<u8>) -> (Seq<u8>, u64) {
    (s.subrange(16, 16 + key_row_len(s)), spec_u64_from_le_bytes(s.subrange(0, 8)))
}

/// A row together with the timestamp of one of its versions.
#[derive(Debug)]
pub struct Key {
    row: Row,
    timestamp: u64,
}

impl View for Key {
    type V = (Seq<u8>, u64);

    closed spec fn view(&self) -> (Seq<u8>, u64) {
        (self.row@, self.timestamp)
    }
}

impl Key {
    pub fn new(row: Row, timestamp: u64) -> (k: Self)
        ensures
            k@ == (row@, timestamp),
    {
        Self { row, timestamp }
    }

    pub fn row(&self) -> (r: &Row)
        ensures
            r@ == self@.0,
    {
        &self.row
    }

    pub fn timestamp(&self) -> (t: u64)
        ensures
            t == self@.1,
    {
        self.timestamp
    }

    /// The number of bytes that `write_to` emits for this key.
    pub fn size(&self) -> (n: usize)
        requires
            key_size(self@) <= usize::MAX,
        ensures
            n == key_size(self@),
    {
        16 + self.row.get().len()
    }

    /// Takes one key off the front of `buf`.
    pub fn read_from(buf: &mut Bytes) -> (k: Self)
        requires
            key_decodable(contents(*old(buf))),
        ensures
            k@ == decoded_key(contents(*old(buf))),
            contents(*final(buf)) == contents(*old(buf)).skip(key_size(k@) as int),
    {
        let ghost s = contents(*buf);
        let timestamp = bytes_get_u64_le(buf);
        let raw_len = bytes_get_u64_le(buf);
        let remaining = buf.len();
        proof {
            assert(s.skip(8).subrange(0, 8) =~= s.subrange(8, 16));
            assert(s.skip(8).skip(8) =~= s.skip(16));
            assert(raw_len <= remaining);
        }
        let len = raw_len as usize;
        let row = Row::new(bytes_slice(buf, 0, len));
        bytes_advance(buf, len);
        proof {
            assert(s.skip(16).subrange(0, len as int) =~= s.subrange(16, 16 + len));
            assert(s.skip(16).skip(len as int) =~= s.skip(16 + len));
        }
        Key { row, timestamp }
    }

    /// Appends the encoding of this key to `buf` and returns its length.
    pub fn write_to(self, buf: &mut BytesMut) -> (n: usize)
        requires
            written(*old(buf)).len() + key_size(self@) <= isize::MAX,
        ensures
            written(*final(buf)) == written(*old(buf)) + key_encoding(self@),
            n == key_size(self@),
    {
        let size = self.size();
        proof {
            lemma_u64_le_len(self.timestamp);
            lemma_u64_le_len(self.row@.len() as u64);
        }
        buffer_put_u64_le(buf, self.timestamp);
        buffer_put_u64_le(buf, self.row.get().len() as u64);
        let ghost row = self.row@;
        let Key { row: Row(bytes), timestamp } = self;
        buffer_put(buf, bytes);
        proof {
            assert(written(*buf) =~= written(*old(buf)) + key_encoding((row, timestamp)));
        }
        size
    }
}

/// An integer encodes to eight bytes.
pub proof fn lemma_u64_le_len(x: u64)
    ensures
        spec_u64_to_le_bytes(x).len() == 8,
{
    lemma_auto_spec_u64_to_from_le_bytes();
}

/// Reading gives back what was written, whatever follows it, and takes
/// exactly the bytes that were written.
pub proof fn lemma_key_round_trip(k: (Seq<u8>, u64), rest: Seq<u8>)
    requires
        k.0.len() <= u64::MAX,
    ensures
        key_encoding(k).len() == key_size(k),
        key_decodable(key_encoding(k) + rest),
        decoded_key(key_encoding(k) + rest) == k,
        (key_encoding(k) + rest).skip(key_size(k) as int) == rest,
{
    lemma_auto_spec_u64_to_from_le_bytes();
    let s = key_encoding(k) + rest;
    let n = k.0.len() as u64;
    assert(s.subrange(0, 8) =~= spec_u64_to_le_bytes(k.1));
    assert(s.subrange(8, 16) =~= spec_u64_to_le_bytes(n));
    assert(s.subrange(16, 16 + n) =~= k.0);
    assert(s.skip(key_size(k) as int) =~= rest);
}

/// Keys are ordered by row, and within a row the later timestamp comes
/// first.
pub proof fn lemma_key_order(r1: Seq<u8>, t1: u64, r2: Seq<u8>, t2: u64)
    requires
        bytes_lt(r1, r2) || r1 == r2,
    ensures
        key_lt((r1, t1), (r2, t2)) <==> (bytes_lt(r1, r2) || (r1 == r2 && t1 > t2)),
        bytes_lt(r1, r2) ==> !key_lt((r2, t2), (r1, t1)),
{
    if bytes_lt(r1, r2) {
        if bytes_lt(r2, r1) {
            lemma_bytes_lt_transitive(r1, r2, r1);
        }
        lemma_bytes_lt_irreflexive(r1);
    }
}

impl TotalOrder for Key {
    open spec fn precedes(a: (Seq<u8>, u64), b: (Seq<u8>, u64)) -> bool {
        key_lt(a, b)
    }

    proof fn lemma_irreflexive(a: (Seq<u8>, u64)) {
        lemma_bytes_lt_irreflexive(a.0);
    }

    proof fn lemma_transitive(a: (Seq<u8>, u64), b: (Seq<u8>, u64), c: (Seq<u8>, u64)) {
        if bytes_lt(a.0, b.0) && bytes_lt(b.0, c.0) {
            lemma_bytes_lt_transitive(a.0, b.0, c.0);
        }
    }

    proof fn lemma_total(a: (Seq<u8>, u64), b: (Seq<u8>, u64)) {
        lemma_bytes_lt_total(a.0, b.0);
    }

    fn less(&self, other: &Self) -> (r: bool) {
        if self.row.less(&other.row) {
            true
        } else if self.row.same(&other.row) {
            self.timestamp > other.timestamp
        } else {
            false
        }
    }

    fn same(&self, other: &Self) -> (r: bool) {
        self.row.same(&other.row) && self.timestamp == other.timestamp
    }
}

impl PartialOrd for Key {
    fn partial_cmp(&self, other: &Self) -> (r: Option<std::cmp::Ordering>) {
        if self.less(other) {
            Some(std::cmp::Ordering::Less)
        } else if self.same(other) {
            Some(std::cmp::Ordering::Equal)
        } else {
            Some(std::cmp::Ordering::Greater)
        }
    }
}

impl vstd::std_specs::cmp::PartialOrdSpecImpl for Key {
    open spec fn obeys_partial_cmp_spec() -> bool {
        true
    }

    open spec fn partial_cmp_spec(&self, other: &Self) -> Option<std::cmp::Ordering> {
        if key_lt(self@, other@) {
            Some(std::cmp::Ordering::Less)
        } else if self@ == other@ {
            Some(std::cmp::Ordering::Equal)
        } else {
            Some(std::cmp::Ordering::Greater)
        }
    }
}

impl Clone for Key {
    fn clone(&self) -> (k: Self)
        ensures
            k@ == self@,
    {
        Key { row: self.row.clone(), timestamp: self.timestamp }
    }
}

impl PartialEq for Key {
    fn eq(&self, other: &Self) -> (r: bool) {
        self.same(other)
    }
}

impl Eq for Key {}

impl vstd::std_specs::cmp::PartialEqSpecImpl for Key {
    open spec fn obeys_eq_spec() -> bool {
        true
    }

    open spec fn eq_spec(&self, other: &Self) -> bool {
        self@ == other@
    }
}

} // verus!

//! Values: a payload, or the tombstone that marks a deletion.

use crate::model::buffer::{
    buffer_put, buffer_put_u64_le, buffer_put_u8, bytes_advance, bytes_eq,
    bytes_get_u64_le, bytes_get_u8, bytes_slice, contents, written,
};
use crate::model::key::lemma_u64_le_len;
use bytes::{Bytes, BytesMut};
use vstd::bytes::{
    lemma_auto_spec_u64_to_from_le_bytes, spec_u64_from_le_bytes, spec_u64_to_le_bytes,
};
use vstd::prelude::*;

verus! {

/// The tag byte of a present value.
pub const TAG_VAL: u8 = 0;

/// The tag byte of a tombstone.
pub const TAG_DEL: u8 = 1;

/// The number of bytes that the encoding of a value takes.
pub open spec fn value_size(v: Option<Seq<u8>>) -> nat {
    match v {
        Some(payload) => 9 + payload.len(),
        None => 1,
    }
}

/// The encoding of a value: the tag, and for a payload its length as eight
/// bytes, least significant first, then the payload.
pub open spec fn value_encoding(v: Option<Seq<u8>>) -> Seq<u8> {
    match v {
        Some(payload) => seq![TAG_VAL] + spec_u64_to_le_bytes(payload.len() as u64) + payload,
        None => seq![TAG_DEL],
    }
}

/// The length that the payload of the value at the head of `s` is said to
/// have.
pub open spec fn value_payload_len(s: Seq<u8>) -> int {
    spec_u64_from_le_bytes(s.subrange(1, 9)) as int
}

/// `s` starts with the complete encoding of a value. Any tag but that of a
/// payload stands for a tombstone.
pub open spec fn value_decodable(s: Seq<u8>) -> bool {
    s.len() >= 1 && (s[0] == TAG_VAL ==> s.len() >= 9 && 9 + value_payload_len(s) <= s.len())
}

/// The value at the head of `s`.
pub open spec fn decoded_value(s: Seq<u8>) -> Option<Seq<u8>> {
    if s[0] == TAG_VAL {
        Some(s.subrange(9, 9 + value_payload_len(s)))
    } else {
        None
    }
}

/// What one version of a row holds.
#[derive(Debug, Hash)]
pub enum Value {
    /// A payload.
    Val(Bytes),
    /// A tombstone: the row is deleted as of this version.
    Del,
}

impl View for Value {
    type V = Option<Seq<u8>>;

    open spec fn view(&self) -> Option<Seq<u8>> {
        match self {
            Value::Val(payload) => Some(contents(*payload)),
            Value::Del => None,
        }
    }
}

impl Value {
    /// The number of bytes that `write_to` emits for this value.
    pub fn size(&self) -> (n: usize)
        requires
            value_size(self@) <= usize::MAX,
        ensures
            n == value_size(self@),
    {
        match self {
            Value::Val(v) => 9 + v.len(),
            Value::Del => 1,
        }
    }

    /// Appends the encoding of this value to `buf` and returns its length.
    pub fn write_to(self, buf: &mut BytesMut) -> (n: usize)
        requires
            written(*old(buf)).len() + value_size(self@) <= isize::MAX,
        ensures
            written(*final(buf)) == written(*old(buf)) + value_encoding(self@),
            n == value_size(self@),
    {
        let size = self.size();
        match self {
            Value::Val(v) => {
                proof {
                    lemma_u64_le_len(contents(v).len() as u64);
                }
                buffer_put_u8(buf, TAG_VAL);
                buffer_put_u64_le(buf, v.len() as u64);
                buffer_put(buf, v);
                proof {
                    assert(written(*buf) =~= written(*old(buf)) + value_encoding(
                        Some(contents(v)),
                    ));
                }
            },
            Value::Del => {
                buffer_put_u8(buf, TAG_DEL);
                proof {
                    assert(written(*buf) =~= written(*old(buf)) + value_encoding(None));
                }
            },
        }
        size
    }

    /// Takes one value off the front of `buf`.
    pub fn read_from(buf: &mut Bytes) -> (v: Self)
        requires
            value_decodable(contents(*old(buf))),
        ensures
            v@ == decoded_value(contents(*old(buf))),
            contents(*final(buf)) == contents(*old(buf)).skip(value_size(v@) as int),
    {
        let ghost s = contents(*buf);
        let marker = bytes_get_u8(buf);
        if marker == TAG_VAL {
            let raw_len = bytes_get_u64_le(buf);
            let remaining = buf.len();
            proof {
                assert(s.skip(1).subrange(0, 8) =~= s.subrange(1, 9));
                assert(s.skip(1).skip(8) =~= s.skip(9));
                assert(raw_len <= remaining);
            }
            let len = raw_len as usize;
            let val = bytes_slice(buf, 0, len);
            bytes_advance(buf, len);
            proof {
                assert(s.skip(9).subrange(0, len as int) =~= s.subrange(9, 9 + len));
                assert(s.skip(9).skip(len as int) =~= s.skip(9 + len));
            }
            Value::Val(val)
        } else {
            Value::Del
        }
    }
}

/// Reading gives back what was written, whatever follows it, and takes
/// exactly the bytes that were written.
pub proof fn lemma_value_round_trip(v: Option<Seq<u8>>, rest: Seq<u8>)
    requires
        v matches Some(payload) ==> payload.len() <= u64::MAX,
    ensures
        value_encoding(v).len() == value_size(v),
        value_decodable(value_encoding(v) + rest),
        decoded_value(value_encoding(v) + rest) == v,
        (value_encoding(v) + rest).skip(value_size(v) as int) == rest,
{
    lemma_auto_spec_u64_to_from_le_bytes();
    let s = value_encoding(v) + rest;
    match v {
        Some(payload) => {
            let n = payload.len() as u64;
            assert(s.subrange(1, 9) =~= spec_u64_to_le_bytes(n));
            assert(s.subrange(9, 9 + n) =~= payload);
            assert(s.skip(value_size(v) as int) =~= rest);
        },
        None => {
            assert(s.skip(1) =~= rest);
        },
    }
}

impl Clone for Value {
    fn clone(&self) -> (v: Self)
        ensures
            v@ == self@,
    {
        match self {
            Value::Val(payload) => Value::Val(payload.clone()),
            Value::Del => Value::Del,
        }
    }
}

impl PartialEq for Value {
    fn eq(&self, other: &Self) -> (r: bool) {
        match (self, other) {
            (Value::Val(a), Value::Val(b)) => bytes_eq(a, b),
            (Value::Del, Value::Del) => true,
            _ => false,
        }
    }
}

impl Eq for Value {}

impl vstd::std_specs::cmp::PartialEqSpecImpl for Value {
    open spec fn obeys_eq_spec() -> bool {
        true
    }

    open spec fn eq_spec(&self, other: &Self) -> bool {
        self@ == other@
    }
}

} // verus!

//! Rows, keys and values, and their binary encoding.

pub mod buffer;
pub mod key;
pub mod lexical;
pub mod value;

pub use crate::model::key::Key;
pub use crate::model::value::Value;

use crate::model::buffer::{bytes_eq, bytes_less, contents};
use crate::model::lexical::{
    bytes_lt, lemma_bytes_lt_irreflexive, lemma_bytes_lt_total, lemma_bytes_lt_transitive,
};
use crate::order::TotalOrder;
use bytes::Bytes;
use vstd::prelude::*;

verus! {

/// The user-visible key: an opaque byte string, ordered lexicographically.
#[derive(Debug, Hash)]
pub struct Row(Bytes);

impl View for Row {
    type V = Seq<u8>;

    closed spec fn view(&self) -> Seq<u8> {
        contents(self.0)
    }
}

impl Row {
    pub fn new(row: Bytes) -> (r: Self)
        ensures
            r@ == contents(row),
    {
        Row(row)
    }

    pub fn get(&self) -> (b: &Bytes)
        ensures
            contents(*b) == self@,
    {
        &self.0
    }
}

impl TotalOrder for Row {
    open spec fn precedes(a: Seq<u8>, b: Seq<u8>) -> bool {
        bytes_lt(a, b)
    }

    proof fn lemma_irreflexive(a: Seq<u8>) {
        lemma_bytes_lt_irreflexive(a);
    }

    proof fn lemma_transitive(a: Seq<u8>, b: Seq<u8>, c: Seq<u8>) {
        lemma_bytes_lt_transitive(a, b, c);
    }

    proof fn lemma_total(a: Seq<u8>, b: Seq<u8>) {
        lemma_bytes_lt_total(a, b);
    }

    fn less(&self, other: &Self) -> (r: bool) {
        assert(Self::precedes(self@, other@) == bytes_lt(self@, other@));
        bytes_less(&self.0, &other.0)
    }

    fn same(&self, other: &Self) -> (r: bool) {
        bytes_eq(&self.0, &other.0)
    }
}

impl PartialOrd for Row {
    fn partial_cmp(&self, other: &Self) -> (r: Option<std::cmp::Ordering>) {
        if self.less(other) {
            Some(std::cmp::Ordering::Less)
        } else if self.same(other) {
            Some(std::cmp::Ordering::Equal)
        } else {
            Some(std::cmp::Ordering::Greater)
        }
    }
}

impl vstd::std_specs::cmp::PartialOrdSpecImpl for Row {
    open spec fn obeys_partial_cmp_spec() -> bool {
        true
    }

    open spec fn partial_cmp_spec(&self, other: &Self) -> Option<std::cmp::Ordering> {
        if bytes_lt(self@, other@) {
            Some(std::cmp::Ordering::Less)
        } else if self@ == other@ {
            Some(std::cmp::Ordering::Equal)
        } else {
            Some(std::cmp::Ordering::Greater)
        }
    }
}

impl Clone for Row {
    fn clone(&self) -> (r: Self)
        ensures
            r@ == self@,
    {
        Row(self.0.clone())
    }
}

impl PartialEq for Row {
    fn eq(&self, other: &Self) -> (r: bool) {
        self.same(other)
    }
}

impl Eq for Row {}

impl vstd::std_specs::cmp::PartialEqSpecImpl for Row {
    open spec fn obeys_eq_spec() -> bool {
        true
    }

    open spec fn eq_spec(&self, other: &Self) -> bool {
        self@ == other@
    }
}

} // verus!

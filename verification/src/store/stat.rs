//! Running totals of what the volatile level holds.

use crate::model::key::key_size;
use crate::model::value::value_size;
use crate::model::{Key, Value};
use crate::store::sstable::data::{entries_size, Entry};
use vstd::prelude::*;

verus! {

/// The bytes that the encoded keys of `entries` take together.
pub open spec fn keys_total(entries: Seq<Entry>) -> nat
    decreases entries.len(),
{
    if entries.len() == 0 {
        0
    } else {
        keys_total(entries.drop_last()) + key_size(entries.last().0)
    }
}

/// The bytes that the encoded values of `entries` take together.
pub open spec fn values_total(entries: Seq<Entry>) -> nat
    decreases entries.len(),
{
    if entries.len() == 0 {
        0
    } else {
        values_total(entries.drop_last()) + value_size(entries.last().1)
    }
}

/// The encoded entries take the bytes of their keys and of their values,
/// and at least 17 bytes each.
pub proof fn lemma_totals(entries: Seq<Entry>)
    ensures
        entries_size(entries) == keys_total(entries) + values_total(entries),
        17 * entries.len() <= entries_size(entries),
    decreases entries.len(),
{
    if entries.len() > 0 {
        lemma_totals(entries.drop_last());
    }
}

/// An entry that enters adds its sizes to the totals.
pub proof fn lemma_totals_insert(entries: Seq<Entry>, at: int, e: Entry)
    requires
        0 <= at <= entries.len(),
    ensures
        keys_total(entries.insert(at, e)) == keys_total(entries) + key_size(e.0),
        values_total(entries.insert(at, e)) == values_total(entries) + value_size(e.1),
    decreases entries.len(),
{
    let after = entries.insert(at, e);
    if at == entries.len() {
        assert(after.drop_last() =~= entries);
    } else {
        assert(after.drop_last() =~= entries.drop_last().insert(at, e));
        assert(after.last() == entries.last());
        lemma_totals_insert(entries.drop_last(), at, e);
    }
}

/// An entry that takes the place of another takes its sizes out of the
/// totals and puts its own in.
pub proof fn lemma_totals_update(entries: Seq<Entry>, at: int, e: Entry)
    requires
        0 <= at < entries.len(),
    ensures
        keys_total(entries.update(at, e)) + key_size(entries[at].0) == keys_total(entries)
            + key_size(e.0),
        values_total(entries.update(at, e)) + value_size(entries[at].1) == values_total(entries)
            + value_size(e.1),
        value_size(entries[at].1) <= values_total(entries),
        key_size(entries[at].0) <= keys_total(entries),
    decreases entries.len(),
{
    let after = entries.update(at, e);
    if at == entries.len() - 1 {
        assert(after.drop_last() =~= entries.drop_last());
    } else {
        assert(after.drop_last() =~= entries.drop_last().update(at, e));
        assert(after.last() == entries.last());
        lemma_totals_update(entries.drop_last(), at, e);
    }
}

/// The number of entries and the bytes that their keys and values will take
/// once written out.
pub struct Stat {
    len: usize,
    /// Total key size in bytes when flushed
    key_size: usize,
    /// Total value size in bytes when flushed
    value_size: usize,
}

impl Stat {
    /// The number of entries counted.
    pub closed spec fn spec_len(&self) -> usize {
        self.len
    }

    /// The bytes that the encoded keys take together.
    pub closed spec fn spec_key_size(&self) -> usize {
        self.key_size
    }

    /// The bytes that the encoded values take together.
    pub closed spec fn spec_value_size(&self) -> usize {
        self.value_size
    }

    /// Whether the totals can take an entry of these sizes in place of the
    /// value of size `replaced`, if there is one.
    pub open spec fn admits(&self, key: nat, value: nat, replaced: Option<nat>) -> bool {
        match replaced {
            None => {
                &&& self.spec_len() + 1 <= usize::MAX
                &&& self.spec_key_size() + key <= usize::MAX
                &&& self.spec_value_size() + value <= usize::MAX
            },
            Some(old_size) => {
                &&& self.spec_value_size() + value <= usize::MAX
                &&& old_size <= self.spec_value_size() + value
            },
        }
    }

    /// Counts one insertion: a new entry when `old_value` is `None`, else
    /// the replacement of `old_value` by `value` under a key already counted.
    pub fn insert(&mut self, key: &Key, value: &Value, old_value: Option<&Value>)
        requires
            old(self).admits(
                key_size(key@),
                value_size(value@),
                match old_value {
                    Some(v) => Some(value_size(v@)),
                    None => None,
                },
            ),
        ensures
            old_value is None ==> {
                &&& final(self).spec_len() == old(self).spec_len() + 1
                &&& final(self).spec_key_size() == old(self).spec_key_size() + key_size(key@)
                &&& final(self).spec_value_size() == old(self).spec_value_size() + value_size(
                    value@,
                )
            },
            old_value matches Some(v) ==> {
                &&& final(self).spec_len() == old(self).spec_len()
                &&& final(self).spec_key_size() == old(self).spec_key_size()
                &&& final(self).spec_value_size() == old(self).spec_value_size() + value_size(
                    value@,
                ) - value_size(v@)
            },
    {
        match old_value {
            None => {
                self.len += 1;
                self.key_size += key.size();
                self.value_size += value.size();
            },
            Some(old_value) => {
                self.value_size = (self.value_size + value.size()) - old_value.size();
            },
        }
    }

    #[verifier::when_used_as_spec(spec_len)]
    pub fn len(&self) -> (n: usize)
        ensures
            n == self.spec_len(),
    {
        self.len
    }

    #[verifier::when_used_as_spec(spec_key_size)]
    pub fn key_size(&self) -> (n: usize)
        ensures
            n == self.spec_key_size(),
    {
        self.key_size
    }

    #[verifier::when_used_as_spec(spec_value_size)]
    pub fn value_size(&self) -> (n: usize)
        ensures
            n == self.spec_value_size(),
    {
        self.value_size
    }
}

impl Default for Stat {
    fn default() -> (s: Self)
        ensures
            s.spec_len() == 0,
            s.spec_key_size() == 0,
            s.spec_value_size() == 0,
    {
        Stat { len: 0, key_size: 0, value_size: 0 }
    }
}

} // verus!

//! Verified building blocks: two singly linked lists, a binary search tree
//! over keyed records, a binary min-heap, and a double-array trie mapping
//! byte-string keys to values.

pub mod cons_list;
pub mod linked_list;
pub mod structure;

use vstd::prelude::*;

verus! {

/// A keyed record: something that exposes an ordered key and a payload value.
///
/// `spec_key` and `spec_value` are the mathematical projections that the
/// executable accessors are proved to agree with; containers state their
/// contracts in terms of them.
pub trait Pair: Sized {
    type Key: Ord;

    type Value;

    spec fn spec_key(&self) -> Self::Key;

    spec fn spec_value(&self) -> Self::Value;

    fn key(&self) -> (k: &Self::Key)
        ensures
            *k == self.spec_key(),
    ;

    fn value(&self) -> (v: &Self::Value)
        ensures
            *v == self.spec_value(),
    ;

    fn set_value(&mut self, value: Self::Value)
        ensures
            final(self).spec_value() == value,
            final(self).spec_key() == old(self).spec_key(),
    ;
}

impl<K: Ord, V> Pair for (K, V) {
    type Key = K;

    type Value = V;

    open spec fn spec_key(&self) -> K {
        self.0
    }

    open spec fn spec_value(&self) -> V {
        self.1
    }

    fn key(&self) -> (k: &K) {
        &self.0
    }

    fn value(&self) -> (v: &V) {
        &self.1
    }

    fn set_value(&mut self, value: V) {
        self.1 = value
    }
}

} // verus!



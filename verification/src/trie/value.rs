//! The value of the item that the hash builder holds.
use crate::trie::model::ItemValue;
use crate::trie::updates::copy_bytes;
use vstd::prelude::*;

verus! {

/// The value of a leaf, or the hash of a subtree.
#[derive(Debug)]
pub enum HashBuilderValue {
    Bytes(Vec<u8>),
    Hash([u8; 32]),
}

/// A borrowed value.
#[derive(Debug)]
pub enum HashBuilderValueRef<'a> {
    Bytes(&'a [u8]),
    Hash(&'a [u8; 32]),
}

impl Default for HashBuilderValue {
    fn default() -> (r: Self)
        ensures
            r matches HashBuilderValue::Bytes(bytes) && bytes@.len() == 0,
    {
        HashBuilderValue::Bytes(Vec::new())
    }
}

impl HashBuilderValue {
    /// What the value stands for; a hash stands for a subtree that is stored as `in_db` says.
    pub open spec fn model(&self, in_db: bool) -> ItemValue {
        match self {
            HashBuilderValue::Bytes(bytes) => ItemValue::Leaf(bytes@),
            HashBuilderValue::Hash(hash) => ItemValue::Hash(hash@, in_db),
        }
    }

    /// Sets the value from a borrowed one.
    pub fn set_from_ref(&mut self, value: HashBuilderValueRef<'_>)
        ensures
            forall|in_db: bool| #[trigger] final(self).model(in_db) == value.model(in_db),
    {
        match value {
            HashBuilderValueRef::Bytes(bytes) => {
                *self = HashBuilderValue::Bytes(copy_bytes(bytes));
            },
            HashBuilderValueRef::Hash(hash) => {
                *self = HashBuilderValue::Hash(*hash);
            },
        }
    }

    /// Sets the value to the empty one.
    pub fn clear(&mut self)
        ensures
            *final(self) matches HashBuilderValue::Bytes(bytes) && bytes@.len() == 0,
    {
        *self = HashBuilderValue::Bytes(Vec::new());
    }
}

impl HashBuilderValueRef<'_> {
    /// What the value stands for.
    pub open spec fn model(&self, in_db: bool) -> ItemValue {
        match self {
            HashBuilderValueRef::Bytes(bytes) => ItemValue::Leaf(bytes@),
            HashBuilderValueRef::Hash(hash) => ItemValue::Hash(hash@, in_db),
        }
    }
}

} // verus!

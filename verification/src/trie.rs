//! The trie handle: the root node and the count of insertions.

use crate::model::TrieModel;
use crate::node::RadixNode;
use vstd::prelude::*;

verus! {

/// A map from byte strings to values of type `T`, held as a 256-way trie.
///
/// The trie only grows: values can be stored and replaced, not looked up or
/// removed. Its length is the number of insertions made, not of keys held.
pub struct RadixTrie<T> {
    /// The node of the empty prefix.
    root: RadixNode<T>,
    /// The number of insertions performed, repeated keys included.
    node_count: usize,
}

impl<T> View for RadixTrie<T> {
    type V = TrieModel<T>;

    closed spec fn view(&self) -> TrieModel<T> {
        TrieModel { root: self.root@, count: self.node_count as nat }
    }
}

impl<T> RadixTrie<T> {
    /// Creates an empty trie.
    pub fn new() -> (trie: Self)
        ensures
            trie@ == TrieModel::<T>::empty(),
    {
        Self { root: RadixNode::default(), node_count: 0 }
    }

    /// The number of insertions performed so far. A key inserted twice
    /// counts twice.
    pub fn len(&self) -> (count: usize)
        ensures
            count == self@.count,
    {
        self.node_count
    }

    /// Whether nothing has been inserted yet.
    pub fn is_empty(&self) -> (empty: bool)
        ensures
            empty <==> self@.count == 0,
    {
        self.len() == 0
    }

    /// Stores `value` under `key`, replacing any value stored under the same
    /// key, and counts the insertion. Any key will do, the empty one too.
    ///
    /// The counter must have room for one more insertion.
    pub fn insert(&mut self, key: &[u8], value: T)
        requires
            old(self)@.count < usize::MAX,
        ensures
            final(self)@ == old(self)@.insert(key@, value),
    {
        self.root.insert(key, value);
        self.increment();
    }

    /// The model of the root is well formed, whatever the trie.
    pub proof fn lemma_view_well_formed(self)
        ensures
            self@.root.well_formed(),
    {
        self.root.lemma_view_well_formed();
    }

    fn increment(&mut self)
        requires
            old(self)@.count < usize::MAX,
        ensures
            final(self)@.root == old(self)@.root,
            final(self)@.count == old(self)@.count + 1,
    {
        self.node_count += 1;
    }
}

} // verus!

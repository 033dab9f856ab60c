//! A map from byte strings to values, held as a 256-way radix trie.
//!
//! Every node has one slot per byte value, so a key is found by walking one
//! node per byte, without hashing or comparing keys. The 256 children of a
//! node are allocated together, and only once a key passes through the node.
//!
//! [`RadixTrie`] is the handle that callers use; [`RadixNode`] is the
//! recursive unit of storage. What they stand for is defined in [`model`],
//! together with the facts about insertion that follow from it.

pub mod model;
pub mod node;
pub mod trie;

pub use node::RadixNode;
pub use trie::RadixTrie;

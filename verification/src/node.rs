//! The trie node: an optional value and a lazily allocated array of children.

use crate::model::{proper_prefixes, NodeModel};
use vstd::prelude::*;

verus! {

/// The number of child slots of a node: one per byte value.
const BRANCH_FACTOR: usize = 256;

/// One slot per possible next byte.
type RadixArray<T> = [T; BRANCH_FACTOR];

/// The children of one node.
type Level<T> = RadixArray<RadixNode<T>>;

/// A node of the trie, and with it the subtree below.
///
/// Keys are counted from the node: the empty key ends at the node itself, and
/// a key that starts with byte `b` continues in the child of slot `b`.
pub struct RadixNode<T> {
    /// The value of the key that ends at this node, if one was inserted.
    accept_state: Option<T>,
    /// The nodes one byte further down. Allocated as a whole on first use.
    children: Option<Box<Level<T>>>,
}

impl<T> RadixNode<T> {
    /// The value stored under `key`.
    spec fn lookup(self, key: Seq<u8>) -> Option<T>
        decreases key.len(),
    {
        if key.len() == 0 {
            self.accept_state
        } else {
            match self.children {
                None => None,
                Some(level) => level[key[0] as int].lookup(key.drop_first()),
            }
        }
    }

    /// Whether the node at `path` owns a child array.
    spec fn is_expanded(self, path: Seq<u8>) -> bool
        decreases path.len(),
    {
        match self.children {
            None => false,
            Some(level) => path.len() == 0 || level[path[0] as int].is_expanded(
                path.drop_first(),
            ),
        }
    }

    /// `after` is `self` with `value` stored under `key`, said key by key
    /// and path by path.
    spec fn gains(self, after: Self, key: Seq<u8>, value: T) -> bool {
        &&& forall|k: Seq<u8>| #[trigger]
            after.lookup(k) == if k == key {
                Some(value)
            } else {
                self.lookup(k)
            }
        &&& forall|p: Seq<u8>| #[trigger]
            after.is_expanded(p) == (self.is_expanded(p) || proper_prefixes(key).contains(p))
    }
}

impl<T> View for RadixNode<T> {
    type V = NodeModel<T>;

    closed spec fn view(&self) -> NodeModel<T> {
        NodeModel {
            values: Map::new(
                |key: Seq<u8>| self.lookup(key) is Some,
                |key: Seq<u8>| self.lookup(key)->0,
            ),
            expanded: Set::new(|path: Seq<u8>| self.is_expanded(path)),
        }
    }
}

impl<T> RadixNode<T> {
    /// Creates a node with no value and no children.
    pub fn new() -> (node: Self)
        ensures
            node@ == NodeModel::<T>::empty(),
    {
        let node = Self { accept_state: None, children: None };
        proof {
            assert(node@.values =~= Map::empty());
            assert(node@.expanded =~= Set::empty());
        }
        node
    }

    /// Stores `value` under `key` and hands back the value that was stored
    /// under that key before.
    ///
    /// The nodes on the way down to the key are created as needed: a node
    /// that is passed through for the first time gets all 256 children at
    /// once. Nothing else in the subtree changes.
    pub fn insert(&mut self, key: &[u8], value: T) -> (prev: Option<T>)
        ensures
            final(self)@ == old(self)@.insert(key@, value),
            prev == old(self)@.stored(key@),
        decreases key@.len(), 0int,
    {
        match key.first() {
            // The key ends here: this node takes the value.
            None => {
                assert(key@ =~= Seq::empty());
                self.set_value(value)
            },
            // At least one more byte: the value belongs further down.
            Some(byte) => {
                let rest = &key[1..key.len()];
                assert(key@ =~= seq![*byte] + rest@);
                self.handle_next_byte(*byte, rest, value)
            },
        }
    }

    /// Stores `value` at this node and hands back what was stored before.
    fn set_value(&mut self, value: T) -> (prev: Option<T>)
        ensures
            final(self)@ == old(self)@.insert(Seq::empty(), value),
            prev == old(self)@.stored(Seq::empty()),
    {
        let prev = self.accept_state.take();
        self.accept_state = Some(value);
        proof {
            assert forall|k: Seq<u8>| k.len() == 0 implies k == Seq::<u8>::empty() by {
                assert(k =~= Seq::<u8>::empty());
            }
            old(self).lemma_gains_is_insert(*self, Seq::empty(), value);
        }
        prev
    }

    /// Stores `value` under `key`, counted from the child in slot `byte`.
    fn handle_next_byte(&mut self, byte: u8, key: &[u8], value: T) -> (prev: Option<T>)
        ensures
            final(self)@ == old(self)@.insert(seq![byte] + key@, value),
            prev == old(self)@.stored(seq![byte] + key@),
        decreases key@.len(), 1int,
    {
        match self.children.as_mut() {
            Some(children) => {
                let prev = children[byte as usize].insert(key, value);
                proof {
                    old(self).lemma_descend(*old(self), *self, byte, key@, value);
                }
                prev
            },
            // The first key to pass through this node: materialise all 256
            // children, then go on as above.
            None => {
                let mut children = Self::new_children();
                let ghost allocated = RadixNode {
                    accept_state: self.accept_state,
                    children: Some(children),
                };
                let prev = children[byte as usize].insert(key, value);
                self.children = Some(children);
                proof {
                    old(self).lemma_descend(allocated, *self, byte, key@, value);
                }
                prev
            },
        }
    }

    /// Allocates the child array of a node: one empty node per byte value.
    fn new_children() -> (level: Box<Level<T>>)
        ensures
            forall|i: int|
                0 <= i < BRANCH_FACTOR ==> (#[trigger] level[i])@ == NodeModel::<T>::empty(),
    {
        let mut children_vec: Vec<RadixNode<T>> = Vec::with_capacity(BRANCH_FACTOR);
        for slot in 0..BRANCH_FACTOR
            invariant
                children_vec.len() == slot,
                forall|i: int|
                    0 <= i < slot ==> (#[trigger] children_vec[i])@ == NodeModel::<T>::empty(),
        {
            children_vec.push(RadixNode::default());
        }
        match vec_into_array(children_vec) {
            Ok(children) => Box::new(children),
            // The vector holds one node per slot, so it always fits.
            Err(_) => vstd::pervasive::unreached(),
        }
    }
}

impl<T> Default for RadixNode<T> {
    fn default() -> (node: Self)
        ensures
            node@ == NodeModel::<T>::empty(),
    {
        Self::new()
    }
}

/// The conversion `TryFrom<Vec<E>> for [E; N]` of the standard library,
/// whose contract Verus takes on trust: a vector of exactly `N` elements
/// comes back as the array of those elements, in their order; any other
/// vector comes back untouched as the error.
#[verifier::external_body]
fn vec_into_array<E, const N: usize>(elements: Vec<E>) -> (converted: Result<[E; N], Vec<E>>)
    ensures
        elements.len() == N ==> converted is Ok && converted->Ok_0@ == elements@,
        elements.len() != N ==> converted is Err && converted->Err_0 == elements,
{
    elements.try_into()
}

/// A non-empty path is a prefix of a non-empty key exactly if the first
/// bytes agree and the rest of the path is a prefix of the rest of the key.
proof fn lemma_prefix_step(path: Seq<u8>, key: Seq<u8>)
    requires
        path.len() > 0,
        key.len() > 0,
    ensures
        path.is_prefix_of(key) <==> path[0] == key[0] && path.drop_first().is_prefix_of(
            key.drop_first(),
        ),
{
    let p = path.drop_first();
    let k = key.drop_first();
    if path.is_prefix_of(key) {
        assert forall|i: int| 0 <= i < p.len() implies p[i] == k[i] by {
            assert(path[i + 1] == key.subrange(0, path.len() as int)[i + 1]);
        }
        assert(p =~= k.subrange(0, p.len() as int));
    }
    if path[0] == key[0] && p.is_prefix_of(k) {
        assert forall|i: int| 0 < i < path.len() implies path[i] == key[i] by {
            assert(p[i - 1] == k.subrange(0, p.len() as int)[i - 1]);
        }
        assert(path =~= key.subrange(0, path.len() as int));
    }
}

impl<T> RadixNode<T> {
    /// The model of a node is well formed, whatever the node.
    pub proof fn lemma_view_well_formed(self)
        ensures
            self@.well_formed(),
    {
        assert forall|key: Seq<u8>, path: Seq<u8>|
            self@.values.contains_key(key) && proper_prefixes(key).contains(
                path,
            ) implies self@.expanded.contains(path) by {
            self.lemma_value_implies_expanded(key, path);
        }
        assert forall|below: Seq<u8>, path: Seq<u8>|
            self@.expanded.contains(below) && proper_prefixes(below).contains(
                path,
            ) implies self@.expanded.contains(path) by {
            self.lemma_expanded_implies_expanded(below, path);
        }
    }

    /// Every node above a stored value owns a child array.
    proof fn lemma_value_implies_expanded(self, key: Seq<u8>, path: Seq<u8>)
        requires
            self.lookup(key) is Some,
            proper_prefixes(key).contains(path),
        ensures
            self.is_expanded(path),
        decreases path.len(),
    {
        if path.len() > 0 {
            lemma_prefix_step(path, key);
            self.children->0[key[0] as int].lemma_value_implies_expanded(
                key.drop_first(),
                path.drop_first(),
            );
        }
    }

    /// Every node above a child array owns a child array.
    proof fn lemma_expanded_implies_expanded(self, below: Seq<u8>, path: Seq<u8>)
        requires
            self.is_expanded(below),
            proper_prefixes(below).contains(path),
        ensures
            self.is_expanded(path),
        decreases path.len(),
    {
        if path.len() > 0 {
            lemma_prefix_step(path, below);
            self.children->0[below[0] as int].lemma_expanded_implies_expanded(
                below.drop_first(),
                path.drop_first(),
            );
        }
    }

    /// Two nodes related by `gains` have models related by `insert`.
    proof fn lemma_gains_is_insert(self, after: Self, key: Seq<u8>, value: T)
        requires
            self.gains(after, key, value),
        ensures
            after@ == self@.insert(key, value),
    {
        assert(after@.values =~= self@.values.insert(key, value));
        assert(after@.expanded =~= self@.expanded.union(proper_prefixes(key)));
    }

    /// Two nodes whose models are related by `insert` are related by `gains`.
    proof fn lemma_insert_is_gains(self, after: Self, key: Seq<u8>, value: T)
        requires
            after@ == self@.insert(key, value),
        ensures
            self.gains(after, key, value),
    {
        let values = self@.values.insert(key, value);
        let expanded = self@.expanded.union(proper_prefixes(key));
        assert forall|k: Seq<u8>| #[trigger]
            after.lookup(k) == if k == key {
                Some(value)
            } else {
                self.lookup(k)
            } by {
            assert(after@.values.contains_key(k) == values.contains_key(k));
            assert(after@.values.contains_key(k) ==> after@.values[k] == values[k]);
        }
        assert forall|p: Seq<u8>| #[trigger]
            after.is_expanded(p) == (self.is_expanded(p) || proper_prefixes(key).contains(p)) by {
            assert(after@.expanded.contains(p) == expanded.contains(p));
        }
    }

    /// A node whose model is empty holds nothing at any depth.
    proof fn lemma_empty_holds_nothing(self)
        requires
            self@ == NodeModel::<T>::empty(),
        ensures
            forall|k: Seq<u8>| #[trigger] self.lookup(k) is None,
            forall|p: Seq<u8>| !#[trigger] self.is_expanded(p),
    {
        assert forall|k: Seq<u8>| #[trigger] self.lookup(k) is None by {
            assert(!self@.values.contains_key(k));
        }
        assert forall|p: Seq<u8>| !#[trigger] self.is_expanded(p) by {
            assert(!self@.expanded.contains(p));
        }
    }

    /// The effect on a node of an insertion into one of its children.
    ///
    /// `allocated` is `self` once it is certain to own a child array, and
    /// `after` is `allocated` once `value` has been stored under `key` in the
    /// child of slot `byte`.
    proof fn lemma_descend(self, allocated: Self, after: Self, byte: u8, key: Seq<u8>, value: T)
        requires
            allocated.accept_state == self.accept_state,
            after.accept_state == self.accept_state,
            allocated.children is Some,
            after.children is Some,
            self.children is Some ==> allocated.children == self.children,
            self.children is None ==> forall|i: int|
                0 <= i < BRANCH_FACTOR ==> (#[trigger] allocated.children->0[i])@
                    == NodeModel::<T>::empty(),
            forall|i: int|
                0 <= i < BRANCH_FACTOR && i != byte ==> #[trigger] after.children->0[i]
                    == allocated.children->0[i],
            after.children->0[byte as int]@ == allocated.children->0[byte as int]@.insert(
                key,
                value,
            ),
        ensures
            after@ == self@.insert(seq![byte] + key, value),
            self@.stored(seq![byte] + key) == allocated.children->0[byte as int]@.stored(key),
    {
        let full = seq![byte] + key;
        let child = allocated.children->0[byte as int];
        let child_after = after.children->0[byte as int];
        assert(full.drop_first() =~= key);
        child.lemma_insert_is_gains(child_after, key, value);
        assert forall|k: Seq<u8>| #[trigger]
            after.lookup(k) == if k == full {
                Some(value)
            } else {
                self.lookup(k)
            } by {
            if k.len() > 0 {
                let slot = k[0] as int;
                let rest = k.drop_first();
                if self.children is None {
                    allocated.children->0[slot].lemma_empty_holds_nothing();
                }
                if slot == byte {
                    assert(child_after.lookup(rest) == if rest == key {
                        Some(value)
                    } else {
                        child.lookup(rest)
                    });
                    if rest == key {
                        assert(k =~= full);
                    }
                }
            }
        }
        assert forall|p: Seq<u8>| #[trigger]
            after.is_expanded(p) == (self.is_expanded(p) || proper_prefixes(full).contains(p)) by {
            if p.len() > 0 {
                let slot = p[0] as int;
                let rest = p.drop_first();
                if self.children is None {
                    allocated.children->0[slot].lemma_empty_holds_nothing();
                }
                assert(after.is_expanded(p) == after.children->0[slot].is_expanded(rest));
                lemma_prefix_step(p, full);
            }
        }
        self.lemma_gains_is_insert(after, full, value);
        if self.children is None {
            child.lemma_empty_holds_nothing();
        }
    }
}

} // verus!

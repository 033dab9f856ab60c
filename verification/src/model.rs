//! The mathematical model of the trie: which keys carry a value, and which
//! prefixes have had their 256-way child array allocated.

use vstd::prelude::*;

verus! {

/// The prefixes of `key` that are strictly shorter than `key`. These are the
/// paths of the nodes an insertion of `key` has to pass through.
pub open spec fn proper_prefixes(key: Seq<u8>) -> Set<Seq<u8>> {
    Set::new(|path: Seq<u8>| path.len() < key.len() && path.is_prefix_of(key))
}

/// What a node, seen as the root of its subtree, stands for.
///
/// Paths and keys are relative to the node: the empty sequence is the node
/// itself, and `seq![b]` is its child in slot `b`.
pub struct NodeModel<T> {
    /// The value stored under each key that ends somewhere in the subtree.
    pub values: Map<Seq<u8>, T>,
    /// The paths of the nodes that own a child array.
    pub expanded: Set<Seq<u8>>,
}

impl<T> NodeModel<T> {
    /// A fresh node: no value, no child array.
    pub open spec fn empty() -> Self {
        NodeModel { values: Map::empty(), expanded: Set::empty() }
    }

    /// The value that an insertion under `key` would displace.
    pub open spec fn stored(self, key: Seq<u8>) -> Option<T> {
        if self.values.contains_key(key) {
            Some(self.values[key])
        } else {
            None
        }
    }

    /// Whether a node has been created at `path`. The root always exists; any
    /// other node exists once its parent owns a child array.
    pub open spec fn has_node(self, path: Seq<u8>) -> bool {
        path.len() == 0 || self.expanded.contains(path.drop_last())
    }

    /// What holds of the model of every node, by the shape of the tree: a
    /// node can only be reached through ancestors that own a child array.
    /// So wherever a value is stored, and wherever a child array has been
    /// allocated, every node above owns a child array too.
    pub open spec fn well_formed(self) -> bool {
        &&& forall|key: Seq<u8>| #[trigger]
            self.values.contains_key(key) ==> proper_prefixes(key).subset_of(self.expanded)
        &&& forall|path: Seq<u8>| #[trigger]
            self.expanded.contains(path) ==> proper_prefixes(path).subset_of(self.expanded)
    }

    /// The subtree after storing `value` under `key`: the key maps to the new
    /// value, and every node on the way down to it owns a child array.
    pub open spec fn insert(self, key: Seq<u8>, value: T) -> Self {
        NodeModel {
            values: self.values.insert(key, value),
            expanded: self.expanded.union(proper_prefixes(key)),
        }
    }
}

/// What a trie stands for: the model of its root, and the number of
/// insertions performed on it so far.
pub struct TrieModel<T> {
    pub root: NodeModel<T>,
    pub count: nat,
}

impl<T> TrieModel<T> {
    /// A freshly constructed trie.
    pub open spec fn empty() -> Self {
        TrieModel { root: NodeModel::empty(), count: 0 }
    }

    /// The trie after one insertion. The counter goes up by one whether or
    /// not `key` was already present.
    pub open spec fn insert(self, key: Seq<u8>, value: T) -> Self {
        TrieModel { root: self.root.insert(key, value), count: self.count + 1 }
    }

    /// The trie after the insertions `ops`, performed first to last.
    pub open spec fn insert_all(self, ops: Seq<(Seq<u8>, T)>) -> Self
        decreases ops.len(),
    {
        if ops.len() == 0 {
            self
        } else {
            self.insert_all(ops.drop_last()).insert(ops.last().0, ops.last().1)
        }
    }
}

impl<T> NodeModel<T> {
    /// A key of length zero is stored at the node itself: afterwards the
    /// value is found under the empty key, and no child array has been
    /// allocated that was not there before.
    pub proof fn lemma_empty_key_stays_at_root(self, value: T)
        ensures
            self.insert(Seq::empty(), value).stored(Seq::empty()) == Some(value),
            self.insert(Seq::empty(), value).expanded == self.expanded,
            forall|path: Seq<u8>|
                self.insert(Seq::empty(), value).has_node(path) == self.has_node(path),
    {
    }

    /// Two different keys that start with the same bytes share the nodes of
    /// that common start. The first insertion gives every node on the common
    /// start its child array (but for the node where the first key itself
    /// ends), so the second finds them in place: whatever it allocates lies
    /// on its own key and not on the first. Both keys then hold their own
    /// values, in two distinct nodes.
    pub proof fn lemma_shared_prefix_is_reused(
        self,
        first: Seq<u8>,
        first_value: T,
        second: Seq<u8>,
        second_value: T,
        shared: Seq<u8>,
    )
        requires
            shared.len() > 0,
            shared.is_prefix_of(first),
            shared.is_prefix_of(second),
            first != second,
        ensures
            ({
                let once = self.insert(first, first_value);
                let twice = once.insert(second, second_value);
                &&& forall|path: Seq<u8>|
                    path.is_prefix_of(shared) && path != first ==> once.expanded.contains(path)
                &&& forall|path: Seq<u8>|
                    twice.expanded.contains(path) && !once.expanded.contains(path) ==> {
                        &&& proper_prefixes(second).contains(path)
                        &&& !proper_prefixes(first).contains(path)
                    }
                &&& twice.stored(first) == Some(first_value)
                &&& twice.stored(second) == Some(second_value)
                &&& twice.has_node(first)
                &&& twice.has_node(second)
            }),
    {
        let once = self.insert(first, first_value);
        let twice = once.insert(second, second_value);
        assert forall|path: Seq<u8>|
            path.is_prefix_of(shared) && path != first implies once.expanded.contains(path) by {
            lemma_prefix_of_prefix(path, shared, first);
            if path.len() == first.len() {
                assert(path =~= first);
            }
        }
        lemma_key_has_node(self, first, first_value);
        lemma_key_has_node(once, second, second_value);
    }

    /// Inserting under a key that is already present replaces its value and
    /// changes nothing else: the second insertion finds the first value in
    /// place, and the result is what inserting the second value alone gives.
    pub proof fn lemma_overwrite(self, key: Seq<u8>, first_value: T, second_value: T)
        ensures
            self.insert(key, first_value).stored(key) == Some(first_value),
            self.insert(key, first_value).insert(key, second_value).stored(key) == Some(
                second_value,
            ),
            self.insert(key, first_value).insert(key, second_value) == self.insert(
                key,
                second_value,
            ),
    {
        let once = self.insert(key, first_value);
        let twice = once.insert(key, second_value);
        let direct = self.insert(key, second_value);
        assert(twice.values =~= direct.values);
        assert(twice.expanded =~= direct.expanded);
    }

    /// An insertion allocates child arrays only at nodes it passes through,
    /// so at most one for each byte of the key.
    pub proof fn lemma_insert_allocates_along_key(self, key: Seq<u8>, value: T)
        ensures
            self.insert(key, value).expanded.difference(self.expanded).subset_of(
                proper_prefixes(key),
            ),
            self.insert(key, value).expanded.difference(self.expanded).finite(),
            self.insert(key, value).expanded.difference(self.expanded).len() <= key.len(),
    {
        let fresh = self.insert(key, value).expanded.difference(self.expanded);
        lemma_proper_prefixes_count(key);
        vstd::set_lib::lemma_len_subset(fresh, proper_prefixes(key));
    }

    /// Replacing the value of a key that is already present allocates
    /// nothing: the set of nodes that own a child array stays as it was.
    pub proof fn lemma_overwrite_allocates_nothing(self, key: Seq<u8>, value: T)
        requires
            self.well_formed(),
            self.values.contains_key(key),
        ensures
            self.insert(key, value).expanded == self.expanded,
            forall|path: Seq<u8>| self.insert(key, value).has_node(path) == self.has_node(path),
    {
    }

    /// Insertion keeps a model well formed.
    pub proof fn lemma_insert_keeps_well_formed(self, key: Seq<u8>, value: T)
        requires
            self.well_formed(),
        ensures
            self.insert(key, value).well_formed(),
    {
        // The nodes above a node on the way to `key` are on that way too.
        assert forall|path: Seq<u8>, inner: Seq<u8>|
            proper_prefixes(key).contains(path) && proper_prefixes(path).contains(
                inner,
            ) implies proper_prefixes(key).contains(inner) by {
            lemma_prefix_of_prefix(inner, path, key);
        }
    }

    /// An insertion leaves alone everything that lies behind another first
    /// byte than that of its key: the value stored there, whether the node
    /// there owns a child array, and the node itself. The one thing that can
    /// appear is the row of empty nodes directly below the root, when the
    /// insertion is the first to allocate the root's child array.
    pub proof fn lemma_other_first_byte_untouched(self, key: Seq<u8>, value: T, path: Seq<u8>)
        requires
            path.len() > 0,
            key.len() == 0 || path[0] != key[0],
        ensures
            self.insert(key, value).stored(path) == self.stored(path),
            self.insert(key, value).expanded.contains(path) == self.expanded.contains(path),
            self.insert(key, value).has_node(path) == (self.has_node(path) || (path.len() == 1
                && key.len() > 0)),
    {
        // Neither the path nor, unless it is the root, its parent lies on
        // the way to `key`: they leave the root through another slot.
        let parent = path.drop_last();
        if parent.len() > 0 && parent.is_prefix_of(key) {
            assert(parent[0] == key.subrange(0, parent.len() as int)[0]);
        }
    }
}

impl<T> TrieModel<T> {
    /// The counter counts calls: after any run of insertions it has grown by
    /// the number of insertions, however many of them repeated a key. On a
    /// fresh trie it is the number of insertions made.
    pub proof fn lemma_count_is_number_of_inserts(self, ops: Seq<(Seq<u8>, T)>)
        ensures
            self.insert_all(ops).count == self.count + ops.len(),
            self == Self::empty() ==> self.insert_all(ops).count == ops.len(),
        decreases ops.len(),
    {
        if ops.len() > 0 {
            self.lemma_count_is_number_of_inserts(ops.drop_last());
        }
    }
}

/// A key has as many proper prefixes as it has bytes.
pub proof fn lemma_proper_prefixes_count(key: Seq<u8>)
    ensures
        proper_prefixes(key).finite(),
        proper_prefixes(key).len() == key.len(),
    decreases key.len(),
{
    if key.len() == 0 {
        assert(proper_prefixes(key) =~= Set::empty());
    } else {
        let shorter = key.drop_last();
        lemma_proper_prefixes_count(shorter);
        // The proper prefixes of `key` are those of `shorter`, and `shorter`.
        assert forall|path: Seq<u8>|
            proper_prefixes(key).contains(path) <==> proper_prefixes(shorter).insert(
                shorter,
            ).contains(path) by {
            if proper_prefixes(key).contains(path) && path.len() == shorter.len() {
                assert(path =~= shorter);
            }
            if proper_prefixes(shorter).contains(path) {
                lemma_prefix_of_prefix(path, shorter, key);
            }
        }
        assert(proper_prefixes(key) =~= proper_prefixes(shorter).insert(shorter));
    }
}

/// A prefix of a prefix of `key` is a prefix of `key`.
proof fn lemma_prefix_of_prefix(inner: Seq<u8>, outer: Seq<u8>, key: Seq<u8>)
    requires
        inner.is_prefix_of(outer),
        outer.is_prefix_of(key),
    ensures
        inner.is_prefix_of(key),
{
    assert(inner =~= key.subrange(0, inner.len() as int));
}

/// After an insertion under `key`, the node of `key` exists.
proof fn lemma_key_has_node<T>(model: NodeModel<T>, key: Seq<u8>, value: T)
    ensures
        model.insert(key, value).has_node(key),
{
    if key.len() > 0 {
        assert(proper_prefixes(key).contains(key.drop_last()));
    }
}

} // verus!

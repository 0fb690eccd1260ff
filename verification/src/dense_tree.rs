//! The dense hierarchical bitmap tree: an associative container from keys
//! below `64^depth` to values, backed by a root node hierarchy and a pair of
//! parallel key and value stores whose slot 0 is permanently reserved.

use vstd::prelude::*;
use vstd::pervasive::VecAdditionalExecFns;
use crate::keys::{cap, cap_u64, lemma_cap_fits, key_compose, path_ok, lemma_compose_props};
use crate::hibit_tree::{HibitTree, HibitTreeCursor};
use crate::node::{Node, node_wf, node_lookup, node_mask_at, node_find, node_mask_get,
    node_insert_new, node_remove_key, node_set_slot, node_mask_walk, node_data_walk,
    lemma_lookup_in_cap, lemma_node_mask_covers, lemma_node_terminal_exact,
    lemma_node_mask_empty_below};

verus! {

/// Compressed hierarchical bitmap tree over keys in `[0, 64^depth)`.
///
/// `values[0]` and `keys[0]` are a permanently reserved dummy pair; real
/// entries occupy indices `1..`. Every stored key walks the node hierarchy to
/// a leaf slot holding its store index, and every store index is reached by
/// exactly one key.
pub struct DenseTree<T> {
    depth: usize,
    root: Node,
    values: Vec<T>,
    keys: Vec<u64>,
}

impl<T> DenseTree<T> {
    /// Number of levels from root to leaves, root included.
    pub closed spec fn levels(self) -> nat {
        self.depth as nat
    }

    /// Length of the backing value store, reserved slot included.
    pub closed spec fn store_len(self) -> nat {
        self.values@.len()
    }

    /// The store index the node hierarchy associates with `k`.
    pub closed spec fn spec_lookup(self, k: nat) -> Option<int> {
        node_lookup(self.root, self.depth as nat, k)
    }

    /// The occupancy mask of the node reached along `path` from the root.
    pub closed spec fn mask_at(self, path: Seq<u64>) -> u64 {
        node_mask_at(self.root, self.depth as nat, path)
    }

    /// The tree's invariant: a well-formed node hierarchy whose leaf slots
    /// and the key store index each other bijectively.
    pub closed spec fn inv(self) -> bool {
        &&& 1 <= self.depth <= 10
        &&& node_wf(self.root, self.depth as nat)
        &&& self.values@.len() == self.keys@.len()
        &&& self.keys@.len() >= 1
        &&& self.keys@[0] == u64::MAX
        &&& forall|j: int|
            1 <= j < self.keys@.len() ==> (#[trigger] self.keys@[j]) < cap(self.depth as nat)
        &&& forall|j: int|
            1 <= j < self.keys@.len() ==> node_lookup(
                self.root,
                self.depth as nat,
                (#[trigger] self.keys@[j]) as nat,
            ) == Some(j)
        &&& forall|k: nat|
            (#[trigger] node_lookup(self.root, self.depth as nat, k)) matches Some(j) ==> 1 <= j
                < self.keys@.len() && self.keys@[j] == k
    }

    /// The map this tree stands for.
    pub closed spec fn as_map(self) -> Map<u64, T> {
        Map::new(
            |k: u64| self.spec_lookup(k as nat) is Some,
            |k: u64| self.values@[self.spec_lookup(k as nat)->Some_0],
        )
    }

    /// Constructs an empty tree of the given depth. The reserved dummy value
    /// is a default value and is never read back.
    pub fn new(depth: usize) -> (r: DenseTree<T>) where T: Default
        requires
            1 <= depth <= 10,
        ensures
            r.inv(),
            r@ == Map::<u64, T>::empty(),
            r.levels() == depth,
            r.store_len() == 1,
    {
        let root = if depth == 1 {
            Node::Leaf { mask: 0, slots: Vec::new() }
        } else {
            Node::Branch { mask: 0, children: Vec::new() }
        };
        let mut values: Vec<T> = Vec::new();
        values.push(T::default());
        let mut keys: Vec<u64> = Vec::new();
        keys.push(u64::MAX);
        let r = DenseTree { depth, root, values, keys };
        proof {
            crate::bits::lemma_bit_zero();
            crate::bits::lemma_pc_zero_mask(64);
            assert(node_wf(r.root, depth as nat));
            assert(forall|k: nat| #[trigger] node_lookup(r.root, depth as nat, k) is None);
            assert(r.as_map() =~= Map::<u64, T>::empty());
        }
        r
    }

    /// Number of levels, as executable code.
    pub fn level_count(&self) -> (r: usize)
        ensures
            r == self.levels(),
    {
        self.depth
    }

    /// Point lookup: the stored value for `key`, if present.
    pub fn get(&self, key: u64) -> (r: Option<&T>)
        requires
            self.inv(),
            key < cap(self.levels()),
        ensures
            match r {
                Some(v) => self@.dom().contains(key) && *v == self@[key],
                None => !self@.dom().contains(key),
            },
    {
        let pw = cap_u64(self.depth - 1);
        match node_find(&self.root, self.depth, pw, key) {
            Some(j) => {
                proof {
                    assert(node_lookup(self.root, self.depth as nat, key as nat) == Some(
                        j as int,
                    ));
                }
                Some(vstd::slice::slice_index_get(self.values.as_slice(), j))
            },
            None => None,
        }
    }

    /// Inserts `value` under `key`, overwriting any previous value.
    pub fn insert(&mut self, key: u64, value: T)
        requires
            old(self).inv(),
            key < cap(old(self).levels()),
        ensures
            final(self).inv(),
            final(self).levels() == old(self).levels(),
            final(self)@ == old(self)@.insert(key, value),
            final(self).store_len() == old(self).store_len() + (if old(self)@.dom().contains(
                key,
            ) {
                0int
            } else {
                1int
            }),
    {
        let ghost old_self = *old(self);
        let pw = cap_u64(self.depth - 1);
        match node_find(&self.root, self.depth, pw, key) {
            Some(j) => {
                proof {
                    assert(node_lookup(self.root, self.depth as nat, key as nat) == Some(
                        j as int,
                    ));
                }
                self.values.set(j, value);
                proof {
                    assert forall|k2: u64|
                        final(self).as_map().dom().contains(k2) == old_self.as_map().insert(
                            key,
                            value,
                        ).dom().contains(k2) && (final(self).as_map().dom().contains(k2)
                            ==> #[trigger] final(self).as_map()[k2] == old_self.as_map().insert(
                            key,
                            value,
                        )[k2]) by {
                        if k2 != key && old_self.spec_lookup(k2 as nat) is Some {
                            let j2 = old_self.spec_lookup(k2 as nat)->Some_0;
                            assert(old_self.keys@[j2] == k2);
                            assert(j2 != j);
                        }
                    }
                    assert(final(self).as_map() =~= old_self.as_map().insert(key, value));
                }
            },
            None => {
                let j = self.values.len();
                self.values.push(value);
                self.keys.push(key);
                let mut taken = Node::Leaf { mask: 0, slots: Vec::new() };
                core::mem::swap(&mut self.root, &mut taken);
                let new_root = node_insert_new(taken, self.depth, pw, key, j);
                self.root = new_root;
                proof {
                    let d = self.depth as nat;
                    assert forall|j2: int| 1 <= j2 < self.keys@.len() implies (
                    #[trigger] self.keys@[j2]) < cap(d) && node_lookup(
                        self.root,
                        d,
                        self.keys@[j2] as nat,
                    ) == Some(j2) by {
                        if j2 < j {
                            assert(self.keys@[j2] == old_self.keys@[j2]);
                            assert(old_self.keys@[j2] != key);
                        }
                    }
                    assert forall|k2: nat|
                        (#[trigger] node_lookup(self.root, d, k2)) is Some implies 1 <= node_lookup(
                        self.root,
                        d,
                        k2,
                    )->Some_0 < self.keys@.len() && self.keys@[node_lookup(self.root, d, k2)->Some_0]
                        == k2 by {
                        if k2 != key as nat {
                            assert(node_lookup(old_self.root, d, k2) == node_lookup(
                                self.root,
                                d,
                                k2,
                            ));
                        }
                    }
                    assert(self.inv());
                    assert forall|k2: u64|
                        final(self).as_map().dom().contains(k2) == old_self.as_map().insert(
                            key,
                            value,
                        ).dom().contains(k2) && (final(self).as_map().dom().contains(k2)
                            ==> #[trigger] final(self).as_map()[k2] == old_self.as_map().insert(
                            key,
                            value,
                        )[k2]) by {
                        if k2 != key && old_self.spec_lookup(k2 as nat) is Some {
                            let j2 = old_self.spec_lookup(k2 as nat)->Some_0;
                            assert(1 <= j2 < j);
                            assert(self.values@[j2] == old_self.values@[j2]);
                        }
                    }
                    assert(final(self).as_map() =~= old_self.as_map().insert(key, value));
                }
            },
        }
    }

    /// Looks `key` up, inserting a default value first when it is absent, and
    /// returns the stored value.
    pub fn get_or_insert(&mut self, key: u64) -> (r: &T) where T: Default
        requires
            old(self).inv(),
            key < cap(old(self).levels()),
        ensures
            final(self).inv(),
            final(self).levels() == old(self).levels(),
            final(self)@.dom() == old(self)@.dom().insert(key),
            forall|k2: u64|
                k2 != key && old(self)@.dom().contains(k2) ==> final(self)@[k2] == old(self)@[k2],
            old(self)@.dom().contains(key) ==> final(self)@ == old(self)@ && *r == old(self)@[key],
            *r == final(self)@[key],
            final(self).store_len() == old(self).store_len() + (if old(self)@.dom().contains(
                key,
            ) {
                0int
            } else {
                1int
            }),
    {
        let ghost old_self = *old(self);
        let pw = cap_u64(self.depth - 1);
        let found = node_find(&self.root, self.depth, pw, key);
        match found {
            Some(j) => {
                proof {
                    assert(node_lookup(self.root, self.depth as nat, key as nat) == Some(
                        j as int,
                    ));
                    assert(old_self.as_map() =~= old_self.as_map().insert(
                        key,
                        old_self.as_map()[key],
                    ));
                    assert(final(self)@.dom() =~= old(self)@.dom().insert(key));
                }
                vstd::slice::slice_index_get(self.values.as_slice(), j)
            },
            None => {
                let j = self.values.len();
                self.values.push(T::default());
                self.keys.push(key);
                let mut taken = Node::Leaf { mask: 0, slots: Vec::new() };
                core::mem::swap(&mut self.root, &mut taken);
                let new_root = node_insert_new(taken, self.depth, pw, key, j);
                self.root = new_root;
                proof {
                    let d = self.depth as nat;
                    assert forall|j2: int| 1 <= j2 < self.keys@.len() implies (
                    #[trigger] self.keys@[j2]) < cap(d) && node_lookup(
                        self.root,
                        d,
                        self.keys@[j2] as nat,
                    ) == Some(j2) by {
                        if j2 < j {
                            assert(self.keys@[j2] == old_self.keys@[j2]);
                            assert(old_self.keys@[j2] != key);
                        }
                    }
                    assert forall|k2: nat|
                        (#[trigger] node_lookup(self.root, d, k2)) is Some implies 1 <= node_lookup(
                        self.root,
                        d,
                        k2,
                    )->Some_0 < self.keys@.len() && self.keys@[node_lookup(self.root, d, k2)->Some_0]
                        == k2 by {
                        if k2 != key as nat {
                            assert(node_lookup(old_self.root, d, k2) == node_lookup(
                                self.root,
                                d,
                                k2,
                            ));
                        }
                    }
                    assert(self.inv());
                    assert forall|k2: u64|
                        #![trigger final(self).as_map().dom().contains(k2)]
                        (final(self).as_map().dom().contains(k2) == (k2 == key
                            || old_self.as_map().dom().contains(k2))) && (k2 != key
                            && old_self.as_map().dom().contains(k2) ==> final(self).as_map()[k2]
                            == old_self.as_map()[k2]) by {
                        if k2 != key && old_self.spec_lookup(k2 as nat) is Some {
                            let j2 = old_self.spec_lookup(k2 as nat)->Some_0;
                            assert(1 <= j2 < j);
                            assert(self.values@[j2] == old_self.values@[j2]);
                        }
                    }
                    assert(final(self)@.dom() =~= old(self)@.dom().insert(key));
                }
                vstd::slice::slice_index_get(self.values.as_slice(), j)
            },
        }
    }

    /// Removes the entry for `key` and returns its value, collapsing any
    /// emptied branches and swap-removing the backing stores.
    pub fn remove(&mut self, key: u64) -> (r: Option<T>)
        requires
            old(self).inv(),
            key < cap(old(self).levels()),
        ensures
            final(self).inv(),
            final(self).levels() == old(self).levels(),
            final(self)@ == old(self)@.remove(key),
            match r {
                Some(v) => old(self)@.dom().contains(key) && v == old(self)@[key] && final(self).store_len() + 1 == old(self).store_len(),
                None => !old(self)@.dom().contains(key) && final(self).store_len() == old(self).store_len(),
            },
    {
        let ghost old_self = *old(self);
        let pw = cap_u64(self.depth - 1);
        match node_find(&self.root, self.depth, pw, key) {
            None => {
                proof {
                    assert(old_self.as_map() =~= old_self.as_map().remove(key));
                }
                None
            },
            Some(j) => {
                proof {
                    assert(node_lookup(self.root, self.depth as nat, key as nat) == Some(
                        j as int,
                    ));
                    assert(1 <= j < self.keys@.len());
                }
                let mut taken = Node::Leaf { mask: 0, slots: Vec::new() };
                core::mem::swap(&mut self.root, &mut taken);
                let mut root2 = node_remove_key(taken, self.depth, pw, key);
                let last = self.keys.len() - 1;
                if j != last {
                    let last_key = vstd::slice::slice_index_get(self.keys.as_slice(), last);
                    let lk = *last_key;
                    proof {
                        assert(old_self.keys@[last as int] == lk);
                        assert(node_lookup(old_self.root, self.depth as nat, lk as nat) == Some(
                            last as int,
                        ));
                        assert(lk != key);
                        assert(node_lookup(root2, self.depth as nat, lk as nat) == Some(
                            last as int,
                        ));
                    }
                    root2 = node_set_slot(root2, self.depth, pw, lk, j);
                }
                self.root = root2;
                self.keys.swap_remove(j);
                let removed_val = self.values.swap_remove(j);
                proof {
                    let d = self.depth as nat;
                    let lk = old_self.keys@[last as int];
                    assert forall|j2: int| 1 <= j2 < self.keys@.len() implies (
                    #[trigger] self.keys@[j2]) < cap(d) && node_lookup(
                        self.root,
                        d,
                        self.keys@[j2] as nat,
                    ) == Some(j2) by {
                        if j2 == j {
                            assert(j != last);
                            assert(self.keys@[j2] == lk);
                        } else {
                            assert(self.keys@[j2] == old_self.keys@[j2]);
                            assert(old_self.keys@[j2] != key);
                            assert(j2 != last);
                            if j != last {
                                assert(old_self.keys@[j2] != lk);
                            }
                        }
                    }
                    assert forall|k2: nat|
                        (#[trigger] node_lookup(self.root, d, k2)) is Some implies 1 <= node_lookup(
                        self.root,
                        d,
                        k2,
                    )->Some_0 < self.keys@.len() && self.keys@[node_lookup(self.root, d, k2)->Some_0]
                        == k2 by {
                        if j != last && k2 == lk as nat {
                        } else {
                            assert(node_lookup(self.root, d, k2) == node_lookup(
                                old_self.root,
                                d,
                                k2,
                            ));
                            let j2 = node_lookup(old_self.root, d, k2)->Some_0;
                            assert(old_self.keys@[j2] == k2);
                            assert(j2 != j && j2 != last);
                        }
                    }
                    assert(self.inv());
                    assert forall|k2: u64|
                        final(self).as_map().dom().contains(k2) == old_self.as_map().remove(
                            key,
                        ).dom().contains(k2) && (final(self).as_map().dom().contains(k2)
                            ==> #[trigger] final(self).as_map()[k2] == old_self.as_map().remove(
                            key,
                        )[k2]) by {
                        if k2 != key && old_self.spec_lookup(k2 as nat) is Some {
                            let j2 = old_self.spec_lookup(k2 as nat)->Some_0;
                            assert(old_self.keys@[j2] == k2);
                            assert(j2 != j || k2 == key);
                            if j != last && k2 == lk {
                                assert(node_lookup(self.root, d, k2 as nat) == Some(j as int));
                                assert(self.values@[j as int] == old_self.values@[last as int]);
                            } else {
                                assert(node_lookup(self.root, d, k2 as nat) == Some(j2));
                                assert(j2 != last);
                                assert(self.values@[j2] == old_self.values@[j2]);
                            }
                        }
                    }
                    assert(final(self).as_map() =~= old_self.as_map().remove(key));
                    assert(removed_val == old_self.values@[j as int]);
                }
                Some(removed_val)
            },
        }
    }

    /// The stored keys and values past the reserved slot, in store order:
    /// one entry per stored key, pairing each key with its value.
    pub fn key_values(&self) -> (r: (&[u64], &[T]))
        requires
            self.inv(),
        ensures
            r.0@ == self.spec_keys(),
            r.1@ == self.spec_values(),
            r.0@.len() == r.1@.len(),
            r.0@.len() + 1 == self.store_len(),
            forall|i: int|
                0 <= i < r.0@.len() ==> self@.dom().contains(#[trigger] r.0@[i]) && r.1@[i]
                    == self@[r.0@[i]],
            forall|k: u64|
                self@.dom().contains(k) ==> exists|i: int| 0 <= i < r.0@.len() && r.0@[i] == k,
    {
        let ks = vstd::slice::slice_subrange(self.keys.as_slice(), 1, self.keys.len());
        let vs = vstd::slice::slice_subrange(self.values.as_slice(), 1, self.values.len());
        proof {
            assert forall|i: int| 0 <= i < ks@.len() implies self@.dom().contains(
                #[trigger] ks@[i],
            ) && vs@[i] == self@[ks@[i]] by {
                assert(ks@[i] == self.keys@[i + 1]);
                assert(node_lookup(self.root, self.depth as nat, self.keys@[i + 1] as nat)
                    == Some(i + 1));
            }
            assert forall|k: u64| self@.dom().contains(k) implies exists|i: int|
                0 <= i < ks@.len() && ks@[i] == k by {
                let j = self.spec_lookup(k as nat)->Some_0;
                assert(self.keys@[j] == k);
                assert(ks@[j - 1] == k);
            }
        }
        (ks, vs)
    }

    /// The stored keys past the reserved slot, in store order.
    pub closed spec fn spec_keys(self) -> Seq<u64> {
        self.keys@.subrange(1, self.keys@.len() as int)
    }

    /// The stored values past the reserved slot, in store order.
    pub closed spec fn spec_values(self) -> Seq<T> {
        self.values@.subrange(1, self.values@.len() as int)
    }
}

impl<T> View for DenseTree<T> {
    type V = Map<u64, T>;

    open spec fn view(&self) -> Map<u64, T> {
        self.as_map()
    }
}


/// Path-cached traversal state for a [`DenseTree`].
///
/// The cursor records the level indices selected so far and re-walks the
/// dense arrays from the root on each query.
pub struct Cursor {
    path: Vec<u64>,
}

impl<T: Copy> HibitTreeCursor<DenseTree<T>> for Cursor {
    closed spec fn path(&self) -> Seq<u64> {
        self.path@
    }

    closed spec fn wf(&self, src: &DenseTree<T>) -> bool {
        &&& path_ok(self.path@)
        &&& self.path@.len() <= src.levels() - 1
    }

    fn new(src: &DenseTree<T>) -> (r: Self) {
        Cursor { path: Vec::new() }
    }

    fn select_level_node(&mut self, src: &DenseTree<T>, level_n: usize, level_index: u64) -> (mask:
        u64) {
        if level_n == 0 {
            self.path.clear();
            proof {
                assert(self.path@ =~= Seq::<u64>::empty());
            }
            node_mask_get(&src.root)
        } else {
            self.path.truncate(level_n - 1);
            self.path.push(level_index);
            proof {
                assert(self.path@ =~= old(self).path@.take(level_n as int - 1).push(level_index));
                assert(self.path@.skip(0) =~= self.path@);
            }
            node_mask_walk(&src.root, src.depth, &self.path, 0)
        }
    }

    fn data(&self, src: &DenseTree<T>, leaf_index: u64) -> (r: Option<T>) {
        proof {
            assert(path_ok(self.path@.push(leaf_index)));
            lemma_compose_props(self.path@.push(leaf_index));
            lemma_cap_fits(src.levels());
            assert(self.path@.skip(0) =~= self.path@);
        }
        let found = node_data_walk(&src.root, src.depth, &self.path, 0, leaf_index);
        match found {
            Some(j) => {
                proof {
                    let k = key_compose(self.path@.push(leaf_index));
                    assert(node_lookup(src.root, src.depth as nat, k) == Some(j as int));
                }
                Some(*vstd::slice::slice_index_get(src.values.as_slice(), j))
            },
            None => None,
        }
    }
}

impl<T: Copy> HibitTree for DenseTree<T> {
    type Val = T;

    type ValModel = T;

    type Cursor = Cursor;

    open spec fn vmodel(v: T) -> T {
        v
    }

    /// A dense tree never carries a mask bit without a stored key below it.
    open spec fn exact_hierarchy() -> bool {
        true
    }

    open spec fn inv(&self) -> bool {
        DenseTree::inv(*self)
    }

    open spec fn levels(&self) -> nat {
        DenseTree::levels(*self)
    }

    open spec fn contents(&self) -> Map<u64, T> {
        DenseTree::as_map(*self)
    }

    open spec fn mask_at(&self, path: Seq<u64>) -> u64 {
        DenseTree::mask_at(*self, path)
    }

    proof fn lemma_levels(&self) {
    }

    proof fn lemma_contents_bounded(&self, k: u64) {
        lemma_lookup_in_cap(self.root, self.depth as nat, k as nat);
    }

    proof fn lemma_mask_covers(&self, k: u64, n: int) {
        lemma_node_mask_covers(self.root, self.depth as nat, k as nat, n);
    }

    proof fn lemma_mask_terminal(&self, path: Seq<u64>, b: u64) {
        lemma_node_terminal_exact(self.root, self.depth as nat, path, b);
        lemma_cap_fits(self.depth as nat);
    }

    proof fn lemma_mask_empty_below(&self, path: Seq<u64>, i: u64) {
        lemma_node_mask_empty_below(self.root, self.depth as nat, path, i);
    }

    fn level_count(&self) -> (r: usize) {
        self.depth
    }

    fn get(&self, key: u64) -> (r: Option<T>) {
        match DenseTree::get(self, key) {
            Some(v) => Some(*v),
            None => None,
        }
    }
}


impl<T> DenseTree<T> {
    /// Both structural invariants hold of every reachable tree state: each
    /// node's dense length equals its mask's popcount, and no node below the
    /// root is empty.
    pub closed spec fn structure_ok(self) -> bool {
        crate::node::node_mask_len_coherent(self.root, self.depth as nat)
            && crate::node::node_no_empty_children(self.root, self.depth as nat)
    }

    /// Every tree state reachable through the mutators keeps mask/length
    /// coherence and collapses empty branches.
    pub proof fn lemma_structure(self)
        requires
            self.inv(),
        ensures
            self.structure_ok(),
    {
        crate::node::lemma_wf_structural(self.root, self.depth as nat);
    }

    /// The value store holds exactly one slot per stored key, plus the
    /// reserved slot.
    pub proof fn lemma_store_len(self)
        requires
            self.inv(),
        ensures
            self@.dom().finite(),
            self@.dom().len() + 1 == self.store_len(),
    {
        let ks = self.keys@.subrange(1, self.keys@.len() as int);
        assert(ks.no_duplicates()) by {
            assert forall|i: int, j: int| 0 <= i < j < ks.len() implies ks[i] != ks[j] by {
                assert(node_lookup(self.root, self.depth as nat, ks[i] as nat) == Some(i + 1));
                assert(node_lookup(self.root, self.depth as nat, ks[j] as nat) == Some(j + 1));
            }
        }
        ks.unique_seq_to_set();
        assert(self@.dom() =~= ks.to_set()) by {
            assert forall|k: u64| self@.dom().contains(k) implies ks.to_set().contains(k) by {
                let j = self.spec_lookup(k as nat)->Some_0;
                assert(self.keys@[j] == k);
                assert(ks[j - 1] == k);
            }
            assert forall|k: u64| ks.to_set().contains(k) implies self@.dom().contains(k) by {
                let i = choose|i: int| 0 <= i < ks.len() && ks[i] == k;
                assert(node_lookup(self.root, self.depth as nat, ks[i] as nat) == Some(i + 1));
            }
        }
    }
}


} // verus!

//! The tree protocol. Every tree — primitive or composed — exposes per-level
//! occupancy masks and point lookup, and hands out a cursor that walks one
//! root-to-leaf path at a time. Three laws tie the masks to the contents:
//! masks cover every stored key, terminal masks are exact, and below a clear
//! bit everything is empty. The generic iterator is proved correct for any
//! tree from these laws alone.

use vstd::prelude::*;
use crate::bits::bit64;
use crate::keys::{cap, key_decomp, key_compose, path_ok};

verus! {

/// A path-cached traversal state for a specific source tree.
///
/// `select_level_node(src, n, idx)` moves the cursor to the node at depth `n`
/// reached by replacing the tail of the current path with `idx`, and returns
/// that node's occupancy mask (the empty mask where the node is absent).
/// After the path is full, `data(src, leaf)` reads the value stored at the
/// leaf slot `leaf` under the current path.
pub trait HibitTreeCursor<Src: HibitTree>: Sized {
    /// The level indices selected so far, root child first.
    spec fn path(&self) -> Seq<u64>;

    /// The cursor's own consistency with its source.
    spec fn wf(&self, src: &Src) -> bool;

    fn new(src: &Src) -> (r: Self)
        requires
            src.inv(),
        ensures
            r.wf(src),
            r.path() == Seq::<u64>::empty(),
    ;

    fn select_level_node(&mut self, src: &Src, level_n: usize, level_index: u64) -> (mask: u64)
        requires
            old(self).wf(src),
            src.inv(),
            level_n < src.levels(),
            level_n as int - 1 <= old(self).path().len(),
            level_index < 64,
            level_n == 0 ==> level_index == 0,
        ensures
            final(self).wf(src),
            final(self).path() == if level_n == 0 {
                Seq::<u64>::empty()
            } else {
                old(self).path().take(level_n as int - 1).push(level_index)
            },
            mask == src.mask_at(final(self).path()),
    ;

    fn data(&self, src: &Src, leaf_index: u64) -> (r: Option<Src::Val>)
        requires
            self.wf(src),
            src.inv(),
            self.path().len() == src.levels() - 1,
            path_ok(self.path()),
            leaf_index < 64,
        ensures
            ({
                let k = key_compose(self.path().push(leaf_index)) as u64;
                match r {
                    Some(v) => src.contents().dom().contains(k) && Src::vmodel(v)
                        == src.contents()[k],
                    None => !src.contents().dom().contains(k),
                }
            }),
    ;

    /// As `select_level_node`, for callers that know bit `level_index` is set
    /// in the mask of the parent node.
    fn select_level_node_unchecked(
        &mut self,
        src: &Src,
        level_n: usize,
        level_index: u64,
    ) -> (mask: u64)
        requires
            old(self).wf(src),
            src.inv(),
            level_n < src.levels(),
            level_n as int - 1 <= old(self).path().len(),
            level_index < 64,
            level_n == 0 ==> level_index == 0,
            level_n >= 1 ==> bit64(
                src.mask_at(old(self).path().take(level_n as int - 1)),
                level_index,
            ),
        ensures
            final(self).wf(src),
            final(self).path() == if level_n == 0 {
                Seq::<u64>::empty()
            } else {
                old(self).path().take(level_n as int - 1).push(level_index)
            },
            mask == src.mask_at(final(self).path()),
    {
        self.select_level_node(src, level_n, level_index)
    }

    /// As `data`, for callers that know the leaf is present.
    fn data_unchecked(&self, src: &Src, leaf_index: u64) -> (r: Src::Val)
        requires
            self.wf(src),
            src.inv(),
            self.path().len() == src.levels() - 1,
            path_ok(self.path()),
            leaf_index < 64,
            src.contents().dom().contains(key_compose(self.path().push(leaf_index)) as u64),
        ensures
            Src::vmodel(r) == src.contents()[key_compose(self.path().push(leaf_index)) as u64],
    {
        self.data(src, leaf_index).unwrap()
    }
}

/// A hierarchical bitmap tree: contents keyed by integers below
/// `64^levels()`, reachable through per-level occupancy masks.
pub trait HibitTree: Sized {
    /// The value a lookup yields.
    type Val;

    /// The mathematical stand-in for a yielded value: the value itself for
    /// plain trees, a sequence for trees that yield one value per source.
    type ValModel;

    /// The cursor type that walks this tree; it implements
    /// [`HibitTreeCursor`] for this source.
    type Cursor;

    /// The model of a yielded value.
    spec fn vmodel(v: Self::Val) -> Self::ValModel;

    /// Whether every set bit of every internal mask has a stored key below
    /// it. Conservative composites answer false; the laws below hold either
    /// way.
    spec fn exact_hierarchy() -> bool;

    spec fn inv(&self) -> bool;

    /// Number of levels, the terminal level included.
    spec fn levels(&self) -> nat;

    /// The key-value association this tree stands for, over value models.
    spec fn contents(&self) -> Map<u64, Self::ValModel>;

    /// The occupancy mask of the node at `path`, or the empty mask where the
    /// path leaves the tree.
    spec fn mask_at(&self, path: Seq<u64>) -> u64;

    proof fn lemma_levels(&self)
        requires
            self.inv(),
        ensures
            1 <= self.levels() <= 10,
    ;

    /// Every stored key lies below `cap(levels())`.
    proof fn lemma_contents_bounded(&self, k: u64)
        requires
            self.inv(),
            self.contents().dom().contains(k),
        ensures
            k < cap(self.levels()),
    ;

    /// Masks cover the contents: each stored key has its digit set in the
    /// mask along its whole path.
    proof fn lemma_mask_covers(&self, k: u64, n: int)
        requires
            self.inv(),
            self.contents().dom().contains(k),
            0 <= n < self.levels(),
        ensures
            bit64(
                self.mask_at(key_decomp(self.levels(), k as nat).take(n)),
                key_decomp(self.levels(), k as nat)[n],
            ),
    ;

    /// Terminal masks are exact: a set bit at a full path names a stored key.
    proof fn lemma_mask_terminal(&self, path: Seq<u64>, b: u64)
        requires
            self.inv(),
            path.len() == self.levels() - 1,
            path_ok(path),
            b < 64,
            bit64(self.mask_at(path), b),
        ensures
            self.contents().dom().contains(key_compose(path.push(b)) as u64),
    ;

    /// Below a clear mask bit every deeper mask is empty.
    proof fn lemma_mask_empty_below(&self, path: Seq<u64>, i: u64)
        requires
            self.inv(),
            !bit64(self.mask_at(path), i),
        ensures
            self.mask_at(path.push(i)) == 0,
    ;

    fn level_count(&self) -> (r: usize)
        requires
            self.inv(),
        ensures
            r == self.levels(),
    ;

    /// Point lookup through the whole composition.
    fn get(&self, key: u64) -> (r: Option<Self::Val>)
        requires
            self.inv(),
            key < cap(self.levels()),
        ensures
            match r {
                Some(v) => self.contents().dom().contains(key) && Self::vmodel(v)
                    == self.contents()[key],
                None => !self.contents().dom().contains(key),
            },
    ;
}


/// An empty mask stays empty along every extension of its path.
pub proof fn lemma_mask_zero_extends<S: HibitTree>(s: &S, p: Seq<u64>, q: Seq<u64>)
    requires
        s.inv(),
        s.mask_at(p) == 0,
        p.len() <= q.len(),
        q.take(p.len() as int) == p,
    ensures
        s.mask_at(q) == 0,
    decreases q.len() - p.len(),
{
    if q.len() == p.len() {
        assert(q =~= p);
    } else {
        let q0 = q.take(q.len() as int - 1);
        assert(q0.take(p.len() as int) =~= p) by {
            assert(forall|t: int|
                0 <= t < p.len() ==> q0.take(p.len() as int)[t] == #[trigger] q.take(
                    p.len() as int,
                )[t]);
        }
        lemma_mask_zero_extends(s, p, q0);
        crate::bits::lemma_bit_zero();
        s.lemma_mask_empty_below(q0, q.last());
        assert(q =~= q0.push(q.last()));
    }
}

} // verus!

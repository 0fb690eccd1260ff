//! Lazy n-ary intersection over a slice of trees. Masks combine by AND
//! across all sources; a key survives only when every source holds it, and a
//! hit yields one value per source, in source order. A watermark remembers
//! the level at which the combined mask went empty, so deeper selections
//! short-circuit without querying any source.

use vstd::prelude::*;
use crate::bits::{bit64, lemma_bit_and, lemma_no_bits_zero, lemma_bit_zero};
use crate::keys::{key_decomp, key_compose, path_ok, lemma_compose_props};
use crate::hibit_tree::{HibitTree, HibitTreeCursor, lemma_mask_zero_extends};

verus! {

/// The intersection view over one or more borrowed trees of equal level
/// count.
pub struct MultiIntersection<'a, T> {
    /// The source trees.
    pub sources: &'a [T],
}

/// Composes a non-empty slice of trees into their lazy intersection.
pub fn multi_intersection<'a, T: HibitTree>(sources: &'a [T]) -> (r: MultiIntersection<'a, T>) where
    T::Cursor: HibitTreeCursor<T>,

    requires
        sources@.len() >= 1,
        forall|i: int| 0 <= i < sources@.len() ==> (#[trigger] sources@[i]).inv(),
        forall|i: int|
            0 <= i < sources@.len() ==> (#[trigger] sources@[i]).levels() == sources@[0].levels(),
    ensures
        r.inv(),
        r.levels() == sources@[0].levels(),
        r.contents() == multi_intersection_contents(sources@),
{
    MultiIntersection { sources }
}

/// Every source holds `k`.
pub open spec fn all_contain<T: HibitTree>(s: Seq<T>, k: u64) -> bool {
    forall|i: int| 0 <= i < s.len() ==> (#[trigger] s[i]).contents().dom().contains(k)
}

/// The per-source value models for `k`, in source order.
pub open spec fn models_at<T: HibitTree>(s: Seq<T>, k: u64) -> Seq<T::ValModel> {
    Seq::new(s.len(), |i: int| s[i].contents()[k])
}

/// What the intersection holds: the keys common to all sources, each valued
/// by the sequence of source models.
pub open spec fn multi_intersection_contents<T: HibitTree>(s: Seq<T>) -> Map<
    u64,
    Seq<T::ValModel>,
> {
    Map::new(|k: u64| all_contain(s, k), |k: u64| models_at(s, k))
}

/// AND of the sources' masks at `path` (all ones for no sources).
pub open spec fn and_masks<T: HibitTree>(s: Seq<T>, path: Seq<u64>) -> u64
    decreases s.len(),
{
    if s.len() == 0 {
        0xFFFF_FFFF_FFFF_FFFFu64
    } else {
        and_masks(s.drop_last(), path) & s.last().mask_at(path)
    }
}

/// A bit of the combined mask is set exactly when every source sets it.
pub proof fn lemma_and_masks_bit<T: HibitTree>(s: Seq<T>, path: Seq<u64>, b: u64)
    requires
        b < 64,
    ensures
        bit64(and_masks(s, path), b) <==> forall|i: int|
            0 <= i < s.len() ==> bit64((#[trigger] s[i]).mask_at(path), b),
    decreases s.len(),
{
    if s.len() == 0 {
        assert(bit64(0xFFFF_FFFF_FFFF_FFFFu64, b)) by (bit_vector)
            requires
                b < 64,
        ;
    } else {
        lemma_and_masks_bit(s.drop_last(), path, b);
        lemma_bit_and(and_masks(s.drop_last(), path), s.last().mask_at(path));
        if bit64(and_masks(s, path), b) {
            assert forall|i: int| 0 <= i < s.len() implies bit64(
                (#[trigger] s[i]).mask_at(path),
                b,
            ) by {
                if i < s.len() - 1 {
                    assert(s.drop_last()[i] == s[i]);
                } else {
                    assert(s[i] == s.last());
                }
            }
        } else {
            if forall|i: int| 0 <= i < s.len() ==> bit64((#[trigger] s[i]).mask_at(path), b) {
                assert(forall|i: int|
                    0 <= i < s.drop_last().len() ==> bit64(
                        (#[trigger] s.drop_last()[i]).mask_at(path),
                        b,
                    ));
                assert(bit64(s.last().mask_at(path), b));
                assert(false);
            }
        }
    }
}

/// A combined mask with one empty source mask is empty.
pub proof fn lemma_and_masks_zero<T: HibitTree>(s: Seq<T>, path: Seq<u64>, i0: int)
    requires
        0 <= i0 < s.len(),
        s[i0].mask_at(path) == 0,
    ensures
        and_masks(s, path) == 0,
{
    lemma_bit_zero();
    assert forall|b: u64| b < 64 implies !bit64(and_masks(s, path), b) by {
        lemma_and_masks_bit(s, path, b);
        assert(!bit64(s[i0].mask_at(path), b));
    }
    lemma_no_bits_zero(and_masks(s, path));
}

impl<'a, T: HibitTree> HibitTree for MultiIntersection<'a, T> where
    T::Cursor: HibitTreeCursor<T>,
 {
    type Val = Vec<T::Val>;

    type ValModel = Seq<T::ValModel>;

    type Cursor = MultiIntersectionState<T::Cursor>;

    open spec fn vmodel(v: Vec<T::Val>) -> Seq<T::ValModel> {
        Seq::new(v@.len(), |i: int| T::vmodel(v@[i]))
    }

    /// Internal AND masks may carry bits with no common key below them.
    open spec fn exact_hierarchy() -> bool {
        false
    }

    open spec fn inv(&self) -> bool {
        &&& self.sources@.len() >= 1
        &&& forall|i: int| 0 <= i < self.sources@.len() ==> (#[trigger] self.sources@[i]).inv()
        &&& forall|i: int|
            0 <= i < self.sources@.len() ==> (#[trigger] self.sources@[i]).levels()
                == self.sources@[0].levels()
    }

    open spec fn levels(&self) -> nat {
        self.sources@[0].levels()
    }

    open spec fn contents(&self) -> Map<u64, Seq<T::ValModel>> {
        multi_intersection_contents(self.sources@)
    }

    open spec fn mask_at(&self, path: Seq<u64>) -> u64 {
        and_masks(self.sources@, path)
    }

    proof fn lemma_levels(&self) {
        self.sources@[0].lemma_levels();
    }

    proof fn lemma_contents_bounded(&self, k: u64) {
        assert(self.sources@[0].contents().dom().contains(k));
        self.sources@[0].lemma_contents_bounded(k);
    }

    proof fn lemma_mask_covers(&self, k: u64, n: int) {
        let p = key_decomp(self.levels(), k as nat);
        assert(self.sources@[0].contents().dom().contains(k));
        self.sources@[0].lemma_contents_bounded(k);
        crate::keys::lemma_decomp_props(self.levels(), k as nat);
        lemma_and_masks_bit(self.sources@, p.take(n), p[n]);
        assert forall|i: int| 0 <= i < self.sources@.len() implies bit64(
            (#[trigger] self.sources@[i]).mask_at(p.take(n)),
            b_of(p, n),
        ) by {
            assert(self.sources@[i].contents().dom().contains(k));
            self.sources@[i].lemma_mask_covers(k, n);
        }
    }

    proof fn lemma_mask_terminal(&self, path: Seq<u64>, b: u64) {
        lemma_and_masks_bit(self.sources@, path, b);
        assert forall|i: int| 0 <= i
            < self.sources@.len() implies (#[trigger] self.sources@[i]).contents().dom().contains(
            key_compose(path.push(b)) as u64,
        ) by {
            assert(bit64(self.sources@[i].mask_at(path), b));
            self.sources@[i].lemma_mask_terminal(path, b);
        }
    }

    proof fn lemma_mask_empty_below(&self, path: Seq<u64>, i: u64) {
        if i < 64 {
            lemma_and_masks_bit(self.sources@, path, i);
            if !(forall|m: int|
                0 <= m < self.sources@.len() ==> bit64(
                    (#[trigger] self.sources@[m]).mask_at(path),
                    i,
                )) {
                let m0 = choose|m: int|
                    0 <= m < self.sources@.len() && !bit64(
                        (#[trigger] self.sources@[m]).mask_at(path),
                        i,
                    );
                self.sources@[m0].lemma_mask_empty_below(path, i);
                lemma_and_masks_zero(self.sources@, path.push(i), m0);
            }
        } else {
            assert(!bit64(self.sources@[0].mask_at(path), i));
            self.sources@[0].lemma_mask_empty_below(path, i);
            lemma_and_masks_zero(self.sources@, path.push(i), 0);
        }
    }

    fn level_count(&self) -> (r: usize) {
        let first = vstd::slice::slice_index_get(self.sources, 0);
        first.level_count()
    }

    fn get(&self, key: u64) -> (r: Option<Vec<T::Val>>) {
        let n = self.sources.len();
        let mut out: Vec<T::Val> = Vec::new();
        let mut i: usize = 0;
        while i < n
            invariant
                self.inv(),
                key < crate::keys::cap(self.levels()),
                n == self.sources@.len(),
                i <= n,
                out@.len() == i,
                forall|m: int|
                    0 <= m < i ==> (#[trigger] self.sources@[m]).contents().dom().contains(key),
                forall|m: int|
                    0 <= m < i ==> T::vmodel(#[trigger] out@[m]) == self.sources@[m].contents()[key],
            decreases n - i,
        {
            let src = vstd::slice::slice_index_get(self.sources, i);
            match src.get(key) {
                Some(v) => {
                    out.push(v);
                },
                None => {
                    return None;
                },
            }
            i = i + 1;
        }
        proof {
            assert(Self::vmodel(out) =~= models_at(self.sources@, key));
        }
        Some(out)
    }
}

/// Helper naming for a decomposition digit, so quantified proofs can refer
/// to it as a single term.
pub open spec fn b_of(p: Seq<u64>, n: int) -> u64 {
    p[n]
}

/// Cursor for [`MultiIntersection`]: one delegated cursor per source, an
/// `empty_below` watermark short-circuiting selections below an empty
/// combined mask, and the cached terminal mask.
pub struct MultiIntersectionState<C> {
    subs: Vec<C>,
    empty_below: usize,
    terminal_mask: u64,
    path_g: Ghost<Seq<u64>>,
}

impl<C> MultiIntersectionState<C> {
    /// How deep the delegated cursors actually sit: at the watermark once a
    /// combined mask came out empty, else on the full path.
    pub closed spec fn sub_depth(self) -> int {
        if self.empty_below == usize::MAX {
            self.path_g@.len() as int
        } else {
            self.empty_below as int
        }
    }
}

impl<'a, T: HibitTree> HibitTreeCursor<MultiIntersection<'a, T>> for MultiIntersectionState<
    T::Cursor,
> where T::Cursor: HibitTreeCursor<T> {
    closed spec fn path(&self) -> Seq<u64> {
        self.path_g@
    }

    closed spec fn wf(&self, src: &MultiIntersection<'a, T>) -> bool {
        let s = src.sources@;
        &&& self.subs@.len() == s.len()
        &&& self.empty_below != usize::MAX ==> {
            &&& self.empty_below as int <= self.path_g@.len()
            &&& and_masks(s, self.path_g@.take(self.empty_below as int)) == 0
        }
        &&& 0 <= self.sub_depth() <= self.path_g@.len()
        &&& forall|i: int| 0 <= i < s.len() ==> (#[trigger] self.subs@[i]).wf(&s[i])
        &&& forall|i: int|
            0 <= i < s.len() ==> (#[trigger] self.subs@[i]).path() == self.path_g@.take(
                self.sub_depth(),
            )
        &&& self.path_g@.len() == src.levels() - 1 ==> self.terminal_mask == and_masks(
            s,
            self.path_g@,
        )
    }

    fn new(src: &MultiIntersection<'a, T>) -> (r: Self) {
        let n = src.sources.len();
        let mut subs: Vec<T::Cursor> = Vec::new();
        let mut acc: u64 = 0xFFFF_FFFF_FFFF_FFFF;
        let mut i: usize = 0;
        while i < n
            invariant
                src.inv(),
                n == src.sources@.len(),
                i <= n,
                subs@.len() == i,
                forall|m: int| 0 <= m < i ==> (#[trigger] subs@[m]).wf(&src.sources@[m]),
                forall|m: int|
                    0 <= m < i ==> (#[trigger] subs@[m]).path() == Seq::<u64>::empty(),
                acc == and_masks(src.sources@.take(i as int), Seq::<u64>::empty()),
            decreases n - i,
        {
            let source = vstd::slice::slice_index_get(src.sources, i);
            proof {
                src.sources@[i as int].lemma_levels();
            }
            let mut c = <T::Cursor as HibitTreeCursor<T>>::new(source);
            let m = c.select_level_node(source, 0, 0);
            proof {
                assert(src.sources@.take(i as int + 1).drop_last() =~= src.sources@.take(
                    i as int,
                ));
                assert(src.sources@.take(i as int + 1).last() == src.sources@[i as int]);
            }
            acc = acc & m;
            subs.push(c);
            i = i + 1;
        }
        proof {
            assert(src.sources@.take(n as int) =~= src.sources@);
        }
        let r = MultiIntersectionState {
            subs,
            empty_below: usize::MAX,
            terminal_mask: acc,
            path_g: Ghost(Seq::empty()),
        };
        proof {
            assert(r.sub_depth() == 0);
            assert(r.path_g@.take(0) =~= Seq::<u64>::empty());
        }
        r
    }

    fn select_level_node(
        &mut self,
        src: &MultiIntersection<'a, T>,
        level_n: usize,
        level_index: u64,
    ) -> (mask: u64) {
        proof {
            src.sources@[0].lemma_levels();
        }
        let ghost oldp = self.path_g@;
        let ghost newp = if level_n == 0 {
            Seq::<u64>::empty()
        } else {
            oldp.take(level_n as int - 1).push(level_index)
        };
        if level_n >= 1 && self.empty_below < level_n {
            // an ancestor level already came out empty: everything below it
            // is empty without asking any source
            self.path_g = Ghost(newp);
            proof {
                let e = self.empty_below as int;
                assert(newp.take(e) =~= oldp.take(e));
                lemma_mask_zero_extends(src, newp.take(e), newp);
                assert forall|i: int| 0 <= i < src.sources@.len() implies (
                #[trigger] self.subs@[i]).path() == newp.take(self.sub_depth()) by {
                    assert(self.subs@[i].path() == oldp.take(e));
                }
            }
            let levels = self.level_count_of(src);
            if level_n == levels - 1 {
                self.terminal_mask = 0;
            }
            return 0;
        }
        proof {
            if level_n >= 1 {
                assert(oldp.take(old(self).sub_depth()).take(level_n as int - 1) =~= oldp.take(
                    level_n as int - 1,
                ));
            }
        }
        let n = self.subs.len();
        let mut acc: u64 = 0xFFFF_FFFF_FFFF_FFFF;
        let mut i: usize = 0;
        while i < n
            invariant
                src.inv(),
                n == src.sources@.len(),
                n == self.subs@.len(),
                i <= n,
                level_n < src.levels(),
                level_index < 64,
                level_n == 0 ==> level_index == 0,
                newp == if level_n == 0 {
                    Seq::<u64>::empty()
                } else {
                    oldp.take(level_n as int - 1).push(level_index)
                },
                forall|m: int|
                    0 <= m < n ==> (#[trigger] self.subs@[m]).wf(&src.sources@[m]),
                forall|m: int|
                    0 <= m < i ==> (#[trigger] self.subs@[m]).path() == newp,
                forall|m: int|
                    i <= m < n ==> (#[trigger] self.subs@[m]).path() == oldp.take(
                        old(self).sub_depth(),
                    ),
                level_n as int - 1 <= old(self).sub_depth(),
                old(self).sub_depth() <= oldp.len(),
                level_n >= 1 ==> oldp.take(old(self).sub_depth()).take(level_n as int - 1)
                    == oldp.take(level_n as int - 1),
                acc == and_masks(src.sources@.take(i as int), newp),
                self.path_g@ == oldp,
                self.empty_below == old(self).empty_below,
                self.terminal_mask == old(self).terminal_mask,
            decreases n - i,
        {
            let source = vstd::slice::slice_index_get(src.sources, i);
            let mut c = self.subs.remove(i);
            let m = c.select_level_node(source, level_n, level_index);
            self.subs.insert(i, c);
            proof {
                assert(src.sources@.take(i as int + 1).drop_last() =~= src.sources@.take(
                    i as int,
                ));
                assert(src.sources@.take(i as int + 1).last() == src.sources@[i as int]);
                if level_n >= 1 {
                    assert(oldp.take(old(self).sub_depth()).take(level_n as int - 1) == oldp.take(
                        level_n as int - 1,
                    ));
                }
            }
            acc = acc & m;
            i = i + 1;
        }
        proof {
            assert(src.sources@.take(n as int) =~= src.sources@);
        }
        self.path_g = Ghost(newp);
        self.empty_below = if acc == 0 {
            level_n
        } else {
            usize::MAX
        };
        let levels = self.level_count_of(src);
        if level_n == levels - 1 {
            self.terminal_mask = acc;
        }
        proof {
            if self.empty_below != usize::MAX {
                assert(newp.take(level_n as int) =~= newp);
            }
            assert forall|i2: int| 0 <= i2 < src.sources@.len() implies (
            #[trigger] self.subs@[i2]).path() == newp.take(self.sub_depth()) by {
                assert(self.subs@[i2].path() == newp);
                assert(newp.take(newp.len() as int) =~= newp);
                if self.empty_below != usize::MAX {
                    assert(newp.take(level_n as int) =~= newp);
                }
            }
        }
        acc
    }

    fn data(&self, src: &MultiIntersection<'a, T>, leaf_index: u64) -> (r: Option<Vec<T::Val>>) {
        let ghost k = key_compose(self.path_g@.push(leaf_index)) as u64;
        proof {
            src.sources@[0].lemma_levels();
            lemma_compose_props(self.path_g@.push(leaf_index));
            crate::keys::lemma_cap_fits(src.levels());
            if src.contents().dom().contains(k) {
                src.lemma_mask_covers(k, src.levels() as int - 1);
                assert(key_decomp(src.levels(), k as nat) == self.path_g@.push(leaf_index));
                assert(key_decomp(src.levels(), k as nat).take(src.levels() as int - 1)
                    =~= self.path_g@);
            }
        }
        if (self.terminal_mask >> leaf_index) & 1u64 != 1u64 {
            // the cached terminal mask is exact at this level
            proof {
                assert(!bit64(self.terminal_mask, leaf_index));
            }
            return None;
        }
        proof {
            assert(bit64(and_masks(src.sources@, self.path_g@), leaf_index));
            if self.empty_below != usize::MAX {
                lemma_mask_zero_extends(
                    src,
                    self.path_g@.take(self.empty_below as int),
                    self.path_g@,
                );
                lemma_bit_zero();
                assert(false);
            }
            lemma_and_masks_bit(src.sources@, self.path_g@, leaf_index);
        }
        let n = self.subs.len();
        let mut out: Vec<T::Val> = Vec::new();
        let mut i: usize = 0;
        while i < n
            invariant
                src.inv(),
                self.wf(src),
                n == src.sources@.len(),
                n == self.subs@.len(),
                i <= n,
                out@.len() == i,
                leaf_index < 64,
                path_ok(self.path_g@),
                self.path_g@.len() == src.levels() - 1,
                self.empty_below == usize::MAX,
                k == key_compose(self.path_g@.push(leaf_index)) as u64,
                k as nat == key_compose(self.path_g@.push(leaf_index)),
                forall|m: int|
                    0 <= m < n ==> bit64(
                        (#[trigger] src.sources@[m]).mask_at(self.path_g@),
                        leaf_index,
                    ),
                forall|m: int|
                    0 <= m < i ==> (#[trigger] src.sources@[m]).contents().dom().contains(k),
                forall|m: int|
                    0 <= m < i ==> T::vmodel(#[trigger] out@[m]) == src.sources@[m].contents()[k],
            decreases n - i,
        {
            let source = vstd::slice::slice_index_get(src.sources, i);
            let c = vstd::slice::slice_index_get(self.subs.as_slice(), i);
            proof {
                assert(self.subs@[i as int].path() == self.path_g@.take(self.sub_depth()));
                assert(self.path_g@.take(self.path_g@.len() as int) =~= self.path_g@);
                source.lemma_mask_terminal(self.path_g@, leaf_index);
            }
            let v = c.data_unchecked(source, leaf_index);
            out.push(v);
            i = i + 1;
        }
        proof {
            assert forall|m: int| 0 <= m
                < n implies (#[trigger] src.sources@[m]).contents().dom().contains(k) by {
                src.sources@[m].lemma_mask_terminal(self.path_g@, leaf_index);
            }
            assert(all_contain(src.sources@, k));
            assert(<MultiIntersection<'a, T> as HibitTree>::vmodel(out) =~= models_at(
                src.sources@,
                k,
            ));
        }
        Some(out)
    }
}

impl<C> MultiIntersectionState<C> {
    /// The shared level count of the sources.
    fn level_count_of<'a, T: HibitTree>(&self, src: &MultiIntersection<'a, T>) -> (r: usize) where
        T::Cursor: HibitTreeCursor<T>,

        requires
            src.inv(),
        ensures
            r == src.levels(),
    {
        let first = vstd::slice::slice_index_get(src.sources, 0);
        first.level_count()
    }
}

/// An iterator over the values a multi-source hit yielded, in source order.
pub struct StateResolveIter<V> {
    items: Vec<V>,
    pos: usize,
}

impl<V> StateResolveIter<V> {
    /// The values not yet yielded.
    pub closed spec fn remaining(self) -> Seq<V> {
        self.items@.skip(self.pos as int)
    }

    /// The yield position never passes the end of the buffer.
    pub closed spec fn wf(self) -> bool {
        self.pos <= self.items@.len()
    }

    /// Wraps a hit's value buffer for in-order traversal.
    pub fn new(items: Vec<V>) -> (r: Self)
        ensures
            r.wf(),
            r.remaining() == items@,
    {
        proof {
            assert(items@.skip(0) =~= items@);
        }
        StateResolveIter { items, pos: 0 }
    }

    /// How many values remain.
    pub fn len(&self) -> (r: usize)
        requires
            self.wf(),
        ensures
            r == self.remaining().len(),
    {
        self.items.len() - self.pos
    }

    /// Yields the next value.
    pub fn next(&mut self) -> (r: Option<V>) where V: Copy
        requires
            old(self).wf(),
        ensures
            final(self).wf(),
            old(self).remaining().len() == 0 ==> r is None && final(self).remaining()
                == old(self).remaining(),
            old(self).remaining().len() > 0 ==> r == Some(old(self).remaining()[0]) && final(self).remaining() == old(self).remaining().drop_first(),
    {
        if self.pos < self.items.len() {
            let v = *vstd::slice::slice_index_get(self.items.as_slice(), self.pos);
            self.pos = self.pos + 1;
            proof {
                assert(final(self).remaining() =~= old(self).remaining().drop_first());
            }
            Some(v)
        } else {
            None
        }
    }
}


/// An iterator over the values of a hit that the caller already knows is
/// present, in source order.
pub struct ResolveIterUnchecked<V> {
    items: Vec<V>,
    pos: usize,
}

impl<V> ResolveIterUnchecked<V> {
    /// The values not yet yielded.
    pub closed spec fn remaining(self) -> Seq<V> {
        self.items@.skip(self.pos as int)
    }

    /// The yield position never passes the end of the buffer.
    pub closed spec fn wf(self) -> bool {
        self.pos <= self.items@.len()
    }

    /// Wraps a present hit's value buffer for in-order traversal.
    pub fn new(items: Vec<V>) -> (r: Self)
        ensures
            r.wf(),
            r.remaining() == items@,
    {
        proof {
            assert(items@.skip(0) =~= items@);
        }
        ResolveIterUnchecked { items, pos: 0 }
    }

    /// How many values remain.
    pub fn len(&self) -> (r: usize)
        requires
            self.wf(),
        ensures
            r == self.remaining().len(),
    {
        self.items.len() - self.pos
    }

    /// Yields the next value.
    pub fn next(&mut self) -> (r: Option<V>) where V: Copy
        requires
            old(self).wf(),
        ensures
            final(self).wf(),
            old(self).remaining().len() == 0 ==> r is None && final(self).remaining() == old(self).remaining(),
            old(self).remaining().len() > 0 ==> r == Some(old(self).remaining()[0]) && final(self).remaining() == old(self).remaining().drop_first(),
    {
        if self.pos < self.items.len() {
            let v = *vstd::slice::slice_index_get(self.items.as_slice(), self.pos);
            self.pos = self.pos + 1;
            proof {
                assert(final(self).remaining() =~= old(self).remaining().drop_first());
            }
            Some(v)
        } else {
            None
        }
    }
}

} // verus!

//! Lazy n-ary union over a slice of trees. Masks combine by OR across all
//! sources; a hit yields, in source order, each holding source's value
//! together with that source's position.

use vstd::prelude::*;
use crate::bits::{bit64, lemma_bit_or, lemma_no_bits_zero, lemma_bit_zero};
use crate::keys::{key_decomp, key_compose, path_ok};
use crate::hibit_tree::{HibitTree, HibitTreeCursor};

verus! {

/// The union view over one or more borrowed trees of equal level count.
pub struct MultiUnion<'a, T> {
    /// The source trees.
    pub sources: &'a [T],
}

/// Composes a non-empty slice of trees into their lazy union.
pub fn multi_union<'a, T: HibitTree>(sources: &'a [T]) -> (r: MultiUnion<'a, T>) where
    T::Cursor: HibitTreeCursor<T>,

    requires
        sources@.len() >= 1,
        forall|i: int| 0 <= i < sources@.len() ==> (#[trigger] sources@[i]).inv(),
        forall|i: int|
            0 <= i < sources@.len() ==> (#[trigger] sources@[i]).levels() == sources@[0].levels(),
    ensures
        r.inv(),
        r.levels() == sources@[0].levels(),
        r.contents() == multi_union_contents(sources@),
{
    MultiUnion { sources }
}

/// Some source holds `k`.
pub open spec fn any_contains<T: HibitTree>(s: Seq<T>, k: u64) -> bool {
    exists|i: int| 0 <= i < s.len() && (#[trigger] s[i]).contents().dom().contains(k)
}

/// The holding sources' positions and value models for `k`, in source order.
pub open spec fn union_hits<T: HibitTree>(s: Seq<T>, k: u64) -> Seq<(usize, T::ValModel)>
    decreases s.len(),
{
    if s.len() == 0 {
        Seq::empty()
    } else if s.last().contents().dom().contains(k) {
        union_hits(s.drop_last(), k).push((((s.len() - 1) as usize), s.last().contents()[k]))
    } else {
        union_hits(s.drop_last(), k)
    }
}

/// What the union holds: every key of any source, valued by the sequence of
/// holding sources' positions and models.
pub open spec fn multi_union_contents<T: HibitTree>(s: Seq<T>) -> Map<
    u64,
    Seq<(usize, T::ValModel)>,
> {
    Map::new(|k: u64| any_contains(s, k), |k: u64| union_hits(s, k))
}

/// OR of the sources' masks at `path`.
pub open spec fn or_masks<T: HibitTree>(s: Seq<T>, path: Seq<u64>) -> u64
    decreases s.len(),
{
    if s.len() == 0 {
        0u64
    } else {
        or_masks(s.drop_last(), path) | s.last().mask_at(path)
    }
}

/// A bit of the combined mask is set exactly when some source sets it.
pub proof fn lemma_or_masks_bit<T: HibitTree>(s: Seq<T>, path: Seq<u64>, b: u64)
    requires
        b < 64,
    ensures
        bit64(or_masks(s, path), b) <==> exists|i: int|
            0 <= i < s.len() && bit64((#[trigger] s[i]).mask_at(path), b),
    decreases s.len(),
{
    lemma_bit_zero();
    if s.len() > 0 {
        lemma_or_masks_bit(s.drop_last(), path, b);
        lemma_bit_or(or_masks(s.drop_last(), path), s.last().mask_at(path));
        if bit64(or_masks(s, path), b) {
            if bit64(s.last().mask_at(path), b) {
                assert(bit64(s[s.len() - 1].mask_at(path), b));
            } else {
                let i = choose|i: int|
                    0 <= i < s.drop_last().len() && bit64(
                        (#[trigger] s.drop_last()[i]).mask_at(path),
                        b,
                    );
                assert(bit64(s[i].mask_at(path), b));
            }
        }
        if exists|i: int| 0 <= i < s.len() && bit64((#[trigger] s[i]).mask_at(path), b) {
            let i = choose|i: int|
                0 <= i < s.len() && bit64((#[trigger] s[i]).mask_at(path), b);
            if i < s.len() - 1 {
                assert(bit64(s.drop_last()[i].mask_at(path), b));
            }
            assert(bit64(or_masks(s, path), b));
        }
    }
}

impl<'a, T: HibitTree> HibitTree for MultiUnion<'a, T> where T::Cursor: HibitTreeCursor<T> {
    type Val = Vec<(usize, T::Val)>;

    type ValModel = Seq<(usize, T::ValModel)>;

    type Cursor = Cursor<T::Cursor>;

    open spec fn vmodel(v: Vec<(usize, T::Val)>) -> Seq<(usize, T::ValModel)> {
        Seq::new(v@.len(), |i: int| (v@[i].0, T::vmodel(v@[i].1)))
    }

    /// The union of exact sources is exact.
    open spec fn exact_hierarchy() -> bool {
        T::exact_hierarchy()
    }

    open spec fn inv(&self) -> bool {
        &&& self.sources@.len() >= 1
        &&& forall|i: int| 0 <= i < self.sources@.len() ==> (#[trigger] self.sources@[i]).inv()
        &&& forall|i: int|
            0 <= i < self.sources@.len() ==> (#[trigger] self.sources@[i]).levels()
                == self.sources@[0].levels()
    }

    open spec fn levels(&self) -> nat {
        self.sources@[0].levels()
    }

    open spec fn contents(&self) -> Map<u64, Seq<(usize, T::ValModel)>> {
        multi_union_contents(self.sources@)
    }

    open spec fn mask_at(&self, path: Seq<u64>) -> u64 {
        or_masks(self.sources@, path)
    }

    proof fn lemma_levels(&self) {
        self.sources@[0].lemma_levels();
    }

    proof fn lemma_contents_bounded(&self, k: u64) {
        let i = choose|i: int|
            0 <= i < self.sources@.len() && (#[trigger] self.sources@[i]).contents().dom().contains(
                k,
            );
        self.sources@[i].lemma_contents_bounded(k);
    }

    proof fn lemma_mask_covers(&self, k: u64, n: int) {
        let p = key_decomp(self.levels(), k as nat);
        let i = choose|i: int|
            0 <= i < self.sources@.len() && (#[trigger] self.sources@[i]).contents().dom().contains(
                k,
            );
        self.sources@[i].lemma_contents_bounded(k);
        crate::keys::lemma_decomp_props(self.levels(), k as nat);
        lemma_or_masks_bit(self.sources@, p.take(n), p[n]);
        self.sources@[i].lemma_mask_covers(k, n);
    }

    proof fn lemma_mask_terminal(&self, path: Seq<u64>, b: u64) {
        lemma_or_masks_bit(self.sources@, path, b);
        let i = choose|i: int|
            0 <= i < self.sources@.len() && bit64((#[trigger] self.sources@[i]).mask_at(path), b);
        self.sources@[i].lemma_mask_terminal(path, b);
    }

    proof fn lemma_mask_empty_below(&self, path: Seq<u64>, i: u64) {
        lemma_bit_zero();
        assert forall|m: int| 0 <= m < self.sources@.len() implies (
        #[trigger] self.sources@[m]).mask_at(path.push(i)) == 0 by {
            if i < 64 {
                lemma_or_masks_bit(self.sources@, path, i);
                assert(!bit64(self.sources@[m].mask_at(path), i));
            }
            self.sources@[m].lemma_mask_empty_below(path, i);
        }
        assert forall|b: u64| b < 64 implies !bit64(or_masks(self.sources@, path.push(i)), b) by {
            lemma_or_masks_bit(self.sources@, path.push(i), b);
        }
        lemma_no_bits_zero(or_masks(self.sources@, path.push(i)));
    }

    fn level_count(&self) -> (r: usize) {
        let first = vstd::slice::slice_index_get(self.sources, 0);
        first.level_count()
    }

    fn get(&self, key: u64) -> (r: Option<Vec<(usize, T::Val)>>) {
        let n = self.sources.len();
        let mut out: Vec<(usize, T::Val)> = Vec::new();
        let mut i: usize = 0;
        while i < n
            invariant
                self.inv(),
                key < crate::keys::cap(self.levels()),
                n == self.sources@.len(),
                i <= n,
                Self::vmodel(out) == union_hits(self.sources@.take(i as int), key),
                forall|t: int| 0 <= t < out@.len() ==> (#[trigger] out@[t]).0 < i,
                forall|m: int|
                    0 <= m < i ==> ((#[trigger] self.sources@[m]).contents().dom().contains(key)
                        <==> exists|t: int|
                        0 <= t < out@.len() && (#[trigger] out@[t]).0 == m),
            decreases n - i,
        {
            let ghost out0 = out@;
            let src = vstd::slice::slice_index_get(self.sources, i);
            let got = src.get(key);
            match got {
                Some(v) => {
                    out.push((i, v));
                    proof {
                        assert(out@[out@.len() - 1].0 == i as usize);
                    }
                },
                None => {},
            }
            proof {
                assert(self.sources@.take(i as int + 1).drop_last() =~= self.sources@.take(
                    i as int,
                ));
                assert(self.sources@.take(i as int + 1).last() == self.sources@[i as int]);
                assert(Self::vmodel(out) =~= union_hits(self.sources@.take(i as int + 1), key));
                assert forall|m: int|
                    0 <= m < i + 1 implies ((#[trigger] self.sources@[m]).contents().dom().contains(
                    key,
                ) <==> exists|t: int| 0 <= t < out@.len() && (#[trigger] out@[t]).0 == m) by {
                    if m < i {
                        if self.sources@[m].contents().dom().contains(key) {
                            let t0 = choose|t: int|
                                0 <= t < out0.len() && (#[trigger] out0[t]).0 == m;
                            assert(out@[t0].0 == m);
                        }
                    } else {
                        if got is Some {
                            assert(out@[out@.len() - 1].0 == m);
                        } else {
                            assert(forall|t: int|
                                0 <= t < out@.len() ==> (#[trigger] out@[t]).0 < i);
                        }
                    }
                }
            }
            i = i + 1;
        }
        proof {
            assert(self.sources@.take(n as int) =~= self.sources@);
        }
        if out.len() == 0 {
            proof {
                if any_contains(self.sources@, key) {
                    let m = choose|m: int|
                        0 <= m < self.sources@.len()
                            && (#[trigger] self.sources@[m]).contents().dom().contains(key);
                    assert(exists|t: int|
                        0 <= t < out@.len() && (#[trigger] out@[t]).0 == m);
                }
            }
            None
        } else {
            proof {
                let t0 = out@[0].0;
                assert(self.sources@[t0 as int].contents().dom().contains(key)) by {
                    lemma_union_hits_sources(self.sources@, key, 0);
                }
            }
            Some(out)
        }
    }
}

/// Every recorded hit names a source that holds the key.
pub proof fn lemma_union_hits_sources<T: HibitTree>(s: Seq<T>, k: u64, t: int)
    requires
        s.len() <= usize::MAX,
        0 <= t < union_hits(s, k).len(),
    ensures
        0 <= union_hits(s, k)[t].0 < s.len(),
        s[union_hits(s, k)[t].0 as int].contents().dom().contains(k),
        union_hits(s, k)[t].1 == s[union_hits(s, k)[t].0 as int].contents()[k],
    decreases s.len(),
{
    if s.len() > 0 {
        if s.last().contents().dom().contains(k) {
            assert(union_hits(s, k) == union_hits(s.drop_last(), k).push(
                (((s.len() - 1) as usize), s.last().contents()[k]),
            ));
            if t < union_hits(s.drop_last(), k).len() {
                lemma_union_hits_sources(s.drop_last(), k, t);
                let i = union_hits(s.drop_last(), k)[t].0;
                assert(s.drop_last()[i as int] == s[i as int]);
                assert(union_hits(s, k)[t] == union_hits(s.drop_last(), k)[t]);
            } else {
                assert(union_hits(s, k)[t] == (
                    ((s.len() - 1) as usize),
                    s.last().contents()[k],
                ));
                assert(s[s.len() - 1] == s.last());
            }
        } else {
            assert(union_hits(s, k) == union_hits(s.drop_last(), k));
            lemma_union_hits_sources(s.drop_last(), k, t);
            let i = union_hits(s.drop_last(), k)[t].0;
            assert(s.drop_last()[i as int] == s[i as int]);
        }
    }
}

/// Cursor for [`MultiUnion`]: one delegated cursor per source, all walking
/// the same path.
pub struct Cursor<C> {
    subs: Vec<C>,
}

impl<'a, T: HibitTree> HibitTreeCursor<MultiUnion<'a, T>> for Cursor<T::Cursor> where
    T::Cursor: HibitTreeCursor<T>,
 {
    closed spec fn path(&self) -> Seq<u64> {
        <T::Cursor as HibitTreeCursor<T>>::path(&self.subs@[0])
    }

    closed spec fn wf(&self, src: &MultiUnion<'a, T>) -> bool {
        let s = src.sources@;
        &&& self.subs@.len() == s.len()
        &&& self.subs@.len() >= 1
        &&& forall|i: int| 0 <= i < s.len() ==> (#[trigger] self.subs@[i]).wf(&s[i])
        &&& forall|i: int|
            0 <= i < s.len() ==> <T::Cursor as HibitTreeCursor<T>>::path(#[trigger] &self.subs@[i])
                == <T::Cursor as HibitTreeCursor<T>>::path(&self.subs@[0])
    }

    fn new(src: &MultiUnion<'a, T>) -> (r: Self) {
        let n = src.sources.len();
        let mut subs: Vec<T::Cursor> = Vec::new();
        let mut i: usize = 0;
        while i < n
            invariant
                src.inv(),
                n == src.sources@.len(),
                i <= n,
                subs@.len() == i,
                forall|m: int| 0 <= m < i ==> (#[trigger] subs@[m]).wf(&src.sources@[m]),
                forall|m: int|
                    0 <= m < i ==> <T::Cursor as HibitTreeCursor<T>>::path(#[trigger] &subs@[m])
                        == Seq::<u64>::empty(),
            decreases n - i,
        {
            let source = vstd::slice::slice_index_get(src.sources, i);
            let c = <T::Cursor as HibitTreeCursor<T>>::new(source);
            subs.push(c);
            i = i + 1;
        }
        Cursor { subs }
    }

    fn select_level_node(
        &mut self,
        src: &MultiUnion<'a, T>,
        level_n: usize,
        level_index: u64,
    ) -> (mask: u64) {
        let ghost oldp = <T::Cursor as HibitTreeCursor<T>>::path(&self.subs@[0]);
        let ghost newp = if level_n == 0 {
            Seq::<u64>::empty()
        } else {
            oldp.take(level_n as int - 1).push(level_index)
        };
        let n = self.subs.len();
        let mut acc: u64 = 0;
        let mut i: usize = 0;
        while i < n
            invariant
                src.inv(),
                n == src.sources@.len(),
                n == self.subs@.len(),
                n >= 1,
                i <= n,
                level_n < src.levels(),
                level_index < 64,
                level_n == 0 ==> level_index == 0,
                newp == if level_n == 0 {
                    Seq::<u64>::empty()
                } else {
                    oldp.take(level_n as int - 1).push(level_index)
                },
                forall|m: int| 0 <= m < n ==> (#[trigger] self.subs@[m]).wf(&src.sources@[m]),
                forall|m: int|
                    0 <= m < i ==> <T::Cursor as HibitTreeCursor<T>>::path(
                        #[trigger] &self.subs@[m],
                    ) == newp,
                forall|m: int|
                    i <= m < n ==> <T::Cursor as HibitTreeCursor<T>>::path(
                        #[trigger] &self.subs@[m],
                    ) == oldp,
                level_n as int - 1 <= oldp.len(),
                acc == or_masks(src.sources@.take(i as int), newp),
            decreases n - i,
        {
            let source = vstd::slice::slice_index_get(src.sources, i);
            let mut c = self.subs.remove(i);
            let m = c.select_level_node(source, level_n, level_index);
            self.subs.insert(i, c);
            proof {
                assert(src.sources@.take(i as int + 1).drop_last() =~= src.sources@.take(
                    i as int,
                ));
                assert(src.sources@.take(i as int + 1).last() == src.sources@[i as int]);
            }
            acc = acc | m;
            i = i + 1;
        }
        proof {
            assert(src.sources@.take(n as int) =~= src.sources@);
        }
        acc
    }

    fn data(&self, src: &MultiUnion<'a, T>, leaf_index: u64) -> (r: Option<Vec<(usize, T::Val)>>) {
        let ghost k = key_compose(
            <T::Cursor as HibitTreeCursor<T>>::path(&self.subs@[0]).push(leaf_index),
        ) as u64;
        let n = self.subs.len();
        let mut out: Vec<(usize, T::Val)> = Vec::new();
        let mut i: usize = 0;
        while i < n
            invariant
                src.inv(),
                self.wf(src),
                n == src.sources@.len(),
                n == self.subs@.len(),
                i <= n,
                leaf_index < 64,
                path_ok(<T::Cursor as HibitTreeCursor<T>>::path(&self.subs@[0])),
                <T::Cursor as HibitTreeCursor<T>>::path(&self.subs@[0]).len() == src.levels() - 1,
                k == key_compose(
                    <T::Cursor as HibitTreeCursor<T>>::path(&self.subs@[0]).push(leaf_index),
                ) as u64,
                <MultiUnion<'a, T> as HibitTree>::vmodel(out) == union_hits(
                    src.sources@.take(i as int),
                    k,
                ),
                forall|t: int| 0 <= t < out@.len() ==> (#[trigger] out@[t]).0 < i,
                forall|m: int|
                    0 <= m < i ==> ((#[trigger] src.sources@[m]).contents().dom().contains(k)
                        <==> exists|t: int|
                        0 <= t < out@.len() && (#[trigger] out@[t]).0 == m),
            decreases n - i,
        {
            let ghost out0 = out@;
            let source = vstd::slice::slice_index_get(src.sources, i);
            let c = vstd::slice::slice_index_get(self.subs.as_slice(), i);
            let got = c.data(source, leaf_index);
            match got {
                Some(v) => {
                    out.push((i, v));
                    proof {
                        assert(out@[out@.len() - 1].0 == i as usize);
                    }
                },
                None => {},
            }
            proof {
                assert(src.sources@.take(i as int + 1).drop_last() =~= src.sources@.take(
                    i as int,
                ));
                assert(src.sources@.take(i as int + 1).last() == src.sources@[i as int]);
                assert(<MultiUnion<'a, T> as HibitTree>::vmodel(out) =~= union_hits(
                    src.sources@.take(i as int + 1),
                    k,
                ));
                assert forall|m: int|
                    0 <= m < i + 1 implies ((#[trigger] src.sources@[m]).contents().dom().contains(
                    k,
                ) <==> exists|t: int| 0 <= t < out@.len() && (#[trigger] out@[t]).0 == m) by {
                    if m < i {
                        if src.sources@[m].contents().dom().contains(k) {
                            let t0 = choose|t: int|
                                0 <= t < out0.len() && (#[trigger] out0[t]).0 == m;
                            assert(out@[t0].0 == m);
                        }
                    } else {
                        if got is Some {
                            assert(out@[out@.len() - 1].0 == m);
                        } else {
                            assert(forall|t: int|
                                0 <= t < out@.len() ==> (#[trigger] out@[t]).0 < i);
                        }
                    }
                }
            }
            i = i + 1;
        }
        proof {
            assert(src.sources@.take(n as int) =~= src.sources@);
        }
        if out.len() == 0 {
            proof {
                if any_contains(src.sources@, k) {
                    let m = choose|m: int|
                        0 <= m < src.sources@.len()
                            && (#[trigger] src.sources@[m]).contents().dom().contains(k);
                    assert(exists|t: int| 0 <= t < out@.len() && (#[trigger] out@[t]).0 == m);
                }
            }
            None
        } else {
            proof {
                let t0 = out@[0].0;
                assert(src.sources@[t0 as int].contents().dom().contains(k)) by {
                    lemma_union_hits_sources(src.sources@, k, 0);
                }
            }
            Some(out)
        }
    }
}

} // verus!

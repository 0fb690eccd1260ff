//! Lazy binary intersection. Masks combine by AND per level; only keys
//! present in both operands survive, paired with both values.

use vstd::prelude::*;
use crate::bits::{bit64, lemma_bit_and, lemma_no_bits_zero, lemma_bit_zero};
use crate::keys::key_decomp;
use crate::hibit_tree::{HibitTree, HibitTreeCursor};

verus! {

/// The intersection view over two borrowed trees of equal level count.
pub struct Intersection<'a, A, B> {
    /// Left operand.
    pub a: &'a A,
    /// Right operand.
    pub b: &'a B,
}

/// Composes two trees into their lazy intersection.
pub fn intersection<'a, A: HibitTree, B: HibitTree>(a: &'a A, b: &'a B) -> (r: Intersection<
    'a,
    A,
    B,
>) where A::Cursor: HibitTreeCursor<A>, B::Cursor: HibitTreeCursor<B>
    requires
        a.inv(),
        b.inv(),
        a.levels() == b.levels(),
    ensures
        r.inv(),
        r.levels() == a.levels(),
        r.contents() == intersection_contents(a, b),
{
    Intersection { a, b }
}

/// What the intersection holds: the keys of both operands, valued by the
/// pair of operand models.
pub open spec fn intersection_contents<A: HibitTree, B: HibitTree>(a: &A, b: &B) -> Map<
    u64,
    (A::ValModel, B::ValModel),
> {
    Map::new(
        |k: u64| a.contents().dom().contains(k) && b.contents().dom().contains(k),
        |k: u64| (a.contents()[k], b.contents()[k]),
    )
}

impl<'a, A: HibitTree, B: HibitTree> HibitTree for Intersection<'a, A, B> where
    A::Cursor: HibitTreeCursor<A>,
    B::Cursor: HibitTreeCursor<B>,
 {
    type Val = (A::Val, B::Val);

    type ValModel = (A::ValModel, B::ValModel);

    type Cursor = Cursor<A::Cursor, B::Cursor>;

    open spec fn vmodel(v: Self::Val) -> Self::ValModel {
        (A::vmodel(v.0), B::vmodel(v.1))
    }

    /// Bit-level AND keeps internal masks only conservative, so the safe
    /// answer is no.
    open spec fn exact_hierarchy() -> bool {
        false
    }

    open spec fn inv(&self) -> bool {
        self.a.inv() && self.b.inv() && self.a.levels() == self.b.levels()
    }

    open spec fn levels(&self) -> nat {
        self.a.levels()
    }

    open spec fn contents(&self) -> Map<u64, Self::ValModel> {
        intersection_contents(self.a, self.b)
    }

    open spec fn mask_at(&self, path: Seq<u64>) -> u64 {
        self.a.mask_at(path) & self.b.mask_at(path)
    }

    proof fn lemma_levels(&self) {
        self.a.lemma_levels();
    }

    proof fn lemma_contents_bounded(&self, k: u64) {
        self.a.lemma_contents_bounded(k);
    }

    proof fn lemma_mask_covers(&self, k: u64, n: int) {
        let p = key_decomp(self.levels(), k as nat);
        lemma_bit_and(self.a.mask_at(p.take(n)), self.b.mask_at(p.take(n)));
        self.a.lemma_mask_covers(k, n);
        self.b.lemma_mask_covers(k, n);
    }

    proof fn lemma_mask_terminal(&self, path: Seq<u64>, b: u64) {
        lemma_bit_and(self.a.mask_at(path), self.b.mask_at(path));
        self.a.lemma_mask_terminal(path, b);
        self.b.lemma_mask_terminal(path, b);
    }

    proof fn lemma_mask_empty_below(&self, path: Seq<u64>, i: u64) {
        lemma_bit_and(self.a.mask_at(path), self.b.mask_at(path));
        lemma_bit_and(self.a.mask_at(path.push(i)), self.b.mask_at(path.push(i)));
        lemma_bit_zero();
        if !bit64(self.a.mask_at(path), i) {
            self.a.lemma_mask_empty_below(path, i);
        } else {
            self.b.lemma_mask_empty_below(path, i);
        }
        assert forall|j: u64| j < 64 implies !bit64(self.mask_at(path.push(i)), j) by {
            assert(!bit64(self.a.mask_at(path.push(i)), j) || !bit64(
                self.b.mask_at(path.push(i)),
                j,
            ));
        }
        lemma_no_bits_zero(self.mask_at(path.push(i)));
    }

    fn level_count(&self) -> (r: usize) {
        self.a.level_count()
    }

    fn get(&self, key: u64) -> (r: Option<Self::Val>) {
        let av = self.a.get(key);
        let bv = self.b.get(key);
        match (av, bv) {
            (Some(x), Some(y)) => Some((x, y)),
            _ => None,
        }
    }
}

/// Cursor for [`Intersection`]: two delegated cursors walking the same path.
pub struct Cursor<CA, CB> {
    a: CA,
    b: CB,
}

impl<'a, A: HibitTree, B: HibitTree> HibitTreeCursor<Intersection<'a, A, B>> for Cursor<
    A::Cursor,
    B::Cursor,
> where A::Cursor: HibitTreeCursor<A>, B::Cursor: HibitTreeCursor<B> {
    closed spec fn path(&self) -> Seq<u64> {
        self.a.path()
    }

    closed spec fn wf(&self, src: &Intersection<'a, A, B>) -> bool {
        &&& self.a.wf(src.a)
        &&& self.b.wf(src.b)
        &&& self.a.path() == self.b.path()
    }

    fn new(src: &Intersection<'a, A, B>) -> (r: Self) {
        Cursor {
            a: <A::Cursor as HibitTreeCursor<A>>::new(src.a),
            b: <B::Cursor as HibitTreeCursor<B>>::new(src.b),
        }
    }

    fn select_level_node(
        &mut self,
        src: &Intersection<'a, A, B>,
        level_n: usize,
        level_index: u64,
    ) -> (mask: u64) {
        let ma = self.a.select_level_node(src.a, level_n, level_index);
        let mb = self.b.select_level_node(src.b, level_n, level_index);
        ma & mb
    }

    fn data(&self, src: &Intersection<'a, A, B>, leaf_index: u64) -> (r: Option<
        (A::Val, B::Val),
    >) {
        let av = self.a.data(src.a, leaf_index);
        let bv = self.b.data(src.b, leaf_index);
        match (av, bv) {
            (Some(x), Some(y)) => Some((x, y)),
            _ => None,
        }
    }
}

} // verus!

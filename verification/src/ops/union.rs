//! Lazy binary union. Masks combine by OR per level; a key present in either
//! operand is present in the union, carrying both operands' values as options.

use vstd::prelude::*;
use crate::bits::{bit64, lemma_bit_or, lemma_no_bits_zero, lemma_bit_zero};
use crate::keys::key_decomp;
use crate::hibit_tree::{HibitTree, HibitTreeCursor};

verus! {

/// The union view over two borrowed trees of equal level count.
pub struct Union<'a, A, B> {
    /// Left operand.
    pub a: &'a A,
    /// Right operand.
    pub b: &'a B,
}

/// Composes two trees into their lazy union.
pub fn union<'a, A: HibitTree, B: HibitTree>(a: &'a A, b: &'a B) -> (r: Union<'a, A, B>) where
    A::Cursor: HibitTreeCursor<A>,
    B::Cursor: HibitTreeCursor<B>,

    requires
        a.inv(),
        b.inv(),
        a.levels() == b.levels(),
    ensures
        r.inv(),
        r.levels() == a.levels(),
        r.contents() == union_contents(a, b),
{
    Union { a, b }
}

/// What the union holds: every key of either operand, valued by the pair of
/// optional operand models.
pub open spec fn union_contents<A: HibitTree, B: HibitTree>(a: &A, b: &B) -> Map<
    u64,
    (Option<A::ValModel>, Option<B::ValModel>),
> {
    Map::new(
        |k: u64| a.contents().dom().contains(k) || b.contents().dom().contains(k),
        |k: u64|
            (
                if a.contents().dom().contains(k) {
                    Some(a.contents()[k])
                } else {
                    None
                },
                if b.contents().dom().contains(k) {
                    Some(b.contents()[k])
                } else {
                    None
                },
            ),
    )
}

impl<'a, A: HibitTree, B: HibitTree> HibitTree for Union<'a, A, B> where
    A::Cursor: HibitTreeCursor<A>,
    B::Cursor: HibitTreeCursor<B>,
 {
    type Val = (Option<A::Val>, Option<B::Val>);

    type ValModel = (Option<A::ValModel>, Option<B::ValModel>);

    type Cursor = Cursor<A::Cursor, B::Cursor>;

    open spec fn vmodel(v: Self::Val) -> Self::ValModel {
        (
            match v.0 {
                Some(x) => Some(A::vmodel(x)),
                None => None,
            },
            match v.1 {
                Some(y) => Some(B::vmodel(y)),
                None => None,
            },
        )
    }

    /// The union of exact operands is exact.
    open spec fn exact_hierarchy() -> bool {
        A::exact_hierarchy() && B::exact_hierarchy()
    }

    open spec fn inv(&self) -> bool {
        self.a.inv() && self.b.inv() && self.a.levels() == self.b.levels()
    }

    open spec fn levels(&self) -> nat {
        self.a.levels()
    }

    open spec fn contents(&self) -> Map<u64, Self::ValModel> {
        union_contents(self.a, self.b)
    }

    open spec fn mask_at(&self, path: Seq<u64>) -> u64 {
        self.a.mask_at(path) | self.b.mask_at(path)
    }

    proof fn lemma_levels(&self) {
        self.a.lemma_levels();
    }

    proof fn lemma_contents_bounded(&self, k: u64) {
        if self.a.contents().dom().contains(k) {
            self.a.lemma_contents_bounded(k);
        } else {
            self.b.lemma_contents_bounded(k);
        }
    }

    proof fn lemma_mask_covers(&self, k: u64, n: int) {
        let p = key_decomp(self.levels(), k as nat);
        lemma_bit_or(self.a.mask_at(p.take(n)), self.b.mask_at(p.take(n)));
        if self.a.contents().dom().contains(k) {
            self.a.lemma_mask_covers(k, n);
        } else {
            self.b.lemma_mask_covers(k, n);
        }
    }

    proof fn lemma_mask_terminal(&self, path: Seq<u64>, b: u64) {
        lemma_bit_or(self.a.mask_at(path), self.b.mask_at(path));
        if bit64(self.a.mask_at(path), b) {
            self.a.lemma_mask_terminal(path, b);
        } else {
            self.b.lemma_mask_terminal(path, b);
        }
    }

    proof fn lemma_mask_empty_below(&self, path: Seq<u64>, i: u64) {
        lemma_bit_or(self.a.mask_at(path), self.b.mask_at(path));
        self.a.lemma_mask_empty_below(path, i);
        self.b.lemma_mask_empty_below(path, i);
        lemma_bit_or(self.a.mask_at(path.push(i)), self.b.mask_at(path.push(i)));
        lemma_bit_zero();
        assert forall|j: u64| j < 64 implies !bit64(self.mask_at(path.push(i)), j) by {
            assert(!bit64(self.a.mask_at(path.push(i)), j));
            assert(!bit64(self.b.mask_at(path.push(i)), j));
        }
        lemma_no_bits_zero(self.mask_at(path.push(i)));
    }

    fn level_count(&self) -> (r: usize) {
        self.a.level_count()
    }

    fn get(&self, key: u64) -> (r: Option<Self::Val>) {
        let av = self.a.get(key);
        let bv = self.b.get(key);
        match (av, bv) {
            (None, None) => None,
            (x, y) => Some((x, y)),
        }
    }
}

/// Cursor for [`Union`]: two delegated cursors walking the same path.
pub struct Cursor<CA, CB> {
    a: CA,
    b: CB,
}

impl<'a, A: HibitTree, B: HibitTree> HibitTreeCursor<Union<'a, A, B>> for Cursor<
    A::Cursor,
    B::Cursor,
> where A::Cursor: HibitTreeCursor<A>, B::Cursor: HibitTreeCursor<B> {
    closed spec fn path(&self) -> Seq<u64> {
        self.a.path()
    }

    closed spec fn wf(&self, src: &Union<'a, A, B>) -> bool {
        &&& self.a.wf(src.a)
        &&& self.b.wf(src.b)
        &&& self.a.path() == self.b.path()
    }

    fn new(src: &Union<'a, A, B>) -> (r: Self) {
        Cursor {
            a: <A::Cursor as HibitTreeCursor<A>>::new(src.a),
            b: <B::Cursor as HibitTreeCursor<B>>::new(src.b),
        }
    }

    fn select_level_node(&mut self, src: &Union<'a, A, B>, level_n: usize, level_index: u64) -> (mask:
        u64) {
        let ma = self.a.select_level_node(src.a, level_n, level_index);
        let mb = self.b.select_level_node(src.b, level_n, level_index);
        ma | mb
    }

    fn data(&self, src: &Union<'a, A, B>, leaf_index: u64) -> (r: Option<
        (Option<A::Val>, Option<B::Val>),
    >) {
        let av = self.a.data(src.a, leaf_index);
        let bv = self.b.data(src.b, leaf_index);
        match (av, bv) {
            (None, None) => None,
            (x, y) => Some((x, y)),
        }
    }
}

} // verus!

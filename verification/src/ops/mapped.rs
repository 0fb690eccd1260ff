//! Lazy unary map. Every value the source yields passes through a function;
//! masks and keys are untouched.

use vstd::prelude::*;
use crate::hibit_tree::{HibitTree, HibitTreeCursor};

verus! {

/// Marker carried by every map function; it keeps the map-function surface
/// closed over the functions declared here.
pub trait Sealed<In> {

}

impl<In, F: MapFunction<In>> Sealed<In> for F {

}

/// A function applied to every yielded value, with a specification of its
/// result so that the mapped view keeps an exact contract.
pub trait MapFunction<In>: Sized {
    /// The mapped value type.
    type Output;

    /// What the function returns.
    spec fn result(&self, x: In) -> Self::Output;

    fn apply(&self, x: In) -> (r: Self::Output)
        ensures
            r == self.result(x),
    ;
}

/// The mapped view over one borrowed tree.
pub struct Mapped<'a, S, F> {
    /// The source tree.
    pub s: &'a S,
    /// The function applied to every yielded value.
    pub f: F,
}

/// Composes a tree with a function applied to every value it yields.
pub fn map<'a, V, S, F>(s: &'a S, f: F) -> (r: Mapped<'a, S, F>) where
    S: HibitTree<Val = V, ValModel = V>,
    F: MapFunction<V>,
    S::Cursor: HibitTreeCursor<S>,

    requires
        s.inv(),
        forall|v: V| #[trigger] S::vmodel(v) == v,
    ensures
        r.inv(),
        r.levels() == s.levels(),
        r.contents() == mapped_contents(s, &f),
        r.f == f,
{
    Mapped { s, f }
}

/// What the mapped view holds: the source keys, each value run through the
/// function.
pub open spec fn mapped_contents<V, S, F>(s: &S, f: &F) -> Map<u64, F::Output> where
    S: HibitTree<Val = V, ValModel = V>,
    F: MapFunction<V>,
 {
    Map::new(
        |k: u64| s.contents().dom().contains(k),
        |k: u64| f.result(s.contents()[k]),
    )
}

impl<'a, V, S, F> HibitTree for Mapped<'a, S, F> where
    S: HibitTree<Val = V, ValModel = V>,
    F: MapFunction<V>,
    S::Cursor: HibitTreeCursor<S>,
 {
    type Val = F::Output;

    type ValModel = F::Output;

    type Cursor = Cursor<S::Cursor>;

    open spec fn vmodel(v: F::Output) -> F::Output {
        v
    }

    /// Mapping changes no masks, so exactness is inherited.
    open spec fn exact_hierarchy() -> bool {
        S::exact_hierarchy()
    }

    open spec fn inv(&self) -> bool {
        &&& self.s.inv()
        &&& forall|v: V| #[trigger] S::vmodel(v) == v
    }

    open spec fn levels(&self) -> nat {
        self.s.levels()
    }

    open spec fn contents(&self) -> Map<u64, F::Output> {
        mapped_contents(self.s, &self.f)
    }

    open spec fn mask_at(&self, path: Seq<u64>) -> u64 {
        self.s.mask_at(path)
    }

    proof fn lemma_levels(&self) {
        self.s.lemma_levels();
    }

    proof fn lemma_contents_bounded(&self, k: u64) {
        self.s.lemma_contents_bounded(k);
    }

    proof fn lemma_mask_covers(&self, k: u64, n: int) {
        self.s.lemma_mask_covers(k, n);
    }

    proof fn lemma_mask_terminal(&self, path: Seq<u64>, b: u64) {
        self.s.lemma_mask_terminal(path, b);
    }

    proof fn lemma_mask_empty_below(&self, path: Seq<u64>, i: u64) {
        self.s.lemma_mask_empty_below(path, i);
    }

    fn level_count(&self) -> (r: usize) {
        self.s.level_count()
    }

    fn get(&self, key: u64) -> (r: Option<F::Output>) {
        match self.s.get(key) {
            Some(v) => Some(self.f.apply(v)),
            None => None,
        }
    }
}

/// Cursor for [`Mapped`]: the source cursor, with values run through the
/// function on the way out.
pub struct Cursor<C> {
    inner: C,
}

impl<'a, V, S, F> HibitTreeCursor<Mapped<'a, S, F>> for Cursor<S::Cursor> where
    S: HibitTree<Val = V, ValModel = V>,
    F: MapFunction<V>,
    S::Cursor: HibitTreeCursor<S>,
 {
    closed spec fn path(&self) -> Seq<u64> {
        self.inner.path()
    }

    closed spec fn wf(&self, src: &Mapped<'a, S, F>) -> bool {
        self.inner.wf(src.s)
    }

    fn new(src: &Mapped<'a, S, F>) -> (r: Self) {
        Cursor { inner: <S::Cursor as HibitTreeCursor<S>>::new(src.s) }
    }

    fn select_level_node(&mut self, src: &Mapped<'a, S, F>, level_n: usize, level_index: u64) -> (mask:
        u64) {
        self.inner.select_level_node(src.s, level_n, level_index)
    }

    fn data(&self, src: &Mapped<'a, S, F>, leaf_index: u64) -> (r: Option<F::Output>) {
        match self.inner.data(src.s, leaf_index) {
            Some(v) => Some(src.f.apply(v)),
            None => None,
        }
    }
}

} // verus!

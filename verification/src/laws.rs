//! The library's cross-cutting laws, stated over the map models that the
//! operation contracts speak of and proved once for every tree.

use vstd::prelude::*;
use vstd::map::*;
use crate::hibit_tree::{HibitTree, HibitTreeCursor};
use crate::ops::intersection::{Intersection, intersection_contents};
use crate::ops::union::union_contents;
use crate::ops::multi_intersection::{all_contain, models_at, multi_intersection_contents};
use crate::ops::multi_union::{any_contains, union_hits, multi_union_contents};
use crate::ops::mapped::{MapFunction, mapped_contents};

verus! {

/// Round trip: a key just inserted with a value reads back exactly that
/// value, whatever the tree held before.
pub proof fn lemma_insert_round_trip<T>(m: Map<u64, T>, k: u64, v: T)
    ensures
        m.insert(k, v).dom().contains(k),
        m.insert(k, v)[k] == v,
{
}

/// Delete completeness: after removing a key it is gone, and every other
/// stored pair is untouched.
pub proof fn lemma_remove_complete<T>(m: Map<u64, T>, k: u64)
    ensures
        !m.remove(k).dom().contains(k),
        forall|k2: u64|
            k2 != k && m.dom().contains(k2) ==> m.remove(k).dom().contains(k2) && #[trigger] m.remove(
                k,
            )[k2] == m[k2],
{
}

/// Idempotent insert: writing a key twice keeps only the second value, as if
/// the first write had not happened.
pub proof fn lemma_insert_idempotent<T>(m: Map<u64, T>, k: u64, v: T, v2: T)
    ensures
        m.insert(k, v).insert(k, v2) == m.insert(k, v2),
{
    assert(m.insert(k, v).insert(k, v2) =~= m.insert(k, v2));
}

/// Remove then reinsert: inserting a key, removing it, and inserting it
/// again leaves the same observable map as the single insert.
pub proof fn lemma_remove_reinsert<T>(m: Map<u64, T>, k: u64, v: T)
    ensures
        m.insert(k, v).remove(k).insert(k, v) == m.insert(k, v),
{
    assert(m.insert(k, v).remove(k).insert(k, v) =~= m.insert(k, v));
}

/// Union correctness: the union holds a key exactly when either operand
/// does, and pairs both operands' optional values.
pub proof fn lemma_union_correct<A: HibitTree, B: HibitTree>(a: &A, b: &B, k: u64)
    ensures
        union_contents(a, b).dom().contains(k) <==> (a.contents().dom().contains(k)
            || b.contents().dom().contains(k)),
        union_contents(a, b).dom().contains(k) ==> union_contents(a, b)[k] == (
            if a.contents().dom().contains(k) {
                Some(a.contents()[k])
            } else {
                None
            },
            if b.contents().dom().contains(k) {
                Some(b.contents()[k])
            } else {
                None
            },
        ),
{
}

/// Intersection correctness: the intersection holds a key exactly when both
/// operands do, and pairs their values.
pub proof fn lemma_intersection_correct<A: HibitTree, B: HibitTree>(a: &A, b: &B, k: u64)
    ensures
        intersection_contents(a, b).dom().contains(k) <==> (a.contents().dom().contains(k)
            && b.contents().dom().contains(k)),
        intersection_contents(a, b).dom().contains(k) ==> intersection_contents(a, b)[k] == (
            a.contents()[k],
            b.contents()[k],
        ),
{
}

/// N-ary intersection correctness: a key survives exactly when every source
/// holds it, and the hit carries each source's value in source order.
pub proof fn lemma_multi_intersection_correct<T: HibitTree>(s: Seq<T>, k: u64)
    ensures
        multi_intersection_contents(s).dom().contains(k) <==> all_contain(s, k),
        multi_intersection_contents(s).dom().contains(k) ==> multi_intersection_contents(s)[k]
            == models_at(s, k),
{
}

/// N-ary union correctness: a key survives exactly when some source holds
/// it, and the hit lists the holding sources in source order.
pub proof fn lemma_multi_union_correct<T: HibitTree>(s: Seq<T>, k: u64)
    ensures
        multi_union_contents(s).dom().contains(k) <==> any_contains(s, k),
        multi_union_contents(s).dom().contains(k) ==> multi_union_contents(s)[k] == union_hits(
            s,
            k,
        ),
{
}

/// Map faithfulness: the mapped view holds exactly the source keys, each
/// value run through the function.
pub proof fn lemma_map_faithful<V, S, F>(s: &S, f: &F, k: u64) where
    S: HibitTree<Val = V, ValModel = V>,
    F: MapFunction<V>,

    ensures
        mapped_contents(s, f).dom().contains(k) <==> s.contents().dom().contains(k),
        s.contents().dom().contains(k) ==> mapped_contents(s, f)[k] == f.result(
            s.contents()[k],
        ),
{
}

/// Intersection associativity: nesting the binary intersection either way
/// keeps the same keys, and the values are the same triples up to tuple
/// shape.
pub proof fn lemma_intersection_associative<'x, 'y, 'z, 'w, A, B, C>(
    l: &Intersection<'x, A, Intersection<'y, B, C>>,
    r: &Intersection<'z, Intersection<'w, A, B>, C>,
    k: u64,
) where
    A: HibitTree,
    B: HibitTree,
    C: HibitTree,
    A::Cursor: HibitTreeCursor<A>,
    B::Cursor: HibitTreeCursor<B>,
    C::Cursor: HibitTreeCursor<C>,

    requires
        l.a == r.a.a,
        l.b.a == r.a.b,
        l.b.b == r.b,
    ensures
        l.contents().dom().contains(k) <==> r.contents().dom().contains(k),
        l.contents().dom().contains(k) ==> {
            &&& l.contents()[k].0 == r.contents()[k].0.0
            &&& l.contents()[k].1.0 == r.contents()[k].0.1
            &&& l.contents()[k].1.1 == r.contents()[k].1
        },
{
}

} // verus!

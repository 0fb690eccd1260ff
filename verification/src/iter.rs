//! The generic tree iterator. One bit queue per level drives a cursor down
//! and up the hierarchy; pairs come out in strictly ascending key order, and
//! draining the iterator enumerates the contents exactly.

use vstd::prelude::*;
use crate::bits::{bit64, popcnt, BitQueue, lemma_pc_le, lemma_pc_remove};
use crate::keys::{cap, key_decomp, key_compose, path_ok, lemma_decomp_props, lemma_compose_props,
    lemma_compose_order, lemma_cap_fits, lemma_compose_snoc};
use crate::hibit_tree::{HibitTree, HibitTreeCursor};

verus! {

/// Weight of one level in the iterator's termination measure.
pub open spec fn pow65(e: nat) -> nat
    decreases e,
{
    if e == 0 {
        1
    } else {
        65 * pow65((e - 1) as nat)
    }
}

/// Remaining work: queue bits weigh more the closer to the root they sit.
pub open spec fn queues_measure(qs: Seq<BitQueue>, n: int) -> nat
    decreases qs.len() - n,
{
    if n < 0 || n >= qs.len() {
        0
    } else {
        popcnt(qs[n].mask()) * pow65((qs.len() - n) as nat) + queues_measure(qs, n + 1)
    }
}

proof fn lemma_measure_agree(qs1: Seq<BitQueue>, qs2: Seq<BitQueue>, n: int)
    requires
        qs1.len() == qs2.len(),
        forall|m: int| n <= m < qs1.len() ==> qs1[m].mask() == qs2[m].mask(),
    ensures
        queues_measure(qs1, n) == queues_measure(qs2, n),
    decreases qs1.len() - n,
{
    if n < qs1.len() {
        lemma_measure_agree(qs1, qs2, n + 1);
    }
}

proof fn lemma_pow65_pos(e: nat)
    ensures
        pow65(e) >= 1,
    decreases e,
{
    if e > 0 {
        lemma_pow65_pos((e - 1) as nat);
    }
}

proof fn lemma_measure_head(qs1: Seq<BitQueue>, qs2: Seq<BitQueue>, t: int, n: int)
    requires
        qs1.len() == qs2.len(),
        0 <= t <= n <= qs1.len(),
        forall|m: int| t <= m < n ==> (#[trigger] qs1[m]).mask() == qs2[m].mask(),
    ensures
        queues_measure(qs1, t) + queues_measure(qs2, n) == queues_measure(qs2, t)
            + queues_measure(qs1, n),
    decreases n - t,
{
    if t < n {
        lemma_measure_head(qs1, qs2, t + 1, n);
    }
}

/// Popping one bit at level `n` and seeding level `n + 1` shrinks the
/// weighted measure.
proof fn lemma_step_measure(qs: Seq<BitQueue>, qs2: Seq<BitQueue>, n: int, j: u64)
    requires
        qs.len() == qs2.len(),
        0 <= n < qs.len() - 1,
        forall|m: int| 0 <= m < qs.len() && m != n && m != n + 1 ==> (#[trigger] qs2[m]).mask() == qs[m].mask(),
        bit64(qs[n].mask(), j),
        forall|jj: u64|
            jj < 64 ==> bit64(qs2[n].mask(), jj) == (jj != j && bit64(qs[n].mask(), jj)),
        qs[n + 1].mask() == 0,
    ensures
        queues_measure(qs2, 0) < queues_measure(qs, 0),
{
    let len = qs.len() as int;
    crate::bits::lemma_bit_clear(qs[n].mask(), j);
    crate::bits::lemma_pc_same(qs2[n].mask(), qs[n].mask() & !(1u64 << j), 64);
    lemma_pc_remove(qs[n].mask(), j, 64);
    assert(popcnt(qs2[n].mask()) + 1 == popcnt(qs[n].mask()));
    crate::bits::lemma_bit_zero();
    crate::bits::lemma_pc_zero_mask(64);
    assert(popcnt(qs[n + 1].mask()) == 0);
    lemma_measure_agree(qs, qs2, n + 2);
    lemma_measure_head(qs, qs2, 0, n);
    let w1 = pow65((len - n - 1) as nat);
    let w0 = pow65((len - n) as nat);
    assert(w0 == 65 * w1);
    lemma_pow65_pos((len - n - 1) as nat);
    lemma_pc_le(qs2[n + 1].mask(), 64);
    vstd::arithmetic::mul::lemma_mul_basics(w1 as int);
    assert(popcnt(qs2[n + 1].mask()) * w1 <= 64 * w1) by {
        vstd::arithmetic::mul::lemma_mul_inequality(
            popcnt(qs2[n + 1].mask()) as int,
            64,
            w1 as int,
        );
    }
    assert(popcnt(qs2[n].mask()) * w0 + w0 == popcnt(qs[n].mask()) * w0) by {
        vstd::arithmetic::mul::lemma_mul_is_distributive_add_other_way(
            w0 as int,
            popcnt(qs2[n].mask()) as int,
            1,
        );
    }
    assert(queues_measure(qs, n) == popcnt(qs[n].mask()) * w0 + queues_measure(qs, n + 1));
    assert(queues_measure(qs, n + 1) == popcnt(qs[n + 1].mask()) * w1 + queues_measure(
        qs,
        n + 2,
    ));
    assert(popcnt(qs[n + 1].mask()) == 0);
    assert(popcnt(qs[n + 1].mask()) * w1 == 0);
    assert(queues_measure(qs2, n) == popcnt(qs2[n].mask()) * w0 + queues_measure(qs2, n + 1));
    assert(queues_measure(qs2, n + 1) == popcnt(qs2[n + 1].mask()) * w1 + queues_measure(
        qs2,
        n + 2,
    ));
    assert(queues_measure(qs2, n) < queues_measure(qs, n));
}


/// Walks any [`HibitTree`] source, yielding `(key, value)` pairs in strictly
/// ascending key order until the contents are exhausted.
pub struct Iter<'a, S: HibitTree> where S::Cursor: HibitTreeCursor<S> {
    src: &'a S,
    queues: Vec<BitQueue>,
    indices: Vec<u64>,
    cursor: S::Cursor,
    cursor_len: Ghost<int>,
    done: Ghost<Seq<(u64, S::ValModel)>>,
}

impl<'a, S: HibitTree> Iter<'a, S> where S::Cursor: HibitTreeCursor<S> {
    /// The source tree this iterator reads.
    pub closed spec fn source(self) -> &'a S {
        self.src
    }

    /// The pairs yielded so far.
    pub closed spec fn done(self) -> Seq<(u64, S::ValModel)> {
        self.done@
    }

    spec fn levels_s(self) -> nat {
        self.src.levels()
    }

    /// The selected index path down to level `n`.
    spec fn pfx(self, n: int) -> Seq<u64> {
        self.indices@.take(n)
    }

    /// Key `k` is still reachable: some queue level whose selected prefix
    /// matches `k` holds `k`'s digit for that level.
    spec fn in_rem(self, k: u64) -> bool {
        exists|n: int|
            {
                &&& 0 <= n < self.levels_s()
                &&& key_decomp(self.levels_s(), k as nat).take(n) == self.pfx(n)
                &&& bit64(
                    (#[trigger] self.queues@[n]).mask(),
                    key_decomp(self.levels_s(), k as nat)[n],
                )
            }
    }

    /// The iterator's invariant.
    pub closed spec fn wf(self) -> bool {
        let levels = self.levels_s();
        &&& self.src.inv()
        &&& self.queues@.len() == levels
        &&& self.indices@.len() == levels - 1
        &&& path_ok(self.indices@)
        // queue bits are real mask bits of the selected node
        &&& forall|n: int, b: u64|
            0 <= n < levels && #[trigger] bit64(self.queues@[n].mask(), b) ==> bit64(
                self.src.mask_at(self.pfx(n)),
                b,
            )
        // bits at an outer level lie beyond the selected index wherever a
        // deeper queue is still charged
        &&& forall|n: int, n2: int, b: u64|
            0 <= n < n2 < levels && (#[trigger] self.queues@[n2]).mask() != 0 && #[trigger] bit64(
                self.queues@[n].mask(),
                b,
            ) ==> b > self.indices@[n]
        // the cursor sits on the selected path
        &&& self.cursor.wf(self.src)
        &&& 0 <= self.cursor_len@ <= levels - 1
        &&& self.cursor.path() == self.pfx(self.cursor_len@)
        &&& forall|n: int|
            0 <= n < levels && (#[trigger] self.queues@[n]).mask() != 0 ==> n <= self.cursor_len@
        // everything stored and not yet yielded is reachable
        &&& forall|k: u64|
            self.src.contents().dom().contains(k) && !(exists|i: int|
                0 <= i < self.done@.len() && (#[trigger] self.done@[i]).0 == k)
                ==> #[trigger] self.in_rem(k)
        // everything reachable comes after everything yielded
        &&& forall|k: u64, i: int|
            self.src.contents().dom().contains(k) && #[trigger] self.in_rem(k) && 0 <= i
                < self.done@.len() ==> (#[trigger] self.done@[i]).0 < k
        // the yield record is sound and ascending
        &&& forall|i: int|
            0 <= i < self.done@.len() ==> self.src.contents().dom().contains(
                (#[trigger] self.done@[i]).0,
            ) && self.done@[i].1 == self.src.contents()[self.done@[i].0]
        &&& forall|i: int, i2: int|
            0 <= i < i2 < self.done@.len() ==> (#[trigger] self.done@[i]).0 < (
            #[trigger] self.done@[i2]).0
    }

    /// Primes a cursor on the root and seeds the root-level bit queue.
    pub fn new(src: &'a S) -> (r: Self)
        requires
            src.inv(),
        ensures
            r.wf(),
            r.source() == src,
            r.done() == Seq::<(u64, S::ValModel)>::empty(),
    {
        let levels = src.level_count();
        proof {
            src.lemma_levels();
        }
        let mut cursor = <S::Cursor as HibitTreeCursor<S>>::new(src);
        let root_mask = cursor.select_level_node(src, 0, 0);
        let mut queues: Vec<BitQueue> = Vec::new();
        queues.push(BitQueue::from_mask(root_mask));
        let mut n: usize = 1;
        while n < levels
            invariant
                1 <= n <= levels,
                queues@.len() == n,
                queues@[0].mask() == root_mask,
                forall|m: int| 1 <= m < n ==> (#[trigger] queues@[m]).mask() == 0,
            decreases levels - n,
        {
            queues.push(BitQueue::empty());
            n = n + 1;
        }
        let mut indices: Vec<u64> = Vec::new();
        let mut m: usize = 0;
        while m + 1 < levels
            invariant
                m <= levels - 1,
                indices@.len() == m,
                forall|i: int| 0 <= i < m ==> (#[trigger] indices@[i]) == 0u64,
            decreases levels - m,
        {
            indices.push(0);
            m = m + 1;
        }
        let r = Iter {
            src,
            queues,
            indices,
            cursor,
            cursor_len: Ghost(0),
            done: Ghost(Seq::empty()),
        };
        proof {
            crate::bits::lemma_bit_zero();
            assert(r.pfx(0) =~= Seq::<u64>::empty());
            assert(r.cursor.path() == r.pfx(0));
            assert forall|n2: int, b: u64|
                0 <= n2 < r.levels_s() && #[trigger] bit64(r.queues@[n2].mask(), b) implies bit64(
                r.src.mask_at(r.pfx(n2)),
                b,
            ) by {
                if n2 > 0 {
                    assert(r.queues@[n2].mask() == 0);
                } else {
                    assert(r.pfx(0) == Seq::<u64>::empty());
                }
            }
            assert forall|k: u64|
                r.src.contents().dom().contains(k) && !(exists|i: int|
                    0 <= i < r.done@.len() && (#[trigger] r.done@[i]).0 == k)
                    implies #[trigger] r.in_rem(k) by {
                src.lemma_mask_covers(k, 0);
                src.lemma_contents_bounded(k);
                let p = key_decomp(r.levels_s(), k as nat);
                assert(p.take(0) =~= Seq::<u64>::empty());
                assert(p.take(0) == r.pfx(0) && bit64(r.queues@[0].mask(), p[0]));
            }
        }
        r
    }

    /// Yields the next pair in ascending key order, or reports exhaustion
    /// once every stored pair has come out.
    pub fn next(&mut self) -> (r: Option<(u64, S::Val)>)
        requires
            old(self).wf(),
        ensures
            final(self).wf(),
            final(self).source() == old(self).source(),
            match r {
                Some(kv) => {
                    &&& final(self).done() == old(self).done().push((kv.0, S::vmodel(kv.1)))
                    &&& old(self).source().contents().dom().contains(kv.0)
                    &&& S::vmodel(kv.1) == old(self).source().contents()[kv.0]
                    &&& forall|i: int|
                        0 <= i < old(self).done().len() ==> (#[trigger] old(self).done()[i]).0
                            < kv.0
                },
                None => {
                    &&& final(self).done() == old(self).done()
                    &&& forall|k: u64|
                        old(self).source().contents().dom().contains(k) ==> exists|i: int|
                            0 <= i < final(self).done().len() && (#[trigger] final(self).done()[i]).0 == k
                },
            },
    {
        let levels = self.src.level_count();
        proof {
            self.src.lemma_levels();
        }
        loop
            invariant
                self.wf(),
                self.src == old(self).src,
                self.done@ == old(self).done@,
                levels == self.levels_s(),
            decreases queues_measure(self.queues@, 0),
        {
            let ghost pre = *self;
            proof {
                self.src.lemma_levels();
            }
            let mut tq = *vstd::slice::slice_index_get(self.queues.as_slice(), levels - 1);
            let popped = tq.next();
            match popped {
                Some(b) => {
                    self.queues.set(levels - 1, tq);
                    let ghost lv = levels as int;
                    proof {
                        // the popped bit names a stored key
                        assert(bit64(pre.queues@[lv - 1].mask(), b));
                        assert(self.indices@ =~= self.pfx(lv - 1));
                        assert(bit64(self.src.mask_at(self.indices@), b));
                        self.src.lemma_mask_terminal(self.indices@, b);
                        assert(pre.cursor_len@ == lv - 1) by {
                            crate::bits::lemma_bit_zero();
                        }
                        assert(self.cursor == pre.cursor);
                        assert(self.cursor.path() =~= self.indices@);
                        assert(self.cursor.path() == self.indices@);
                    }
                    let ghost k = key_compose(self.indices@.push(b)) as u64;
                    let v = self.cursor.data_unchecked(self.src, b);
                    let key = self.key_of(b);
                    proof {
                        let p1 = self.indices@.push(b);
                        lemma_compose_props(p1);
                        lemma_cap_fits(self.levels_s());
                        assert(key == k);
                        assert(key_decomp(self.levels_s(), k as nat) == p1);
                        assert(S::vmodel(v) == self.src.contents()[k]);
                        // k was reachable, so it beats everything yielded
                        assert(pre.in_rem(k)) by {
                            assert(p1.take(lv - 1) =~= pre.pfx(lv - 1));
                            assert(p1[lv - 1] == b);
                            assert(bit64(pre.queues@[lv - 1].mask(), b));
                        }
                        assert forall|i: int| 0 <= i < pre.done@.len() implies (
                        #[trigger] pre.done@[i]).0 < k by {}
                        self.done@ = self.done@.push((k, S::vmodel(v)));
                        // whatever stays reachable is beyond k: either a
                        // larger leaf bit here, or a later branch above
                        assert forall|k2: u64|
                            self.src.contents().dom().contains(k2) && #[trigger] self.in_rem(k2)
                                implies k2 > k by {
                            let p2 = key_decomp(self.levels_s(), k2 as nat);
                            self.src.lemma_contents_bounded(k2);
                            lemma_decomp_props(self.levels_s(), k2 as nat);
                            let n = choose|n: int|
                                {
                                    &&& 0 <= n < self.levels_s()
                                    &&& key_decomp(self.levels_s(), k2 as nat).take(n) == self.pfx(
                                        n,
                                    )
                                    &&& bit64(
                                        (#[trigger] self.queues@[n]).mask(),
                                        key_decomp(self.levels_s(), k2 as nat)[n],
                                    )
                                };
                            if n == lv - 1 {
                                assert(p2[n] != b && bit64(pre.queues@[lv - 1].mask(), p2[n]));
                                assert(p2[n] > b);
                                assert(p1.take(n) =~= self.pfx(n));
                                assert(p1.subrange(0, n) == p2.subrange(0, n));
                                lemma_compose_order(p1, p2, n);
                            } else {
                                assert(bit64(pre.queues@[n].mask(), p2[n]));
                                assert(pre.queues@[lv - 1].mask() != 0) by {
                                    crate::bits::lemma_bit_zero();
                                }
                                assert(p2[n] > self.indices@[n]);
                                assert(p1.take(n) =~= self.pfx(n));
                                assert(p1[n] == self.indices@[n]);
                                assert(p1.subrange(0, n) == p2.subrange(0, n));
                                lemma_compose_order(p1, p2, n);
                            }
                            assert(key_compose(p1) < key_compose(p2));
                            assert(key_compose(p2) == k2 as nat);
                        }
                        // reachability now implies reachability before
                        assert forall|k2: u64| #[trigger] self.in_rem(k2) implies pre.in_rem(
                            k2,
                        ) by {
                            let n = choose|n: int|
                                {
                                    &&& 0 <= n < self.levels_s()
                                    &&& key_decomp(self.levels_s(), k2 as nat).take(n) == self.pfx(
                                        n,
                                    )
                                    &&& bit64(
                                        (#[trigger] self.queues@[n]).mask(),
                                        key_decomp(self.levels_s(), k2 as nat)[n],
                                    )
                                };
                            if n == lv - 1 {
                                assert(bit64(pre.queues@[n].mask(), key_decomp(
                                    pre.levels_s(),
                                    k2 as nat,
                                )[n]));
                            }
                            assert(pre.pfx(n) == self.pfx(n));
                        }
                        // the record stays sound, complete and ascending
                        assert forall|k2: u64|
                            self.src.contents().dom().contains(k2) && !(exists|i: int|
                                0 <= i < self.done@.len() && (#[trigger] self.done@[i]).0 == k2)
                                implies #[trigger] self.in_rem(k2) by {
                            if k2 == k {
                                assert((#[trigger] self.done@[self.done@.len() - 1]).0 == k2);
                                assert(false);
                            }
                            assert forall|i: int| 0 <= i < pre.done@.len() implies (
                            #[trigger] pre.done@[i]).0 != k2 by {
                                assert(self.done@[i] == pre.done@[i]);
                            }
                            assert(pre.in_rem(k2));
                            let p2 = key_decomp(self.levels_s(), k2 as nat);
                            self.src.lemma_contents_bounded(k2);
                            lemma_decomp_props(self.levels_s(), k2 as nat);
                            let n = choose|n: int|
                                {
                                    &&& 0 <= n < pre.levels_s()
                                    &&& key_decomp(pre.levels_s(), k2 as nat).take(n) == pre.pfx(n)
                                    &&& bit64(
                                        (#[trigger] pre.queues@[n]).mask(),
                                        key_decomp(pre.levels_s(), k2 as nat)[n],
                                    )
                                };
                            if n == lv - 1 && p2[n] == b {
                                assert forall|t: int| 0 <= t < lv implies #[trigger] p2[t]
                                    == p1[t] by {
                                    if t < lv - 1 {
                                        assert(p2[t] == p2.take(lv - 1)[t]);
                                        assert(p2.take(lv - 1)[t] == pre.pfx(lv - 1)[t]);
                                        assert(pre.pfx(lv - 1)[t] == self.indices@[t]);
                                        assert(p1[t] == self.indices@[t]);
                                    } else {
                                        assert(p2[t] == b && p1[t] == b);
                                    }
                                }
                                assert(p2 =~= p1);
                                assert(k2 as nat == key_compose(p2));
                                assert(false);
                            } else if n == lv - 1 {
                                assert(bit64(self.queues@[n].mask(), p2[n]));
                                assert(self.in_rem(k2));
                            } else {
                                assert(bit64(self.queues@[n].mask(), p2[n]));
                                assert(self.in_rem(k2));
                            }
                        }
                        // the structural clauses carry over: queues only
                        // shrank, the cursor and indices are untouched
                        assert forall|n2: int, b2: u64|
                            0 <= n2 < lv && #[trigger] bit64(self.queues@[n2].mask(), b2)
                                implies bit64(self.src.mask_at(self.pfx(n2)), b2) by {
                            assert(bit64(pre.queues@[n2].mask(), b2));
                            assert(self.pfx(n2) == pre.pfx(n2));
                        }
                        assert forall|n2: int|
                            0 <= n2 < lv && (#[trigger] self.queues@[n2]).mask() != 0 implies (
                        pre.queues@[n2]).mask() != 0 by {
                            if n2 == lv - 1 {
                                crate::bits::lemma_popcnt_positive(self.queues@[n2].mask());
                                let b2 = choose|b2: u64| bit64(self.queues@[n2].mask(), b2);
                                assert(bit64(pre.queues@[n2].mask(), b2));
                                crate::bits::lemma_bit_zero();
                            }
                        }
                        assert forall|n1: int, n2: int, b2: u64|
                            0 <= n1 < n2 < lv && (#[trigger] self.queues@[n2]).mask() != 0
                                && #[trigger] bit64(self.queues@[n1].mask(), b2) implies b2
                            > self.indices@[n1] by {
                            assert(bit64(pre.queues@[n1].mask(), b2));
                            assert(pre.queues@[n2].mask() != 0);
                        }
                        assert forall|n2: int|
                            0 <= n2 < lv && (#[trigger] self.queues@[n2]).mask() != 0 implies n2
                            <= self.cursor_len@ by {
                            assert(pre.queues@[n2].mask() != 0);
                        }
                        // the record stays sound and ascending with k at the
                        // end, and whatever remains beats every entry
                        assert forall|i: int|
                            0 <= i < self.done@.len() implies self.src.contents().dom().contains(
                            (#[trigger] self.done@[i]).0,
                        ) && self.done@[i].1 == self.src.contents()[self.done@[i].0] by {
                            if i < self.done@.len() - 1 {
                                assert(self.done@[i] == pre.done@[i]);
                            }
                        }
                        assert forall|i: int, i2: int|
                            0 <= i < i2 < self.done@.len() implies (#[trigger] self.done@[i]).0 < (
                        #[trigger] self.done@[i2]).0 by {
                            assert(self.done@[i] == pre.done@[i]);
                            if i2 < self.done@.len() - 1 {
                                assert(self.done@[i2] == pre.done@[i2]);
                            } else {
                                assert(self.done@[i2].0 == k);
                            }
                        }
                        assert forall|k2: u64, i: int|
                            self.src.contents().dom().contains(k2) && #[trigger] self.in_rem(k2)
                                && 0 <= i < self.done@.len() implies (#[trigger] self.done@[i]).0
                            < k2 by {
                            assert(pre.in_rem(k2));
                            if i < self.done@.len() - 1 {
                                assert(self.done@[i] == pre.done@[i]);
                            } else {
                                assert(self.done@[i].0 == k);
                                assert(k2 > k);
                            }
                        }
                        assert(self.wf());
                        assert(final(self).done() =~= old(self).done().push((k, S::vmodel(v))));
                    }
                    return Some((key, v));
                },
                None => {
                    proof {
                        assert(pre.queues@[levels as int - 1].mask() == 0);
                        assert(tq.mask() == 0);
                    }
                    // walk up towards the root looking for a charged queue
                    let mut n = levels - 1;
                    let mut seeded = false;
                    while n > 0 && !seeded
                        invariant
                            self.wf(),
                            self.src == old(self).src,
                            self.done@ == old(self).done@,
                            levels == self.levels_s(),
                            n <= levels - 1,
                            !seeded ==> *self == pre,
                            !seeded ==> forall|m: int|
                                n <= m < levels ==> (#[trigger] self.queues@[m]).mask() == 0,
                            seeded ==> queues_measure(self.queues@, 0) < queues_measure(
                                pre.queues@,
                                0,
                            ),
                        decreases n,
                    {
                        n = n - 1;
                        let mut q = *vstd::slice::slice_index_get(self.queues.as_slice(), n);
                        match q.next() {
                            Some(j) => {
                                self.step_down(n, j, q, Ghost(pre));
                                seeded = true;
                            },
                            None => {
                                proof {
                                    assert(self.queues@[n as int].mask() == 0);
                                }
                            },
                        }
                    }
                    if !seeded {
                        proof {
                            assert forall|k: u64|
                                old(self).src.contents().dom().contains(k) implies exists|i: int|
                                0 <= i < self.done@.len() && (#[trigger] self.done@[i]).0 == k by {
                                if !(exists|i: int|
                                    0 <= i < self.done@.len() && (#[trigger] self.done@[i]).0
                                        == k) {
                                    self.src.lemma_contents_bounded(k);
                                    lemma_decomp_props(self.levels_s(), k as nat);
                                    assert(self.in_rem(k));
                                    let n2 = choose|n2: int|
                                        {
                                            &&& 0 <= n2 < self.levels_s()
                                            &&& key_decomp(self.levels_s(), k as nat).take(n2)
                                                == self.pfx(n2)
                                            &&& bit64(
                                                (#[trigger] self.queues@[n2]).mask(),
                                                key_decomp(self.levels_s(), k as nat)[n2],
                                            )
                                        };
                                    assert(self.queues@[n2].mask() == 0);
                                    crate::bits::lemma_bit_zero();
                                }
                            }
                        }
                        return None;
                    }
                },
            }
        }
    }


    /// One walk-up step: commits the popped index `j` at level `n`, descends
    /// the cursor one level, and seeds the queue below from the child mask.
    fn step_down(&mut self, n: usize, j: u64, q: BitQueue, Ghost(pre): Ghost<Iter<'a, S>>)
        requires
            old(self).wf(),
            pre == *old(self),
            (n as int) < old(self).levels_s() - 1,
            bit64(old(self).queues@[n as int].mask(), j),
            forall|jj: u64| jj < j ==> !bit64(old(self).queues@[n as int].mask(), jj),
            forall|jj: u64|
                jj < 64 ==> bit64(q.mask(), jj) == (jj != j && bit64(
                    old(self).queues@[n as int].mask(),
                    jj,
                )),
            forall|m: int|
                (n as int) < m < old(self).levels_s() ==> (#[trigger] old(
                    self,
                ).queues@[m]).mask() == 0,
        ensures
            final(self).wf(),
            final(self).src == old(self).src,
            final(self).done@ == old(self).done@,
            queues_measure(final(self).queues@, 0) < queues_measure(old(self).queues@, 0),
    {
        proof {
            self.src.lemma_levels();
        }
        let levels = self.src.level_count();
        self.queues.set(n, q);
        self.indices.set(n, j);
        proof {
            // the cursor is at least `n` levels deep, so the select below is
            // within its reach
            assert(pre.queues@[n as int].mask() != 0) by {
                crate::bits::lemma_bit_zero();
            }
            assert(pre.cursor_len@ >= n);
            assert(self.cursor.path().take(n as int) =~= self.indices@.take(n as int));
        }
        let mask = self.cursor.select_level_node(self.src, n + 1, j);
        self.queues.set(n + 1, BitQueue::from_mask(mask));
        self.cursor_len = Ghost(n as int + 1);
        proof {
            let lv = self.levels_s() as int;
            let ni = n as int;
            assert(self.done@ == pre.done@);
            assert(self.src == pre.src);
            assert(pre.wf());
            assert(self.cursor.path() =~= self.pfx(ni + 1));
            assert(self.pfx(ni) =~= pre.pfx(ni));
            assert forall|m: int| 0 <= m < lv && m != ni && m != ni + 1 implies self.queues@[m]
                == pre.queues@[m] by {}
            // queue bits remain real mask bits
            assert forall|m: int, b: u64|
                0 <= m < lv && #[trigger] bit64(self.queues@[m].mask(), b) implies bit64(
                self.src.mask_at(self.pfx(m)),
                b,
            ) by {
                if m == ni + 1 {
                } else if m == ni {
                    assert(bit64(pre.queues@[m].mask(), b));
                    assert(self.pfx(m) =~= pre.pfx(m));
                } else if m < ni {
                    assert(bit64(pre.queues@[m].mask(), b));
                    assert(self.pfx(m) =~= pre.pfx(m));
                } else {
                    assert(pre.queues@[m].mask() == 0);
                    crate::bits::lemma_bit_zero();
                    assert(false);
                }
            }
            // ordering between levels
            assert forall|m: int, m2: int, b: u64|
                0 <= m < m2 < lv && (#[trigger] self.queues@[m2]).mask() != 0 && #[trigger] bit64(
                    self.queues@[m].mask(),
                    b,
                ) implies b > self.indices@[m] by {
                if m == ni {
                    assert(b != j && bit64(pre.queues@[ni].mask(), b));
                    assert(b >= j);
                } else if m < ni {
                    assert(bit64(pre.queues@[m].mask(), b));
                    assert(pre.queues@[ni].mask() != 0) by {
                        crate::bits::lemma_bit_zero();
                    }
                    assert(m < ni < lv);
                    assert(b > pre.indices@[m]);
                } else {
                    // m > ni: the only charged deeper queue is the fresh one
                    assert(m2 > m > ni);
                    assert(m2 != ni + 1 ==> pre.queues@[m2].mask() == 0);
                    assert(m == ni + 1 ==> m2 > ni + 1 && self.queues@[m2].mask() == 0);
                    assert(m > ni + 1 ==> pre.queues@[m].mask() == 0 && !bit64(
                        self.queues@[m].mask(),
                        b,
                    )) by {
                        crate::bits::lemma_bit_zero();
                    }
                }
            }
            // cursor depth bookkeeping
            assert forall|m: int|
                0 <= m < lv && (#[trigger] self.queues@[m]).mask() != 0 implies m
                <= self.cursor_len@ by {
                if m > ni + 1 {
                    assert(pre.queues@[m].mask() == 0);
                }
            }
            // reachability is preserved
            assert forall|k: u64|
                self.src.contents().dom().contains(k) && !(exists|i: int|
                    0 <= i < self.done@.len() && (#[trigger] self.done@[i]).0 == k)
                    implies #[trigger] self.in_rem(k) by {
                self.src.lemma_contents_bounded(k);
                lemma_decomp_props(self.levels_s(), k as nat);
                assert(!(exists|i: int|
                    0 <= i < pre.done@.len() && (#[trigger] pre.done@[i]).0 == k));
                assert(pre.in_rem(k));
                let p = key_decomp(self.levels_s(), k as nat);
                let m = choose|m: int|
                    {
                        &&& 0 <= m < pre.levels_s()
                        &&& key_decomp(pre.levels_s(), k as nat).take(m) == pre.pfx(m)
                        &&& bit64(
                            (#[trigger] pre.queues@[m]).mask(),
                            key_decomp(pre.levels_s(), k as nat)[m],
                        )
                    };
                if m == ni && p[m] == j {
                    // the branch we just descended into: the child mask
                    // covers k one level further down
                    self.src.lemma_mask_covers(k, ni + 1);
                    assert forall|t: int| 0 <= t < ni + 1 implies #[trigger] p.take(ni + 1)[t]
                        == self.pfx(ni + 1)[t] by {
                        if t < ni {
                            assert(p.take(ni + 1)[t] == p.take(ni)[t]);
                            assert(p.take(ni)[t] == pre.pfx(ni)[t]);
                            assert(pre.pfx(ni)[t] == pre.indices@[t]);
                            assert(self.pfx(ni + 1)[t] == self.indices@[t]);
                            assert(self.indices@[t] == pre.indices@[t]);
                        } else {
                            assert(p.take(ni + 1)[t] == p[ni]);
                            assert(self.pfx(ni + 1)[t] == self.indices@[ni]);
                        }
                    }
                    assert(p.take(ni + 1) =~= self.pfx(ni + 1));
                    assert(bit64(self.src.mask_at(self.pfx(ni + 1)), p[ni + 1]));
                    assert(bit64(self.queues@[ni + 1].mask(), p[ni + 1]));
                    assert(self.in_rem(k));
                } else if m > ni {
                    assert(pre.queues@[m].mask() == 0);
                    crate::bits::lemma_bit_zero();
                    assert(false);
                } else {
                    assert(self.queues@[m].mask() == q.mask() || self.queues@[m]
                        == pre.queues@[m]);
                    assert(bit64(self.queues@[m].mask(), p[m]));
                    assert(self.pfx(m) =~= pre.pfx(m));
                    assert(self.in_rem(k));
                }
            }
            // everything reachable still comes after everything yielded
            assert forall|k: u64, i: int|
                self.src.contents().dom().contains(k) && #[trigger] self.in_rem(k) && 0 <= i
                    < self.done@.len() implies (#[trigger] self.done@[i]).0 < k by {
                self.src.lemma_contents_bounded(k);
                lemma_decomp_props(self.levels_s(), k as nat);
                let p = key_decomp(self.levels_s(), k as nat);
                let m = choose|m: int|
                    {
                        &&& 0 <= m < self.levels_s()
                        &&& key_decomp(self.levels_s(), k as nat).take(m) == self.pfx(m)
                        &&& bit64(
                            (#[trigger] self.queues@[m]).mask(),
                            key_decomp(self.levels_s(), k as nat)[m],
                        )
                    };
                if m == ni + 1 {
                    // freshly seeded region: k was reachable through bit j at
                    // level n before the step
                    assert(p.take(ni + 1) == self.pfx(ni + 1));
                    assert forall|t: int| 0 <= t < ni implies #[trigger] p.take(ni)[t] == pre.pfx(
                        ni,
                    )[t] by {
                        assert(p.take(ni)[t] == p[t]);
                        assert(p[t] == p.take(ni + 1)[t]);
                        assert(p.take(ni + 1)[t] == self.pfx(ni + 1)[t]);
                        assert(self.pfx(ni + 1)[t] == self.indices@[t]);
                        assert(self.indices@[t] == pre.indices@[t]);
                        assert(pre.pfx(ni)[t] == pre.indices@[t]);
                    }
                    assert(p.take(ni) =~= pre.pfx(ni));
                    assert(p[ni] == p.take(ni + 1)[ni]);
                    assert(p.take(ni + 1)[ni] == self.pfx(ni + 1)[ni]);
                    assert(self.pfx(ni + 1)[ni] == self.indices@[ni]);
                    assert(p[ni] == j);
                    assert(bit64(pre.queues@[ni].mask(), j));
                    assert(pre.in_rem(k));
                } else if m == ni {
                    assert(bit64(pre.queues@[ni].mask(), p[m]));
                    assert(self.pfx(m) =~= pre.pfx(m));
                    assert(pre.in_rem(k));
                } else if m > ni + 1 {
                    assert(pre.queues@[m].mask() == 0);
                    crate::bits::lemma_bit_zero();
                    assert(false);
                } else {
                    assert(bit64(pre.queues@[m].mask(), p[m]));
                    assert(self.pfx(m) =~= pre.pfx(m));
                    assert(pre.in_rem(k));
                }
            }
            assert(self.wf());
            // the measure shrinks: one bit left level `n`, and whatever was
            // seeded below weighs strictly less
            lemma_step_measure(pre.queues@, self.queues@, ni, j);
        }
    }

    /// The key under the current path at leaf `b`, recomputed from the
    /// selected indices.
    fn key_of(&self, b: u64) -> (r: u64)
        requires
            self.src.inv(),
            self.indices@.len() == self.levels_s() - 1,
            path_ok(self.indices@),
            b < 64,
        ensures
            r == key_compose(self.indices@.push(b)) as u64,
    {
        proof {
            self.src.lemma_levels();
            lemma_compose_props(self.indices@.push(b));
            lemma_cap_fits(self.levels_s());
            assert(path_ok(self.indices@.push(b)));
        }
        let mut acc: u64 = 0;
        let mut i: usize = 0;
        let len = self.indices.len();
        while i < len
            invariant
                self.src.inv(),
                i <= len,
                len == self.indices@.len(),
                path_ok(self.indices@),
                b < 64,
                acc == key_compose(self.indices@.take(i as int)),
                acc < cap(i as nat),
                len == self.levels_s() - 1,
            decreases len - i,
        {
            let x = *vstd::slice::slice_index_get(self.indices.as_slice(), i);
            proof {
                self.src.lemma_levels();
                lemma_compose_snoc(self.indices@.take(i as int), x);
                assert(self.indices@.take(i as int + 1) =~= self.indices@.take(i as int).push(x));
                lemma_cap_fits((i + 1) as nat);
                lemma_compose_props(self.indices@.take(i as int + 1));
            }
            acc = acc * 64 + x;
            i = i + 1;
        }
        proof {
            self.src.lemma_levels();
            lemma_compose_snoc(self.indices@.take(len as int), b);
            assert(self.indices@.take(len as int) =~= self.indices@);
            lemma_cap_fits(self.levels_s());
            lemma_compose_props(self.indices@.push(b));
        }
        acc * 64 + b
    }
}


impl<T: Copy> crate::dense_tree::DenseTree<T> {
    /// Iterates this tree in ascending key order.
    pub fn iter(&self) -> (r: Iter<'_, crate::dense_tree::DenseTree<T>>)
        requires
            <crate::dense_tree::DenseTree<T> as HibitTree>::inv(self),
        ensures
            r.wf(),
            r.source() == self,
            r.done().len() == 0,
    {
        Iter::new(self)
    }
}

impl<'a, V, S, F> crate::ops::mapped::Mapped<'a, S, F> where
    S: HibitTree<Val = V, ValModel = V>,
    F: crate::ops::mapped::MapFunction<V>,
    S::Cursor: HibitTreeCursor<S>,
 {
    /// Iterates this view in ascending key order.
    pub fn iter(&self) -> (r: Iter<'_, crate::ops::mapped::Mapped<'a, S, F>>)
        requires
            self.inv(),
        ensures
            r.wf(),
            r.source() == self,
            r.done().len() == 0,
    {
        Iter::new(self)
    }
}

impl<'a, A: HibitTree, B: HibitTree> crate::ops::union::Union<'a, A, B> where
    A::Cursor: HibitTreeCursor<A>,
    B::Cursor: HibitTreeCursor<B>,
 {
    /// Iterates this view in ascending key order.
    pub fn iter(&self) -> (r: Iter<'_, crate::ops::union::Union<'a, A, B>>)
        requires
            self.inv(),
        ensures
            r.wf(),
            r.source() == self,
            r.done().len() == 0,
    {
        Iter::new(self)
    }
}

impl<'a, A: HibitTree, B: HibitTree> crate::ops::intersection::Intersection<'a, A, B> where
    A::Cursor: HibitTreeCursor<A>,
    B::Cursor: HibitTreeCursor<B>,
 {
    /// Iterates this view in ascending key order.
    pub fn iter(&self) -> (r: Iter<'_, crate::ops::intersection::Intersection<'a, A, B>>)
        requires
            self.inv(),
        ensures
            r.wf(),
            r.source() == self,
            r.done().len() == 0,
    {
        Iter::new(self)
    }
}

impl<'a, T: HibitTree> crate::ops::multi_intersection::MultiIntersection<'a, T> where
    T::Cursor: HibitTreeCursor<T>,
 {
    /// Iterates this view in ascending key order.
    pub fn iter(&self) -> (r: Iter<'_, crate::ops::multi_intersection::MultiIntersection<'a, T>>)
        requires
            self.inv(),
        ensures
            r.wf(),
            r.source() == self,
            r.done().len() == 0,
    {
        Iter::new(self)
    }
}

impl<'a, T: HibitTree> crate::ops::multi_union::MultiUnion<'a, T> where
    T::Cursor: HibitTreeCursor<T>,
 {
    /// Iterates this view in ascending key order.
    pub fn iter(&self) -> (r: Iter<'_, crate::ops::multi_union::MultiUnion<'a, T>>)
        requires
            self.inv(),
        ensures
            r.wf(),
            r.source() == self,
            r.done().len() == 0,
    {
        Iter::new(self)
    }
}


impl<'a, S: HibitTree> Iter<'a, S> where S::Cursor: HibitTreeCursor<S> {
    /// Pairs come out sorted: the yield record is strictly ascending by key.
    pub proof fn lemma_ascending(self)
        requires
            self.wf(),
        ensures
            forall|i: int, i2: int|
                0 <= i < i2 < self.done().len() ==> (#[trigger] self.done()[i]).0 < (
                #[trigger] self.done()[i2]).0,
    {
    }

    /// Every pair yielded so far is a stored pair of the source.
    pub proof fn lemma_sound(self)
        requires
            self.wf(),
        ensures
            forall|i: int|
                0 <= i < self.done().len() ==> self.source().contents().dom().contains(
                    (#[trigger] self.done()[i]).0,
                ) && self.done()[i].1 == self.source().contents()[self.done()[i].0],
    {
    }
}

} // verus!

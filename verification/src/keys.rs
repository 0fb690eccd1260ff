//! Key decomposition. A key below `cap(levels) == 64^levels` splits into
//! `levels` per-level indices, most significant first; composing the indices
//! back gives the key. Lexicographic order on index paths agrees with numeric
//! order on keys, which is what makes mask-driven iteration ascending.

use vstd::prelude::*;
use vstd::arithmetic::div_mod::*;
use vstd::arithmetic::mul::*;

verus! {

/// Number of distinct keys a tree of `levels` levels can hold.
pub open spec fn cap(levels: nat) -> nat
    decreases levels,
{
    if levels == 0 {
        1
    } else {
        64 * cap((levels - 1) as nat)
    }
}

pub proof fn lemma_cap_pos(levels: nat)
    ensures
        cap(levels) >= 1,
    decreases levels,
{
    if levels > 0 {
        lemma_cap_pos((levels - 1) as nat);
    }
}

pub proof fn lemma_cap_mono(l1: nat, l2: nat)
    requires
        l1 <= l2,
    ensures
        cap(l1) <= cap(l2),
    decreases l2,
{
    if l1 < l2 {
        lemma_cap_mono(l1, (l2 - 1) as nat);
        lemma_cap_pos((l2 - 1) as nat);
    }
}

/// Up to ten levels, every capacity fits comfortably in a `u64`.
pub proof fn lemma_cap_fits(levels: nat)
    requires
        levels <= 10,
    ensures
        cap(levels) <= 0x1000_0000_0000_0000,
{
    assert(cap(0) == 1);
    assert(cap(1) == 64);
    assert(cap(2) == 0x1000);
    assert(cap(3) == 0x4_0000);
    assert(cap(4) == 0x100_0000);
    assert(cap(5) == 0x4000_0000);
    assert(cap(6) == 0x10_0000_0000);
    assert(cap(7) == 0x400_0000_0000);
    assert(cap(8) == 0x1_0000_0000_0000);
    assert(cap(9) == 0x40_0000_0000_0000);
    assert(cap(10) == 0x1000_0000_0000_0000);
    lemma_cap_mono(levels, 10);
}

/// The per-level indices of `k`, most significant first.
pub open spec fn key_decomp(levels: nat, k: nat) -> Seq<u64>
    decreases levels,
{
    if levels == 0 {
        Seq::empty()
    } else {
        seq![((k / cap((levels - 1) as nat)) % 64) as u64].add(
            key_decomp((levels - 1) as nat, k % cap((levels - 1) as nat)),
        )
    }
}

/// The key whose per-level indices are `p`.
pub open spec fn key_compose(p: Seq<u64>) -> nat
    decreases p.len(),
{
    if p.len() == 0 {
        0
    } else {
        (p[0] * cap((p.len() - 1) as nat) + key_compose(p.drop_first())) as nat
    }
}

/// Every entry of an index path is a valid 64-ary digit.
pub open spec fn path_ok(p: Seq<u64>) -> bool {
    forall|n: int| 0 <= n < p.len() ==> p[n] < 64
}

pub proof fn lemma_decomp_props(levels: nat, k: nat)
    requires
        k < cap(levels),
    ensures
        key_decomp(levels, k).len() == levels,
        path_ok(key_decomp(levels, k)),
        key_compose(key_decomp(levels, k)) == k,
    decreases levels,
{
    if levels > 0 {
        let c = cap((levels - 1) as nat);
        lemma_cap_pos((levels - 1) as nat);
        let hi = k / c;
        let lo = k % c;
        assert(k < 64 * c);
        lemma_multiply_divide_lt(k as int, c as int, 64);
        lemma_mod_division_less_than_divisor(k as int, c as int);
        lemma_fundamental_div_mod(k as int, c as int);
        assert(hi < 64);
        assert(hi % 64 == hi) by {
            lemma_small_mod(hi, 64);
        }
        lemma_decomp_props((levels - 1) as nat, lo);
        let p = key_decomp(levels, k);
        assert(p[0] == hi as u64);
        assert(p.drop_first() =~= key_decomp((levels - 1) as nat, lo));
        assert(k == c * hi + lo);
        assert(c * hi == hi * c) by {
            lemma_mul_is_commutative(c as int, hi as int);
        }
    }
}

pub proof fn lemma_compose_props(p: Seq<u64>)
    requires
        path_ok(p),
    ensures
        key_compose(p) < cap(p.len()),
        key_decomp(p.len(), key_compose(p)) == p,
    decreases p.len(),
{
    if p.len() > 0 {
        let c = cap((p.len() - 1) as nat);
        lemma_cap_pos((p.len() - 1) as nat);
        let rest = p.drop_first();
        assert(path_ok(rest));
        lemma_compose_props(rest);
        let lo = key_compose(rest);
        let k = key_compose(p);
        assert(k == p[0] * c + lo);
        assert(p[0] * c + c <= 64 * c) by {
            lemma_mul_inequality(p[0] as int + 1, 64, c as int);
            lemma_mul_is_distributive_add_other_way(c as int, p[0] as int, 1);
        }
        assert(k < cap(p.len()));
        lemma_fundamental_div_mod_converse(k as int, c as int, p[0] as int, lo as int);
        assert(k / c == p[0]);
        assert(k % c == lo);
        assert((p[0] as nat) % 64 == p[0]) by {
            lemma_small_mod(p[0] as nat, 64);
        }
        assert(key_decomp(p.len(), k) =~= p);
    }
}

/// Paths that agree up to `n` and then diverge order their keys the same
/// way the diverging digit does, whatever follows it.
pub proof fn lemma_compose_order(p: Seq<u64>, q: Seq<u64>, n: int)
    requires
        p.len() == q.len(),
        path_ok(p),
        path_ok(q),
        0 <= n < p.len(),
        p.subrange(0, n) == q.subrange(0, n),
        p[n] < q[n],
    ensures
        key_compose(p) < key_compose(q),
    decreases p.len(),
{
    let c = cap((p.len() - 1) as nat);
    lemma_cap_pos((p.len() - 1) as nat);
    if n == 0 {
        lemma_compose_props(p.drop_first());
        lemma_compose_props(q.drop_first());
        assert(key_compose(p) < p[0] * c + c);
        assert(p[0] * c + c <= q[0] * c) by {
            lemma_mul_inequality(p[0] as int + 1, q[0] as int, c as int);
            lemma_mul_is_distributive_add_other_way(c as int, p[0] as int, 1);
        }
        assert(q[0] * c <= key_compose(q));
    } else {
        assert(p[0] == q[0]) by {
            assert(p.subrange(0, n)[0] == p[0]);
        }
        let p1 = p.drop_first();
        let q1 = q.drop_first();
        assert(p1.subrange(0, n - 1) =~= q1.subrange(0, n - 1)) by {
            assert(forall|m: int|
                0 <= m < n - 1 ==> p1[m] == p.subrange(0, n)[m + 1] && q1[m] == q.subrange(
                    0,
                    n,
                )[m + 1]);
        }
        lemma_compose_order(p1, q1, n - 1);
    }
}

/// Capacity of a subtree, as executable code.
pub fn cap_u64(levels: usize) -> (r: u64)
    requires
        levels <= 10,
    ensures
        r == cap(levels as nat),
{
    let mut r: u64 = 1;
    let mut l: usize = 0;
    while l < levels
        invariant
            l <= levels,
            levels <= 10,
            r == cap(l as nat),
        decreases levels - l,
    {
        proof {
            lemma_cap_fits((l + 1) as nat);
            lemma_cap_pos(l as nat);
        }
        r = r * 64;
        l = l + 1;
    }
    r
}


/// Appending a digit scales the composed key by the radix.
pub proof fn lemma_compose_snoc(p: Seq<u64>, x: u64)
    ensures
        key_compose(p.push(x)) == key_compose(p) * 64 + x,
    decreases p.len(),
{
    if p.len() == 0 {
        assert(p.push(x)[0] == x);
        assert(p.push(x).drop_first() =~= Seq::<u64>::empty());
        assert(key_compose(p.push(x)) == x * cap(0) + key_compose(p.push(x).drop_first()));
        assert(x * cap(0) == x) by (nonlinear_arith)
            requires
                cap(0) == 1,
        ;
    } else {
        assert(p.push(x).drop_first() =~= p.drop_first().push(x));
        lemma_compose_snoc(p.drop_first(), x);
        let c = cap((p.len() - 1) as nat);
        assert(key_compose(p.push(x)) == p[0] * cap(p.len() as nat) + key_compose(
            p.drop_first().push(x),
        ));
        assert(cap(p.len() as nat) == 64 * c);
        assert(p[0] * (64 * c) == 64 * (p[0] * c)) by (nonlinear_arith);
        assert(key_compose(p.push(x)) == 64 * (p[0] * c) + key_compose(p.drop_first()) * 64 + x);
        assert((p[0] * c + key_compose(p.drop_first())) * 64 == 64 * (p[0] * c) + key_compose(
            p.drop_first(),
        ) * 64) by (nonlinear_arith);
    }
}

} // verus!

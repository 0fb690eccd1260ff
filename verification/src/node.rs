//! Tree nodes. A node owns a 64-bit occupancy mask and a dense child array
//! holding exactly one entry per set mask bit, in ascending bit order. Leaf
//! slots carry indices into the owning tree's value store; branch slots carry
//! child nodes.

use vstd::prelude::*;
use crate::bits::{bit64, popcnt, dense_index_of, dense_index, contains, insert_bit, remove_bit,
    lemma_pc_in_range, lemma_bit_zero,
    lemma_bit_set, lemma_bit_clear, lemma_pc_insert, lemma_pc_remove, lemma_pc_mono,
    lemma_pc_strict, lemma_bit_single, lemma_pc_single};
use crate::keys::{cap, lemma_cap_pos, key_decomp, key_compose, path_ok, lemma_decomp_props,
    lemma_compose_props};

verus! {

/// One tree node. `Leaf` stands at the terminal level and stores value-store
/// indices; `Branch` stands at every other level and stores child nodes.
pub enum Node {
    Leaf { mask: u64, slots: Vec<usize> },
    Branch { mask: u64, children: Vec<Node> },
}

pub open spec fn node_mask(n: Node) -> u64 {
    match n {
        Node::Leaf { mask, .. } => mask,
        Node::Branch { mask, .. } => mask,
    }
}

/// Structural well-formedness of a subtree of `levels` levels: leaves exactly
/// at the terminal level, dense arrays exactly as long as the mask says, no
/// empty child subtrees.
pub open spec fn node_wf(n: Node, levels: nat) -> bool
    decreases levels,
{
    match n {
        Node::Leaf { mask, slots } => {
            &&& levels == 1
            &&& slots.len() == popcnt(mask)
        },
        Node::Branch { mask, children } => {
            &&& levels >= 2
            &&& children.len() == popcnt(mask)
            &&& forall|d: int|
                0 <= d < children.len() ==> node_wf(#[trigger] children[d], (levels - 1) as nat)
            &&& forall|d: int|
                0 <= d < children.len() ==> node_mask(#[trigger] children[d]) != 0
        },
    }
}

/// The value-store index the subtree associates with partial key `k`, if any.
pub open spec fn node_lookup(n: Node, levels: nat, k: nat) -> Option<int>
    decreases levels,
{
    match n {
        Node::Leaf { mask, slots } => {
            if levels == 1 && k < 64 && bit64(mask, k as u64) {
                Some(slots[dense_index_of(mask, k as u64) as int] as int)
            } else {
                None
            }
        },
        Node::Branch { mask, children } => {
            if levels >= 2 && k < cap(levels) {
                let c = cap((levels - 1) as nat);
                let hi = (k / c) as u64;
                if hi < 64 && bit64(mask, hi) {
                    node_lookup(
                        children[dense_index_of(mask, hi) as int],
                        (levels - 1) as nat,
                        k % c,
                    )
                } else {
                    None
                }
            } else {
                None
            }
        },
    }
}

/// The occupancy mask of the node reached from `n` along `path`, or the empty
/// mask where the path leads through an absent child.
pub open spec fn node_mask_at(n: Node, levels: nat, path: Seq<u64>) -> u64
    decreases path.len(),
{
    if path.len() == 0 {
        node_mask(n)
    } else {
        match n {
            Node::Leaf { .. } => 0,
            Node::Branch { mask, children } => {
                if levels >= 2 && path[0] < 64 && bit64(mask, path[0]) {
                    node_mask_at(
                        children[dense_index_of(mask, path[0]) as int],
                        (levels - 1) as nat,
                        path.drop_first(),
                    )
                } else {
                    0
                }
            },
        }
    }
}

/// Walks `levels` levels down from `n` and reports the store index for `k`.
pub fn node_find(n: &Node, levels: usize, pw: u64, k: u64) -> (r: Option<usize>)
    requires
        node_wf(*n, levels as nat),
        levels <= 10,
        k < cap(levels as nat),
        pw == cap((levels - 1) as nat),
    ensures
        match r {
            Some(j) => node_lookup(*n, levels as nat, k as nat) == Some(j as int),
            None => node_lookup(*n, levels as nat, k as nat) is None,
        },
    decreases levels,
{
    match n {
        Node::Leaf { mask, slots } => {
            if contains(*mask, k) {
                let d = dense_index(*mask, k);
                proof {
                    lemma_pc_in_range(*mask, k);
                }
                Some(slots[d])
            } else {
                None
            }
        },
        Node::Branch { mask, children } => {
            let hi = k / pw;
            let lo = k % pw;
            proof {
                lemma_cap_pos((levels - 2) as nat);
                vstd::arithmetic::div_mod::lemma_multiply_divide_lt(k as int, pw as int, 64);
                vstd::arithmetic::div_mod::lemma_mod_division_less_than_divisor(
                    k as int,
                    pw as int,
                );
                assert(pw == 64 * cap((levels - 2) as nat));
                vstd::arithmetic::div_mod::lemma_div_multiples_vanish(
                    cap((levels - 2) as nat) as int,
                    64,
                );
                assert(pw as int / 64 == cap((levels - 2) as nat));
            }
            if contains(*mask, hi) {
                let d = dense_index(*mask, hi);
                proof {
                    lemma_pc_in_range(*mask, hi);
                }
                node_find(&children[d], levels - 1, pw / 64, lo)
            } else {
                None
            }
        },
    }
}


/// The occupancy mask, as executable code.
pub fn node_mask_get(n: &Node) -> (r: u64)
    ensures
        r == node_mask(*n),
{
    match n {
        Node::Leaf { mask, .. } => *mask,
        Node::Branch { mask, .. } => *mask,
    }
}

/// Splits a partial key into its top-level digit and remainder.
proof fn lemma_branch_split(levels: nat, k: nat)
    requires
        levels >= 2,
        k < cap(levels),
    ensures
        k / cap((levels - 1) as nat) < 64,
        k % cap((levels - 1) as nat) < cap((levels - 1) as nat),
        k == (k / cap((levels - 1) as nat)) * cap((levels - 1) as nat) + k % cap(
            (levels - 1) as nat,
        ),
{
    let c = cap((levels - 1) as nat);
    lemma_cap_pos((levels - 1) as nat);
    vstd::arithmetic::div_mod::lemma_multiply_divide_lt(k as int, c as int, 64);
    vstd::arithmetic::div_mod::lemma_mod_division_less_than_divisor(k as int, c as int);
    vstd::arithmetic::div_mod::lemma_fundamental_div_mod(k as int, c as int);
    vstd::arithmetic::mul::lemma_mul_is_commutative(c as int, (k / c) as int);
}

/// Partial keys with equal digit and remainder are equal.
proof fn lemma_split_eq(c: nat, k1: nat, k2: nat)
    requires
        c >= 1,
        k1 / c == k2 / c,
        k1 % c == k2 % c,
    ensures
        k1 == k2,
{
    vstd::arithmetic::div_mod::lemma_fundamental_div_mod(k1 as int, c as int);
    vstd::arithmetic::div_mod::lemma_fundamental_div_mod(k2 as int, c as int);
}

/// The common facts for one branch walk step: digit bounds and the capacity
/// one level down.
proof fn lemma_branch_step(levels: nat, pw: u64, k: nat)
    requires
        2 <= levels <= 10,
        k < cap(levels),
        pw == cap((levels - 1) as nat),
    ensures
        k / (pw as nat) < 64,
        k % (pw as nat) < pw,
        pw as int / 64 == cap((levels - 2) as nat),
        pw >= 1,
        k == (k / (pw as nat)) * (pw as nat) + k % (pw as nat),
{
    lemma_branch_split(levels, k);
    lemma_cap_pos((levels - 2) as nat);
    assert(pw == 64 * cap((levels - 2) as nat));
    vstd::arithmetic::div_mod::lemma_div_multiples_vanish(cap((levels - 2) as nat) as int, 64);
}

/// Builds the spine of nodes holding the single entry `k -> j`.
pub fn node_singleton(levels: usize, pw: u64, k: u64, j: usize) -> (r: Node)
    requires
        1 <= levels <= 10,
        k < cap(levels as nat),
        pw == cap((levels - 1) as nat),
    ensures
        node_wf(r, levels as nat),
        node_mask(r) != 0,
        forall|k2: nat| #[trigger] node_lookup(r, levels as nat, k2) == (if k2 == k as nat {
            Some(j as int)
        } else {
            None::<int>
        }),
    decreases levels,
{
    if levels == 1 {
        let mask: u64 = 1u64 << k;
        let mut slots: Vec<usize> = Vec::new();
        slots.push(j);
        let r = Node::Leaf { mask, slots };
        proof {
            lemma_bit_single(k);
            lemma_pc_single(k);
            assert forall|k2: nat| #[trigger] node_lookup(r, 1nat, k2) == (if k2 == k as nat {
                Some(j as int)
            } else {
                None::<int>
            }) by {
                if k2 < 64 && k2 != k as nat {
                    assert(!bit64(mask, k2 as u64));
                }
            }
        }
        r
    } else {
        let hi = k / pw;
        let lo = k % pw;
        proof {
            lemma_branch_step(levels as nat, pw, k as nat);
        }
        let child = node_singleton(levels - 1, pw / 64, lo, j);
        let mask: u64 = 1u64 << hi;
        let mut children: Vec<Node> = Vec::new();
        children.push(child);
        let r = Node::Branch { mask, children };
        proof {
            lemma_bit_single(hi);
            lemma_pc_single(hi);
            assert(node_wf(r, levels as nat));
            let c = pw as nat;
            assert forall|k2: nat| #[trigger] node_lookup(r, levels as nat, k2) == (if k2
                == k as nat {
                Some(j as int)
            } else {
                None::<int>
            }) by {
                if k2 < cap(levels as nat) {
                    lemma_branch_split(levels as nat, k2);
                    let hi2 = (k2 / c) as u64;
                    let lo2 = k2 % c;
                    if hi2 == hi {
                        assert(bit64(mask, hi2));
                        assert(dense_index_of(mask, hi2) == 0);
                        assert(node_lookup(r, levels as nat, k2) == node_lookup(
                            child,
                            (levels - 1) as nat,
                            lo2,
                        ));
                        if lo2 == lo as nat {
                            lemma_split_eq(c, k2, k as nat);
                        }
                    } else {
                        assert(!bit64(mask, hi2));
                        assert(k2 != k as nat);
                    }
                }
            }
        }
        r
    }
}


/// Sequences related by removing and reinserting at one position are a
/// pointwise update.
proof fn lemma_remove_insert_is_update<A>(s: Seq<A>, d: int, x: A)
    requires
        0 <= d < s.len(),
    ensures
        s.remove(d).insert(d, x) =~= s.update(d, x),
{
    s.remove_ensures(d);
    s.remove(d).insert_ensures(d, x);
}

/// Adds the absent entry `k -> j` to the subtree.
pub fn node_insert_new(n: Node, levels: usize, pw: u64, k: u64, j: usize) -> (r: Node)
    requires
        node_wf(n, levels as nat),
        1 <= levels <= 10,
        k < cap(levels as nat),
        pw == cap((levels - 1) as nat),
        node_lookup(n, levels as nat, k as nat) is None,
    ensures
        node_wf(r, levels as nat),
        node_mask(r) != 0,
        forall|k2: nat| #[trigger] node_lookup(r, levels as nat, k2) == (if k2 == k as nat {
            Some(j as int)
        } else {
            node_lookup(n, levels as nat, k2)
        }),
    decreases levels,
{
    match n {
        Node::Leaf { mask, slots } => {
            let ghost slots0 = slots@;
            let mut slots = slots;
            proof {
                assert(cap(1) == 64);
                assert(!bit64(mask, k));
            }
            let d = dense_index(mask, k);
            proof {
                lemma_pc_mono(mask, k as int, 64);
            }
            slots.insert(d, j);
            let mask2 = insert_bit(mask, k);
            let r = Node::Leaf { mask: mask2, slots };
            proof {
                lemma_bit_set(mask, k);
                lemma_pc_insert(mask, k, 64);
                lemma_pc_insert(mask, k, k as int);
                slots0.insert_ensures(d as int, j);
                assert(node_wf(r, levels as nat));
                assert(bit64(mask2, k));
                lemma_no_bits_zero_contra(mask2, k);
                assert(node_mask(r) == mask2 && mask2 != 0);
                assert forall|k2: nat| #[trigger] node_lookup(r, 1nat, k2) == (if k2 == k as nat {
                    Some(j as int)
                } else {
                    node_lookup(n, 1nat, k2)
                }) by {
                    if k2 < 64 {
                        let b = k2 as u64;
                        if b == k {
                            assert(slots0.insert(d as int, j)[d as int] == j);
                        } else {
                            assert(bit64(mask2, b) == bit64(mask, b));
                            if bit64(mask, b) {
                                lemma_pc_in_range(mask, b);
                                lemma_pc_in_range(mask2, b);
                                lemma_pc_insert(mask, k, b as int);
                                if b < k {
                                    lemma_pc_strict(mask, b, k);
                                    assert(dense_index_of(mask2, b) == dense_index_of(mask, b));
                                    assert(dense_index_of(mask, b) < d);
                                } else {
                                    lemma_pc_mono(mask, k as int, b as int);
                                    assert(dense_index_of(mask2, b) == dense_index_of(mask, b)
                                        + 1);
                                }
                            }
                        }
                    }
                }
            }
            r
        },
        Node::Branch { mask, children } => {
            let ghost children0 = children@;
            let mut children = children;
            let hi = k / pw;
            let lo = k % pw;
            proof {
                lemma_branch_step(levels as nat, pw, k as nat);
            }
            if contains(mask, hi) {
                let d = dense_index(mask, hi);
                proof {
                    lemma_pc_in_range(mask, hi);
                }
                let child = children.remove(d);
                let child2 = node_insert_new(child, levels - 1, pw / 64, lo, j);
                children.insert(d, child2);
                let r = Node::Branch { mask, children };
                proof {
                    lemma_no_bits_zero_contra(mask, hi);
                    lemma_remove_insert_is_update(children0, d as int, child2);
                    assert(children@ =~= children0.update(d as int, child2));
                    assert(node_wf(r, levels as nat));
                    let c = pw as nat;
                    assert forall|k2: nat| #[trigger] node_lookup(r, levels as nat, k2) == (if k2
                        == k as nat {
                        Some(j as int)
                    } else {
                        node_lookup(n, levels as nat, k2)
                    }) by {
                        if k2 < cap(levels as nat) {
                            lemma_branch_split(levels as nat, k2);
                            let hi2 = (k2 / c) as u64;
                            let lo2 = k2 % c;
                            if bit64(mask, hi2) {
                                if hi2 == hi {
                                    assert(children@[d as int] == child2);
                                    assert(children0[d as int] == child);
                                    assert(node_lookup(r, levels as nat, k2) == node_lookup(
                                        child2,
                                        (levels - 1) as nat,
                                        lo2,
                                    ));
                                    assert(node_lookup(n, levels as nat, k2) == node_lookup(
                                        child,
                                        (levels - 1) as nat,
                                        lo2,
                                    ));
                                    if lo2 == lo as nat {
                                        lemma_split_eq(c, k2, k as nat);
                                    }
                                } else {
                                    lemma_pc_in_range(mask, hi2);
                                    if hi2 < hi {
                                        lemma_pc_strict(mask, hi2, hi);
                                    } else {
                                        lemma_pc_strict(mask, hi, hi2);
                                    }
                                    assert(children@[dense_index_of(mask, hi2) as int]
                                        == children0[dense_index_of(mask, hi2) as int]);
                                    assert(k2 != k as nat);
                                }
                            } else {
                                assert(k2 != k as nat);
                            }
                        }
                    }
                }
                r
            } else {
                let d = dense_index(mask, hi);
                proof {
                    lemma_pc_mono(mask, hi as int, 64);
                }
                let child = node_singleton(levels - 1, pw / 64, lo, j);
                children.insert(d, child);
                let mask2 = insert_bit(mask, hi);
                let r = Node::Branch { mask: mask2, children };
                proof {
                    lemma_bit_set(mask, hi);
                    lemma_pc_insert(mask, hi, 64);
                    lemma_pc_insert(mask, hi, hi as int);
                    children0.insert_ensures(d as int, child);
                    assert(bit64(mask2, hi) && mask2 != 0) by {
                        lemma_no_bits_zero_contra(mask2, hi);
                    }
                    let c = pw as nat;
                    assert forall|d2: int| 0 <= d2 < children@.len() implies node_wf(
                        #[trigger] children@[d2],
                        (levels - 1) as nat,
                    ) && node_mask(children@[d2]) != 0 by {
                        if d2 < d {
                            assert(children@[d2] == children0[d2]);
                        } else if d2 > d {
                            assert(children@[d2] == children0[d2 - 1]);
                        }
                    }
                    assert(node_wf(r, levels as nat));
                    assert forall|k2: nat| #[trigger] node_lookup(r, levels as nat, k2) == (if k2
                        == k as nat {
                        Some(j as int)
                    } else {
                        node_lookup(n, levels as nat, k2)
                    }) by {
                        if k2 < cap(levels as nat) {
                            lemma_branch_split(levels as nat, k2);
                            let hi2 = (k2 / c) as u64;
                            let lo2 = k2 % c;
                            lemma_pc_insert(mask, hi, hi2 as int);
                            if hi2 == hi {
                                assert(dense_index_of(mask2, hi) == d);
                                assert(children@[d as int] == child);
                                assert(node_lookup(r, levels as nat, k2) == node_lookup(
                                    child,
                                    (levels - 1) as nat,
                                    lo2,
                                ));
                                assert(!bit64(mask, hi2) && node_lookup(n, levels as nat, k2)
                                    is None);
                                if lo2 == lo as nat {
                                    lemma_split_eq(c, k2, k as nat);
                                }
                            } else if bit64(mask, hi2) {
                                assert(bit64(mask2, hi2));
                                lemma_pc_in_range(mask, hi2);
                                lemma_pc_in_range(mask2, hi2);
                                assert(k2 != k as nat);
                                if hi2 < hi {
                                    lemma_pc_strict(mask, hi2, hi);
                                    assert(dense_index_of(mask2, hi2) == dense_index_of(
                                        mask,
                                        hi2,
                                    ));
                                    assert(children@[dense_index_of(mask, hi2) as int]
                                        == children0[dense_index_of(mask, hi2) as int]);
                                } else {
                                    lemma_pc_mono(mask, hi as int, hi2 as int);
                                    assert(dense_index_of(mask2, hi2) == dense_index_of(mask, hi2)
                                        + 1);
                                    assert(children@[dense_index_of(mask, hi2) as int + 1]
                                        == children0[dense_index_of(mask, hi2) as int]);
                                }
                            } else {
                                assert(!bit64(mask2, hi2));
                                assert(k2 != k as nat);
                            }
                        }
                    }
                }
                r
            }
        },
    }
}

/// A mask with a witnessed set bit is not zero.
proof fn lemma_no_bits_zero_contra(m: u64, i: u64)
    requires
        bit64(m, i),
    ensures
        m != 0,
{
    lemma_bit_zero();
}


/// Removes the entry for `k`, pruning any child subtree this empties.
pub fn node_remove_key(n: Node, levels: usize, pw: u64, k: u64) -> (r: Node)
    requires
        node_wf(n, levels as nat),
        1 <= levels <= 10,
        k < cap(levels as nat),
        pw == cap((levels - 1) as nat),
        node_lookup(n, levels as nat, k as nat) is Some,
    ensures
        node_wf(r, levels as nat),
        forall|k2: nat| #[trigger] node_lookup(r, levels as nat, k2) == (if k2 == k as nat {
            None::<int>
        } else {
            node_lookup(n, levels as nat, k2)
        }),
    decreases levels,
{
    match n {
        Node::Leaf { mask, slots } => {
            let ghost slots0 = slots@;
            let mut slots = slots;
            proof {
                assert(cap(1) == 64);
                assert(bit64(mask, k));
                lemma_pc_in_range(mask, k);
            }
            let d = dense_index(mask, k);
            slots.remove(d);
            let mask2 = remove_bit(mask, k);
            let r = Node::Leaf { mask: mask2, slots };
            proof {
                lemma_bit_clear(mask, k);
                lemma_pc_remove(mask, k, 64);
                lemma_pc_remove(mask, k, k as int);
                slots0.remove_ensures(d as int);
                assert(node_wf(r, levels as nat));
                assert forall|k2: nat| #[trigger] node_lookup(r, 1nat, k2) == (if k2 == k as nat {
                    None::<int>
                } else {
                    node_lookup(n, 1nat, k2)
                }) by {
                    if k2 < 64 {
                        let b = k2 as u64;
                        if b != k {
                            assert(bit64(mask2, b) == bit64(mask, b));
                            if bit64(mask, b) {
                                lemma_pc_in_range(mask, b);
                                lemma_pc_in_range(mask2, b);
                                lemma_pc_remove(mask, k, b as int);
                                if b < k {
                                    lemma_pc_strict(mask, b, k);
                                    assert(dense_index_of(mask2, b) == dense_index_of(mask, b));
                                    assert(dense_index_of(mask, b) < d);
                                } else {
                                    lemma_pc_strict(mask, k, b);
                                    assert(dense_index_of(mask2, b) + 1 == dense_index_of(
                                        mask,
                                        b,
                                    ));
                                    assert(dense_index_of(mask2, b) >= d);
                                }
                            }
                        }
                    }
                }
            }
            r
        },
        Node::Branch { mask, children } => {
            let ghost children0 = children@;
            let mut children = children;
            let hi = k / pw;
            let lo = k % pw;
            proof {
                lemma_branch_step(levels as nat, pw, k as nat);
                assert(bit64(mask, hi));
                lemma_pc_in_range(mask, hi);
            }
            let d = dense_index(mask, hi);
            let child = children.remove(d);
            let child2 = node_remove_key(child, levels - 1, pw / 64, lo);
            let c2mask = node_mask_get(&child2);
            if c2mask == 0 {
                let mask2 = remove_bit(mask, hi);
                let r = Node::Branch { mask: mask2, children };
                proof {
                    lemma_bit_clear(mask, hi);
                    lemma_pc_remove(mask, hi, 64);
                    lemma_pc_remove(mask, hi, hi as int);
                    children0.remove_ensures(d as int);
                    lemma_bit_zero();
                    assert forall|d2: int| 0 <= d2 < children@.len() implies node_wf(
                        #[trigger] children@[d2],
                        (levels - 1) as nat,
                    ) && node_mask(children@[d2]) != 0 by {
                        if d2 < d {
                            assert(children@[d2] == children0[d2]);
                        } else {
                            assert(children@[d2] == children0[d2 + 1]);
                        }
                    }
                    assert(node_wf(r, levels as nat));
                    let c = pw as nat;
                    assert forall|k2: nat| #[trigger] node_lookup(r, levels as nat, k2) == (if k2
                        == k as nat {
                        None::<int>
                    } else {
                        node_lookup(n, levels as nat, k2)
                    }) by {
                        if k2 < cap(levels as nat) {
                            lemma_branch_split(levels as nat, k2);
                            let hi2 = (k2 / c) as u64;
                            let lo2 = k2 % c;
                            lemma_pc_remove(mask, hi, hi2 as int);
                            if hi2 == hi {
                                assert(!bit64(mask2, hi2));
                                assert(node_lookup(r, levels as nat, k2) is None);
                                assert(node_lookup(n, levels as nat, k2) == node_lookup(
                                    child,
                                    (levels - 1) as nat,
                                    lo2,
                                ));
                                if lo2 == lo as nat {
                                    lemma_split_eq(c, k2, k as nat);
                                } else {
                                    assert(node_lookup(child2, (levels - 1) as nat, lo2)
                                        == node_lookup(child, (levels - 1) as nat, lo2));
                                    assert(node_lookup(child2, (levels - 1) as nat, lo2)
                                        is None);
                                }
                            } else if bit64(mask, hi2) {
                                assert(bit64(mask2, hi2));
                                lemma_pc_in_range(mask, hi2);
                                lemma_pc_in_range(mask2, hi2);
                                assert(k2 != k as nat);
                                if hi2 < hi {
                                    lemma_pc_strict(mask, hi2, hi);
                                    assert(dense_index_of(mask2, hi2) == dense_index_of(
                                        mask,
                                        hi2,
                                    ));
                                    assert(children@[dense_index_of(mask, hi2) as int]
                                        == children0[dense_index_of(mask, hi2) as int]);
                                } else {
                                    lemma_pc_strict(mask, hi, hi2);
                                    assert(dense_index_of(mask2, hi2) + 1 == dense_index_of(
                                        mask,
                                        hi2,
                                    ));
                                    assert(children@[dense_index_of(mask2, hi2) as int]
                                        == children0[dense_index_of(mask, hi2) as int]);
                                }
                            } else {
                                assert(!bit64(mask2, hi2));
                                assert(k2 != k as nat);
                            }
                        }
                    }
                }
                r
            } else {
                children.insert(d, child2);
                let r = Node::Branch { mask, children };
                proof {
                    lemma_remove_insert_is_update(children0, d as int, child2);
                    assert(children@ =~= children0.update(d as int, child2));
                    assert(node_wf(r, levels as nat));
                    let c = pw as nat;
                    assert forall|k2: nat| #[trigger] node_lookup(r, levels as nat, k2) == (if k2
                        == k as nat {
                        None::<int>
                    } else {
                        node_lookup(n, levels as nat, k2)
                    }) by {
                        if k2 < cap(levels as nat) {
                            lemma_branch_split(levels as nat, k2);
                            let hi2 = (k2 / c) as u64;
                            let lo2 = k2 % c;
                            if bit64(mask, hi2) {
                                if hi2 == hi {
                                    assert(children@[d as int] == child2);
                                    assert(children0[d as int] == child);
                                    assert(node_lookup(r, levels as nat, k2) == node_lookup(
                                        child2,
                                        (levels - 1) as nat,
                                        lo2,
                                    ));
                                    assert(node_lookup(n, levels as nat, k2) == node_lookup(
                                        child,
                                        (levels - 1) as nat,
                                        lo2,
                                    ));
                                    if lo2 == lo as nat {
                                        lemma_split_eq(c, k2, k as nat);
                                    }
                                } else {
                                    lemma_pc_in_range(mask, hi2);
                                    if hi2 < hi {
                                        lemma_pc_strict(mask, hi2, hi);
                                    } else {
                                        lemma_pc_strict(mask, hi, hi2);
                                    }
                                    assert(children@[dense_index_of(mask, hi2) as int]
                                        == children0[dense_index_of(mask, hi2) as int]);
                                    assert(k2 != k as nat);
                                }
                            } else {
                                assert(k2 != k as nat);
                            }
                        }
                    }
                }
                r
            }
        },
    }
}

/// Redirects the existing entry for `k` to store index `j`.
pub fn node_set_slot(n: Node, levels: usize, pw: u64, k: u64, j: usize) -> (r: Node)
    requires
        node_wf(n, levels as nat),
        1 <= levels <= 10,
        k < cap(levels as nat),
        pw == cap((levels - 1) as nat),
        node_lookup(n, levels as nat, k as nat) is Some,
    ensures
        node_wf(r, levels as nat),
        node_mask(r) == node_mask(n),
        forall|k2: nat| #[trigger] node_lookup(r, levels as nat, k2) == (if k2 == k as nat {
            Some(j as int)
        } else {
            node_lookup(n, levels as nat, k2)
        }),
    decreases levels,
{
    match n {
        Node::Leaf { mask, slots } => {
            let ghost slots0 = slots@;
            let mut slots = slots;
            proof {
                assert(cap(1) == 64);
                assert(bit64(mask, k));
                lemma_pc_in_range(mask, k);
            }
            let d = dense_index(mask, k);
            slots.set(d, j);
            let r = Node::Leaf { mask, slots };
            proof {
                assert(node_wf(r, levels as nat));
                assert forall|k2: nat| #[trigger] node_lookup(r, 1nat, k2) == (if k2 == k as nat {
                    Some(j as int)
                } else {
                    node_lookup(n, 1nat, k2)
                }) by {
                    if k2 < 64 {
                        let b = k2 as u64;
                        if b != k && bit64(mask, b) {
                            lemma_pc_in_range(mask, b);
                            if b < k {
                                lemma_pc_strict(mask, b, k);
                            } else {
                                lemma_pc_strict(mask, k, b);
                            }
                            assert(slots@[dense_index_of(mask, b) as int]
                                == slots0[dense_index_of(mask, b) as int]);
                        }
                    }
                }
            }
            r
        },
        Node::Branch { mask, children } => {
            let ghost children0 = children@;
            let mut children = children;
            let hi = k / pw;
            let lo = k % pw;
            proof {
                lemma_branch_step(levels as nat, pw, k as nat);
                assert(bit64(mask, hi));
                lemma_pc_in_range(mask, hi);
            }
            let d = dense_index(mask, hi);
            let child = children.remove(d);
            let child2 = node_set_slot(child, levels - 1, pw / 64, lo, j);
            children.insert(d, child2);
            let r = Node::Branch { mask, children };
            proof {
                lemma_remove_insert_is_update(children0, d as int, child2);
                assert(children@ =~= children0.update(d as int, child2));
                assert(node_wf(r, levels as nat));
                let c = pw as nat;
                assert forall|k2: nat| #[trigger] node_lookup(r, levels as nat, k2) == (if k2
                    == k as nat {
                    Some(j as int)
                } else {
                    node_lookup(n, levels as nat, k2)
                }) by {
                    if k2 < cap(levels as nat) {
                        lemma_branch_split(levels as nat, k2);
                        let hi2 = (k2 / c) as u64;
                        let lo2 = k2 % c;
                        if bit64(mask, hi2) {
                            if hi2 == hi {
                                assert(children@[d as int] == child2);
                                assert(children0[d as int] == child);
                                assert(node_lookup(r, levels as nat, k2) == node_lookup(
                                    child2,
                                    (levels - 1) as nat,
                                    lo2,
                                ));
                                assert(node_lookup(n, levels as nat, k2) == node_lookup(
                                    child,
                                    (levels - 1) as nat,
                                    lo2,
                                ));
                                if lo2 == lo as nat {
                                    lemma_split_eq(c, k2, k as nat);
                                }
                            } else {
                                lemma_pc_in_range(mask, hi2);
                                if hi2 < hi {
                                    lemma_pc_strict(mask, hi2, hi);
                                } else {
                                    lemma_pc_strict(mask, hi, hi2);
                                }
                                assert(children@[dense_index_of(mask, hi2) as int]
                                    == children0[dense_index_of(mask, hi2) as int]);
                                assert(k2 != k as nat);
                            }
                        } else {
                            assert(k2 != k as nat);
                        }
                    }
                }
            }
            r
        },
    }
}

/// The mask of the node reached along `path[i..]`, walking dense arrays.
pub fn node_mask_walk(n: &Node, levels: usize, path: &Vec<u64>, i: usize) -> (r: u64)
    requires
        node_wf(*n, levels as nat),
        i <= path@.len(),
    ensures
        r == node_mask_at(*n, levels as nat, path@.skip(i as int)),
    decreases path@.len() - i,
{
    if i == path.len() {
        node_mask_get(n)
    } else {
        match n {
            Node::Leaf { .. } => 0,
            Node::Branch { mask, children } => {
                proof {
                    assert(path@.skip(i as int)[0] == path@[i as int]);
                }
                let idx = path[i];
                if idx < 64 && contains(*mask, idx) {
                    let d = dense_index(*mask, idx);
                    proof {
                        lemma_pc_in_range(*mask, idx);
                        assert(path@.skip(i as int).drop_first() =~= path@.skip(i as int + 1));
                    }
                    node_mask_walk(&children[d], levels - 1, path, i + 1)
                } else {
                    0
                }
            },
        }
    }
}


/// Every stored key has its digit set in the mask along its whole path.
pub proof fn lemma_node_mask_covers(n: Node, levels: nat, k: nat, nn: int)
    requires
        node_wf(n, levels),
        node_lookup(n, levels, k) is Some,
        0 <= nn < levels,
    ensures
        bit64(
            node_mask_at(n, levels, key_decomp(levels, k).take(nn)),
            key_decomp(levels, k)[nn],
        ),
    decreases levels,
{
    let p = key_decomp(levels, k);
    match n {
        Node::Leaf { mask, slots } => {
            assert(cap(1) == 64);
            lemma_decomp_props(1, k);
            assert(p.take(0) =~= Seq::<u64>::empty());
            vstd::arithmetic::div_mod::lemma_div_basics(k as int);
            vstd::arithmetic::div_mod::lemma_small_mod(k, 64);
            assert(p[0] == k as u64);
        },
        Node::Branch { mask, children } => {
            let c = cap((levels - 1) as nat);
            lemma_cap_pos((levels - 1) as nat);
            let hi = (k / c) as u64;
            let lo = k % c;
            lemma_decomp_props(levels, k);
            vstd::arithmetic::div_mod::lemma_multiply_divide_lt(k as int, c as int, 64);
            vstd::arithmetic::div_mod::lemma_small_mod(k / c, 64);
            let d = dense_index_of(mask, hi) as int;
            lemma_pc_in_range(mask, hi);
            let child = children[d];
            let q = key_decomp((levels - 1) as nat, lo);
            assert(p =~= seq![hi].add(q));
            if nn == 0 {
                assert(p.take(0) =~= Seq::<u64>::empty());
                assert(p[0] == hi);
            } else {
                lemma_node_mask_covers(child, (levels - 1) as nat, lo, nn - 1);
                assert(p.take(nn)[0] == hi);
                assert(p.take(nn).drop_first() =~= q.take(nn - 1));
                assert(node_mask_at(n, levels, p.take(nn)) == node_mask_at(
                    child,
                    (levels - 1) as nat,
                    q.take(nn - 1),
                ));
                assert(p[nn] == q[nn - 1]);
            }
        },
    }
}

/// At the terminal level the mask is exact: a set bit names a stored key.
pub proof fn lemma_node_terminal_exact(n: Node, levels: nat, path: Seq<u64>, b: u64)
    requires
        node_wf(n, levels),
        path.len() == levels - 1,
        path_ok(path),
        b < 64,
        bit64(node_mask_at(n, levels, path), b),
    ensures
        node_lookup(n, levels, key_compose(path.push(b))) is Some,
        key_compose(path.push(b)) < cap(levels),
    decreases levels,
{
    assert(path_ok(path.push(b)));
    lemma_compose_props(path.push(b));
    match n {
        Node::Leaf { mask, slots } => {
            assert(path =~= Seq::<u64>::empty());
            assert(path.push(b).drop_first() =~= Seq::<u64>::empty());
            assert(path.push(b)[0] == b);
            assert(key_compose(path.push(b)) == b * cap(0) + key_compose(
                path.push(b).drop_first(),
            ));
            assert(cap(0) == 1);
            assert(b * cap(0) == b) by (nonlinear_arith)
                requires
                    cap(0) == 1,
            ;
            assert(key_compose(path.push(b)) == b);
        },
        Node::Branch { mask, children } => {
            lemma_bit_zero();
            assert(bit64(mask, path[0]));
            let d = dense_index_of(mask, path[0]) as int;
            lemma_pc_in_range(mask, path[0]);
            let child = children[d];
            assert(node_mask_at(n, levels, path) == node_mask_at(
                child,
                (levels - 1) as nat,
                path.drop_first(),
            ));
            lemma_node_terminal_exact(child, (levels - 1) as nat, path.drop_first(), b);
            let inner = key_compose(path.drop_first().push(b));
            let c = cap((levels - 1) as nat);
            lemma_cap_pos((levels - 1) as nat);
            assert(path.push(b).drop_first() =~= path.drop_first().push(b));
            let k = key_compose(path.push(b));
            assert(k == path[0] * c + inner);
            lemma_compose_props(path.drop_first().push(b));
            vstd::arithmetic::div_mod::lemma_fundamental_div_mod_converse(
                k as int,
                c as int,
                path[0] as int,
                inner as int,
            );
            assert((k / c) as u64 == path[0]);
            assert(node_lookup(n, levels, k) == node_lookup(child, (levels - 1) as nat, inner));
        },
    }
}

/// Below a clear mask bit every deeper mask is empty.
pub proof fn lemma_node_mask_empty_below(n: Node, levels: nat, path: Seq<u64>, i: u64)
    requires
        node_wf(n, levels),
        !bit64(node_mask_at(n, levels, path), i),
    ensures
        node_mask_at(n, levels, path.push(i)) == 0,
    decreases path.len(),
{
    if path.len() == 0 {
        assert(path.push(i)[0] == i);
        match n {
            Node::Leaf { .. } => {},
            Node::Branch { mask, children } => {
                assert(path.push(i).len() == 1);
            },
        }
    } else {
        assert(path.push(i)[0] == path[0]);
        match n {
            Node::Leaf { .. } => {},
            Node::Branch { mask, children } => {
                if levels >= 2 && path[0] < 64 && bit64(mask, path[0]) {
                    let d = dense_index_of(mask, path[0]) as int;
                    lemma_pc_in_range(mask, path[0]);
                    let child = children[d];
                    lemma_node_mask_empty_below(child, (levels - 1) as nat, path.drop_first(), i);
                    assert(path.push(i).drop_first() =~= path.drop_first().push(i));
                }
            },
        }
    }
}


/// Walks `path[i..]` down from `n`, then reads the slot for `leaf`.
pub fn node_data_walk(n: &Node, levels: usize, path: &Vec<u64>, i: usize, leaf: u64) -> (r: Option<
    usize,
>)
    requires
        node_wf(*n, levels as nat),
        1 <= levels <= 10,
        i <= path@.len(),
        path@.len() - i == levels - 1,
        path_ok(path@.skip(i as int)),
        leaf < 64,
    ensures
        match r {
            Some(j) => node_lookup(
                *n,
                levels as nat,
                key_compose(path@.skip(i as int).push(leaf)),
            ) == Some(j as int),
            None => node_lookup(
                *n,
                levels as nat,
                key_compose(path@.skip(i as int).push(leaf)),
            ) is None,
        },
    decreases levels,
{
    proof {
        assert(path_ok(path@.skip(i as int).push(leaf)));
        lemma_compose_props(path@.skip(i as int).push(leaf));
    }
    match n {
        Node::Leaf { mask, slots } => {
            proof {
                assert(path@.skip(i as int) =~= Seq::<u64>::empty());
                assert(path@.skip(i as int).push(leaf)[0] == leaf);
                assert(path@.skip(i as int).push(leaf).drop_first() =~= Seq::<u64>::empty());
                assert(path@.skip(i as int).push(leaf).len() == 1);
                assert(key_compose(path@.skip(i as int).push(leaf)) == leaf * cap(0)
                    + key_compose(path@.skip(i as int).push(leaf).drop_first()));
                assert(key_compose(path@.skip(i as int).push(leaf).drop_first()) == 0);
                assert(cap(0) == 1);
                assert(leaf * cap(0) == leaf) by (nonlinear_arith)
                    requires
                        cap(0) == 1,
                ;
                assert(key_compose(path@.skip(i as int).push(leaf)) == leaf);
            }
            if contains(*mask, leaf) {
                let d = dense_index(*mask, leaf);
                proof {
                    lemma_pc_in_range(*mask, leaf);
                }
                Some(slots[d])
            } else {
                None
            }
        },
        Node::Branch { mask, children } => {
            let plen = path.len();
            proof {
                assert((i as int) < path@.len());
                assert(i < plen);
            }
            let idx = path[i];
            let ghost p = path@.skip(i as int);
            let ghost inner = key_compose(path@.skip(i as int + 1).push(leaf));
            let ghost k = key_compose(p.push(leaf));
            proof {
                assert(p[0] == path@[i as int]);
                assert(p.push(leaf).drop_first() =~= path@.skip(i as int + 1).push(leaf));
                assert forall|m: int| 0 <= m < path@.skip(i as int + 1).len() implies #[trigger] path@.skip(
                    i as int + 1,
                )[m] < 64 by {
                    assert(path@.skip(i as int + 1)[m] == p[m + 1]);
                }
                lemma_compose_props(path@.skip(i as int + 1).push(leaf));
                let c = cap((levels - 1) as nat);
                lemma_cap_pos((levels - 1) as nat);
                assert(k == p.push(leaf)[0] * cap((p.push(leaf).len() - 1) as nat) + key_compose(
                    p.push(leaf).drop_first(),
                ));
                assert(k == p[0] * c + inner);
                vstd::arithmetic::div_mod::lemma_fundamental_div_mod_converse(
                    k as int,
                    c as int,
                    p[0] as int,
                    inner as int,
                );
            }
            if contains(*mask, idx) {
                let d = dense_index(*mask, idx);
                proof {
                    lemma_pc_in_range(*mask, idx);
                }
                node_data_walk(&children[d], levels - 1, path, i + 1, leaf)
            } else {
                None
            }
        },
    }
}


/// A found key lies within the subtree's capacity.
pub proof fn lemma_lookup_in_cap(n: Node, levels: nat, k: nat)
    requires
        node_lookup(n, levels, k) is Some,
    ensures
        k < cap(levels),
{
    match n {
        Node::Leaf { .. } => {
            assert(levels == 1 && k < 64);
            assert(cap(1) == 64);
        },
        Node::Branch { .. } => {},
    }
}


/// Mask and dense array agree at every node: the array holds exactly one
/// entry per set mask bit.
pub open spec fn node_mask_len_coherent(n: Node, levels: nat) -> bool
    decreases levels,
{
    match n {
        Node::Leaf { mask, slots } => slots.len() == popcnt(mask),
        Node::Branch { mask, children } => {
            &&& levels >= 2
            &&& children.len() == popcnt(mask)
            &&& forall|d: int|
                0 <= d < children.len() ==> node_mask_len_coherent(
                    #[trigger] children[d],
                    (levels - 1) as nat,
                )
        },
    }
}

/// No node below the root is empty.
pub open spec fn node_no_empty_children(n: Node, levels: nat) -> bool
    decreases levels,
{
    match n {
        Node::Leaf { .. } => true,
        Node::Branch { mask, children } => {
            &&& levels >= 2
            &&& forall|d: int| 0 <= d < children.len() ==> node_mask(#[trigger] children[d]) != 0
            &&& forall|d: int|
                0 <= d < children.len() ==> node_no_empty_children(
                    #[trigger] children[d],
                    (levels - 1) as nat,
                )
        },
    }
}

/// Well-formedness carries both structural laws: every node's length equals
/// its mask's popcount, and removals leave no empty branches behind.
pub proof fn lemma_wf_structural(n: Node, levels: nat)
    requires
        node_wf(n, levels),
    ensures
        node_mask_len_coherent(n, levels),
        node_no_empty_children(n, levels),
    decreases levels,
{
    match n {
        Node::Leaf { .. } => {},
        Node::Branch { mask, children } => {
            assert forall|d: int| 0 <= d < children.len() implies node_mask_len_coherent(
                #[trigger] children[d],
                (levels - 1) as nat,
            ) && node_no_empty_children(children[d], (levels - 1) as nat) by {
                lemma_wf_structural(children[d], (levels - 1) as nat);
            }
        },
    }
}

} // verus!

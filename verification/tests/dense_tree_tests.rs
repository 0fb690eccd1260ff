use hibit_tree::DenseTree;
use std::collections::HashMap;

fn drain(t: &DenseTree<u64>) -> Vec<(u64, u64)> {
    let mut out = Vec::new();
    let mut it = t.iter();
    while let Some(kv) = it.next() {
        out.push(kv);
    }
    out
}

#[test]
fn insert_then_get_round_trip() {
    let mut t: DenseTree<u64> = DenseTree::new(3);
    t.insert(10, 100);
    t.insert(15, 150);
    t.insert(200, 2000);
    assert_eq!(t.get(10), Some(&100));
    assert_eq!(t.get(15), Some(&150));
    assert_eq!(t.get(200), Some(&2000));
    assert_eq!(t.get(11), None);
}

#[test]
fn remove_is_complete_and_leaves_others() {
    let mut t: DenseTree<u64> = DenseTree::new(3);
    t.insert(10, 100);
    t.insert(15, 150);
    t.insert(200, 2000);
    assert_eq!(t.remove(15), Some(150));
    assert_eq!(t.get(15), None);
    assert_eq!(t.get(10), Some(&100));
    assert_eq!(t.get(200), Some(&2000));
    assert_eq!(t.remove(15), None);
}

#[test]
fn store_tracks_distinct_keys() {
    let mut t: DenseTree<u64> = DenseTree::new(3);
    assert_eq!(t.key_values().0.len(), 0);
    t.insert(10, 1);
    t.insert(20, 2);
    t.insert(10, 3);
    let (ks, vs) = t.key_values();
    assert_eq!(ks.len(), 2);
    assert_eq!(vs.len(), 2);
    t.remove(20);
    assert_eq!(t.key_values().0.len(), 1);
}

#[test]
fn insert_twice_keeps_second_value_and_size() {
    let mut t: DenseTree<u64> = DenseTree::new(3);
    t.insert(7, 1);
    let before = t.key_values().0.len();
    t.insert(7, 2);
    assert_eq!(t.get(7), Some(&2));
    assert_eq!(t.key_values().0.len(), before);
}

#[test]
fn remove_reinsert_restores_observations() {
    let mut a: DenseTree<u64> = DenseTree::new(3);
    let mut b: DenseTree<u64> = DenseTree::new(3);
    for t in [&mut a, &mut b] {
        t.insert(3, 33);
        t.insert(77, 777);
    }
    a.insert(40, 400);
    a.remove(40);
    a.insert(40, 400);
    b.insert(40, 400);
    assert_eq!(a.get(40), b.get(40));
    assert_eq!(drain(&a), drain(&b));
}

#[test]
fn remove_collapse_empties_tree() {
    let mut t: DenseTree<u64> = DenseTree::new(4);
    t.insert(0x123456, 9);
    assert_eq!(t.remove(0x123456), Some(9));
    assert_eq!(drain(&t), Vec::new());
    // only the reserved dummy slot remains in the store
    assert_eq!(t.key_values().0.len(), 0);
    assert_eq!(t.key_values().1.len(), 0);
}

#[test]
fn swap_remove_keeps_other_entries() {
    let mut t: DenseTree<u64> = DenseTree::new(3);
    t.insert(10, 10);
    t.insert(20, 20);
    t.insert(30, 30);
    assert_eq!(t.remove(20), Some(20));
    assert_eq!(t.get(10), Some(&10));
    assert_eq!(t.get(30), Some(&30));
    // two live entries stay in the backing store beside the reserved slot
    assert_eq!(t.key_values().0.len(), 2);
}

#[test]
fn get_or_insert_inserts_default_once() {
    let mut t: DenseTree<u64> = DenseTree::new(3);
    assert_eq!(*t.get_or_insert(5), 0);
    t.insert(5, 50);
    assert_eq!(*t.get_or_insert(5), 50);
    assert_eq!(t.key_values().0.len(), 1);
}

#[test]
fn iteration_is_sorted_and_complete() {
    let mut t: DenseTree<u64> = DenseTree::new(3);
    let keys = [500u64, 3, 64, 65, 1, 4095, 2048, 63];
    for &k in keys.iter() {
        t.insert(k, k * 10);
    }
    let got = drain(&t);
    let mut expect: Vec<u64> = keys.to_vec();
    expect.sort();
    let expect: Vec<(u64, u64)> = expect.into_iter().map(|k| (k, k * 10)).collect();
    assert_eq!(got, expect);
    for w in got.windows(2) {
        assert!(w[0].0 < w[1].0);
    }
}

struct Lcg {
    state: u64,
}

impl Lcg {
    fn next(&mut self) -> u64 {
        self.state = self
            .state
            .wrapping_mul(6364136223846793005)
            .wrapping_add(1442695040888963407);
        self.state >> 33
    }
}

#[test]
fn stress_against_reference_map() {
    let mut t: DenseTree<u64> = DenseTree::new(4);
    let mut reference: HashMap<u64, u64> = HashMap::new();
    let mut rng = Lcg { state: 0xfeed_f00d };
    let mut inserted: Vec<u64> = Vec::new();
    for i in 0..100_000u64 {
        let k = rng.next() & 0xF_FFFF;
        t.insert(k, i);
        reference.insert(k, i);
        inserted.push(k);
    }
    let drained = drain(&t);
    assert_eq!(drained.len(), reference.len());
    for w in drained.windows(2) {
        assert!(w[0].0 < w[1].0);
    }
    for (k, v) in drained.iter() {
        assert_eq!(reference.get(k), Some(v));
    }
    for (pos, k) in inserted.iter().enumerate() {
        if pos % 2 == 0 {
            let a = t.remove(*k);
            let b = reference.remove(k);
            assert_eq!(a, b);
        }
    }
    let mut probe = Lcg { state: 0xdead_beef };
    for _ in 0..10_000 {
        let k = probe.next() & 0xF_FFFF;
        assert_eq!(t.get(k), reference.get(&k));
    }
}

use hibit_tree::DenseTree;
use hibit_tree::HibitTree;
use hibit_tree::HibitTreeCursor;
use hibit_tree::MapFunction;
use hibit_tree::ops::union::union;
use hibit_tree::ops::intersection::intersection;
use hibit_tree::multi_intersection;
use hibit_tree::multi_union;
use hibit_tree::StateResolveIter;

struct SumBoth;

impl MapFunction<(Option<usize>, Option<usize>)> for SumBoth {
    type Output = usize;

    fn result(&self, x: (Option<usize>, Option<usize>)) -> usize {
        x.0.unwrap_or(0) + x.1.unwrap_or(0)
    }

    fn apply(&self, x: (Option<usize>, Option<usize>)) -> usize {
        x.0.unwrap_or(0) + x.1.unwrap_or(0)
    }
}

#[test]
fn union_smoke_test() {
    type Array = DenseTree<usize>;
    let mut a1: Array = DenseTree::new(3);
    let mut a2: Array = DenseTree::new(3);

    a1.insert(10, 10);
    a1.insert(15, 15);
    a1.insert(200, 200);

    a2.insert(100, 100);
    a2.insert(15, 15);
    a2.insert(200, 200);

    let u = union(&a1, &a2);
    let view = hibit_tree::ops::mapped::map(&u, SumBoth);

    assert_eq!(view.get(200), Some(400));
    assert_eq!(view.get(15), Some(30));
    assert_eq!(view.get(10), Some(10));
    assert_eq!(view.get(20), None);

    let mut got = Vec::new();
    let mut it = view.iter();
    while let Some(kv) = it.next() {
        got.push(kv);
    }
    assert_eq!(got, vec![(10, 10), (15, 30), (100, 100), (200, 400)]);
}

#[test]
fn multi_intersection4_smoke_test() {
    type Array = DenseTree<usize>;
    let mut a1: Array = DenseTree::new(3);
    let mut a2: Array = DenseTree::new(3);
    let mut a3: Array = DenseTree::new(3);

    a1.insert(10, 10);
    a1.insert(15, 15);
    a1.insert(200, 200);

    a2.insert(100, 100);
    a2.insert(15, 15);
    a2.insert(200, 200);

    a3.insert(300, 300);
    a3.insert(15, 15);

    let arrays = [a1, a2, a3];

    let inter = multi_intersection(&arrays);

    let mut hit_count = 0;
    let mut it = inter.iter();
    while let Some((index, values)) = it.next() {
        println!("{:?}", values);
        assert_eq!(index, 15);
        hit_count += 1;
    }
    assert_eq!(hit_count, 1);

    assert_eq!(inter.get(15).unwrap(), vec![15, 15, 15]);
    assert!(inter.get(200).is_none());
    assert_eq!(inter.get(15), inter.get(15));
}

#[test]
fn multi_intersection_resolve_iterates_in_source_order() {
    let mut a1: DenseTree<usize> = DenseTree::new(3);
    let mut a2: DenseTree<usize> = DenseTree::new(3);
    a1.insert(4, 41);
    a2.insert(4, 42);
    let arrays = [a1, a2];
    let inter = multi_intersection(&arrays);
    let mut resolve = StateResolveIter::new(inter.get(4).unwrap());
    assert_eq!(resolve.len(), 2);
    assert_eq!(resolve.next(), Some(41));
    assert_eq!(resolve.next(), Some(42));
    assert_eq!(resolve.next(), None);
}

#[test]
fn binary_intersection_keeps_common_keys() {
    let mut a: DenseTree<u64> = DenseTree::new(3);
    let mut b: DenseTree<u64> = DenseTree::new(3);
    a.insert(1, 10);
    a.insert(2, 20);
    a.insert(3, 30);
    b.insert(2, 200);
    b.insert(3, 300);
    b.insert(4, 400);
    let i = intersection(&a, &b);
    assert_eq!(i.get(1), None);
    assert_eq!(i.get(2), Some((20, 200)));
    assert_eq!(i.get(3), Some((30, 300)));
    assert_eq!(i.get(4), None);
    let mut got = Vec::new();
    let mut it = i.iter();
    while let Some(kv) = it.next() {
        got.push(kv);
    }
    assert_eq!(got, vec![(2, (20, 200)), (3, (30, 300))]);
}

#[test]
fn intersection_associates_pointwise() {
    let mut a: DenseTree<u64> = DenseTree::new(3);
    let mut b: DenseTree<u64> = DenseTree::new(3);
    let mut c: DenseTree<u64> = DenseTree::new(3);
    for k in [5u64, 9, 100] {
        a.insert(k, k + 1);
    }
    for k in [9u64, 100, 180] {
        b.insert(k, k + 2);
    }
    for k in [9u64, 180, 100] {
        c.insert(k, k + 3);
    }
    let bc = intersection(&b, &c);
    let left = intersection(&a, &bc);
    let ab = intersection(&a, &b);
    let right = intersection(&ab, &c);
    let mut left_pairs = Vec::new();
    let mut it = left.iter();
    while let Some((k, (x, (y, z)))) = it.next() {
        left_pairs.push((k, x, y, z));
    }
    let mut right_pairs = Vec::new();
    let mut it = right.iter();
    while let Some((k, ((x, y), z))) = it.next() {
        right_pairs.push((k, x, y, z));
    }
    assert_eq!(left_pairs, right_pairs);
    assert_eq!(left_pairs, vec![(9, 10, 11, 12), (100, 101, 102, 103)]);
}

#[test]
fn multi_union_lists_holding_sources() {
    let mut a1: DenseTree<u64> = DenseTree::new(3);
    let mut a2: DenseTree<u64> = DenseTree::new(3);
    let mut a3: DenseTree<u64> = DenseTree::new(3);
    a1.insert(7, 70);
    a2.insert(7, 71);
    a3.insert(9, 93);
    let arrays = [a1, a2, a3];
    let u = multi_union(&arrays);
    assert_eq!(u.get(7), Some(vec![(0usize, 70u64), (1, 71)]));
    assert_eq!(u.get(9), Some(vec![(2usize, 93u64)]));
    assert_eq!(u.get(8), None);
    let mut got = Vec::new();
    let mut it = u.iter();
    while let Some(kv) = it.next() {
        got.push(kv);
    }
    assert_eq!(
        got,
        vec![(7, vec![(0usize, 70u64), (1, 71)]), (9, vec![(2usize, 93u64)])]
    );
}

#[test]
fn union_yields_both_sides() {
    let mut a: DenseTree<u64> = DenseTree::new(3);
    let mut b: DenseTree<u64> = DenseTree::new(3);
    a.insert(1, 10);
    b.insert(2, 20);
    a.insert(3, 30);
    b.insert(3, 33);
    let u = union(&a, &b);
    assert_eq!(u.get(1), Some((Some(10), None)));
    assert_eq!(u.get(2), Some((None, Some(20))));
    assert_eq!(u.get(3), Some((Some(30), Some(33))));
    assert_eq!(u.get(4), None);
}

#[test]
fn multi_intersection_cursor_short_circuits_below_empty_mask() {
    let mut a: DenseTree<u64> = DenseTree::new(3);
    let mut b: DenseTree<u64> = DenseTree::new(3);
    // both trees occupy root child 0, but only `a` has anything under 4096
    a.insert(3, 30);
    a.insert(4096, 41);
    b.insert(4096, 42);
    let arrays = [a, b];
    let inter = multi_intersection(&arrays);
    let mut cur: hibit_tree::MultiIntersectionState<_> = HibitTreeCursor::new(&inter);
    let root_mask = cur.select_level_node(&inter, 0, 0);
    assert_eq!(root_mask, 0b10);
    // only one tree has anything under root child 0
    let mid_mask = cur.select_level_node(&inter, 1, 0);
    assert_eq!(mid_mask, 0);
    // selecting below the empty level answers empty without asking a source
    let leaf_mask = cur.select_level_node(&inter, 2, 0);
    assert_eq!(leaf_mask, 0);
    assert_eq!(cur.data(&inter, 3), None);
    // walking back up into the occupied branch still works
    let mid_mask = cur.select_level_node(&inter, 1, 1);
    assert_ne!(mid_mask, 0);
    let leaf_mask = cur.select_level_node(&inter, 2, 0);
    assert_ne!(leaf_mask, 0);
    assert_eq!(cur.data(&inter, 0), Some(vec![41, 42]));
}

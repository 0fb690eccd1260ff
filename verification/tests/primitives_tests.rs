use hibit_tree::BitQueue;
use hibit_tree::ResolveIterUnchecked;
use hibit_tree::{Level, ILevel, LevelBlock};

#[test]
fn bit_queue_yields_bits_ascending() {
    let mut q = BitQueue::from_mask(0b1010_0001);
    assert_eq!(q.next(), Some(0));
    assert_eq!(q.next(), Some(5));
    assert_eq!(q.next(), Some(7));
    assert_eq!(q.next(), None);
    assert_eq!(q.next(), None);
    let mut e = BitQueue::empty();
    assert_eq!(e.next(), None);
    let mut top = BitQueue::from_mask(1u64 << 63);
    assert_eq!(top.next(), Some(63));
    assert_eq!(top.next(), None);
}

#[test]
fn resolve_iter_unchecked_yields_in_order() {
    let mut it = ResolveIterUnchecked::new(vec![7u64, 8, 9]);
    assert_eq!(it.len(), 3);
    assert_eq!(it.next(), Some(7));
    assert_eq!(it.next(), Some(8));
    assert_eq!(it.next(), Some(9));
    assert_eq!(it.next(), None);
}

#[test]
fn level_reuses_freed_blocks() {
    let mut level: Level<u64> = Level::default();
    assert_eq!(level.blocks().len(), 1);
    assert!(level.blocks()[0].is_empty());
    let a = level.insert_empty_block();
    let b = level.insert_empty_block();
    assert_ne!(a, 0);
    assert_ne!(b, 0);
    assert_ne!(a, b);
    assert_eq!(level.blocks().len(), 3);
    level.remove_empty_block_unchecked(a);
    let c = level.insert_empty_block();
    assert_eq!(c, a);
    assert_eq!(level.blocks().len(), 3);
}

//! Hierarchical bitmap tree: an associative container over a bounded integer
//! key space, decomposed level by level with radix 64. Each node carries a
//! 64-bit occupancy mask and a dense, popcount-indexed child array. Trees
//! compose lazily through `map`, `union`, `intersection`, `multi_union` and
//! `multi_intersection` views, all walked by one generic mask-driven iterator.

pub mod bits;
pub mod keys;
pub mod node;
pub mod dense_tree;
pub mod hibit_tree;
pub mod iter;
pub mod ops;
pub mod laws;
pub mod level;

pub use bits::BitQueue;
pub use dense_tree::DenseTree;
pub use hibit_tree::{HibitTree, HibitTreeCursor};
pub use iter::Iter;
pub use ops::mapped::{Mapped, MapFunction, Sealed};
pub use ops::union::{Union, union};
pub use ops::intersection::{Intersection, intersection};
pub use ops::multi_intersection::{MultiIntersection, MultiIntersectionState, StateResolveIter,
    ResolveIterUnchecked, multi_intersection};
pub use ops::multi_union::{MultiUnion, multi_union};
pub use level::{Level, ILevel, LevelBlock};

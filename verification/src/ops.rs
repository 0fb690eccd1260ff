//! Lazy compositional operators: unary map, binary union and intersection,
//! and their n-ary generalisations.

pub mod mapped;
pub mod union;
pub mod intersection;
pub mod multi_intersection;
pub mod multi_union;

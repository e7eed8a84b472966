//! A generic n-ary spatial index: a tree that partitions a region into
//! sub-regions and stores points in bounded buckets at its leaves.
//!
//! The tree asks of its regions only what the `Region` trait states. A full
//! bucket splits its region and reinserts its points; a full bucket whose
//! region can no longer be divided refuses further points rather than
//! splitting without end.
pub mod node;
pub mod quad;
pub mod query;
pub mod region;
pub mod tree;

pub use quad::{QuadTreeRegion, Vec2};
pub use query::RangeQuery;
pub use region::Region;
pub use tree::NTree;

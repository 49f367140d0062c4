//! Exact nearest-neighbour and k-nearest-neighbour search over a fixed set of
//! coordinates, with an implicit two-dimensional kd-tree and a bounded top-k
//! collector.
//!
//! Coordinates are fixed-point integers (millionths of a degree) and the metric
//! is the squared planar distance, which is exact in integer arithmetic and
//! orders points the same way as the planar distance itself.
pub mod answers;
pub mod kd_tree;
pub mod priority_queue;
pub mod types;

//! Turning an editable construction into rigid compounds and a joint forest.

pub mod actuation;
pub mod assembly;
pub mod classes;
pub mod colliders;
pub mod compaction;
pub mod compounds;
pub mod cylinders;
pub mod disjoint_set;
pub mod drive_rows;
pub mod drives;
pub mod emission;
pub mod forest;
pub mod grouping;
pub mod joints;
pub mod mass;
pub mod mechanism;
pub mod model;
pub mod postorder;
pub mod readiness;
pub mod roots;
pub mod starting;
pub mod subtrees;
pub mod topology;
pub mod tree;

//! Saved creations.
//!
//! A construction keeps its rows in generational arenas whose handles are not
//! stable across a rebuild, so a file cannot name them. A creation document
//! numbers each row by its position in the file instead, and rebuilding maps
//! those positions onto the handles that the arenas hand back.

pub mod append;
pub mod connect;
pub mod doc;
pub mod inputs;
pub mod lanes;
pub mod load;
pub mod loadable;
pub mod owners;
pub mod regions;
pub mod replay;
pub mod resave;
pub mod rows;
pub mod snapshot;
pub mod spawn;
pub mod survival;
pub mod transfer;
pub mod transform;

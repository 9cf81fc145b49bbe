//! Construction, drive and compilation rules of jointed block machines.
#![allow(unused_imports)]

pub mod appearance;
pub mod arena;
pub mod compile;
pub mod controller_input;
pub mod contact;
pub mod creation;
pub mod double;
pub mod drive;
pub mod dynamics;
pub mod edit;
pub mod exact;
pub mod frame;
pub mod framing;
pub mod gear_link;
pub mod gear_phase;
pub mod gearbox;
pub mod graph;
pub mod grid;
pub mod ids;
pub mod label;
pub mod ordered;
pub mod parts;
pub mod reframe;
pub mod region;
pub mod scalar;

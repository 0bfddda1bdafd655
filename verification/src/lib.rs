use vstd::prelude::*;

pub mod style;
pub mod text;
pub mod single;
pub mod color;
pub mod controls;
pub mod graph;
pub mod readout;
pub mod calendar;
pub mod dates;
pub mod font;
pub mod layered;
pub mod search;
pub mod kahn;
pub mod ranking;
pub mod dummies;
pub mod crossings;
pub mod walk;
pub mod ordering;
pub mod sweeps;
pub mod plan;
pub mod groups;
pub mod categories;
pub mod mesh;
pub mod roster;
pub mod legend;
pub mod frame;
pub mod placement;
pub mod prng;

verus! {

} // verus!

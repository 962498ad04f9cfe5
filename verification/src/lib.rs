use vstd::prelude::*;

pub mod bits;
pub mod basic_grids;
pub mod packed;
pub mod text;
pub mod ca;
pub mod rule_table;
pub mod outside;
pub mod retain;
pub mod board;
pub mod matching;
pub mod scores;
pub mod leaves;
pub mod extract;
pub mod degenerate;
pub mod search;
pub mod layers;
pub mod stats;
pub mod format;
pub mod rle;
pub mod deep;
pub mod predecessors;
pub mod culled;
pub mod readback;
pub mod dead_plane;

verus! {
} // verus!

//! Logic synthesis, placement and routing for a redstone HDL compiler.
use vstd::prelude::*;

pub mod assemble;
pub mod ast;
pub mod budget;
pub mod cell_library;
pub mod cli;
pub mod cycle;
pub mod error;
pub mod geom;
pub mod graph;
pub mod grid3d;
pub mod lower;
pub mod netlist;
pub mod optimize;
pub mod pipeline;
pub mod place;
pub mod route;
pub mod stages;
pub mod text;
pub mod timing;

verus! {

/// Default seed for the randomized placement stage.
pub const DEFAULT_SEED: u64 = 0xCAFE_F00D_DEAD_BEEF;

} // verus!

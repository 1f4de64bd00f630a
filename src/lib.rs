//! Dependency-graph visualisation engine: a canonical graph store, a filtered
//! view derived from it, an incremental force-directed layout, and a
//! topological colour propagation.
//!
//! All quantities are fixed-point integers: positions and velocities are in
//! 1/1024 of a world unit, masses in 1/1024, colour channels in 1/65536.
use vstd::prelude::*;

pub mod fixed;
pub mod graph;
pub mod load;
pub mod filter;
pub mod topo;
pub mod color;
pub mod layout;
pub mod app_state;

verus! {

/// Marker for the edge direction of the graphs handled here: every edge is
/// directed, from a dependency to the node that depends on it.
#[derive(Clone, Copy)]
pub struct Directed {}

impl Directed {
    pub fn is_directed() -> (r: bool)
        ensures
            r,
    {
        true
    }
}

} // verus!

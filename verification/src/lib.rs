//! The `h3o` library implements the H3 geospatial indexing system: bit-level
//! encoding of cell, directed edge and vertex indexes, the resolution
//! hierarchy and the traversal of that hierarchy.
#![allow(unused_imports)]

use vstd::prelude::*;

pub mod base_cell;
pub mod direction;
pub mod error;
pub mod geom;
pub mod grid;
pub mod index;
pub mod resolution;
pub mod text;

pub use base_cell::BaseCell;
pub use direction::Direction;
pub use index::{CellIndex, DirectedEdgeIndex, Edge, IndexMode, Vertex, VertexIndex};
pub use resolution::{ExtendedResolution, Resolution};

verus! {

/// The number of vertices in a hexagon.
pub const NUM_HEX_VERTS: u8 = 6;

/// The number of vertices in a pentagon.
pub const NUM_PENT_VERTS: u8 = 5;

/// Number of pentagons per resolution.
pub const NUM_PENTAGONS: u8 = 12;

/// Default cell index (resolution 0, base cell 0).
pub const DEFAULT_CELL_INDEX: u64 = 0x0800_1fff_ffff_ffff;

/// `3 * k * (k + 1) + 1`: the number of cells within grid distance `k` of a
/// hexagon.
pub open spec fn spec_disk_size(k: nat) -> nat {
    3 * k * (k + 1) + 1
}

/// Maximum number of indices produced by the grid disk algorithm with the
/// given `k`.
///
/// For `k` large enough to cover the whole globe at resolution 15 the number
/// of cells at that resolution is returned.
pub fn max_grid_disk_size(k: u32) -> (n: u64)
    ensures
        k >= 13_780_510 ==> n == 569_707_381_193_162,
        k < 13_780_510 ==> n == spec_disk_size(k as nat),
{
    // k value which will encompass all cells at resolution 15.
    // This is the largest possible k in the H3 grid system.
    let k_max: u32 = 13_780_510;

    if k >= k_max {
        proof {
            reveal_with_fuel(resolution::pow7, 16);
        }
        return Resolution::Fifteen.cell_count();
    }

    let k = k as u64;
    assert(k * (k + 1) <= 13_780_510 * 13_780_510) by (nonlinear_arith)
        requires
            k < 13_780_510,
    ;
    assert(3 * k * (k + 1) == 3 * (k * (k + 1))) by (nonlinear_arith);
    3 * k * (k + 1) + 1
}


} // verus!

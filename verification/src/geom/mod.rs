//! Configuration of the bridges between H3 entities and geometrical shapes.
use vstd::prelude::*;

pub mod plotter;
pub mod solvent;
pub mod tiler;
pub mod to_h3;

pub use plotter::PlotterBuilder;
pub use solvent::{Solvent, SolventBuilder};
pub use tiler::{ContainmentMode, TilerBuilder};
pub use to_h3::PolyfillConfig;

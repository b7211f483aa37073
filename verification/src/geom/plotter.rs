//! Configuration of the plotting of lines with cells.
use crate::resolution::Resolution;
use vstd::prelude::*;

verus! {

/// A builder to configure a plotter.
#[derive(Debug, Clone, Copy, PartialEq, Eq, Structural)]
pub struct PlotterBuilder {
    /// Resolution of the produced cells.
    pub resolution: Resolution,
    /// Whether input coordinates are converted from degrees to radians.
    pub convert_to_rads: bool,
}

impl PlotterBuilder {
    /// Initializes a new plotter builder with default settings.
    pub fn new(resolution: Resolution) -> (b: Self)
        ensures
            b.resolution == resolution,
            b.convert_to_rads,
    {
        Self { resolution, convert_to_rads: true }
    }

    /// Disables the degrees-to-radians conversion pre-processing.
    pub fn disable_radians_conversion(self) -> (b: Self)
        ensures
            b.resolution == self.resolution,
            !b.convert_to_rads,
    {
        Self { resolution: self.resolution, convert_to_rads: false }
    }
}

} // verus!

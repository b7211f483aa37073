//! Polyfill configuration.
use crate::geom::tiler::ContainmentMode;
use crate::resolution::Resolution;
use vstd::prelude::*;

verus! {

/// Polyfill configuration.
#[derive(Clone, Copy, Debug, PartialEq, Eq, Structural)]
pub struct PolyfillConfig {
    /// Resolution of the produced cells.
    pub resolution: Resolution,
    /// Containment mode.
    pub containment: ContainmentMode,
}

impl PolyfillConfig {
    /// Instantiates a default configuration.
    pub fn new(resolution: Resolution) -> (c: Self)
        ensures
            c.resolution == resolution,
            c.containment == ContainmentMode::ContainsCentroid,
    {
        Self { resolution, containment: ContainmentMode::ContainsCentroid }
    }

    /// Sets the containment mode defining if a cell is in a polygon or not.
    pub fn containment_mode(self, mode: ContainmentMode) -> (c: Self)
        ensures
            c.resolution == self.resolution,
            c.containment == mode,
    {
        Self { resolution: self.resolution, containment: mode }
    }
}

} // verus!

//! Configuration of the tiling of shapes with cells.
use crate::resolution::Resolution;
use vstd::prelude::*;

verus! {

/// Containment mode used to decide if a cell is contained in a polygon or not.
#[derive(Clone, Copy, Debug, Eq, PartialEq, Structural)]
pub enum ContainmentMode {
    /// Select every cell whose centroid is contained inside the polygon.
    ContainsCentroid,
    /// Select every cell whose boundary is entirely within the polygon.
    ContainsBoundary,
    /// Select every cell whose boundary is within the polygon, even
    /// partially.
    IntersectsBoundary,
    /// As `IntersectsBoundary`, plus the cell covering the geometry when it
    /// lies inside a single cell.
    Covers,
}

/// A builder to configure a tiler.
#[derive(Clone, Copy, Debug, Eq, PartialEq, Structural)]
pub struct TilerBuilder {
    /// Resolution of the produced cells.
    pub resolution: Resolution,
    /// Containment mode.
    pub containment_mode: ContainmentMode,
    /// Whether input coordinates are converted from degrees to radians.
    pub convert_to_rads: bool,
    /// Whether the transmeridian heuristic is applied.
    pub transmeridian_heuristic_enabled: bool,
}

impl TilerBuilder {
    /// Initializes a new tiler builder with default settings.
    pub fn new(resolution: Resolution) -> (b: Self)
        ensures
            b.resolution == resolution,
            b.containment_mode == ContainmentMode::ContainsCentroid,
            b.convert_to_rads,
            b.transmeridian_heuristic_enabled,
    {
        Self {
            resolution,
            containment_mode: ContainmentMode::ContainsCentroid,
            convert_to_rads: true,
            transmeridian_heuristic_enabled: true,
        }
    }

    /// Disables the degrees-to-radians conversion pre-processing.
    pub fn disable_radians_conversion(self) -> (b: Self)
        ensures
            b == (Self { convert_to_rads: false, ..self }),
    {
        let mut b = self;
        b.convert_to_rads = false;
        b
    }

    /// Sets the containment mode defining if a cell is in a polygon or not.
    pub fn containment_mode(self, mode: ContainmentMode) -> (b: Self)
        ensures
            b == (Self { containment_mode: mode, ..self }),
    {
        let mut b = self;
        b.containment_mode = mode;
        b
    }

    /// Disables the transmeridian heuristic.
    pub fn disable_transmeridian_heuristic(self) -> (b: Self)
        ensures
            b == (Self { transmeridian_heuristic_enabled: false, ..self }),
    {
        let mut b = self;
        b.transmeridian_heuristic_enabled = false;
        b
    }
}

} // verus!

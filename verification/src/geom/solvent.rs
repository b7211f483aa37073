//! Configuration of the dissolution of cell sets into outlines.
use crate::resolution::Resolution;
use vstd::prelude::*;

verus! {

/// The kind of cell set a solvent accepts.
#[derive(Debug, Clone, Copy, PartialEq, Eq, Structural)]
pub enum InputMode {
    /// An homogeneous set of cells.
    Homogeneous,
    /// An heterogeneous set of cells (e.g. compacted) with a max resolution.
    Heterogeneous(Resolution),
}

/// A solvent that dissolves a set of H3 cell indexes into the outlines of
/// the set.
#[derive(Debug, Clone, Copy, PartialEq, Eq, Structural)]
pub struct Solvent {
    /// The kind of cell set accepted.
    pub input_mode: InputMode,
    /// Whether duplicated input cells are detected.
    pub check_duplicate: bool,
}

/// A builder to configure a solvent.
#[derive(Debug, Clone, Copy, PartialEq, Eq, Structural)]
pub struct SolventBuilder {
    /// The kind of cell set accepted.
    pub input_mode: InputMode,
    /// Whether duplicated input cells are detected.
    pub check_duplicate: bool,
}

impl SolventBuilder {
    /// Initializes a new solvent builder with default settings: homogeneous
    /// input, duplicate detection enabled.
    pub fn new() -> (b: Self)
        ensures
            b.input_mode == InputMode::Homogeneous,
            b.check_duplicate,
    {
        Self { input_mode: InputMode::Homogeneous, check_duplicate: true }
    }

    /// Disables duplicate detection.
    ///
    /// If the input set contains duplicate cells, the resulting geometry will
    /// be incorrect.
    pub fn disable_duplicate_detection(self) -> (b: Self)
        ensures
            b.input_mode == self.input_mode,
            !b.check_duplicate,
    {
        let mut b = self;
        b.check_duplicate = false;
        b
    }

    /// Enables support for heterogeneous (e.g. compacted) cell sets, up to
    /// the given (finest) resolution.
    pub fn enable_heterogeneous_support(self, resolution: Resolution) -> (b: Self)
        ensures
            b.input_mode == InputMode::Heterogeneous(resolution),
            b.check_duplicate == self.check_duplicate,
    {
        let mut b = self;
        b.input_mode = InputMode::Heterogeneous(resolution);
        b
    }

    /// Builds the solvent.
    pub fn build(self) -> (s: Solvent)
        ensures
            s.input_mode == self.input_mode,
            s.check_duplicate == self.check_duplicate,
    {
        Solvent { input_mode: self.input_mode, check_duplicate: self.check_duplicate }
    }
}

impl Default for SolventBuilder {
    fn default() -> (b: Self)
        ensures
            b.input_mode == InputMode::Homogeneous,
            b.check_duplicate,
    {
        Self::new()
    }
}

} // verus!

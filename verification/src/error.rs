//! Error types.
use vstd::prelude::*;

verus! {

/// Invalid resolution.
#[derive(Clone, Copy, Debug, PartialEq, Eq, Structural)]
pub struct InvalidResolution {
    /// The invalid value, when available.
    pub value: Option<u8>,
}

/// Invalid base cell number.
#[derive(Clone, Copy, Debug, PartialEq, Eq, Structural)]
pub struct InvalidBaseCell {
    /// The invalid value.
    pub value: u8,
}

/// Invalid cell index.
#[derive(Clone, Copy, Debug, PartialEq, Eq, Structural)]
pub struct InvalidCellIndex {
    /// The invalid value, when available.
    pub value: Option<u64>,
}

/// Invalid cell edge.
#[derive(Clone, Copy, Debug, PartialEq, Eq, Structural)]
pub struct InvalidEdge {
    /// The invalid value.
    pub value: u8,
}

/// Invalid directed edge index.
#[derive(Clone, Copy, Debug, PartialEq, Eq, Structural)]
pub struct InvalidDirectedEdgeIndex {
    /// The invalid value, when available.
    pub value: Option<u64>,
}

/// Invalid cell vertex.
#[derive(Clone, Copy, Debug, PartialEq, Eq, Structural)]
pub struct InvalidVertex {
    /// The invalid value.
    pub value: u8,
}

/// Errors occurring while compacting a set of cell indexes.
#[derive(Clone, Copy, Debug, PartialEq, Eq, Structural)]
pub enum CompactionError {
    /// Input contains indexes of different resolutions.
    HeterogeneousResolution,
    /// Input contains duplicate indexes.
    DuplicateInput,
}

} // verus!

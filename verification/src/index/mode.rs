//! Index modes.
use vstd::prelude::*;

verus! {

/// H3 index modes.
#[derive(Clone, Copy, Debug, Eq, PartialEq, Hash, Ord, PartialOrd, Structural)]
pub enum IndexMode {
    /// An H3 Cell (Hexagon/Pentagon) index.
    Cell,
    /// An H3 directed edge (Cell A -> Cell B) index.
    DirectedEdge,
    /// An H3 undirected edge (Cell A <-> Cell B) index.
    UndirectedEdge,
    /// An H3 Vertex (i.e. a single vertex of an H3 Cell).
    Vertex,
}

/// The numeric code of an index mode, as stored in the index bits.
pub open spec fn mode_value(m: IndexMode) -> u8 {
    match m {
        IndexMode::Cell => 1,
        IndexMode::DirectedEdge => 2,
        IndexMode::UndirectedEdge => 3,
        IndexMode::Vertex => 4,
    }
}

impl IndexMode {
    /// Returns the numeric code of the mode.
    pub fn to_u8(self) -> (v: u8)
        ensures
            v == mode_value(self),
    {
        match self {
            IndexMode::Cell => 1,
            IndexMode::DirectedEdge => 2,
            IndexMode::UndirectedEdge => 3,
            IndexMode::Vertex => 4,
        }
    }

    /// Returns the human-readable name of the mode.
    pub fn name(self) -> (s: &'static str)
        ensures
            self == IndexMode::Cell ==> s@ == "Cell"@,
            self == IndexMode::DirectedEdge ==> s@ == "DirectedEdge"@,
            self == IndexMode::UndirectedEdge ==> s@ == "UndirectedEdge"@,
            self == IndexMode::Vertex ==> s@ == "Vertex"@,
    {
        match self {
            IndexMode::Cell => "Cell",
            IndexMode::DirectedEdge => "DirectedEdge",
            IndexMode::UndirectedEdge => "UndirectedEdge",
            IndexMode::Vertex => "Vertex",
        }
    }
}

impl From<IndexMode> for u8 {
    fn from(value: IndexMode) -> (v: u8) {
        value.to_u8()
    }
}

impl vstd::std_specs::convert::FromSpecImpl<IndexMode> for u8 {
    open spec fn obeys_from_spec() -> bool {
        true
    }

    open spec fn from_spec(v: IndexMode) -> u8 {
        mode_value(v)
    }
}

} // verus!

//! Textual forms of the indexes: the lowercase hexadecimal value, and a
//! readable form `base-directions (hex)`, with the edge or vertex after an
//! underscore.
use crate::error::{InvalidCellIndex, InvalidDirectedEdgeIndex, InvalidResolution};
use crate::index::bits::{base_cell_of, field_of, DIRECTIONS_MASK};
use crate::index::cell::{is_valid_cell, CellIndex};
use crate::index::edge::{is_valid_edge, DirectedEdgeIndex, Edge};
use crate::index::mode::IndexMode;
use crate::index::vertex::{Vertex, VertexIndex};
use crate::resolution::{res_from, res_value, Resolution};
use crate::text::{
    number_value, padded_text, parse_u64, push_padded, push_radix, push_str, radix_text,
    string_from_chars,
};
use vstd::prelude::*;

verus! {

/// The readable form of an index: base cell in decimal, `-`, the 15
/// directions in octal, the edge or vertex number after `_` (when given),
/// then the value in hexadecimal within parentheses.
pub open spec fn index_text(bits: u64, field: Option<u8>) -> Seq<char> {
    radix_text(base_cell_of(bits) as nat, 10) + seq!['-'] + padded_text(
        (bits & DIRECTIONS_MASK) as nat,
        8,
        15,
    ) + match field {
        Some(f) => seq!['_'] + radix_text(f as nat, 10),
        None => Seq::empty(),
    } + seq![' ', '('] + radix_text(bits as nat, 16) + seq![')']
}

/// Writes the readable form of an index.
fn index_string(bits: u64, field: Option<u8>) -> (s: String)
    ensures
        s@ == index_text(bits, field),
{
    let mut out: Vec<char> = Vec::new();
    let base = ((bits >> 45u64) & 0x7f) as u8;
    proof {
        crate::index::bitvec::lemma_masks();
    }
    push_radix(&mut out, base as u64, 10);
    out.push('-');
    push_padded(&mut out, bits & DIRECTIONS_MASK, 8, 15);
    let ghost before_field = out@;
    match field {
        Some(f) => {
            out.push('_');
            push_radix(&mut out, f as u64, 10);
        },
        None => {},
    }
    proof {
        match field {
            Some(f) => {
                assert(out@ =~= before_field + (seq!['_'] + radix_text(f as nat, 10)));
            },
            None => {
                assert(out@ =~= before_field + Seq::<char>::empty());
            },
        }
    }
    out.push(' ');
    out.push('(');
    push_radix(&mut out, bits, 16);
    out.push(')');
    proof {
        assert(out@ =~= index_text(bits, field));
    }
    string_from_chars(&out)
}

/// Writes a number in the given base.
fn number_string(n: u64, radix: u64) -> (s: String)
    requires
        2 <= radix <= 16,
    ensures
        s@ == radix_text(n as nat, radix as nat),
{
    let mut out: Vec<char> = Vec::new();
    push_radix(&mut out, n, radix);
    proof {
        assert(out@ =~= radix_text(n as nat, radix as nat));
    }
    string_from_chars(&out)
}

impl CellIndex {
    /// The index value in lowercase hexadecimal.
    pub fn to_string(self) -> (s: String)
        ensures
            s@ == radix_text(self@ as nat, 16),
    {
        number_string(self.to_u64(), 16)
    }

    /// The readable form: base cell, directions in octal and value in
    /// hexadecimal, as in `21-656140514665777 (8c2bae305336bff)`.
    pub fn debug_string(self) -> (s: String)
        ensures
            s@ == index_text(self@, None),
    {
        index_string(self.to_u64(), None)
    }

    /// Reads a cell index from its hexadecimal value.
    pub fn from_str(s: &str) -> (r: Result<Self, InvalidCellIndex>)
        ensures
            match number_value(s@, 16) {
                Some(v) => if v <= u64::MAX && is_valid_cell(v as u64) {
                    r matches Ok(c) && c@ == v
                } else if v <= u64::MAX {
                    r == Err::<Self, InvalidCellIndex>(InvalidCellIndex { value: Some(v as u64) })
                } else {
                    r == Err::<Self, InvalidCellIndex>(InvalidCellIndex { value: None })
                },
                None => r == Err::<Self, InvalidCellIndex>(InvalidCellIndex { value: None }),
            },
    {
        match parse_u64(s, 16) {
            Some(value) => Self::try_from_u64(value),
            None => Err(InvalidCellIndex { value: None }),
        }
    }
}

impl core::str::FromStr for CellIndex {
    type Err = InvalidCellIndex;

    fn from_str(s: &str) -> (r: Result<Self, Self::Err>)
        ensures
            match number_value(s@, 16) {
                Some(v) => if v <= u64::MAX && is_valid_cell(v as u64) {
                    r matches Ok(c) && c@ == v
                } else if v <= u64::MAX {
                    r == Err::<Self, InvalidCellIndex>(InvalidCellIndex { value: Some(v as u64) })
                } else {
                    r == Err::<Self, InvalidCellIndex>(InvalidCellIndex { value: None })
                },
                None => r == Err::<Self, InvalidCellIndex>(InvalidCellIndex { value: None }),
            },
    {
        CellIndex::from_str(s)
    }
}

impl DirectedEdgeIndex {
    /// The index value in lowercase hexadecimal.
    pub fn to_string(self) -> (s: String)
        ensures
            s@ == radix_text(self@ as nat, 16),
    {
        number_string(self.to_u64(), 16)
    }

    /// The readable form: base cell, directions in octal, edge and value in
    /// hexadecimal, as in `21-656140514665777_3 (13c2bae305336bff)`.
    pub fn debug_string(self) -> (s: String)
        ensures
            s@ == index_text(self@, Some(field_of(self@))),
    {
        let edge = self.edge().to_u8();
        index_string(self.to_u64(), Some(edge))
    }

    /// Reads a directed edge index from its hexadecimal value.
    pub fn from_str(s: &str) -> (r: Result<Self, InvalidDirectedEdgeIndex>)
        ensures
            match number_value(s@, 16) {
                Some(v) => if v <= u64::MAX && is_valid_edge(v as u64) {
                    r matches Ok(e) && e@ == v
                } else if v <= u64::MAX {
                    r == Err::<Self, InvalidDirectedEdgeIndex>(
                        InvalidDirectedEdgeIndex { value: Some(v as u64) },
                    )
                } else {
                    r == Err::<Self, InvalidDirectedEdgeIndex>(
                        InvalidDirectedEdgeIndex { value: None },
                    )
                },
                None => r == Err::<Self, InvalidDirectedEdgeIndex>(
                    InvalidDirectedEdgeIndex { value: None },
                ),
            },
    {
        match parse_u64(s, 16) {
            Some(value) => Self::try_from_u64(value),
            None => Err(InvalidDirectedEdgeIndex { value: None }),
        }
    }
}

impl core::str::FromStr for DirectedEdgeIndex {
    type Err = InvalidDirectedEdgeIndex;

    fn from_str(s: &str) -> (r: Result<Self, Self::Err>)
        ensures
            match number_value(s@, 16) {
                Some(v) => if v <= u64::MAX && is_valid_edge(v as u64) {
                    r matches Ok(e) && e@ == v
                } else if v <= u64::MAX {
                    r == Err::<Self, InvalidDirectedEdgeIndex>(
                        InvalidDirectedEdgeIndex { value: Some(v as u64) },
                    )
                } else {
                    r == Err::<Self, InvalidDirectedEdgeIndex>(
                        InvalidDirectedEdgeIndex { value: None },
                    )
                },
                None => r == Err::<Self, InvalidDirectedEdgeIndex>(
                    InvalidDirectedEdgeIndex { value: None },
                ),
            },
    {
        DirectedEdgeIndex::from_str(s)
    }
}

impl VertexIndex {
    /// The index value in lowercase hexadecimal.
    pub fn to_string(self) -> (s: String)
        ensures
            s@ == radix_text(self@ as nat, 16),
    {
        number_string(self.to_u64(), 16)
    }

    /// The readable form: base cell, directions in octal, vertex and value
    /// in hexadecimal, as in `21-656140514665777_3 (23c2bae305336bff)`.
    pub fn debug_string(self) -> (s: String)
        ensures
            s@ == index_text(self@, Some(field_of(self@))),
    {
        let vertex = self.vertex().to_u8();
        index_string(self.to_u64(), Some(vertex))
    }
}

impl Resolution {
    /// The resolution number in decimal.
    pub fn to_string(self) -> (s: String)
        ensures
            s@ == radix_text(res_value(self) as nat, 10),
    {
        number_string(self.to_u8() as u64, 10)
    }

    /// Reads a resolution from its decimal number.
    pub fn from_str(s: &str) -> (r: Result<Self, InvalidResolution>)
        ensures
            match number_value(s@, 10) {
                Some(v) => if v <= 15 {
                    r == Ok::<Self, InvalidResolution>(res_from(v as u8))
                } else if v <= u8::MAX {
                    r == Err::<Self, InvalidResolution>(InvalidResolution { value: Some(v as u8) })
                } else {
                    r == Err::<Self, InvalidResolution>(InvalidResolution { value: None })
                },
                None => r == Err::<Self, InvalidResolution>(InvalidResolution { value: None }),
            },
    {
        match parse_u64(s, 10) {
            Some(value) => if value <= 255 {
                Self::try_from_u8(value as u8)
            } else {
                Err(InvalidResolution { value: None })
            },
            None => Err(InvalidResolution { value: None }),
        }
    }
}

impl core::str::FromStr for Resolution {
    type Err = InvalidResolution;

    fn from_str(s: &str) -> (r: Result<Self, Self::Err>)
        ensures
            match number_value(s@, 10) {
                Some(v) => if v <= 15 {
                    r == Ok::<Self, InvalidResolution>(res_from(v as u8))
                } else if v <= u8::MAX {
                    r == Err::<Self, InvalidResolution>(InvalidResolution { value: Some(v as u8) })
                } else {
                    r == Err::<Self, InvalidResolution>(InvalidResolution { value: None })
                },
                None => r == Err::<Self, InvalidResolution>(InvalidResolution { value: None }),
            },
    {
        Resolution::from_str(s)
    }
}

impl Edge {
    /// The edge number in decimal.
    pub fn to_string(self) -> (s: String)
        ensures
            s@ == radix_text(self.value() as nat, 10),
    {
        number_string(self.to_u8() as u64, 10)
    }
}

impl Vertex {
    /// The vertex number in decimal.
    pub fn to_string(self) -> (s: String)
        ensures
            s@ == radix_text(self.value() as nat, 10),
    {
        number_string(self.to_u8() as u64, 10)
    }
}

impl IndexMode {
    /// The name of the mode.
    pub fn to_string(self) -> (s: String)
        ensures
            self == IndexMode::Cell ==> s@ == "Cell"@,
            self == IndexMode::DirectedEdge ==> s@ == "DirectedEdge"@,
            self == IndexMode::UndirectedEdge ==> s@ == "UndirectedEdge"@,
            self == IndexMode::Vertex ==> s@ == "Vertex"@,
    {
        let mut out: Vec<char> = Vec::new();
        let name = self.name();
        push_str(&mut out, name);
        proof {
            assert(out@ =~= name@);
        }
        string_from_chars(&out)
    }
}

} // verus!

//! Cell vertexes and vertex indexes.
use crate::index::bits::{self, field_of, mode_of};
use crate::index::cell::{is_pentagon_cell, is_valid_cell, CellIndex};
use crate::index::edge::{owner_bits, owner_key};
use crate::index::mode::IndexMode;
use vstd::prelude::*;

verus! {

/// Maximum value for a cell vertex.
pub const MAX: u8 = 5;

/// Vertex of an H3 cell, in `[0, 5]`.
#[derive(Clone, Copy, Debug, Eq, PartialEq, Hash, Ord, PartialOrd, Structural)]
pub struct Vertex(u8);

impl Vertex {
    /// The number of the vertex.
    pub closed spec fn value(self) -> u8 {
        self.0
    }

    /// The vertex numbered `v`.
    pub closed spec fn spec_new(v: u8) -> Self {
        Vertex(v)
    }

    /// The vertex numbered `v` has the number `v`.
    pub proof fn lemma_spec_new(v: u8)
        ensures
            Self::spec_new(v).value() == v,
    {
    }

    /// Vertex numbers are in `[0, 5]`.
    #[verifier::type_invariant]
    pub closed spec fn inv(self) -> bool {
        self.0 <= MAX
    }

    /// Initializes a new cell vertex from a value known to be in range.
    pub fn new_unchecked(value: u8) -> (v: Self)
        requires
            value <= MAX,
        ensures
            v.value() == value,
    {
        Self(value)
    }

    /// Returns the number of the vertex.
    pub fn to_u8(self) -> (v: u8)
        ensures
            v == self.value(),
            v <= MAX,
    {
        proof {
            use_type_invariant(&self);
        }
        self.0
    }

    /// Converts a `u8` into a cell vertex.
    pub fn try_from_u8(value: u8) -> (r: Result<Self, crate::error::InvalidVertex>)
        ensures
            (value <= MAX) <==> r is Ok,
            r matches Ok(v) ==> v.value() == value && v == Self::spec_new(value),
            r matches Err(e) ==> e.value == value,
    {
        if value > MAX {
            return Err(crate::error::InvalidVertex { value });
        }
        Ok(Self(value))
    }
}

impl TryFrom<u8> for Vertex {
    type Error = crate::error::InvalidVertex;

    fn try_from(value: u8) -> (r: Result<Self, Self::Error>) {
        Self::try_from_u8(value)
    }
}

impl vstd::std_specs::convert::TryFromSpecImpl<u8> for Vertex {
    open spec fn obeys_try_from_spec() -> bool {
        true
    }

    open spec fn try_from_spec(v: u8) -> Result<Self, Self::Error> {
        if v <= MAX {
            Ok(Vertex::spec_new(v))
        } else {
            Err(crate::error::InvalidVertex { value: v })
        }
    }
}

impl From<Vertex> for u8 {
    fn from(value: Vertex) -> (v: u8) {
        value.to_u8()
    }
}

impl vstd::std_specs::convert::FromSpecImpl<Vertex> for u8 {
    open spec fn obeys_from_spec() -> bool {
        true
    }

    open spec fn from_spec(v: Vertex) -> u8 {
        v.value()
    }
}

impl From<Vertex> for u64 {
    fn from(value: Vertex) -> (v: u64) {
        value.to_u8() as u64
    }
}

impl vstd::std_specs::convert::FromSpecImpl<Vertex> for u64 {
    open spec fn obeys_from_spec() -> bool {
        true
    }

    open spec fn from_spec(v: Vertex) -> u64 {
        v.value() as u64
    }
}

// -----------------------------------------------------------------------------

/// Whether the 64-bit value has the shape of a vertex index: vertex mode, a
/// valid owner cell and a vertex number below the owner's vertex count.
///
/// A vertex index is moreover canonical (its owner is the lowest of the
/// three cells sharing the vertex); that part is not modelled here.
pub open spec fn is_vertex_index(v: u64) -> bool {
    &&& mode_of(v) == 4
    &&& is_valid_cell(owner_bits(v))
    &&& field_of(v) < if is_pentagon_cell(owner_bits(v)) {
        5u8
    } else {
        6u8
    }
}

/// Represents a single topological vertex in H3 grid system, shared by three
/// cells.
///
/// The index is encoded on 64-bit with the following bit layout:
///
/// ```text
///  ┏━┳━━━┳━━━┳━━━━━━━━━━━━━━━━━━━━━━┈┈┈┈┈┈┈┈━━━━━━━┓
///  ┃U┃ M ┃ V ┃                O                    ┃
///  ┗━┻━━━┻━━━┻━━━━━━━━━━━━━━━━━━━━━━┈┈┈┈┈┈┈┈━━━━━━━┛
/// 64 63 59   56                                    0
/// ```
///
/// Where:
/// - `U` is an unused reserved bit, always set to 0 (bit 63).
/// - `M` is the index mode, always set to 4, coded on 4 bits (59-62).
/// - `V` is the vertex number on the owner cell, in [0; 5], coded on 3 bits
///   (56-58).
/// - `O` is the owner cell index, coded on 56 bits (0-55).
///
/// Vertexes are ordered by owner (ignoring the resolution), then by vertex
/// number: the value keeps that key first so that the derived ordering
/// follows it.
#[derive(Clone, Copy, Debug, Eq, PartialEq, Hash, Ord, PartialOrd, Structural)]
pub struct VertexIndex {
    key: u64,
    vertex: u8,
    bits: u64,
}

impl View for VertexIndex {
    type V = u64;

    closed spec fn view(&self) -> u64 {
        self.bits
    }
}

impl VertexIndex {
    /// The ordering key agrees with the index bits.
    pub closed spec fn key_ok(self) -> bool {
        self.key == owner_key(self.bits) && self.vertex == field_of(self.bits)
    }

    /// Every vertex index has the shape of one.
    #[verifier::type_invariant]
    pub open spec fn inv(self) -> bool {
        is_vertex_index(self@) && self.key_ok()
    }

    /// Initializes a new vertex index from a value known to be valid.
    pub fn new_unchecked(value: u64) -> (v: Self)
        requires
            is_vertex_index(value),
        ensures
            v@ == value,
    {
        let vertex = bits::get_vertex(value);
        VertexIndex { key: value & 0xf80f_ffff_ffff_ffff, vertex, bits: value }
    }

    /// Returns the 64-bit value of the index.
    pub fn to_u64(self) -> (v: u64)
        ensures
            v == self@,
    {
        self.bits
    }

    /// Returns the cell vertex.
    pub fn vertex(self) -> (v: Vertex)
        ensures
            v.value() == field_of(self@),
    {
        proof {
            use_type_invariant(&self);
        }
        Vertex::new_unchecked(bits::get_vertex(self.bits))
    }

    /// Returns the owner cell of the vertex index.
    pub fn owner(self) -> (c: CellIndex)
        ensures
            c@ == owner_bits(self@),
    {
        proof {
            use_type_invariant(&self);
        }
        let bits = bits::set_mode(self.bits, IndexMode::Cell);
        CellIndex::new_unchecked(bits::clr_vertex(bits))
    }
}

impl From<VertexIndex> for u64 {
    fn from(value: VertexIndex) -> (v: u64) {
        value.to_u64()
    }
}

impl vstd::std_specs::convert::FromSpecImpl<VertexIndex> for u64 {
    open spec fn obeys_from_spec() -> bool {
        true
    }

    open spec fn from_spec(v: VertexIndex) -> u64 {
        v@
    }
}

} // verus!

//! Cell edges and directed edge indexes.
use crate::error::InvalidDirectedEdgeIndex;
use crate::index::bits::{
    self, base_cell_of, digit, field_of, mode_of, resolution_of, EDGE_MASK, MODE_MASK,
};
use crate::index::cell::{is_pentagon_cell, is_valid_cell, CellIndex};
use crate::index::mode::IndexMode;
use vstd::prelude::*;

verus! {

/// Minimum value for a cell edge.
pub const MIN: u8 = 1;

/// Maximum value for a cell edge.
pub const MAX: u8 = 6;

/// Edge of an H3 cell, in `[1, 6]`.
#[derive(Clone, Copy, Debug, Eq, PartialEq, Hash, Ord, PartialOrd, Structural)]
pub struct Edge(u8);

impl Edge {
    /// The number of the edge.
    pub closed spec fn value(self) -> u8 {
        self.0
    }

    /// The edge numbered `v`.
    pub closed spec fn spec_new(v: u8) -> Self {
        Edge(v)
    }

    /// The edge numbered `v` has the number `v`.
    pub proof fn lemma_spec_new(v: u8)
        ensures
            Self::spec_new(v).value() == v,
    {
    }

    /// Edge numbers are in `[1, 6]`.
    #[verifier::type_invariant]
    pub closed spec fn inv(self) -> bool {
        MIN <= self.0 <= MAX
    }

    /// Every edge number, in increasing order.
    pub fn iter() -> (v: Vec<Self>)
        ensures
            v@.len() == 6,
            forall|i: int| 0 <= i < 6 ==> (#[trigger] v@[i]).value() == i + 1,
    {
        let mut v: Vec<Self> = Vec::new();
        let mut value: u8 = MIN;
        while value <= MAX
            invariant
                1 <= value <= 7,
                v@.len() == value - 1,
                forall|i: int| 0 <= i < value - 1 ==> (#[trigger] v@[i]).value() == i + 1,
            decreases 7 - value,
        {
            v.push(Self::new_unchecked(value));
            value = value + 1;
        }
        v
    }

    /// Initializes a new cell edge from a value known to be in range.
    pub fn new_unchecked(value: u8) -> (e: Self)
        requires
            MIN <= value <= MAX,
        ensures
            e.value() == value,
    {
        Self(value)
    }

    /// Returns the number of the edge.
    pub fn to_u8(self) -> (v: u8)
        ensures
            v == self.value(),
            MIN <= v <= MAX,
    {
        proof {
            use_type_invariant(&self);
        }
        self.0
    }

    /// Converts a `u8` into a cell edge.
    pub fn try_from_u8(value: u8) -> (r: Result<Self, crate::error::InvalidEdge>)
        ensures
            (MIN <= value <= MAX) <==> r is Ok,
            r matches Ok(e) ==> e.value() == value && e == Self::spec_new(value),
            r matches Err(e) ==> e.value == value,
    {
        if !(MIN <= value && value <= MAX) {
            return Err(crate::error::InvalidEdge { value });
        }
        Ok(Self(value))
    }
}

impl TryFrom<u8> for Edge {
    type Error = crate::error::InvalidEdge;

    fn try_from(value: u8) -> (r: Result<Self, Self::Error>) {
        Self::try_from_u8(value)
    }
}

impl vstd::std_specs::convert::TryFromSpecImpl<u8> for Edge {
    open spec fn obeys_try_from_spec() -> bool {
        true
    }

    open spec fn try_from_spec(v: u8) -> Result<Self, Self::Error> {
        if MIN <= v <= MAX {
            Ok(Edge::spec_new(v))
        } else {
            Err(crate::error::InvalidEdge { value: v })
        }
    }
}

impl From<Edge> for u8 {
    fn from(value: Edge) -> (v: u8) {
        value.to_u8()
    }
}

impl vstd::std_specs::convert::FromSpecImpl<Edge> for u8 {
    open spec fn obeys_from_spec() -> bool {
        true
    }

    open spec fn from_spec(v: Edge) -> u8 {
        v.value()
    }
}

impl From<Edge> for u64 {
    fn from(value: Edge) -> (v: u64) {
        value.to_u8() as u64
    }
}

impl vstd::std_specs::convert::FromSpecImpl<Edge> for u64 {
    open spec fn obeys_from_spec() -> bool {
        true
    }

    open spec fn from_spec(v: Edge) -> u64 {
        v.value() as u64
    }
}

// -----------------------------------------------------------------------------

/// The origin cell bits of an edge (or vertex) index: cell mode and the
/// edge (or vertex) field cleared.
pub open spec fn owner_bits(v: u64) -> u64 {
    ((v & !MODE_MASK) | (1u64 << 59u64)) & !EDGE_MASK
}

/// The index bits of a cell with the given mode and edge (or vertex)
/// number.
pub open spec fn derived_bits(cell: u64, mode: u8, field: u8) -> u64 {
    (((cell & !MODE_MASK) | ((mode as u64) << 59u64)) & !EDGE_MASK) | ((field as u64) << 56u64)
}

/// Whether the 64-bit value is a valid directed edge index: directed edge
/// mode, a valid origin cell and an edge in `[1, 6]` (`[2, 6]` for a
/// pentagon, whose `K` edge is deleted).
pub open spec fn is_valid_edge(v: u64) -> bool {
    &&& mode_of(v) == 2
    &&& is_valid_cell(owner_bits(v))
    &&& (if is_pentagon_cell(owner_bits(v)) {
        2u8
    } else {
        1u8
    }) <= field_of(v) <= 6
}

/// The ordering key of an edge or vertex index: the bits without the
/// resolution and the edge (or vertex) number.
pub open spec fn owner_key(v: u64) -> u64 {
    v & 0xf80f_ffff_ffff_ffffu64
}

/// Replacing the edge number of a derived edge index derives the index with
/// the new number.
pub proof fn lemma_derived_field(cell: u64, f: u8, g: u8)
    requires
        f <= 7,
        g <= 7,
    ensures
        (derived_bits(cell, 2, f) & !EDGE_MASK) | ((g as u64) << 56u64) == derived_bits(cell, 2, g),
{
    let ff = f as u64;
    let gg = g as u64;
    assert((((((cell & !0x7800_0000_0000_0000u64) | (2u64 << 59u64)) & !0x0700_0000_0000_0000u64)
        | (ff << 56u64)) & !0x0700_0000_0000_0000u64) | (gg << 56u64) == (((cell
        & !0x7800_0000_0000_0000u64) | (2u64 << 59u64)) & !0x0700_0000_0000_0000u64) | (gg
        << 56u64)) by (bit_vector)
        requires
            ff <= 7,
            gg <= 7,
    ;
}

/// An edge (or vertex) index derived from a valid cell has that cell as its
/// origin (or owner), and carries the mode and number it was given.
pub proof fn law_owner_of_derived(cell: u64, mode: u8, field: u8)
    requires
        is_valid_cell(cell),
        1 <= mode <= 15,
        field <= 7,
    ensures
        owner_bits(derived_bits(cell, mode, field)) == cell,
        mode_of(derived_bits(cell, mode, field)) == mode,
        field_of(derived_bits(cell, mode, field)) == field,
{
    let m = mode as u64;
    let f = field as u64;
    let x = derived_bits(cell, mode, field);
    crate::index::bitvec::lemma_masks();
    assert(x == (((cell & !0x7800_0000_0000_0000u64) | (m << 59u64)) & !0x0700_0000_0000_0000u64)
        | (f << 56u64));
    assert((((x & !0x7800_0000_0000_0000u64) | (1u64 << 59u64)) & !0x0700_0000_0000_0000u64)
        == cell && (x >> 59u64) & 0xfu64 == m && (x >> 56u64) & 7u64 == f) by (bit_vector)
        requires
            x == (((cell & !0x7800_0000_0000_0000u64) | (m << 59u64)) & !0x0700_0000_0000_0000u64)
                | (f << 56u64),
            (cell >> 56u64) & 0x87u64 == 0u64,
            (cell >> 59u64) & 0xfu64 == 1u64,
            1 <= m <= 15,
            f <= 7,
    ;
}

/// Represents a single directed edge between two cells (an "origin" cell and a
/// neighboring "destination" cell).
///
/// The index is encoded on 64-bit with the following bit layout:
///
/// ```text
///  ┏━┳━━━┳━━━┳━━━━━━━━━━━━━━━━━━━━━━┈┈┈┈┈┈┈┈━━━━━━━┓
///  ┃U┃ M ┃ E ┃                O                    ┃
///  ┗━┻━━━┻━━━┻━━━━━━━━━━━━━━━━━━━━━━┈┈┈┈┈┈┈┈━━━━━━━┛
/// 64 63 59   56                                    0
/// ```
///
/// Where:
/// - `U` is an unused reserved bit, always set to 0 (bit 63).
/// - `M` is the index mode, always set to 2, coded on 4 bits (59-62).
/// - `E` is the edge of the origin cell, in [1; 6], coded on 3 bits (56-58).
/// - `O` is the origin cell index, coded on 56 bits (0-55).
///
/// Edges are ordered by origin (ignoring the resolution), then by edge: the
/// value keeps that key first so that the derived ordering follows it.
#[derive(Clone, Copy, Debug, Eq, PartialEq, Hash, Ord, PartialOrd, Structural)]
pub struct DirectedEdgeIndex {
    key: u64,
    edge: u8,
    bits: u64,
}

impl View for DirectedEdgeIndex {
    type V = u64;

    closed spec fn view(&self) -> u64 {
        self.bits
    }
}

impl DirectedEdgeIndex {
    /// The ordering key agrees with the index bits.
    pub closed spec fn key_ok(self) -> bool {
        self.key == owner_key(self.bits) && self.edge == field_of(self.bits)
    }

    /// Every directed edge index holds valid bits.
    #[verifier::type_invariant]
    pub open spec fn inv(self) -> bool {
        is_valid_edge(self@) && self.key_ok()
    }

    /// The directed edge index holding `value`.
    pub closed spec fn spec_from_bits(value: u64) -> Self {
        DirectedEdgeIndex { key: owner_key(value), edge: field_of(value), bits: value }
    }

    /// The directed edge index holding `value` holds it, with its ordering
    /// key.
    pub proof fn lemma_from_bits(value: u64)
        ensures
            Self::spec_from_bits(value)@ == value,
            Self::spec_from_bits(value).key_ok(),
    {
    }

    /// Two well-formed edge indexes are equal iff their bits are.
    pub proof fn lemma_eq(a: Self, b: Self)
        requires
            a.key_ok(),
            b.key_ok(),
        ensures
            (a == b) <==> (a@ == b@),
    {
    }

    /// Initializes a new edge index from a value known to be valid.
    pub fn new_unchecked(value: u64) -> (e: Self)
        requires
            is_valid_edge(value),
        ensures
            e@ == value,
            e == Self::spec_from_bits(value),
    {
        let edge = bits::get_edge(value);
        DirectedEdgeIndex { key: value & 0xf80f_ffff_ffff_ffff, edge, bits: value }
    }

    /// Returns the 64-bit value of the index.
    pub fn to_u64(self) -> (v: u64)
        ensures
            v == self@,
            is_valid_edge(v),
    {
        proof {
            use_type_invariant(&self);
        }
        self.bits
    }

    /// Returns the cell edge.
    pub fn edge(self) -> (e: Edge)
        ensures
            e.value() == field_of(self@),
    {
        proof {
            use_type_invariant(&self);
        }
        Edge::new_unchecked(bits::get_edge(self.bits))
    }

    /// Returns the origin cell of the directed edge.
    pub fn origin(self) -> (c: CellIndex)
        ensures
            c@ == owner_bits(self@),
    {
        proof {
            use_type_invariant(&self);
        }
        let bits = bits::set_mode(self.bits, IndexMode::Cell);
        CellIndex::new_unchecked(bits::clr_edge(bits))
    }

    /// Converts a 64-bit value into a directed edge index, checking its
    /// validity.
    pub fn try_from_u64(value: u64) -> (r: Result<Self, InvalidDirectedEdgeIndex>)
        ensures
            r is Ok <==> is_valid_edge(value),
            r matches Ok(e) ==> e@ == value && e == Self::spec_from_bits(value),
            r matches Err(e) ==> e.value == Some(value),
    {
        if bits::get_mode(value) != IndexMode::DirectedEdge.to_u8() {
            return Err(InvalidDirectedEdgeIndex { value: Some(value) });
        }

        // Clear the highest byte and validate the index part.
        let bits = bits::set_mode(value, IndexMode::Cell);
        let bits = bits::clr_edge(bits);
        let origin = match CellIndex::try_from_u64(bits) {
            Ok(origin) => origin,
            Err(_) => return Err(InvalidDirectedEdgeIndex { value: Some(value) }),
        };

        // An hexagon has 6 edges (1-6), while a pentagon only has 5 (2-6).
        let min_edge: u8 = if origin.is_pentagon() {
            2
        } else {
            1
        };
        let edge = bits::get_edge(value);
        if !(min_edge <= edge && edge <= MAX) {
            return Err(InvalidDirectedEdgeIndex { value: Some(value) });
        }
        Ok(Self::new_unchecked(value))
    }
}

impl TryFrom<u64> for DirectedEdgeIndex {
    type Error = InvalidDirectedEdgeIndex;

    fn try_from(value: u64) -> (r: Result<Self, Self::Error>) {
        Self::try_from_u64(value)
    }
}

impl vstd::std_specs::convert::TryFromSpecImpl<u64> for DirectedEdgeIndex {
    open spec fn obeys_try_from_spec() -> bool {
        true
    }

    open spec fn try_from_spec(v: u64) -> Result<Self, Self::Error> {
        if is_valid_edge(v) {
            Ok(DirectedEdgeIndex::spec_from_bits(v))
        } else {
            Err(InvalidDirectedEdgeIndex { value: Some(v) })
        }
    }
}

impl From<DirectedEdgeIndex> for u64 {
    fn from(value: DirectedEdgeIndex) -> (v: u64) {
        value.to_u64()
    }
}

impl vstd::std_specs::convert::FromSpecImpl<DirectedEdgeIndex> for u64 {
    open spec fn obeys_from_spec() -> bool {
        true
    }

    open spec fn from_spec(v: DirectedEdgeIndex) -> u64 {
        v@
    }
}

impl CellIndex {
    /// Returns all of the directed edges from the current cell, in
    /// increasing edge order (the deleted `K` edge excluded for a pentagon).
    pub fn edges(self) -> (v: Vec<DirectedEdgeIndex>)
        ensures
            v@.len() == if is_pentagon_cell(self@) {
                5int
            } else {
                6int
            },
            forall|i: int|
                0 <= i < v@.len() ==> (#[trigger] v@[i])@ == derived_bits(
                    self@,
                    2,
                    (i + 1 + if is_pentagon_cell(self@) {
                        1int
                    } else {
                        0int
                    }) as u8,
                ),
    {
        let cell = self.to_u64();
        let template = bits::set_mode(cell, IndexMode::DirectedEdge);
        let is_pentagon = self.is_pentagon();
        let start: u8 = if is_pentagon {
            2
        } else {
            1
        };
        let mut v: Vec<DirectedEdgeIndex> = Vec::new();
        let mut edge = start;
        while edge <= MAX
            invariant
                start == if is_pentagon {
                    2u8
                } else {
                    1u8
                },
                is_pentagon == is_pentagon_cell(cell),
                is_valid_cell(cell),
                cell == self@,
                template == (cell & !MODE_MASK) | ((2u8 as u64) << 59u64),
                start <= edge <= 7,
                v@.len() == edge - start,
                forall|i: int|
                    0 <= i < v@.len() ==> (#[trigger] v@[i])@ == derived_bits(
                        cell,
                        2,
                        (i + start) as u8,
                    ),
            decreases 7 - edge,
        {
            let value = bits::set_field(template, edge);
            proof {
                law_owner_of_derived(cell, 2, edge);
            }
            v.push(DirectedEdgeIndex::new_unchecked(value));
            edge = edge + 1;
        }
        v
    }
}

} // verus!

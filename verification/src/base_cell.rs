//! Base cells (resolution 0 cells).
use vstd::prelude::*;

verus! {

/// Number of base cells.
pub const NUM_BASE_CELLS: u8 = 122;

/// Whether the base cell numbered `v` is one of the 12 pentagons.
pub open spec fn is_pentagon_base(v: u8) -> bool {
    v == 4 || v == 14 || v == 24 || v == 38 || v == 49 || v == 58 || v == 63 || v == 72 || v
        == 83 || v == 97 || v == 107 || v == 117
}

/// One of the 122 resolution 0 cells of the H3 grid.
#[derive(Clone, Copy, Debug, Eq, PartialEq, Hash, Ord, PartialOrd, Structural)]
pub struct BaseCell(u8);

impl BaseCell {
    /// The number of the base cell, in `[0, 121]`.
    pub closed spec fn value(self) -> u8 {
        self.0
    }

    /// Base cell numbers are in `[0, 121]`.
    pub closed spec fn wf(self) -> bool {
        self.0 < 122
    }

    /// Initializes a new base cell from a value known to be in range.
    pub fn new_unchecked(value: u8) -> (b: Self)
        requires
            value < 122,
        ensures
            b.value() == value,
            b.wf(),
    {
        Self(value)
    }

    /// Returns the number of base cells.
    pub fn count() -> (n: u8)
        ensures
            n == 122,
    {
        NUM_BASE_CELLS
    }

    /// Returns the number of the base cell.
    pub fn to_u8(self) -> (v: u8)
        ensures
            v == self.value(),
    {
        self.0
    }

    /// Returns true if the base cell is pentagonal.
    pub fn is_pentagon(self) -> (b: bool)
        ensures
            b == is_pentagon_base(self.value()),
    {
        let v = self.0;
        v == 4 || v == 14 || v == 24 || v == 38 || v == 49 || v == 58 || v == 63 || v == 72 || v
            == 83 || v == 97 || v == 107 || v == 117
    }

    /// Returns true if the base cell is a polar pentagon.
    pub fn is_polar_pentagon(self) -> (b: bool)
        ensures
            b == (self.value() == 4 || self.value() == 117),
    {
        self.0 == 4 || self.0 == 117
    }

    /// Returns every base cell, in increasing order.
    pub fn all() -> (v: Vec<Self>)
        ensures
            v@.len() == 122,
            forall|i: int| 0 <= i < 122 ==> (#[trigger] v@[i]).value() == i,
    {
        let mut v: Vec<Self> = Vec::new();
        let mut i: u8 = 0;
        while i < NUM_BASE_CELLS
            invariant
                i <= 122,
                v@.len() == i,
                forall|j: int| 0 <= j < i ==> (#[trigger] v@[j]).value() == j,
            decreases 122 - i,
        {
            v.push(Self(i));
            i = i + 1;
        }
        v
    }

    /// Converts a `u8` into a base cell.
    pub fn try_from_u8(value: u8) -> (r: Result<Self, crate::error::InvalidBaseCell>)
        ensures
            value < 122 <==> r is Ok,
            r matches Ok(b) ==> b.value() == value,
            r matches Err(e) ==> e.value == value,
    {
        if value < NUM_BASE_CELLS {
            Ok(Self(value))
        } else {
            Err(crate::error::InvalidBaseCell { value })
        }
    }
}

impl From<BaseCell> for u8 {
    fn from(value: BaseCell) -> (v: u8) {
        value.0
    }
}

impl vstd::std_specs::convert::FromSpecImpl<BaseCell> for u8 {
    open spec fn obeys_from_spec() -> bool {
        true
    }

    open spec fn from_spec(v: BaseCell) -> u8 {
        v.value()
    }
}

} // verus!

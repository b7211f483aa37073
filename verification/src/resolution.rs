//! Cell resolutions.
use vstd::prelude::*;

verus! {

/// Cell resolution, from 0 to 15.
#[derive(Clone, Copy, Debug, Eq, PartialEq, Hash, Ord, PartialOrd, Structural)]
pub enum Resolution {
    /// Resolution 0.
    Zero,
    /// Resolution 1.
    One,
    /// Resolution 2.
    Two,
    /// Resolution 3.
    Three,
    /// Resolution 4.
    Four,
    /// Resolution 5.
    Five,
    /// Resolution 6.
    Six,
    /// Resolution 7.
    Seven,
    /// Resolution 8.
    Eight,
    /// Resolution 9.
    Nine,
    /// Resolution 10.
    Ten,
    /// Resolution 11.
    Eleven,
    /// Resolution 12.
    Twelve,
    /// Resolution 13.
    Thirteen,
    /// Resolution 14.
    Fourteen,
    /// Resolution 15.
    Fifteen,
}

/// The numeric value of a resolution, in `[0, 15]`.
pub open spec fn res_value(r: Resolution) -> u8 {
    match r {
        Resolution::Zero => 0,
        Resolution::One => 1,
        Resolution::Two => 2,
        Resolution::Three => 3,
        Resolution::Four => 4,
        Resolution::Five => 5,
        Resolution::Six => 6,
        Resolution::Seven => 7,
        Resolution::Eight => 8,
        Resolution::Nine => 9,
        Resolution::Ten => 10,
        Resolution::Eleven => 11,
        Resolution::Twelve => 12,
        Resolution::Thirteen => 13,
        Resolution::Fourteen => 14,
        Resolution::Fifteen => 15,
    }
}

/// The resolution whose value is `v` (for `v <= 15`).
pub open spec fn res_from(v: u8) -> Resolution {
    if v == 0 { Resolution::Zero }
    else if v == 1 { Resolution::One }
    else if v == 2 { Resolution::Two }
    else if v == 3 { Resolution::Three }
    else if v == 4 { Resolution::Four }
    else if v == 5 { Resolution::Five }
    else if v == 6 { Resolution::Six }
    else if v == 7 { Resolution::Seven }
    else if v == 8 { Resolution::Eight }
    else if v == 9 { Resolution::Nine }
    else if v == 10 { Resolution::Ten }
    else if v == 11 { Resolution::Eleven }
    else if v == 12 { Resolution::Twelve }
    else if v == 13 { Resolution::Thirteen }
    else if v == 14 { Resolution::Fourteen }
    else { Resolution::Fifteen }
}

/// 7 to the power `n`.
pub open spec fn pow7(n: nat) -> nat
    decreases n,
{
    if n == 0 { 1 } else { 7 * pow7((n - 1) as nat) }
}

impl Resolution {
    /// Returns the value of the resolution, in `[0, 15]`.
    pub fn to_u8(self) -> (v: u8)
        ensures
            v == res_value(self),
            v <= 15,
    {
        match self {
            Resolution::Zero => 0,
            Resolution::One => 1,
            Resolution::Two => 2,
            Resolution::Three => 3,
            Resolution::Four => 4,
            Resolution::Five => 5,
            Resolution::Six => 6,
            Resolution::Seven => 7,
            Resolution::Eight => 8,
            Resolution::Nine => 9,
            Resolution::Ten => 10,
            Resolution::Eleven => 11,
            Resolution::Twelve => 12,
            Resolution::Thirteen => 13,
            Resolution::Fourteen => 14,
            Resolution::Fifteen => 15,
        }
    }

    /// Initializes a new `Resolution` from a value known to be in range.
    pub fn new_unchecked(value: u8) -> (r: Self)
        requires
            value <= 15,
        ensures
            res_value(r) == value,
            r == res_from(value),
    {
        match value {
            0 => Resolution::Zero,
            1 => Resolution::One,
            2 => Resolution::Two,
            3 => Resolution::Three,
            4 => Resolution::Four,
            5 => Resolution::Five,
            6 => Resolution::Six,
            7 => Resolution::Seven,
            8 => Resolution::Eight,
            9 => Resolution::Nine,
            10 => Resolution::Ten,
            11 => Resolution::Eleven,
            12 => Resolution::Twelve,
            13 => Resolution::Thirteen,
            14 => Resolution::Fourteen,
            _ => Resolution::Fifteen,
        }
    }

    /// Returns true if the resolution is a Class III resolution (odd value).
    pub fn is_class3(self) -> (b: bool)
        ensures
            b == (res_value(self) % 2 == 1),
    {
        self.to_u8() % 2 == 1
    }

    /// Returns the next (finer) resolution, if any.
    pub fn succ(self) -> (r: Option<Self>)
        ensures
            res_value(self) == 15 <==> r is None,
            r matches Some(n) ==> res_value(n) == res_value(self) + 1,
    {
        let v = self.to_u8();
        if v == 15 {
            None
        } else {
            Some(Self::new_unchecked(v + 1))
        }
    }

    /// Returns the previous (coarser) resolution, if any.
    pub fn pred(self) -> (r: Option<Self>)
        ensures
            res_value(self) == 0 <==> r is None,
            r matches Some(p) ==> res_value(p) + 1 == res_value(self),
    {
        let v = self.to_u8();
        if v == 0 {
            None
        } else {
            Some(Self::new_unchecked(v - 1))
        }
    }
}


impl Resolution {
    /// Returns the resolutions in `[start, end]` (inclusive bounds), in
    /// increasing order; empty when `start` is finer than `end`.
    pub fn range(start: Self, end: Self) -> (v: Vec<Self>)
        ensures
            v@.len() == if res_value(start) <= res_value(end) {
                res_value(end) - res_value(start) + 1
            } else {
                0
            },
            forall|i: int|
                0 <= i < v@.len() ==> res_value(#[trigger] v@[i]) == res_value(start) + i,
    {
        let lo = start.to_u8();
        let hi = end.to_u8();
        let mut v: Vec<Self> = Vec::new();
        let mut value: u8 = lo;
        while value <= hi
            invariant
                lo <= 15,
                hi <= 15,
                lo <= value <= 16,
                value <= hi + 1 || (lo > hi && value == lo),
                v@.len() == value - lo,
                forall|i: int| 0 <= i < v@.len() ==> res_value(#[trigger] v@[i]) == lo + i,
            decreases 16 - value,
        {
            v.push(Self::new_unchecked(value));
            value = value + 1;
        }
        v
    }

    /// Returns the number of unique H3 cell indexes at this resolution,
    /// i.e. `2 + 120 * 7^resolution`.
    pub fn cell_count(self) -> (n: u64)
        ensures
            n == 2 + 120 * pow7(res_value(self) as nat),
    {
        proof {
            reveal_with_fuel(pow7, 16);
        }
        match self {
            Resolution::Zero => 122,
            Resolution::One => 842,
            Resolution::Two => 5882,
            Resolution::Three => 41_162,
            Resolution::Four => 288_122,
            Resolution::Five => 2_016_842,
            Resolution::Six => 14_117_882,
            Resolution::Seven => 98_825_162,
            Resolution::Eight => 691_776_122,
            Resolution::Nine => 4_842_432_842,
            Resolution::Ten => 33_897_029_882,
            Resolution::Eleven => 237_279_209_162,
            Resolution::Twelve => 1_660_954_464_122,
            Resolution::Thirteen => 11_626_681_248_842,
            Resolution::Fourteen => 81_386_768_741_882,
            Resolution::Fifteen => 569_707_381_193_162,
        }
    }

    /// Returns the number of pentagons (same at any resolution).
    pub fn pentagon_count() -> (n: u8)
        ensures
            n == 12,
    {
        crate::NUM_PENTAGONS
    }

    /// Returns the bit offset of the direction at this resolution in an H3
    /// index.
    pub fn direction_offset(self) -> (offset: usize)
        ensures
            offset == (15 - res_value(self)) * 3,
    {
        h3o_bit::direction_offset(self.to_u8())
    }

    /// Converts a `u8` into a resolution.
    pub fn try_from_u8(value: u8) -> (r: Result<Self, crate::error::InvalidResolution>)
        ensures
            value <= 15 <==> r is Ok,
            r matches Ok(res) ==> res_value(res) == value && res == res_from(value),
            r matches Err(e) ==> e.value == Some(value),
    {
        if value <= 15 {
            Ok(Self::new_unchecked(value))
        } else {
            Err(crate::error::InvalidResolution { value: Some(value) })
        }
    }
}

impl From<Resolution> for u8 {
    fn from(value: Resolution) -> (v: u8) {
        value.to_u8()
    }
}

impl vstd::std_specs::convert::FromSpecImpl<Resolution> for u8 {
    open spec fn obeys_from_spec() -> bool {
        true
    }

    open spec fn from_spec(v: Resolution) -> u8 {
        res_value(v)
    }
}

impl From<Resolution> for u64 {
    fn from(value: Resolution) -> (v: u64) {
        value.to_u8() as u64
    }
}

impl vstd::std_specs::convert::FromSpecImpl<Resolution> for u64 {
    open spec fn obeys_from_spec() -> bool {
        true
    }

    open spec fn from_spec(v: Resolution) -> u64 {
        res_value(v) as u64
    }
}

impl From<Resolution> for usize {
    fn from(value: Resolution) -> (v: usize) {
        value.to_u8() as usize
    }
}

impl vstd::std_specs::convert::FromSpecImpl<Resolution> for usize {
    open spec fn obeys_from_spec() -> bool {
        true
    }

    open spec fn from_spec(v: Resolution) -> usize {
        res_value(v) as usize
    }
}

impl From<Resolution> for i16 {
    fn from(value: Resolution) -> (v: i16) {
        value.to_u8() as i16
    }
}

impl vstd::std_specs::convert::FromSpecImpl<Resolution> for i16 {
    open spec fn obeys_from_spec() -> bool {
        true
    }

    open spec fn from_spec(v: Resolution) -> i16 {
        res_value(v) as i16
    }
}

impl TryFrom<u8> for Resolution {
    type Error = crate::error::InvalidResolution;

    fn try_from(value: u8) -> (r: Result<Self, Self::Error>) {
        Self::try_from_u8(value)
    }
}

impl vstd::std_specs::convert::TryFromSpecImpl<u8> for Resolution {
    open spec fn obeys_try_from_spec() -> bool {
        true
    }

    open spec fn try_from_spec(v: u8) -> Result<Self, Self::Error> {
        if v <= 15 {
            Ok(res_from(v))
        } else {
            Err(crate::error::InvalidResolution { value: Some(v) })
        }
    }
}

// -----------------------------------------------------------------------------

/// Same as an H3 index resolution, but can go up to 16.
///
/// This extended range is required for some intermediate calculation.
#[derive(Clone, Copy, Debug, Eq, PartialEq, Hash, Ord, PartialOrd, Structural)]
pub struct ExtendedResolution(u8);

impl ExtendedResolution {
    /// The value of this extended resolution.
    pub closed spec fn value(self) -> u8 {
        self.0
    }

    /// The extended resolution of value `v`.
    pub closed spec fn spec_new(v: u8) -> Self {
        ExtendedResolution(v)
    }

    /// The extended resolution of value `v` has the value `v`.
    pub proof fn lemma_spec_new(v: u8)
        ensures
            Self::spec_new(v).value() == v,
    {
    }

    /// Returns true if the resolution is a Class III resolution.
    pub fn is_class3(self) -> (b: bool)
        ensures
            b == (self.value() % 2 == 1),
    {
        self.0 % 2 == 1
    }

    /// Move to the next finer resolution, below `current`.
    pub fn down(current: Resolution) -> (r: Self)
        ensures
            r.value() == res_value(current) + 1,
    {
        Self(current.to_u8() + 1)
    }

    /// Returns the value of this extended resolution, in `[0, 16]`.
    pub fn to_usize(self) -> (v: usize)
        ensures
            v == self.value(),
    {
        self.0 as usize
    }
}

impl From<Resolution> for ExtendedResolution {
    fn from(value: Resolution) -> (r: Self) {
        Self(value.to_u8())
    }
}

impl vstd::std_specs::convert::FromSpecImpl<Resolution> for ExtendedResolution {
    open spec fn obeys_from_spec() -> bool {
        true
    }

    open spec fn from_spec(v: Resolution) -> ExtendedResolution {
        ExtendedResolution::spec_new(res_value(v))
    }
}

/// Moving to the next finer resolution and back to the coarser one are
/// inverse operations.
pub proof fn law_succ_pred(r: Resolution)
    ensures
        res_value(r) < 15 ==> res_value(res_from((res_value(r) + 1) as u8)) == res_value(r) + 1,
        res_value(r) > 0 ==> res_from((res_value(res_from((res_value(r) - 1) as u8)) + 1) as u8) == r,
{
}

/// A resolution and its extended form are of the same class: the
/// conversion keeps the value.
pub proof fn law_extended_class(r: Resolution)
    ensures
        ExtendedResolution::spec_new(res_value(r)).value() == res_value(r),
        (ExtendedResolution::spec_new(res_value(r)).value() % 2 == 1) == (res_value(r) % 2 == 1),
{
}

} // verus!

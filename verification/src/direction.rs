//! Directions inside the hexagonal grid.
use vstd::prelude::*;

verus! {

/// Maximum value for a direction.
pub const MAX: u8 = 6;

/// A direction within an hexagonal grid.
///
/// In H3, each hexagon has six neighbors, one in each of the six directions
/// of the `IJK` coordinate system, plus the center direction.
#[derive(Clone, Copy, Debug, Eq, PartialEq, Hash, Ord, PartialOrd, Structural)]
pub enum Direction {
    /// Center.
    Center,
    /// K axe.
    K,
    /// J axe.
    J,
    /// JK axe.
    JK,
    /// I axe.
    I,
    /// IK axe.
    IK,
    /// IJ axe.
    IJ,
}

/// The numeric value of a direction, in `[0, 6]`.
pub open spec fn dir_value(d: Direction) -> u8 {
    match d {
        Direction::Center => 0,
        Direction::K => 1,
        Direction::J => 2,
        Direction::JK => 3,
        Direction::I => 4,
        Direction::IK => 5,
        Direction::IJ => 6,
    }
}

/// One 60° counterclockwise rotation of a direction value.
pub open spec fn ccw_value(v: u8) -> u8 {
    if v == 1 { 5 }
    else if v == 5 { 4 }
    else if v == 4 { 6 }
    else if v == 6 { 2 }
    else if v == 2 { 3 }
    else if v == 3 { 1 }
    else { v }
}

/// One 60° clockwise rotation of a direction value.
pub open spec fn cw_value(v: u8) -> u8 {
    if v == 1 { 3 }
    else if v == 3 { 2 }
    else if v == 2 { 6 }
    else if v == 6 { 4 }
    else if v == 4 { 5 }
    else if v == 5 { 1 }
    else { v }
}

/// One 60° rotation of a direction value, in the given way.
pub open spec fn rot_once(v: u8, ccw: bool) -> u8 {
    if ccw { ccw_value(v) } else { cw_value(v) }
}

/// `count` 60° rotations of a direction value, in the given way.
pub open spec fn rot(v: u8, ccw: bool, count: nat) -> u8
    decreases count,
{
    if count == 0 { v } else { rot_once(rot(v, ccw, (count - 1) as nat), ccw) }
}

/// Six rotations bring a direction back to itself, and a counterclockwise
/// rotation undoes a clockwise one.
pub proof fn law_rotation_cycle(v: u8, ccw: bool)
    requires
        v <= 6,
    ensures
        rot(v, ccw, 6) == v,
        ccw_value(cw_value(v)) == v,
        cw_value(ccw_value(v)) == v,
        rot_once(v, ccw) <= 6,
        (rot_once(v, ccw) == 0) == (v == 0),
{
    reveal_with_fuel(rot, 7);
}

/// Rotating `n + 1` times is rotating once, then `n` times.
proof fn lemma_rot_peel(v: u8, ccw: bool, n: nat)
    ensures
        rot(v, ccw, n + 1) == rot(rot_once(v, ccw), ccw, n),
    decreases n,
{
    if n > 0 {
        let m = (n - 1) as nat;
        lemma_rot_peel(v, ccw, m);
        assert(m + 1 == n);
        assert(rot(v, ccw, n + 1) == rot_once(rot(v, ccw, n), ccw));
        assert(rot(rot_once(v, ccw), ccw, n) == rot_once(rot(rot_once(v, ccw), ccw, m), ccw));
    } else {
        assert(rot(v, ccw, 1) == rot_once(rot(v, ccw, 0), ccw));
    }
}

/// Rotating `count` times one way, then `count` times the other way, gives
/// the direction back.
pub proof fn law_rotation_undone(v: u8, ccw: bool, count: nat)
    requires
        v <= 6,
    ensures
        rot(rot(v, ccw, count), !ccw, count) == v,
    decreases count,
{
    if count > 0 {
        let n = (count - 1) as nat;
        let u = rot(v, ccw, n);
        lemma_rot_mod(v, ccw, n);
        law_rotation_cycle(u, ccw);
        assert(rot(v, ccw, count) == rot_once(u, ccw));
        lemma_rot_peel(rot_once(u, ccw), !ccw, n);
        assert(rot_once(rot_once(u, ccw), !ccw) == u);
        law_rotation_undone(v, ccw, n);
    }
}

/// Rotating `count` times is rotating `count % 6` times.
pub proof fn lemma_rot_mod(v: u8, ccw: bool, count: nat)
    requires
        v <= 6,
    ensures
        rot(v, ccw, count) == rot(v, ccw, count % 6),
        rot(v, ccw, count) <= 6,
        (rot(v, ccw, count) == 0) == (v == 0),
    decreases count,
{
    if count >= 6 {
        lemma_rot_mod(v, ccw, (count - 6) as nat);
        lemma_rot_shift(v, ccw, (count - 6) as nat);
        assert((count - 6) as nat % 6 == count % 6);
    } else {
        lemma_rot_range(v, ccw, count);
    }
}

/// Rotations keep direction values in range, and never move the center.
proof fn lemma_rot_range(v: u8, ccw: bool, count: nat)
    requires
        v <= 6,
    ensures
        rot(v, ccw, count) <= 6,
        (rot(v, ccw, count) == 0) == (v == 0),
    decreases count,
{
    if count > 0 {
        lemma_rot_range(v, ccw, (count - 1) as nat);
    }
}

/// `rot(v, n + 6) == rot(v, n)`.
proof fn lemma_rot_shift(v: u8, ccw: bool, n: nat)
    requires
        v <= 6,
    ensures
        rot(v, ccw, n + 6) == rot(v, ccw, n),
    decreases n,
{
    if n == 0 {
        reveal_with_fuel(rot, 7);
    } else {
        lemma_rot_shift(v, ccw, (n - 1) as nat);
        assert(rot(v, ccw, n + 6) == rot_once(rot(v, ccw, (n + 5) as nat), ccw));
        assert((n - 1) as nat + 6 == n + 5);
    }
}

impl Direction {
    /// Returns the numeric value of the direction.
    pub fn to_u8(self) -> (v: u8)
        ensures
            v == dir_value(self),
            v <= 6,
    {
        match self {
            Direction::Center => 0,
            Direction::K => 1,
            Direction::J => 2,
            Direction::JK => 3,
            Direction::I => 4,
            Direction::IK => 5,
            Direction::IJ => 6,
        }
    }

    /// Initializes a new `Direction` from a value known to be in range.
    pub fn new_unchecked(value: u8) -> (d: Self)
        requires
            value <= 6,
        ensures
            dir_value(d) == value,
    {
        match value {
            0 => Direction::Center,
            1 => Direction::K,
            2 => Direction::J,
            3 => Direction::JK,
            4 => Direction::I,
            5 => Direction::IK,
            _ => Direction::IJ,
        }
    }

    /// Returns the axe numeric value of the direction, `None` for the center.
    pub fn axe(self) -> (a: Option<u8>)
        ensures
            dir_value(self) == 0 <==> a is None,
            a matches Some(v) ==> v == dir_value(self) && v != 0,
    {
        let v = self.to_u8();
        if v == 0 {
            None
        } else {
            Some(v)
        }
    }

    /// Rotates the direction by 60°, once, counterclockwise when `CCW`.
    pub fn rotate60_once<const CCW: bool>(self) -> (d: Self)
        ensures
            dir_value(d) == rot_once(dir_value(self), CCW),
    {
        if CCW {
            match self {
                Direction::Center => Direction::Center,
                Direction::K => Direction::IK,
                Direction::J => Direction::JK,
                Direction::JK => Direction::K,
                Direction::I => Direction::IJ,
                Direction::IK => Direction::I,
                Direction::IJ => Direction::J,
            }
        } else {
            match self {
                Direction::Center => Direction::Center,
                Direction::K => Direction::JK,
                Direction::J => Direction::IJ,
                Direction::JK => Direction::J,
                Direction::I => Direction::IK,
                Direction::IK => Direction::K,
                Direction::IJ => Direction::I,
            }
        }
    }

    /// Rotates the direction by 60°, `count` times, counterclockwise when
    /// `CCW`.
    pub fn rotate60<const CCW: bool>(self, count: usize) -> (d: Self)
        ensures
            dir_value(d) == rot(dir_value(self), CCW, count as nat),
    {
        proof {
            lemma_rot_mod(dir_value(self), CCW, count as nat);
        }
        let n = count % 6;
        let mut d = self;
        let mut i: usize = 0;
        while i < n
            invariant
                n == count % 6,
                i <= n,
                dir_value(d) == rot(dir_value(self), CCW, i as nat),
            decreases n - i,
        {
            d = d.rotate60_once::<CCW>();
            i = i + 1;
        }
        d
    }
}

impl From<Direction> for u8 {
    fn from(value: Direction) -> (v: u8) {
        value.to_u8()
    }
}

impl vstd::std_specs::convert::FromSpecImpl<Direction> for u8 {
    open spec fn obeys_from_spec() -> bool {
        true
    }

    open spec fn from_spec(v: Direction) -> u8 {
        dir_value(v)
    }
}

} // verus!

//! Direction codes: the dense per-cell encoding of movement directions.
//!
//! A direction code is one of ten symbolic values: the eight compass
//! directions plus the two sentinels `TARGET` and `IMPASSABLE`.  The
//! encode/decode mapping is a bijection over the eight real directions,
//! and the two sentinels decode to the zero vector.

use vstd::prelude::*;

verus! {

pub const UP: u8 = 0;

pub const UP_RIGHT: u8 = 1;

pub const RIGHT: u8 = 2;

pub const DOWN_RIGHT: u8 = 3;

pub const DOWN: u8 = 4;

pub const DOWN_LEFT: u8 = 5;

pub const LEFT: u8 = 6;

pub const UP_LEFT: u8 = 7;

pub const TARGET: u8 = 8;

pub const IMPASSABLE: u8 = 9;

/// An integer movement vector with components in `{-1, 0, 1}`.
#[derive(Clone, Copy, PartialEq, Eq, Structural, Debug)]
pub struct FlowVec {
    pub x: i32,
    pub y: i32,
}

/// The x component of one of the eight real direction codes.
pub open spec fn dir_dx(d: u8) -> int {
    if d == UP_RIGHT || d == RIGHT || d == DOWN_RIGHT {
        1
    } else if d == DOWN_LEFT || d == LEFT || d == UP_LEFT {
        -1
    } else {
        0
    }
}

/// The y component of one of the eight real direction codes.
pub open spec fn dir_dy(d: u8) -> int {
    if d == UP_LEFT || d == UP || d == UP_RIGHT {
        1
    } else if d == DOWN_RIGHT || d == DOWN || d == DOWN_LEFT {
        -1
    } else {
        0
    }
}

/// The cell one step from `c` in direction `d`.
pub open spec fn nbr(c: (int, int), d: u8) -> (int, int) {
    (c.0 + dir_dx(d), c.1 + dir_dy(d))
}

/// The movement vector a direction code decodes to: a unit-step vector for
/// the eight real directions, the zero vector for the two sentinels.
pub open spec fn decode_pair(d: u8) -> (int, int)
    recommends
        d <= IMPASSABLE,
{
    if d < TARGET {
        (dir_dx(d), dir_dy(d))
    } else {
        (0, 0)
    }
}

/// The direction code a movement vector encodes to, if any.
pub open spec fn encode_pair(v: (int, int)) -> Option<u8> {
    if v == (0int, 1int) {
        Some(UP)
    } else if v == (1int, 1int) {
        Some(UP_RIGHT)
    } else if v == (1int, 0int) {
        Some(RIGHT)
    } else if v == (1int, -1int) {
        Some(DOWN_RIGHT)
    } else if v == (0int, -1int) {
        Some(DOWN)
    } else if v == (-1int, -1int) {
        Some(DOWN_LEFT)
    } else if v == (-1int, 0int) {
        Some(LEFT)
    } else if v == (-1int, 1int) {
        Some(UP_LEFT)
    } else if v == (0int, 0int) {
        Some(TARGET)
    } else {
        None
    }
}

/// Decode a direction code into a movement vector.  The eight real
/// directions yield their unit-step vector, the two sentinels yield the
/// zero vector, and any other byte is not a direction code.
pub fn u8_to_vector(value: u8) -> (r: Option<FlowVec>)
    ensures
        value <= IMPASSABLE <==> r is Some,
        r matches Some(v) ==> (v.x as int, v.y as int) == decode_pair(value),
{
    if value == UP {
        Some(FlowVec { x: 0, y: 1 })
    } else if value == UP_RIGHT {
        Some(FlowVec { x: 1, y: 1 })
    } else if value == RIGHT {
        Some(FlowVec { x: 1, y: 0 })
    } else if value == DOWN_RIGHT {
        Some(FlowVec { x: 1, y: -1 })
    } else if value == DOWN {
        Some(FlowVec { x: 0, y: -1 })
    } else if value == DOWN_LEFT {
        Some(FlowVec { x: -1, y: -1 })
    } else if value == LEFT {
        Some(FlowVec { x: -1, y: 0 })
    } else if value == UP_LEFT {
        Some(FlowVec { x: -1, y: 1 })
    } else if value == TARGET || value == IMPASSABLE {
        Some(FlowVec { x: 0, y: 0 })
    } else {
        None
    }
}

/// Encode a movement vector into a direction code.  The eight unit-step
/// vectors yield their real direction, the zero vector yields `TARGET`,
/// and any other vector is not a direction.
pub fn vector_to_u8(vec: FlowVec) -> (r: Option<u8>)
    ensures
        r == encode_pair((vec.x as int, vec.y as int)),
{
    match (vec.x, vec.y) {
        (0i32, 1i32) => Some(UP),
        (1i32, 1i32) => Some(UP_RIGHT),
        (1i32, 0i32) => Some(RIGHT),
        (1i32, -1i32) => Some(DOWN_RIGHT),
        (0i32, -1i32) => Some(DOWN),
        (-1i32, -1i32) => Some(DOWN_LEFT),
        (-1i32, 0i32) => Some(LEFT),
        (-1i32, 1i32) => Some(UP_LEFT),
        (0i32, 0i32) => Some(TARGET),
        _ => None,
    }
}

/// Law: decoding then encoding restores each of the eight real direction
/// codes, and the two sentinels decode to the zero vector only.
pub proof fn lemma_direction_round_trip()
    ensures
        forall|d: u8| d < TARGET ==> encode_pair(decode_pair(d)) == Some(d),
        forall|d: u8| TARGET <= d <= IMPASSABLE ==> decode_pair(d) == (0int, 0int),
        forall|d: u8| d < TARGET ==> decode_pair(d) != (0int, 0int),
{
    assert forall|d: u8| d < TARGET implies encode_pair(decode_pair(d)) == Some(d) by {
        if d == UP {
        } else if d == UP_RIGHT {
        } else if d == RIGHT {
        } else if d == DOWN_RIGHT {
        } else if d == DOWN {
        } else if d == DOWN_LEFT {
        } else if d == LEFT {
        } else {
            assert(d == UP_LEFT);
        }
    }
}

} // verus!

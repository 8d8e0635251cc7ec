//! The selection rules of the two-colour patterns.
//!
//! A pattern divides space into unit cells and gives alternate cells to its
//! two textures `a` and `b`. The cell of a coordinate is the coordinate
//! rounded down, so cell `-1` lies next to cell `0` and gets the other
//! texture. Coordinates arrive as the bit patterns of double-precision
//! numbers; a coordinate that is infinite or not a number lies in no cell,
//! and there the pattern shows `b`.
use crate::numerics::{
    floor_is_even, floor_of, is_finite, rounds_down_to_even, INFINITY, SIGN_BIT,
};
use vstd::prelude::*;

verus! {

/// Stripes along x: `a` where the cell of the x coordinate is even, else `b`.
pub fn stripes<C>(x: u64, a: C, b: C) -> (color: C)
    ensures
        color == if floor_is_even(x) {
            a
        } else {
            b
        },
{
    if rounds_down_to_even(x) {
        a
    } else {
        b
    }
}

/// Rings around the y axis: `a` where the cell of the distance from the axis
/// is even, else `b`.
pub fn ring<C>(radius: u64, a: C, b: C) -> (color: C)
    ensures
        color == if floor_is_even(radius) {
            a
        } else {
            b
        },
{
    stripes(radius, a, b)
}

/// The x coordinate without its sign: the distance from the plane `x = 0`.
pub open spec fn distance_of(x: u64) -> u64 {
    if x < SIGN_BIT {
        x
    } else {
        (x - SIGN_BIT) as u64
    }
}

/// A gradient along x that runs back and forth and is mirrored at `x = 0`:
/// the two ends between which a point with the given x coordinate
/// interpolates, the end at the start of its cell first. The cell is that of
/// the distance `|x|`. In even cells the gradient runs from `a` to `b`, in
/// odd cells from `b` to `a`, so it is continuous where cells meet.
pub fn gradient<C>(x: u64, a: C, b: C) -> (ends: (C, C))
    ensures
        ends == if floor_is_even(distance_of(x)) {
            (a, b)
        } else {
            (b, a)
        },
{
    let distance: u64 = if x < SIGN_BIT {
        x
    } else {
        x - SIGN_BIT
    };
    if rounds_down_to_even(distance) {
        (a, b)
    } else {
        (b, a)
    }
}

/// Whether the three coordinates are finite and their cells have an even
/// sum.
pub open spec fn cells_sum_to_even(x: u64, y: u64, z: u64) -> bool {
    &&& is_finite(x)
    &&& is_finite(y)
    &&& is_finite(z)
    &&& (floor_of(x) + floor_of(y) + floor_of(z)) % 2 == 0
}

/// Checkers in three dimensions: `a` where the cells of the three
/// coordinates have an even sum, else `b`.
pub fn checkers<C>(x: u64, y: u64, z: u64, a: C, b: C) -> (color: C)
    ensures
        color == if cells_sum_to_even(x, y, z) {
            a
        } else {
            b
        },
{
    let finite = finite(x) && finite(y) && finite(z);
    let odd_x = !rounds_down_to_even(x);
    let odd_y = !rounds_down_to_even(y);
    let odd_z = !rounds_down_to_even(z);
    if finite && !((odd_x != odd_y) != odd_z) {
        a
    } else {
        b
    }
}

fn finite(bits: u64) -> (finite: bool)
    ensures
        finite == is_finite(bits),
{
    if bits < SIGN_BIT {
        bits < INFINITY
    } else {
        bits - SIGN_BIT < INFINITY
    }
}

/// Neighbouring cells get different textures, and cells two apart the same.
pub proof fn lemma_cells_alternate(cell: int)
    ensures
        (cell % 2 == 0) != ((cell + 1) % 2 == 0),
        (cell % 2 == 0) == ((cell + 2) % 2 == 0),
{
}

} // verus!

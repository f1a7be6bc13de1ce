//! Grid coordinates and the eight king-move neighbours of a cell.

use vstd::prelude::*;

verus! {

/// A cell position. Both axes wrap at the limits of `i64`, so every
/// coordinate has exactly eight neighbours and no offset can overflow.
#[derive(Clone, Copy, Debug, PartialEq, Eq, Structural)]
pub struct Coordinate {
    pub x: i64,
    pub y: i64,
}

/// Horizontal part of the `k`-th neighbour offset.
pub open spec fn offset_x(k: int) -> i64 {
    if k == 0 || k == 4 || k == 5 {
        -1i64
    } else if k == 1 || k == 6 || k == 7 {
        1i64
    } else {
        0i64
    }
}

/// Vertical part of the `k`-th neighbour offset.
pub open spec fn offset_y(k: int) -> i64 {
    if k == 2 || k == 4 || k == 6 {
        -1i64
    } else if k == 3 || k == 5 || k == 7 {
        1i64
    } else {
        0i64
    }
}

/// The `k`-th neighbour of `p`, for `k` in `0..8`: left, right, below, above,
/// then the four diagonals.
pub open spec fn spec_neighbor(p: Coordinate, k: int) -> Coordinate {
    Coordinate { x: p.x.wrapping_add(offset_x(k)), y: p.y.wrapping_add(offset_y(k)) }
}

/// `q` is one of the eight cells around `p`.
pub open spec fn adjacent(p: Coordinate, q: Coordinate) -> bool {
    exists|k: int| 0 <= k < 8 && q == #[trigger] spec_neighbor(p, k)
}

impl Coordinate {
    pub fn new(x: i64, y: i64) -> (p: Coordinate)
        ensures
            p == (Coordinate { x, y }),
    {
        Coordinate { x, y }
    }

    /// The `k`-th of the eight cells around this one.
    pub fn neighbor(&self, k: usize) -> (q: Coordinate)
        requires
            k < 8,
        ensures
            q == spec_neighbor(*self, k as int),
    {
        let dx: i64 = if k == 0 || k == 4 || k == 5 {
            -1
        } else if k == 1 || k == 6 || k == 7 {
            1
        } else {
            0
        };
        let dy: i64 = if k == 2 || k == 4 || k == 6 {
            -1
        } else if k == 3 || k == 5 || k == 7 {
            1
        } else {
            0
        };
        Coordinate { x: self.x.wrapping_add(dx), y: self.y.wrapping_add(dy) }
    }
}

} // verus!

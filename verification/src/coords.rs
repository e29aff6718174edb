//! Cell coordinates and the octile metric on them.

use vstd::prelude::*;

verus! {

/// Address of a cell: column `x` first, row `y` second.
pub type GridCoord = (i32, i32);

/// Cost of one axis-aligned step.
pub const STRAIGHT_COST: i32 = 10;

/// Cost of one diagonal step.
pub const DIAGONAL_COST: i32 = 14;

/// How far apart `a` and `b` are.
pub open spec fn abs_diff(a: int, b: int) -> int {
    if a >= b {
        a - b
    } else {
        b - a
    }
}

/// Octile distance between two cells: the longer axis at the straight cost,
/// plus the extra cost of going diagonally along the shorter one.
pub open spec fn octile(a: GridCoord, b: GridCoord) -> int {
    let dx = abs_diff(a.0 as int, b.0 as int);
    let dy = abs_diff(a.1 as int, b.1 as int);
    if dx > dy {
        DIAGONAL_COST * dy + STRAIGHT_COST * (dx - dy)
    } else {
        DIAGONAL_COST * dx + STRAIGHT_COST * (dy - dx)
    }
}

/// Octile distance between `start` and `end`, the cost of the cheapest way
/// between them where nothing is blocked. It must fit the result type, as it
/// does between any two cells of a grid.
pub fn distance(start: GridCoord, end: GridCoord) -> (d: i32)
    requires
        octile(start, end) <= i32::MAX,
    ensures
        d == octile(start, end),
{
    let dif_x: i64 = if start.0 >= end.0 {
        start.0 as i64 - end.0 as i64
    } else {
        end.0 as i64 - start.0 as i64
    };
    let dif_y: i64 = if start.1 >= end.1 {
        start.1 as i64 - end.1 as i64
    } else {
        end.1 as i64 - start.1 as i64
    };
    if dif_x > dif_y {
        (14 * dif_y + (dif_x - dif_y) * 10) as i32
    } else {
        (14 * dif_x + (dif_y - dif_x) * 10) as i32
    }
}

/// The vector from `b` to `a`, by components.
pub fn sub_coords(a: GridCoord, b: GridCoord) -> (d: (i64, i64))
    ensures
        d.0 == a.0 - b.0,
        d.1 == a.1 - b.1,
{
    (a.0 as i64 - b.0 as i64, a.1 as i64 - b.1 as i64)
}

} // verus!

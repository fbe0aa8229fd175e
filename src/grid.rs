use vstd::prelude::*;
use crate::state::Cell;

verus! {

/// Adds an offset to a coordinate and stops at the edges of `[lo, hi - 1]`:
/// a sum below `lo` gives `lo`, one above `hi - 1` gives `hi - 1`.
pub open spec fn clamp_axis(p: int, d: int, lo: int, hi: int) -> int {
    let s = p + d;
    if s < lo {
        lo
    } else if s > hi - 1 {
        hi - 1
    } else {
        s
    }
}

/// The cell reached from `pos` by the offset `dir`, clamped to the grid.
pub open spec fn moved(pos: Cell, dir: Cell, xsize: int, ysize: int) -> Cell {
    Cell {
        x: clamp_axis(pos.x as int, dir.x as int, 0, xsize) as i8,
        y: clamp_axis(pos.y as int, dir.y as int, 0, ysize) as i8,
    }
}

fn clamp_coord(p: i8, d: i8, lo: usize, hi: usize) -> (r: i8)
    requires
        lo < hi <= 128,
    ensures
        r == clamp_axis(p as int, d as int, lo as int, hi as int),
        lo <= r < hi,
{
    let s: i16 = p as i16 + d as i16;
    if s < lo as i16 {
        lo as i8
    } else if s > hi as i16 - 1 {
        (hi - 1) as i8
    } else {
        s as i8
    }
}

/// Moves `pos` by `dir`, each axis independently clamped: the first to
/// `[xmin, xmax - 1]`, the second to `[ymin, ymax - 1]`.
pub fn pos_addition(pos: &Cell, dir: &Cell, xmin: usize, xmax: usize, ymin: usize, ymax: usize) -> (r: Cell)
    requires
        xmin < xmax <= 128,
        ymin < ymax <= 128,
    ensures
        r.x == clamp_axis(pos.x as int, dir.x as int, xmin as int, xmax as int),
        r.y == clamp_axis(pos.y as int, dir.y as int, ymin as int, ymax as int),
        xmin <= r.x < xmax,
        ymin <= r.y < ymax,
{
    Cell { x: clamp_coord(pos.x, dir.x, xmin, xmax), y: clamp_coord(pos.y, dir.y, ymin, ymax) }
}

} // verus!

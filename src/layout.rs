use vstd::prelude::*;
use crate::state::Cell;
use crate::tables::{CellSet, cells_of};

verus! {

/// Failure of the layout generator.
#[derive(Clone, Copy, Debug, PartialEq, Eq, Structural)]
pub enum LayoutError {
    /// The grid is too small for the corridor pattern.
    InvalidGridSize,
}

/// The position of cell `(r, c)` in the walk over columns `2..xsize - 2`,
/// each of them over rows `1..ysize - 2`.
pub open spec fn walk_index(ysize: int, r: int, c: int) -> int {
    (c - 2) * (ysize - 3) + (r - 1)
}

/// Whether the layout marks `p` as a corridor cell: of each three cells of
/// the walk, the first two are marked and the third is skipped. A marked
/// cell holds the row in `x` and the column in `y`.
pub open spec fn is_rack(xsize: int, ysize: int, p: Cell) -> bool {
    &&& 2 <= p.y < xsize - 2
    &&& 1 <= p.x < ysize - 2
    &&& walk_index(ysize, p.x as int, p.y as int) % 3 != 2
}

/// The corridor cells of a grid of `xsize` by `ysize`; the grid must be
/// larger than 5 by 4.
pub fn place_racks(xsize: usize, ysize: usize) -> (r: Result<CellSet, LayoutError>)
    requires
        xsize <= 128,
        ysize <= 128,
    ensures
        r.is_err() <==> xsize <= 5 || ysize <= 4,
        r matches Err(e) ==> e == LayoutError::InvalidGridSize,
        r matches Ok(s) ==> forall|p: Cell| #[trigger] cells_of(s).contains(p) <==> is_rack(xsize as int, ysize as int, p),
{
    if xsize <= 5 || ysize <= 4 {
        return Err(LayoutError::InvalidGridSize);
    }
    let mut racks = CellSet::empty();
    let mut count: usize = 0;
    let ghost mut k: int = 0;
    let mut c: usize = 2;
    while c < xsize - 2
        invariant
            5 < xsize <= 128,
            4 < ysize <= 128,
            2 <= c <= xsize - 2,
            k == (c - 2) * (ysize - 3),
            count == k % 3,
            forall|p: Cell| #[trigger] cells_of(racks).contains(p) <==> is_rack(xsize as int, ysize as int, p) && p.y < c,
        decreases xsize - 2 - c,
    {
        let mut r: usize = 1;
        while r < ysize - 2
            invariant
                5 < xsize <= 128,
                4 < ysize <= 128,
                2 <= c < xsize - 2,
                1 <= r <= ysize - 2,
                k == (c - 2) * (ysize - 3) + (r - 1),
                count == k % 3,
                forall|p: Cell| #[trigger] cells_of(racks).contains(p) <==> is_rack(xsize as int, ysize as int, p)
                    && (p.y < c || (p.y == c && p.x < r)),
            decreases ysize - 2 - r,
        {
            let cell = Cell { x: r as i8, y: c as i8 };
            if count < 2 {
                count = count + 1;
                racks.add(cell);
            } else {
                count = 0;
            }
            proof {
                assert(walk_index(ysize as int, r as int, c as int) == k);
                k = k + 1;
                assert forall|p: Cell| #[trigger] cells_of(racks).contains(p) <==> is_rack(xsize as int, ysize as int, p)
                    && (p.y < c || (p.y == c && p.x < r + 1)) by {
                    if p == cell {
                        assert(p.x == r && p.y == c);
                    }
                }
            }
            r = r + 1;
        }
        proof {
            assert(k == (c + 1 - 2) * (ysize - 3)) by (nonlinear_arith)
                requires
                    k == (c - 2) * (ysize - 3) + (ysize - 2 - 1),
            ;
        }
        c = c + 1;
    }
    Ok(racks)
}

} // verus!

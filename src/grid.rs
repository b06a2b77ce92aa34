use vstd::prelude::*;
use crate::coords::{Coordinates, EdgePolicy};
use crate::engine::{count_living, neighbor_count, next_cells, next_generation};

verus! {

/// Whether `len` cells make a square grid.
pub open spec fn is_square(len: int) -> bool {
    exists|t: int| 0 <= t && #[trigger] (t * t) == len
}

/// The side of a square grid of `len` cells.
pub open spec fn grid_side(len: int) -> int {
    choose|t: int| 0 <= t && #[trigger] (t * t) == len
}

/// Finds the side of a square grid from its number of cells.
fn side_of(len: usize) -> (s: usize)
    requires
        is_square(len as int),
    ensures
        s as int == grid_side(len as int),
        s as int * s as int == len,
{
    let ghost t = grid_side(len as int);
    assert(t <= len) by (nonlinear_arith)
        requires
            0 <= t,
            t * t == len,
    ;
    let mut s: usize = 0;
    while (s as u128) * (s as u128) < len as u128
        invariant
            0 <= t,
            t * t == len,
            s <= t,
            t <= len,
            (s as int) * (s as int) <= len as int,
        decreases t - s,
    {
        assert(s < t) by (nonlinear_arith)
            requires
                (s as int) * (s as int) < t * t,
                0 <= s,
                0 <= t,
        ;
        s = s + 1;
        assert((s as int) * (s as int) <= t * t) by (nonlinear_arith)
            requires
                0 <= s <= t,
        ;
    }
    assert(s == t) by (nonlinear_arith)
        requires
            (s as int) * (s as int) >= t * t,
            0 <= s <= t,
    ;
    s
}

/// Counts the live neighbours of the cell at row-major index `ix` on the
/// square grid `board`, where positions off the grid are absent.
pub fn living_neighbors_count(ix: i32, board: &[bool]) -> (r: i32)
    requires
        is_square(board@.len() as int),
        board@.len() <= i32::MAX,
        0 <= ix < board@.len(),
    ensures
        r as int == neighbor_count(
            board@,
            grid_side(board@.len() as int),
            EdgePolicy::Clipped,
            ix as int / grid_side(board@.len() as int),
            ix as int % grid_side(board@.len() as int),
        ),
        0 <= r <= 8,
{
    let side = side_of(board.len());
    assert(side <= board@.len()) by (nonlinear_arith)
        requires
            side as int * side as int == board@.len(),
            board@.len() > 0,
    ;
    let n = side as i32;
    let c = Coordinates { x: ix / n, y: ix % n };
    count_living(board, n, EdgePolicy::Clipped, &c) as i32
}

/// The next generation of the square grid `board`, where positions off the
/// grid are absent; every cell reads the current grid only.
pub fn advance_board(board: &[bool]) -> (r: Vec<bool>)
    requires
        is_square(board@.len() as int),
        board@.len() <= i32::MAX,
    ensures
        r@ == next_generation(board@, grid_side(board@.len() as int), EdgePolicy::Clipped),
{
    if board.len() == 0 {
        assert(grid_side(0) * grid_side(0) == 0);
        assert(next_generation(board@, grid_side(0), EdgePolicy::Clipped) =~= Seq::<bool>::empty());
        return Vec::new();
    }
    let side = side_of(board.len());
    assert(side <= board@.len()) by (nonlinear_arith)
        requires
            side as int * side as int == board@.len(),
            board@.len() > 0,
    ;
    assert(side >= 1) by (nonlinear_arith)
        requires
            side as int * side as int == board@.len(),
            board@.len() > 0,
    ;
    next_cells(board, side as i32, EdgePolicy::Clipped)
}

} // verus!

use vstd::prelude::*;

verus! {

/// The Game of Life rule: whether a cell is alive in the next generation,
/// given whether it is alive now and how many of its neighbours are alive.
pub open spec fn next_alive(is_living: bool, n_neighbors: int) -> bool {
    if is_living {
        n_neighbors == 2 || n_neighbors == 3
    } else {
        n_neighbors == 3
    }
}

/// Decides whether a cell lives in the next generation.
///
/// A live cell survives with two or three live neighbours and dies otherwise;
/// a dead cell is born with exactly three live neighbours.
pub fn will_survive(is_living: bool, n_neighbors: u32) -> (r: bool)
    ensures
        r == next_alive(is_living, n_neighbors as int),
        is_living && n_neighbors <= 1 ==> !r,
        is_living && (n_neighbors == 2 || n_neighbors == 3) ==> r,
        is_living && n_neighbors >= 4 ==> !r,
        !is_living ==> (r <==> n_neighbors == 3),
{
    if !is_living {
        return n_neighbors == 3;
    }
    match n_neighbors {
        0..=1 => false,
        2..=3 => true,
        _ => false,
    }
}

/// The rule applied to a neighbour count held as a `usize`; it routes through
/// [`will_survive`], counts beyond `u32` being far past overpopulation.
pub fn will_be_alive(is_living: bool, living_neighbors: usize) -> (r: bool)
    ensures
        r == next_alive(is_living, living_neighbors as int),
{
    if living_neighbors > 8 {
        false
    } else {
        will_survive(is_living, living_neighbors as u32)
    }
}

} // verus!

use vstd::prelude::*;
use crate::coords::{Coordinates, EdgePolicy, neighbor_seq, lemma_neighbor_seq};
use crate::rules::{next_alive, will_survive};

verus! {

/// The row-major index of `(row, col)` on a board of side `n`.
pub open spec fn cell_index(row: int, col: int, n: int) -> int {
    row * n + col
}

/// How many of the positions `nbs` are alive in the row-major grid `cells`
/// of side `n`.
pub open spec fn live_count(cells: Seq<bool>, n: int, nbs: Seq<(int, int)>) -> int
    decreases nbs.len(),
{
    if nbs.len() == 0 {
        0
    } else {
        live_count(cells, n, nbs.drop_last()) + if cells[cell_index(nbs.last().0, nbs.last().1, n)] {
            1int
        } else {
            0int
        }
    }
}

/// The number of live neighbours of `(row, col)`.
pub open spec fn neighbor_count(cells: Seq<bool>, n: int, policy: EdgePolicy, row: int, col: int) -> int {
    live_count(cells, n, neighbor_seq(row, col, n, policy))
}

/// The next generation of the grid `cells` of side `n`: every cell follows
/// the rule on the neighbour count that the current grid gives it.
pub open spec fn next_generation(cells: Seq<bool>, n: int, policy: EdgePolicy) -> Seq<bool> {
    Seq::new(
        cells.len(),
        |i: int| next_alive(cells[i], neighbor_count(cells, n, policy, i / n, i % n)),
    )
}

/// A live count is between zero and the number of positions counted.
pub proof fn lemma_live_count_bounds(cells: Seq<bool>, n: int, nbs: Seq<(int, int)>)
    ensures
        0 <= live_count(cells, n, nbs) <= nbs.len(),
    decreases nbs.len(),
{
    if nbs.len() > 0 {
        lemma_live_count_bounds(cells, n, nbs.drop_last());
    }
}

/// A position on the board has its row-major index inside the grid.
pub proof fn lemma_index_in_grid(row: int, col: int, n: int)
    requires
        0 <= row < n,
        0 <= col < n,
    ensures
        0 <= cell_index(row, col, n) < n * n,
{
    assert(0 <= row * n + col < n * n) by (nonlinear_arith)
        requires
            0 <= row < n,
            0 <= col < n,
    ;
}

/// A cell has between zero and eight live neighbours under either policy,
/// and exactly eight neighbour positions under wrap-around.
pub proof fn lemma_neighbor_count_bounds(cells: Seq<bool>, n: int, policy: EdgePolicy, row: int, col: int)
    requires
        n >= 1,
    ensures
        0 <= neighbor_count(cells, n, policy, row, col) <= 8,
        policy == EdgePolicy::Toroidal ==> neighbor_seq(row, col, n, policy).len() == 8,
{
    lemma_neighbor_seq(row, col, n, policy);
    lemma_live_count_bounds(cells, n, neighbor_seq(row, col, n, policy));
}

/// The grid after `k` generations.
pub open spec fn generations(cells: Seq<bool>, n: int, policy: EdgePolicy, k: nat) -> Seq<bool>
    decreases k,
{
    if k == 0 {
        cells
    } else {
        next_generation(generations(cells, n, policy, (k - 1) as nat), n, policy)
    }
}

/// Two grids with the same cells, side and policy run through the same
/// generations: the run depends on nothing but the seeded cells.
pub proof fn lemma_same_seed_same_run(a: Seq<bool>, b: Seq<bool>, n: int, policy: EdgePolicy, k: nat)
    requires
        a == b,
    ensures
        generations(a, n, policy, k) == generations(b, n, policy, k),
    decreases k,
{
    if k > 0 {
        lemma_same_seed_same_run(a, b, n, policy, (k - 1) as nat);
    }
}

/// Counts the live neighbours of `c` on the row-major grid `cells` of side `n`.
pub fn count_living(cells: &[bool], n: i32, policy: EdgePolicy, c: &Coordinates) -> (r: u32)
    requires
        n >= 1,
        cells@.len() == n as int * n as int,
    ensures
        r as int == neighbor_count(cells@, n as int, policy, c.x as int, c.y as int),
        r <= 8,
{
    let nbs = c.neighbors(n, policy);
    let ghost s = neighbor_seq(c.x as int, c.y as int, n as int, policy);
    proof {
        lemma_neighbor_seq(c.x as int, c.y as int, n as int, policy);
    }
    let len = cells.len();
    let mut count: u32 = 0;
    let mut k: usize = 0;
    while k < nbs.len()
        invariant
            n >= 1,
            cells@.len() == n as int * n as int,
            len == cells@.len(),
            nbs@.len() == s.len(),
            nbs@.len() <= 8,
            forall|i: int| 0 <= i < nbs@.len() ==> (#[trigger] nbs@[i]).pos() == s[i],
            forall|i: int|
                0 <= i < s.len() ==> crate::coords::in_bounds(
                    #[trigger] s[i].0,
                    s[i].1,
                    n as int,
                ),
            k <= nbs@.len(),
            count as int == live_count(cells@, n as int, s.subrange(0, k as int)),
            count <= k,
        decreases nbs@.len() - k,
    {
        let p = nbs[k];
        assert(nbs@[k as int].pos() == s[k as int]);
        assert(crate::coords::in_bounds(s[k as int].0, s[k as int].1, n as int));
        proof {
            lemma_index_in_grid(p.x as int, p.y as int, n as int);
        }
        assert(p.x as int * n as int <= cell_index(p.x as int, p.y as int, n as int));
        let ix: usize = p.x as usize * n as usize + p.y as usize;
        assert(s.subrange(0, k + 1).drop_last() =~= s.subrange(0, k as int));
        if cells[ix] {
            count = count + 1;
        }
        k = k + 1;
    }
    assert(s.subrange(0, k as int) =~= s);
    count
}

/// Computes the next generation of the row-major grid `cells` of side `n`,
/// reading only the current grid.
pub fn next_cells(cells: &[bool], n: i32, policy: EdgePolicy) -> (r: Vec<bool>)
    requires
        n >= 1,
        cells@.len() == n as int * n as int,
    ensures
        r@ == next_generation(cells@, n as int, policy),
{
    let mut next: Vec<bool> = Vec::with_capacity(cells.len());
    let mut i: usize = 0;
    while i < cells.len()
        invariant
            n >= 1,
            cells@.len() == n as int * n as int,
            i <= cells@.len(),
            next@.len() == i,
            forall|j: int|
                0 <= j < i ==> #[trigger] next@[j] == next_generation(cells@, n as int, policy)[j],
        decreases cells@.len() - i,
    {
        let row: usize = i / (n as usize);
        let col: usize = i % (n as usize);
        assert(row < n) by (nonlinear_arith)
            requires
                row == i as int / n as int,
                i < n as int * n as int,
                n >= 1,
        ;
        let c = Coordinates { x: row as i32, y: col as i32 };
        let count = count_living(cells, n, policy, &c);
        next.push(will_survive(cells[i], count));
        i = i + 1;
    }
    assert(next@ =~= next_generation(cells@, n as int, policy));
    next
}

} // verus!

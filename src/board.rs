use vstd::prelude::*;
use rand::Rng;
use std::collections::HashMap;
use crate::coords::{Coordinates, EdgePolicy, in_bounds, neighbor_seq};
use crate::engine::{count_living, neighbor_count, next_cells, next_generation, lemma_index_in_grid};
use vstd::arithmetic::div_mod::{lemma_fundamental_div_mod, lemma_fundamental_div_mod_converse};

verus! {

/// Why a board operation was refused.
#[derive(Clone, Copy, Debug, PartialEq, Eq, Structural)]
pub enum GridError {
    /// A board was asked for with a side below one.
    InvalidDimension,
    /// A position lies off the board.
    OutOfBounds,
}

/// A square board of side `n` whose cells are held densely in row-major
/// order, with the edge policy that its neighbour counts use.
#[derive(Debug)]
pub struct Board {
    n: i32,
    policy: EdgePolicy,
    cells: Vec<bool>,
}

/// Whether `(row, col)` is one of the positions in `alive`.
pub open spec fn listed(alive: Seq<Coordinates>, row: int, col: int) -> bool {
    exists|j: int| 0 <= j < alive.len() && (#[trigger] alive[j]).pos() == (row, col)
}

/// Whether every position in `alive` lies on a board of side `n`.
pub open spec fn all_on_board(alive: Seq<Coordinates>, n: int) -> bool {
    forall|j: int| 0 <= j < alive.len() ==> in_bounds(#[trigger] alive[j].x as int, alive[j].y as int, n)
}

/// The grid of side `n` in which exactly the positions in `alive` live.
pub open spec fn seeded(alive: Seq<Coordinates>, n: int) -> Seq<bool> {
    Seq::new((n * n) as nat, |i: int| listed(alive, i / n, i % n))
}

/// A grid of side `n` with every cell dead.
pub open spec fn empty_grid(n: int) -> Seq<bool> {
    Seq::new((n * n) as nat, |i: int| false)
}

/// The neighbour references that the live cells among the first `m` give:
/// for each live cell in row-major order, its neighbours in order.
pub open spec fn neighbor_refs(cells: Seq<bool>, n: int, policy: EdgePolicy, m: nat) -> Seq<(int, int)>
    decreases m,
{
    if m == 0 {
        Seq::empty()
    } else {
        let i = m - 1;
        neighbor_refs(cells, n, policy, (m - 1) as nat) + if cells[i] {
            neighbor_seq(i / n, i % n, n, policy)
        } else {
            Seq::empty()
        }
    }
}

/// The columns, in order, of the references in `refs` that lie in row `row`.
pub open spec fn columns_in_row(refs: Seq<(int, int)>, row: int) -> Seq<int>
    decreases refs.len(),
{
    if refs.len() == 0 {
        Seq::empty()
    } else {
        let prev = columns_in_row(refs.drop_last(), row);
        if refs.last().0 == row {
            prev.push(refs.last().1)
        } else {
            prev
        }
    }
}

/// Whether `m` maps exactly the rows that occur in `refs`, each to the
/// columns that occur with it, in order and with repetition.
pub open spec fn groups_rows(m: Map<i32, Vec<i32>>, refs: Seq<(int, int)>) -> bool {
    forall|x: i32|
        (#[trigger] m.contains_key(x) <==> columns_in_row(refs, x as int).len() > 0) && (m.contains_key(x)
            ==> m[x]@.map_values(|v: i32| v as int) == columns_in_row(refs, x as int))
}

/// Relies on rand's `Rng::gen_ratio` on the thread-local generator: true
/// with chance `numerator / denominator`, always false when `numerator` is
/// zero and always true when it equals `denominator`. It panics when
/// `denominator` is zero or below `numerator`.
#[verifier::external_body]
fn coin(numerator: u32, denominator: u32) -> (r: bool)
    requires
        0 < denominator,
        numerator <= denominator,
    ensures
        numerator == 0 ==> !r,
        numerator == denominator ==> r,
{
    rand::thread_rng().gen_ratio(numerator, denominator)
}

/// On a board of side `n`, the row-major index `i` and the position
/// `(row, col)` name the same cell exactly when `i == row * n + col`.
proof fn lemma_index_matches(i: int, row: int, col: int, n: int)
    requires
        n >= 1,
        0 <= i,
        in_bounds(row, col, n),
    ensures
        ((i / n, i % n) == (row, col)) <==> i == row * n + col,
{
    lemma_fundamental_div_mod(i, n);
    assert(n * (i / n) == (i / n) * n) by (nonlinear_arith);
    if i == row * n + col {
        lemma_fundamental_div_mod_converse(i, n, row, col);
    }
}

impl View for Board {
    type V = (int, EdgePolicy, Seq<bool>);

    /// The side, the edge policy and the cells in row-major order.
    closed spec fn view(&self) -> Self::V {
        (self.n as int, self.policy, self.cells@)
    }
}

impl Board {
    /// The board is square with a side of at least one.
    pub open spec fn wf(&self) -> bool {
        &&& self@.0 >= 1
        &&& self@.2.len() == self@.0 * self@.0
    }

    /// Makes a board of side `n` with every cell dead; a side below one is
    /// refused.
    pub fn new(n: i32, policy: EdgePolicy) -> (r: Result<Board, GridError>)
        requires
            n >= 1 ==> n as int * n as int <= usize::MAX,
        ensures
            n < 1 <==> r == Err::<Board, GridError>(GridError::InvalidDimension),
            n >= 1 <==> r is Ok,
            r matches Ok(b) ==> b.wf() && b@ == (n as int, policy, empty_grid(n as int)),
    {
        if n < 1 {
            return Err(GridError::InvalidDimension);
        }
        let len: usize = n as usize * n as usize;
        let mut cells: Vec<bool> = Vec::with_capacity(len);
        let mut i: usize = 0;
        while i < len
            invariant
                i <= len,
                cells@ == Seq::new(i as nat, |j: int| false),
            decreases len - i,
        {
            cells.push(false);
            i = i + 1;
            assert(cells@ =~= Seq::new(i as nat, |j: int| false));
        }
        assert(cells@ =~= empty_grid(n as int));
        Ok(Board { n, policy, cells })
    }

    /// The side of the board.
    pub fn size(&self) -> (r: i32)
        ensures
            r as int == self@.0,
    {
        self.n
    }

    /// The edge policy of the board.
    pub fn policy(&self) -> (r: EdgePolicy)
        ensures
            r == self@.1,
    {
        self.policy
    }

    /// The cells in row-major order.
    pub fn cells(&self) -> (r: &Vec<bool>)
        ensures
            r@ == self@.2,
    {
        &self.cells
    }

    /// Whether the cell at `c` is alive; a position off the board is refused.
    pub fn is_alive(&self, c: &Coordinates) -> (r: Result<bool, GridError>)
        requires
            self.wf(),
        ensures
            !in_bounds(c.x as int, c.y as int, self@.0) <==> r == Err::<bool, GridError>(
                GridError::OutOfBounds,
            ),
            in_bounds(c.x as int, c.y as int, self@.0) ==> r == Ok::<bool, GridError>(
                self@.2[c.x * self@.0 + c.y],
            ),
    {
        if !(0 <= c.x && c.x < self.n && 0 <= c.y && c.y < self.n) {
            return Err(GridError::OutOfBounds);
        }
        let len = self.cells.len();
        proof {
            lemma_index_in_grid(c.x as int, c.y as int, self.n as int);
        }
        assert(c.x as int * self.n as int <= c.x as int * self.n as int + c.y as int);
        Ok(self.cells[c.x as usize * self.n as usize + c.y as usize])
    }

    /// How many neighbours of `c`, under the board's edge policy, are alive.
    pub fn living_neighbor_count(&self, c: &Coordinates) -> (r: u32)
        requires
            self.wf(),
        ensures
            r as int == neighbor_count(self@.2, self@.0, self@.1, c.x as int, c.y as int),
            r <= 8,
    {
        count_living(self.cells.as_slice(), self.n, self.policy, c)
    }

    /// The next generation: every cell follows the rule on the neighbour
    /// count that the current generation gives it.
    pub fn advance(&self) -> (r: Board)
        requires
            self.wf(),
        ensures
            r.wf(),
            r@ == (self@.0, self@.1, next_generation(self@.2, self@.0, self@.1)),
    {
        let cells = next_cells(self.cells.as_slice(), self.n, self.policy);
        Board { n: self.n, policy: self.policy, cells }
    }

    /// Replaces the board by its next generation.
    pub fn tick(&mut self)
        requires
            old(self).wf(),
        ensures
            final(self).wf(),
            final(self)@ == (old(self)@.0, old(self)@.1, next_generation(
                old(self)@.2,
                old(self)@.0,
                old(self)@.1,
            )),
    {
        let next = self.advance();
        *self = next;
    }

    /// Makes exactly the positions in `alive` live and every other cell dead.
    /// If any position lies off the board, the board is left unchanged and
    /// the call is refused.
    pub fn set_living_cells(&mut self, alive: Vec<Coordinates>) -> (r: Result<(), GridError>)
        requires
            old(self).wf(),
        ensures
            final(self).wf(),
            all_on_board(alive@, old(self)@.0) <==> r is Ok,
            r is Ok ==> final(self)@ == (old(self)@.0, old(self)@.1, seeded(alive@, old(self)@.0)),
            r is Err ==> r == Err::<(), GridError>(GridError::OutOfBounds) && final(self)@ == old(self)@,
    {
        let n = self.n;
        let mut k: usize = 0;
        while k < alive.len()
            invariant
                self@ == old(self)@,
                self.wf(),
                n == self.n,
                k <= alive@.len(),
                forall|j: int| 0 <= j < k ==> in_bounds(#[trigger] alive@[j].x as int, alive@[j].y as int, n as int),
            decreases alive@.len() - k,
        {
            if !crate::coords::is_within_bounds(alive[k].x, alive[k].y, n) {
                assert(!in_bounds(alive@[k as int].x as int, alive@[k as int].y as int, n as int));
                assert(n as int == old(self)@.0);
                assert(!all_on_board(alive@, old(self)@.0));
                return Err(GridError::OutOfBounds);
            }
            k = k + 1;
        }
        let len = self.cells.len();
        let mut i: usize = 0;
        while i < len
            invariant
                self.wf(),
                self.n == n,
                len == self.cells@.len(),
                i <= len,
                self@.1 == old(self)@.1,
                self@.0 == old(self)@.0,
                forall|j: int| 0 <= j < i ==> !#[trigger] self.cells@[j],
            decreases len - i,
        {
            self.cells.set(i, false);
            i = i + 1;
        }
        let mut k: usize = 0;
        while k < alive.len()
            invariant
                self.wf(),
                self.n == n,
                len == self.cells@.len(),
                all_on_board(alive@, n as int),
                self@.1 == old(self)@.1,
                self@.0 == old(self)@.0,
                k <= alive@.len(),
                forall|i: int|
                    0 <= i < self.cells@.len() ==> #[trigger] self.cells@[i] == exists|j: int|
                        0 <= j < k && (#[trigger] alive@[j]).pos() == (i / n as int, i % n as int),
            decreases alive@.len() - k,
        {
            let c = alive[k];
            assert(in_bounds(alive@[k as int].x as int, alive@[k as int].y as int, n as int));
            proof {
                lemma_index_in_grid(c.x as int, c.y as int, n as int);
            }
            assert(c.x as int * n as int <= c.x as int * n as int + c.y as int);
            assert(self.cells@.len() == len);
            let ix: usize = c.x as usize * n as usize + c.y as usize;
            let ghost before = self.cells@;
            self.cells.set(ix, true);
            proof {
                assert forall|i: int| 0 <= i < self.cells@.len() implies #[trigger] self.cells@[i] == exists|j: int|
                    0 <= j < k + 1 && (#[trigger] alive@[j]).pos() == (i / n as int, i % n as int) by {
                    lemma_index_matches(i, c.x as int, c.y as int, n as int);
                    if i == ix {
                        assert(alive@[k as int].pos() == (i / n as int, i % n as int));
                    } else {
                        assert(before[i] == self.cells@[i]);
                    }
                }
            }
            k = k + 1;
        }
        assert(self.cells@ =~= seeded(alive@, n as int));
        Ok(())
    }

    /// Gathers the neighbours of the live cells: each row that a neighbour
    /// reference lies in maps to the columns of the references in it, in
    /// order and with repetition, so a cell listed `k` times has `k` live
    /// neighbours.
    pub fn get_neighbors(&self) -> (r: HashMap<i32, Vec<i32>>)
        requires
            self.wf(),
        ensures
            groups_rows(r@, neighbor_refs(self@.2, self@.0, self@.1, self@.2.len())),
    {
        let n = self.n;
        let mut m: HashMap<i32, Vec<i32>> = HashMap::new();
        let len = self.cells.len();
        let mut i: usize = 0;
        assert(groups_rows(m@, neighbor_refs(self@.2, n as int, self.policy, 0)));
        while i < len
            invariant
                self.wf(),
                n == self.n,
                len == self.cells@.len(),
                i <= len,
                groups_rows(m@, neighbor_refs(self@.2, n as int, self.policy, i as nat)),
            decreases len - i,
        {
            let ghost before = neighbor_refs(self@.2, n as int, self.policy, i as nat);
            if self.cells[i] {
                let row: usize = i / (n as usize);
                let col: usize = i % (n as usize);
                assert(row < n) by (nonlinear_arith)
                    requires
                        row == i as int / n as int,
                        i < n as int * n as int,
                        n >= 1,
                ;
                let c = Coordinates { x: row as i32, y: col as i32 };
                let nbs = c.neighbors(n, self.policy);
                let ghost s = neighbor_seq(row as int, col as int, n as int, self.policy);
                let mut k: usize = 0;
                while k < nbs.len()
                    invariant
                        nbs@.len() == s.len(),
                        forall|j: int| 0 <= j < nbs@.len() ==> (#[trigger] nbs@[j]).pos() == s[j],
                        k <= nbs@.len(),
                        groups_rows(m@, before + s.subrange(0, k as int)),
                    decreases nbs@.len() - k,
                {
                    let p = nbs[k];
                    let ghost done = before + s.subrange(0, k as int);
                    let mut ys = match m.remove(&p.x) {
                        Some(v) => v,
                        None => Vec::new(),
                    };
                    ys.push(p.y);
                    m.insert(p.x, ys);
                    proof {
                        let next = before + s.subrange(0, k + 1);
                        assert(next =~= done.push((p.x as int, p.y as int)));
                        assert(next.drop_last() =~= done);
                        assert forall|x: i32| #[trigger] m@.contains_key(x) <==> columns_in_row(next, x as int).len() > 0 by {}
                        assert forall|x: i32| #[trigger] m@.contains_key(x) implies m@[x]@.map_values(|v: i32| v as int) == columns_in_row(next, x as int) by {
                            if x == p.x {
                                assert(m@[x]@.map_values(|v: i32| v as int) =~= columns_in_row(done, x as int).push(p.y as int));
                            }
                        }
                    }
                    k = k + 1;
                }
                assert(before + s.subrange(0, s.len() as int) =~= neighbor_refs(self@.2, n as int, self.policy, (i + 1) as nat));
            } else {
                assert(before =~= neighbor_refs(self@.2, n as int, self.policy, (i + 1) as nat));
            }
            i = i + 1;
        }
        m
    }

    /// Sets each cell alive independently with chance
    /// `numerator / denominator`: with a zero numerator every cell dies, with
    /// a numerator equal to the denominator every cell lives.
    pub fn randomize(&mut self, numerator: u32, denominator: u32)
        requires
            old(self).wf(),
            0 < denominator,
            numerator <= denominator,
        ensures
            final(self).wf(),
            final(self)@.0 == old(self)@.0,
            final(self)@.1 == old(self)@.1,
            numerator == 0 ==> final(self)@.2 == empty_grid(old(self)@.0),
            numerator == denominator ==> forall|i: int| 0 <= i < final(self)@.2.len() ==> #[trigger] final(self)@.2[i],
    {
        let len = self.cells.len();
        let mut draws: Vec<bool> = Vec::with_capacity(len);
        let mut i: usize = 0;
        while i < len
            invariant
                i <= len,
                draws@.len() == i,
                0 < denominator,
                numerator <= denominator,
                numerator == 0 ==> forall|j: int| 0 <= j < i ==> !#[trigger] draws@[j],
                numerator == denominator ==> forall|j: int| 0 <= j < i ==> #[trigger] draws@[j],
            decreases len - i,
        {
            draws.push(coin(numerator, denominator));
            i = i + 1;
        }
        self.fill_cells(&draws);
        assert(numerator == 0 ==> self.cells@ =~= empty_grid(self.n as int));
    }

    /// Sets cell `i`, in row-major order, to `draws[i]`.
    pub fn fill_cells(&mut self, draws: &Vec<bool>)
        requires
            old(self).wf(),
            draws@.len() == old(self)@.2.len(),
        ensures
            final(self).wf(),
            final(self)@ == (old(self)@.0, old(self)@.1, draws@),
    {
        let len = self.cells.len();
        let mut i: usize = 0;
        while i < len
            invariant
                self.wf(),
                len == self.cells@.len(),
                draws@.len() == len,
                i <= len,
                self@.1 == old(self)@.1,
                self@.0 == old(self)@.0,
                forall|j: int| 0 <= j < i ==> #[trigger] self.cells@[j] == draws@[j],
            decreases len - i,
        {
            self.cells.set(i, draws[i]);
            i = i + 1;
        }
        assert(self.cells@ =~= draws@);
    }
}

} // verus!

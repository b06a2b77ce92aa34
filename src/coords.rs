use vstd::prelude::*;
use rand::Rng;
use vstd::arithmetic::div_mod::lemma_fundamental_div_mod;
use vstd::arithmetic::div_mod::lemma_fundamental_div_mod_converse;

verus! {

/// How neighbours are found at the edge of the board.
#[derive(Clone, Copy, Debug, PartialEq, Eq, Structural)]
pub enum EdgePolicy {
    /// Positions outside the board are absent.
    Clipped,
    /// Positions wrap around to the opposite edge.
    Toroidal,
}

/// A cell position: `x` is the row and `y` the column.
#[derive(Clone, Copy, Debug, PartialEq, Eq, Structural)]
pub struct Coordinates {
    pub x: i32,
    pub y: i32,
}

/// Whether `(row, col)` lies on a square board of side `n`.
pub open spec fn in_bounds(row: int, col: int, n: int) -> bool {
    0 <= row < n && 0 <= col < n
}

/// The offset of slot `j` of the 3×3 block around a cell, `j` in `0..9`, as
/// `(row offset, column offset)`: the row offset runs fastest, and slot 4
/// is the cell itself.
pub open spec fn slot_offset(j: int) -> (int, int) {
    (j % 3 - 1, j / 3 - 1)
}

/// The positions that the first `j` slots around `(x, y)` give on a board
/// of side `n`, in order; the centre slot is skipped.
pub open spec fn around_prefix(
    x: int,
    y: int,
    n: int,
    policy: EdgePolicy,
    j: nat,
) -> Seq<(int, int)>
    decreases j,
{
    if j == 0 {
        Seq::empty()
    } else {
        let prev = around_prefix(x, y, n, policy, (j - 1) as nat);
        let a = x + slot_offset(j - 1).0;
        let b = y + slot_offset(j - 1).1;
        if j - 1 == 4 {
            prev
        } else {
            match policy {
                EdgePolicy::Toroidal => prev.push((a % n, b % n)),
                EdgePolicy::Clipped => if in_bounds(a, b, n) {
                    prev.push((a, b))
                } else {
                    prev
                },
            }
        }
    }
}

/// The neighbours of `(x, y)` on a board of side `n` under `policy`: the
/// eight cells around it, the cell itself left out.
pub open spec fn neighbor_seq(x: int, y: int, n: int, policy: EdgePolicy) -> Seq<(int, int)> {
    around_prefix(x, y, n, policy, 9)
}

/// How many slots among the first `j` are taken.
pub open spec fn slots_taken(j: int) -> int {
    if j > 4 {
        j - 1
    } else {
        j
    }
}

/// A prefix has at most one entry per slot taken, exactly one under
/// wrap-around, and each entry lies on the board.
proof fn lemma_around_prefix(x: int, y: int, n: int, policy: EdgePolicy, j: nat)
    requires
        n >= 1,
    ensures
        around_prefix(x, y, n, policy, j).len() <= slots_taken(j as int),
        policy == EdgePolicy::Toroidal ==> around_prefix(x, y, n, policy, j).len()
            == slots_taken(j as int),
        forall|i: int|
            0 <= i < around_prefix(x, y, n, policy, j).len() ==> in_bounds(
                #[trigger] around_prefix(x, y, n, policy, j)[i].0,
                around_prefix(x, y, n, policy, j)[i].1,
                n,
            ),
    decreases j,
{
    if j > 0 {
        lemma_around_prefix(x, y, n, policy, (j - 1) as nat);
        let a = x + slot_offset(j - 1).0;
        let b = y + slot_offset(j - 1).1;
        vstd::arithmetic::div_mod::lemma_mod_bound(a, n);
        vstd::arithmetic::div_mod::lemma_mod_bound(b, n);
    }
}

/// A cell has at most eight neighbours, exactly eight under wrap-around,
/// all on the board.
pub proof fn lemma_neighbor_seq(x: int, y: int, n: int, policy: EdgePolicy)
    requires
        n >= 1,
    ensures
        neighbor_seq(x, y, n, policy).len() <= 8,
        policy == EdgePolicy::Toroidal ==> neighbor_seq(x, y, n, policy).len() == 8,
        forall|i: int|
            0 <= i < neighbor_seq(x, y, n, policy).len() ==> in_bounds(
                #[trigger] neighbor_seq(x, y, n, policy)[i].0,
                neighbor_seq(x, y, n, policy)[i].1,
                n,
            ),
{
    lemma_around_prefix(x, y, n, policy, 9);
}

impl Coordinates {
    /// The position as a pair of mathematical integers.
    pub open spec fn pos(self) -> (int, int) {
        (self.x as int, self.y as int)
    }

    /// Makes the position `(x, y)`.
    pub fn new(x: i32, y: i32) -> (r: Coordinates)
        ensures
            r.x == x,
            r.y == y,
    {
        Coordinates { x: x, y: y }
    }

    /// A position drawn at random on a board of side `n`.
    pub fn random(n: i32) -> (r: Coordinates)
        requires
            n >= 1,
        ensures
            in_bounds(r.x as int, r.y as int, n as int),
    {
        Coordinates { x: random_below(n), y: random_below(n) }
    }

    /// The neighbours of this position on a board of side `n`: the eight
    /// cells around it.
    ///
    /// Under `Toroidal` every component is reduced modulo `n` and the result
    /// always has eight entries; under `Clipped` positions off the board are
    /// left out.
    pub fn neighbors(&self, n: i32, policy: EdgePolicy) -> (r: Vec<Coordinates>)
        requires
            n >= 1,
        ensures
            r@.len() == neighbor_seq(self.x as int, self.y as int, n as int, policy).len(),
            forall|i: int|
                0 <= i < r@.len() ==> (#[trigger] r@[i]).pos() == neighbor_seq(
                    self.x as int,
                    self.y as int,
                    n as int,
                    policy,
                )[i],
            r@.len() <= 8,
            policy == EdgePolicy::Toroidal ==> r@.len() == 8,
    {
        proof {
            lemma_around_prefix(self.x as int, self.y as int, n as int, policy, 9);
        }
        self.around(n, policy)
    }

    /// The positions of the slots around this one, the centre slot skipped.
    fn around(&self, n: i32, policy: EdgePolicy) -> (r: Vec<Coordinates>)
        requires
            n >= 1,
        ensures
            r@.len() == around_prefix(self.x as int, self.y as int, n as int, policy, 9).len(),
            forall|i: int|
                0 <= i < r@.len() ==> (#[trigger] r@[i]).pos() == around_prefix(
                    self.x as int,
                    self.y as int,
                    n as int,
                    policy,
                    9,
                )[i],
    {
        let mut res: Vec<Coordinates> = Vec::with_capacity(9);
        let mut j: usize = 0;
        while j < 9
            invariant
                n >= 1,
                j <= 9,
                res@.len() == around_prefix(self.x as int, self.y as int, n as int, policy, j as nat).len(),
                forall|i: int|
                    0 <= i < res@.len() ==> (#[trigger] res@[i]).pos() == around_prefix(
                        self.x as int,
                        self.y as int,
                        n as int,
                        policy,
                        j as nat,
                    )[i],
            decreases 9 - j,
        {
            if j != 4 {
                let dx: i64 = (j % 3) as i64 - 1;
                let dy: i64 = (j / 3) as i64 - 1;
                let a: i64 = self.x as i64 + dx;
                let b: i64 = self.y as i64 + dy;
                assert(slot_offset(j as int) == (dx as int, dy as int));
                match policy {
                    EdgePolicy::Toroidal => {
                        let c = Coordinates { x: wrap(a, n), y: wrap(b, n) };
                        res.push(c);
                    },
                    EdgePolicy::Clipped => {
                        if 0 <= a && a < n as i64 && 0 <= b && b < n as i64 {
                            res.push(Coordinates { x: a as i32, y: b as i32 });
                        }
                    },
                }
            }
            j = j + 1;
        }
        res
    }
}

/// Relies on rand's `Rng::gen_range` over `0..n` on the thread-local
/// generator: a value drawn from `0..n`. It panics when the range is empty.
#[verifier::external_body]
fn random_below(n: i32) -> (r: i32)
    requires
        n >= 1,
    ensures
        0 <= r < n,
{
    rand::thread_rng().gen_range(0..n)
}

/// Reduces `v` modulo `n` to the range `0..n` (Euclidean remainder).
fn wrap(v: i64, n: i32) -> (r: i32)
    requires
        n >= 1,
    ensures
        r as int == v as int % n as int,
{
    let m: u64 = n as u64;
    if v >= 0 {
        let r = (v as u64) % m;
        r as i32
    } else {
        let u: u64 = (-(v as i128)) as u64;
        let r = u % m;
        proof {
            lemma_fundamental_div_mod(u as int, m as int);
            let q = u as int / m as int;
            if r == 0 {
                assert(v as int == (-q) * m as int + 0) by (nonlinear_arith)
                    requires u as int == q * m as int + r as int, v as int == -(u as int), r == 0;
                lemma_fundamental_div_mod_converse(v as int, m as int, -q, 0);
            } else {
                assert(v as int == (-q - 1) * m as int + (m - r) as int) by (nonlinear_arith)
                    requires u as int == q * m as int + r as int, v as int == -(u as int);
                lemma_fundamental_div_mod_converse(v as int, m as int, -q - 1, (m - r) as int);
            }
        }
        if r == 0 {
            0
        } else {
            (m - r) as i32
        }
    }
}

/// Whether `(row, col)` lies on a square board of side `board_size`.
pub fn is_within_bounds(row: i32, col: i32, board_size: i32) -> (r: bool)
    ensures
        r == in_bounds(row as int, col as int, board_size as int),
{
    row >= 0 && row < board_size && col >= 0 && col < board_size
}

} // verus!

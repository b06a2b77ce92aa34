use vstd::prelude::*;
use crate::coords::{EdgePolicy, around_prefix, slot_offset};
use crate::engine::{cell_index, generations, live_count, neighbor_count, next_generation};
use vstd::arithmetic::div_mod::{lemma_fundamental_div_mod, lemma_fundamental_div_mod_converse};

verus! {

/// Whether `a`, in `0..n`, lies in the `extent + 1` consecutive lines that
/// start at `start` and wrap around past `n - 1`.
pub open spec fn in_span(a: int, start: int, extent: int, n: int) -> bool {
    (start <= a <= start + extent) || (start <= a + n <= start + extent)
}

/// The grid of side `n` whose live cells are exactly those in the rows
/// `r0..=r0 + h` and the columns `c0..=c0 + w`, both wrapping around.
pub open spec fn rect(n: int, r0: int, h: int, c0: int, w: int) -> Seq<bool> {
    Seq::new((n * n) as nat, |i: int| in_span(i / n, r0, h, n) && in_span(i % n, c0, w, n))
}

/// Whether the cell at `(a % n, b % n)` of `cells` is alive, as 0 or 1.
spec fn wrapped_term(cells: Seq<bool>, n: int, a: int, b: int) -> int {
    if cells[cell_index(a % n, b % n, n)] {
        1
    } else {
        0
    }
}

/// The live cells among the first `j` slots around `(x, y)` under
/// wrap-around, the centre slot left out.
spec fn slot_sum(cells: Seq<bool>, n: int, x: int, y: int, j: nat) -> int
    decreases j,
{
    if j == 0 {
        0
    } else if j - 1 == 4 {
        slot_sum(cells, n, x, y, (j - 1) as nat)
    } else {
        slot_sum(cells, n, x, y, (j - 1) as nat) + wrapped_term(
            cells,
            n,
            x + slot_offset(j - 1).0,
            y + slot_offset(j - 1).1,
        )
    }
}

/// Counting one more position adds that position's cell.
proof fn lemma_live_count_push(cells: Seq<bool>, n: int, s: Seq<(int, int)>, e: (int, int))
    ensures
        live_count(cells, n, s.push(e)) == live_count(cells, n, s) + if cells[cell_index(e.0, e.1, n)] {
            1int
        } else {
            0int
        },
{
    assert(s.push(e).drop_last() =~= s);
}

/// Under wrap-around, counting the neighbours slot by slot gives the live
/// count of the neighbour list.
proof fn lemma_slot_sum(cells: Seq<bool>, n: int, x: int, y: int, j: nat)
    ensures
        live_count(cells, n, around_prefix(x, y, n, EdgePolicy::Toroidal, j)) == slot_sum(
            cells,
            n,
            x,
            y,
            j,
        ),
    decreases j,
{
    if j > 0 {
        lemma_slot_sum(cells, n, x, y, (j - 1) as nat);
        if j - 1 != 4 {
            let a = x + slot_offset(j - 1).0;
            let b = y + slot_offset(j - 1).1;
            lemma_live_count_push(
                cells,
                n,
                around_prefix(x, y, n, EdgePolicy::Toroidal, (j - 1) as nat),
                (a % n, b % n),
            );
        }
    }
}

/// The neighbours of `x` along one axis of a board of side `n`.
proof fn lemma_wrap_step(x: int, n: int)
    requires
        0 <= x < n,
    ensures
        (x - 1) % n == if x == 0 { n - 1 } else { x - 1 },
        x % n == x,
        (x + 1) % n == if x == n - 1 { 0 } else { x + 1 },
{
    if x == 0 {
        lemma_fundamental_div_mod_converse(x - 1, n, -1, n - 1);
    } else {
        lemma_fundamental_div_mod_converse(x - 1, n, 0, x - 1);
    }
    lemma_fundamental_div_mod_converse(x, n, 0, x);
    if x == n - 1 {
        lemma_fundamental_div_mod_converse(x + 1, n, 1, 0);
    } else {
        lemma_fundamental_div_mod_converse(x + 1, n, 0, x + 1);
    }
}

/// The cell of a rectangle grid at a position on the board.
proof fn lemma_rect_at(n: int, r0: int, h: int, c0: int, w: int, a: int, b: int)
    requires
        n >= 1,
        0 <= a < n,
        0 <= b < n,
    ensures
        0 <= cell_index(a, b, n) < n * n,
        rect(n, r0, h, c0, w)[cell_index(a, b, n)] == (in_span(a, r0, h, n) && in_span(b, c0, w, n)),
{
    crate::engine::lemma_index_in_grid(a, b, n);
    lemma_fundamental_div_mod_converse(a * n + b, n, a, b);
}

/// Whether `(a, b)` lies in the rows and columns of a rectangle, as 0 or 1.
spec fn rc(a: int, b: int, r0: int, h: int, c0: int, w: int, n: int) -> int {
    if in_span(a, r0, h, n) && in_span(b, c0, w, n) {
        1
    } else {
        0
    }
}

/// Under wrap-around, the live neighbours of `(x, y)` in a rectangle grid,
/// written out slot by slot.
proof fn lemma_rect_count(n: int, r0: int, h: int, c0: int, w: int, x: int, y: int)
    requires
        n >= 1,
        0 <= x < n,
        0 <= y < n,
    ensures
        ({
            let xm = if x == 0 { n - 1 } else { x - 1 };
            let xp = if x == n - 1 { 0 } else { x + 1 };
            let ym = if y == 0 { n - 1 } else { y - 1 };
            let yp = if y == n - 1 { 0 } else { y + 1 };
            neighbor_count(rect(n, r0, h, c0, w), n, EdgePolicy::Toroidal, x, y) == rc(xm, ym, r0, h, c0, w, n)
                + rc(x, ym, r0, h, c0, w, n) + rc(xp, ym, r0, h, c0, w, n) + rc(xm, y, r0, h, c0, w, n)
                + rc(xp, y, r0, h, c0, w, n) + rc(xm, yp, r0, h, c0, w, n) + rc(x, yp, r0, h, c0, w, n)
                + rc(xp, yp, r0, h, c0, w, n)
        }),
{
    let cells = rect(n, r0, h, c0, w);
    lemma_slot_sum(cells, n, x, y, 9);
    reveal_with_fuel(slot_sum, 10);
    lemma_wrap_step(x, n);
    lemma_wrap_step(y, n);
    let xm = if x == 0 { n - 1 } else { x - 1 };
    let xp = if x == n - 1 { 0 } else { x + 1 };
    let ym = if y == 0 { n - 1 } else { y - 1 };
    let yp = if y == n - 1 { 0 } else { y + 1 };
    lemma_rect_at(n, r0, h, c0, w, xm, ym);
    lemma_rect_at(n, r0, h, c0, w, x, ym);
    lemma_rect_at(n, r0, h, c0, w, xp, ym);
    lemma_rect_at(n, r0, h, c0, w, xm, y);
    lemma_rect_at(n, r0, h, c0, w, xp, y);
    lemma_rect_at(n, r0, h, c0, w, xm, yp);
    lemma_rect_at(n, r0, h, c0, w, x, yp);
    lemma_rect_at(n, r0, h, c0, w, xp, yp);
    assert(slot_offset(0) == (-1int, -1int));
    assert(slot_offset(1) == (0int, -1int));
    assert(slot_offset(2) == (1int, -1int));
    assert(slot_offset(3) == (-1int, 0int));
    assert(slot_offset(5) == (1int, 0int));
    assert(slot_offset(6) == (-1int, 1int));
    assert(slot_offset(7) == (0int, 1int));
    assert(slot_offset(8) == (1int, 1int));
    assert(slot_sum(cells, n, x, y, 9) == wrapped_term(cells, n, x - 1, y - 1) + wrapped_term(cells, n, x, y - 1)
        + wrapped_term(cells, n, x + 1, y - 1) + wrapped_term(cells, n, x - 1, y) + wrapped_term(cells, n, x + 1, y)
        + wrapped_term(cells, n, x - 1, y + 1) + wrapped_term(cells, n, x, y + 1) + wrapped_term(cells, n, x + 1, y + 1));
}

/// The row and column of the cell at row-major index `i`.
proof fn lemma_cell_pos(i: int, n: int)
    requires
        n >= 1,
        0 <= i < n * n,
    ensures
        0 <= i / n < n,
        0 <= i % n < n,
{
    lemma_fundamental_div_mod(i, n);
    vstd::arithmetic::div_mod::lemma_mod_bound(i, n);
    assert(0 <= i / n < n) by (nonlinear_arith)
        requires
            i == n * (i / n) + i % n,
            0 <= i % n < n,
            0 <= i < n * n,
            n >= 1,
    ;
}

/// The line before `a` on an axis of length `n`, wrapping around.
pub open spec fn prev_line(a: int, n: int) -> int {
    if a == 0 {
        n - 1
    } else {
        a - 1
    }
}

/// A 2×2 block, anywhere on a wrap-around board of side at least four, is
/// a still life: each of its cells has three live neighbours and every
/// other cell at most two, so the next generation is the same block.
pub proof fn lemma_block_is_still_life(n: int, r0: int, c0: int)
    requires
        n >= 4,
        0 <= r0 < n,
        0 <= c0 < n,
    ensures
        forall|i: int|
            0 <= i < n * n ==> {
                let c = #[trigger] neighbor_count(rect(n, r0, 1, c0, 1), n, EdgePolicy::Toroidal, i / n, i % n);
                &&& rect(n, r0, 1, c0, 1)[i] ==> c == 3
                &&& !rect(n, r0, 1, c0, 1)[i] ==> c <= 2
            },
        next_generation(rect(n, r0, 1, c0, 1), n, EdgePolicy::Toroidal) == rect(n, r0, 1, c0, 1),
{
    let g = rect(n, r0, 1, c0, 1);
    assert forall|i: int| 0 <= i < n * n implies {
        let c = #[trigger] neighbor_count(g, n, EdgePolicy::Toroidal, i / n, i % n);
        &&& g[i] ==> c == 3
        &&& !g[i] ==> c <= 2
    } by {
        lemma_cell_pos(i, n);
        lemma_rect_count(n, r0, 1, c0, 1, i / n, i % n);
    }
    assert forall|i: int| 0 <= i < g.len() implies #[trigger] next_generation(g, n, EdgePolicy::Toroidal)[i]
        == g[i] by {
        lemma_cell_pos(i, n);
    }
    assert(next_generation(g, n, EdgePolicy::Toroidal) =~= g);
}

/// A row of three live cells centred on `(x0, y0)`.
pub open spec fn blinker_row(n: int, x0: int, y0: int) -> Seq<bool> {
    rect(n, x0, 0, prev_line(y0, n), 2)
}

/// A column of three live cells centred on `(x0, y0)`.
pub open spec fn blinker_column(n: int, x0: int, y0: int) -> Seq<bool> {
    rect(n, prev_line(x0, n), 2, y0, 0)
}

/// One generation turns a three-cell line into the line across it.
proof fn lemma_line_turns(n: int, r0: int, h: int, c0: int, w: int, r1: int, h1: int, c1: int, w1: int)
    requires
        n >= 5,
        0 <= r0 < n,
        0 <= c0 < n,
        0 <= r1 < n,
        0 <= c1 < n,
        (h == 0 && w == 2 && h1 == 2 && w1 == 0 && r1 == prev_line(r0, n) && c0 == prev_line(c1, n))
            || (h == 2 && w == 0 && h1 == 0 && w1 == 2 && r0 == prev_line(r1, n) && c1 == prev_line(c0, n)),
    ensures
        next_generation(rect(n, r0, h, c0, w), n, EdgePolicy::Toroidal) == rect(n, r1, h1, c1, w1),
{
    let g = rect(n, r0, h, c0, w);
    let t = rect(n, r1, h1, c1, w1);
    assert forall|i: int| 0 <= i < g.len() implies #[trigger] next_generation(g, n, EdgePolicy::Toroidal)[i]
        == t[i] by {
        lemma_cell_pos(i, n);
        lemma_rect_count(n, r0, h, c0, w, i / n, i % n);
    }
    assert(next_generation(g, n, EdgePolicy::Toroidal) =~= t);
}

/// On a wrap-around board of side at least five, a row of three live cells
/// becomes the column of three through its centre and then the row again:
/// it oscillates with period two.
pub proof fn lemma_blinker_period_two(n: int, x0: int, y0: int)
    requires
        n >= 5,
        0 <= x0 < n,
        0 <= y0 < n,
    ensures
        next_generation(blinker_row(n, x0, y0), n, EdgePolicy::Toroidal) == blinker_column(n, x0, y0),
        next_generation(blinker_column(n, x0, y0), n, EdgePolicy::Toroidal) == blinker_row(n, x0, y0),
        generations(blinker_row(n, x0, y0), n, EdgePolicy::Toroidal, 2) == blinker_row(n, x0, y0),
        blinker_row(n, x0, y0) != blinker_column(n, x0, y0),
{
    let ym = prev_line(y0, n);
    let xm = prev_line(x0, n);
    lemma_line_turns(n, x0, 0, ym, 2, xm, 2, y0, 0);
    lemma_line_turns(n, xm, 2, y0, 0, x0, 0, ym, 2);
    reveal_with_fuel(generations, 3);
    lemma_rect_at(n, x0, 0, ym, 2, x0, ym);
    lemma_rect_at(n, xm, 2, y0, 0, x0, ym);
    assert(blinker_row(n, x0, y0)[cell_index(x0, ym, n)] != blinker_column(n, x0, y0)[cell_index(x0, ym, n)]);
}

} // verus!

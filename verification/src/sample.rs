//! Counting in a grid of tile identifiers: how often each tile occurs, and how
//! often each ordered pair of tiles touches in each direction.  The grid is
//! read as a torus, so every cell has a neighbour in every direction.

use vstd::prelude::*;
use crate::catalog::TileId;
use crate::direction::{lemma_step_there_and_back, opposite, step_x, step_y};

verus! {

/// The tile identifiers of a grid, row by row, as a mathematical value.
pub open spec fn grid_view(grid: &Vec<Vec<TileId>>) -> Seq<Seq<TileId>> {
    Seq::new(grid.len() as nat, |y: int| grid[y]@)
}

/// Whether the grid is a non-empty rectangle that names only tiles below `n`.
pub open spec fn grid_ok(grid: Seq<Seq<TileId>>, n: int) -> bool {
    &&& grid.len() > 0
    &&& grid[0].len() > 0
    &&& forall|y: int| 0 <= y < grid.len() ==> (#[trigger] grid[y]).len() == grid[0].len()
    &&& forall|y: int, x: int|
        0 <= y < grid.len() && 0 <= x < grid[0].len() ==> (#[trigger] grid[y][x]) < n
}

/// Number of columns of the grid.
pub open spec fn cols(grid: Seq<Seq<TileId>>) -> int {
    grid[0].len() as int
}

/// Number of rows of the grid.
pub open spec fn rows(grid: Seq<Seq<TileId>>) -> int {
    grid.len() as int
}

/// The tile that stands next to cell `(x, y)` in direction `d`.
pub open spec fn neighbor_id(grid: Seq<Seq<TileId>>, x: int, y: int, d: int) -> TileId {
    grid[step_y(y, d, rows(grid))][step_x(x, d, cols(grid))]
}

/// Whether cell `(x, y)` holds `a` and its neighbour in direction `d` holds `b`.
pub open spec fn hit(grid: Seq<Seq<TileId>>, x: int, y: int, a: TileId, b: TileId, d: int) -> bool {
    grid[y][x] == a && neighbor_id(grid, x, y, d) == b
}

/// Number of hits among the first `x_end` cells of row `y`.
pub open spec fn row_hits(grid: Seq<Seq<TileId>>, y: int, x_end: int, a: TileId, b: TileId, d: int) -> nat
    decreases x_end,
{
    if x_end <= 0 {
        0
    } else {
        row_hits(grid, y, x_end - 1, a, b, d) + if hit(grid, x_end - 1, y, a, b, d) {
            1nat
        } else {
            0nat
        }
    }
}

/// Number of hits in the first `y_end` rows.
pub open spec fn hits_upto(grid: Seq<Seq<TileId>>, y_end: int, a: TileId, b: TileId, d: int) -> nat
    decreases y_end,
{
    if y_end <= 0 {
        0
    } else {
        hits_upto(grid, y_end - 1, a, b, d) + row_hits(grid, y_end - 1, cols(grid), a, b, d)
    }
}

/// How often tile `b` stands next to tile `a` in direction `d`.
pub open spec fn pair_count(grid: Seq<Seq<TileId>>, a: TileId, b: TileId, d: int) -> nat {
    hits_upto(grid, rows(grid), a, b, d)
}

/// Number of cells holding `a` among the first `x_end` cells of row `y`.
pub open spec fn row_occurrences(grid: Seq<Seq<TileId>>, y: int, x_end: int, a: TileId) -> nat
    decreases x_end,
{
    if x_end <= 0 {
        0
    } else {
        row_occurrences(grid, y, x_end - 1, a) + if grid[y][x_end - 1] == a {
            1nat
        } else {
            0nat
        }
    }
}

/// Number of cells holding `a` in the first `y_end` rows.
pub open spec fn occurrences_upto(grid: Seq<Seq<TileId>>, y_end: int, a: TileId) -> nat
    decreases y_end,
{
    if y_end <= 0 {
        0
    } else {
        occurrences_upto(grid, y_end - 1, a) + row_occurrences(grid, y_end - 1, cols(grid), a)
    }
}

/// How often tile `a` occurs in the grid.
pub open spec fn tile_freq(grid: Seq<Seq<TileId>>, a: TileId) -> nat {
    occurrences_upto(grid, rows(grid), a)
}

/// Number of cells among the first `x_end` of row `y` that hold `a` and whose
/// neighbour in direction `d` holds a tile below `b_end`.
pub open spec fn row_hits_below(grid: Seq<Seq<TileId>>, y: int, x_end: int, a: TileId, b_end: int, d: int) -> nat
    decreases x_end,
{
    if x_end <= 0 {
        0
    } else {
        row_hits_below(grid, y, x_end - 1, a, b_end, d) + if grid[y][x_end - 1] == a && neighbor_id(
            grid,
            x_end - 1,
            y,
            d,
        ) < b_end {
            1nat
        } else {
            0nat
        }
    }
}

/// The same count over the first `y_end` rows.
pub open spec fn hits_below_upto(grid: Seq<Seq<TileId>>, y_end: int, a: TileId, b_end: int, d: int) -> nat
    decreases y_end,
{
    if y_end <= 0 {
        0
    } else {
        hits_below_upto(grid, y_end - 1, a, b_end, d) + row_hits_below(
            grid,
            y_end - 1,
            cols(grid),
            a,
            b_end,
            d,
        )
    }
}

/// The sum of `pair_count(grid, a, b, d)` over the tiles `b` below `b_end`.
pub open spec fn pair_count_sum(grid: Seq<Seq<TileId>>, a: TileId, b_end: int, d: int) -> nat
    decreases b_end,
{
    if b_end <= 0 {
        0
    } else {
        pair_count_sum(grid, a, b_end - 1, d) + pair_count(grid, a, (b_end - 1) as usize, d)
    }
}

/// Counts within a row are bounded by the number of cells looked at.
pub proof fn lemma_row_bounds(grid: Seq<Seq<TileId>>, y: int, x_end: int, a: TileId, b: TileId, d: int)
    requires
        0 <= x_end,
    ensures
        row_hits(grid, y, x_end, a, b, d) <= row_occurrences(grid, y, x_end, a) <= x_end,
    decreases x_end,
{
    if x_end > 0 {
        lemma_row_bounds(grid, y, x_end - 1, a, b, d);
    }
}

/// Counts over the first rows are bounded by the number of cells looked at.
pub proof fn lemma_bounds(grid: Seq<Seq<TileId>>, y_end: int, a: TileId, b: TileId, d: int)
    requires
        0 <= y_end,
        0 <= cols(grid),
    ensures
        hits_upto(grid, y_end, a, b, d) <= occurrences_upto(grid, y_end, a) <= y_end * cols(grid),
    decreases y_end,
{
    if y_end > 0 {
        lemma_bounds(grid, y_end - 1, a, b, d);
        lemma_row_bounds(grid, y_end - 1, cols(grid), a, b, d);
        assert((y_end - 1) * cols(grid) + cols(grid) == y_end * cols(grid)) by (nonlinear_arith);
    } else {
        assert(0 * cols(grid) == 0);
    }
}

/// A row has a hit exactly when its count is positive.
pub proof fn lemma_row_hits_positive(grid: Seq<Seq<TileId>>, y: int, x_end: int, a: TileId, b: TileId, d: int)
    ensures
        row_hits(grid, y, x_end, a, b, d) > 0 <==> exists|x: int|
            0 <= x < x_end && #[trigger] hit(grid, x, y, a, b, d),
    decreases x_end,
{
    if x_end > 0 {
        lemma_row_hits_positive(grid, y, x_end - 1, a, b, d);
        if row_hits(grid, y, x_end, a, b, d) > 0 {
            if hit(grid, x_end - 1, y, a, b, d) {
            } else {
                let x = choose|x: int| 0 <= x < x_end - 1 && #[trigger] hit(grid, x, y, a, b, d);
                assert(0 <= x < x_end && hit(grid, x, y, a, b, d));
            }
        }
        if exists|x: int| 0 <= x < x_end && #[trigger] hit(grid, x, y, a, b, d) {
            let x = choose|x: int| 0 <= x < x_end && #[trigger] hit(grid, x, y, a, b, d);
            if x < x_end - 1 {
                assert(0 <= x < x_end - 1 && hit(grid, x, y, a, b, d));
            }
        }
    }
}

/// The first rows have a hit exactly when their count is positive.
pub proof fn lemma_hits_positive(grid: Seq<Seq<TileId>>, y_end: int, a: TileId, b: TileId, d: int)
    ensures
        hits_upto(grid, y_end, a, b, d) > 0 <==> exists|x: int, y: int|
            0 <= y < y_end && 0 <= x < cols(grid) && #[trigger] hit(grid, x, y, a, b, d),
    decreases y_end,
{
    if y_end > 0 {
        lemma_hits_positive(grid, y_end - 1, a, b, d);
        lemma_row_hits_positive(grid, y_end - 1, cols(grid), a, b, d);
        if hits_upto(grid, y_end, a, b, d) > 0 {
            if row_hits(grid, y_end - 1, cols(grid), a, b, d) > 0 {
                let x = choose|x: int| 0 <= x < cols(grid) && #[trigger] hit(grid, x, y_end - 1, a, b, d);
                assert(0 <= y_end - 1 < y_end && 0 <= x < cols(grid) && hit(grid, x, y_end - 1, a, b, d));
            } else {
                let (x, y) = choose|x: int, y: int|
                    0 <= y < y_end - 1 && 0 <= x < cols(grid) && #[trigger] hit(grid, x, y, a, b, d);
                assert(0 <= y < y_end && 0 <= x < cols(grid) && hit(grid, x, y, a, b, d));
            }
        }
        if exists|x: int, y: int|
            0 <= y < y_end && 0 <= x < cols(grid) && #[trigger] hit(grid, x, y, a, b, d) {
            let (x, y) = choose|x: int, y: int|
                0 <= y < y_end && 0 <= x < cols(grid) && #[trigger] hit(grid, x, y, a, b, d);
            if y < y_end - 1 {
                assert(0 <= y < y_end - 1 && 0 <= x < cols(grid) && hit(grid, x, y, a, b, d));
            } else {
                assert(0 <= x < cols(grid) && hit(grid, x, y_end - 1, a, b, d));
            }
        }
    }
}

/// Tile `b` was seen next to tile `a` in direction `d` exactly when tile `a`
/// was seen next to tile `b` in the opposite direction.
pub proof fn lemma_pair_count_symmetric(grid: Seq<Seq<TileId>>, n: int, a: TileId, b: TileId, d: int)
    requires
        grid_ok(grid, n),
        0 <= d < 4,
    ensures
        pair_count(grid, a, b, d) > 0 <==> pair_count(grid, b, a, opposite(d)) > 0,
{
    lemma_one_way(grid, n, a, b, d);
    lemma_one_way(grid, n, b, a, opposite(d));
    assert(opposite(opposite(d)) == d);
}

proof fn lemma_one_way(grid: Seq<Seq<TileId>>, n: int, a: TileId, b: TileId, d: int)
    requires
        grid_ok(grid, n),
        0 <= d < 4,
    ensures
        pair_count(grid, a, b, d) > 0 ==> pair_count(grid, b, a, opposite(d)) > 0,
{
    if pair_count(grid, a, b, d) > 0 {
        lemma_hits_positive(grid, rows(grid), a, b, d);
        let (x, y) = choose|x: int, y: int|
            0 <= y < rows(grid) && 0 <= x < cols(grid) && #[trigger] hit(grid, x, y, a, b, d);
        let nx = step_x(x, d, cols(grid));
        let ny = step_y(y, d, rows(grid));
        lemma_step_there_and_back(x, y, d, cols(grid), rows(grid));
        assert(step_x(nx, opposite(d), cols(grid)) == x);
        assert(step_y(ny, opposite(d), rows(grid)) == y);
        assert(hit(grid, nx, ny, b, a, opposite(d)));
        lemma_hits_positive(grid, rows(grid), b, a, opposite(d));
    }
}

proof fn lemma_row_hits_below_step(grid: Seq<Seq<TileId>>, y: int, x_end: int, a: TileId, b_end: int, d: int)
    requires
        0 < b_end <= usize::MAX,
    ensures
        row_hits_below(grid, y, x_end, a, b_end, d) == row_hits_below(grid, y, x_end, a, b_end - 1, d)
            + row_hits(grid, y, x_end, a, (b_end - 1) as usize, d),
    decreases x_end,
{
    if x_end > 0 {
        lemma_row_hits_below_step(grid, y, x_end - 1, a, b_end, d);
    }
}

proof fn lemma_hits_below_step(grid: Seq<Seq<TileId>>, y_end: int, a: TileId, b_end: int, d: int)
    requires
        0 < b_end <= usize::MAX,
    ensures
        hits_below_upto(grid, y_end, a, b_end, d) == hits_below_upto(grid, y_end, a, b_end - 1, d)
            + hits_upto(grid, y_end, a, (b_end - 1) as usize, d),
    decreases y_end,
{
    if y_end > 0 {
        lemma_hits_below_step(grid, y_end - 1, a, b_end, d);
        lemma_row_hits_below_step(grid, y_end - 1, cols(grid), a, b_end, d);
    }
}

proof fn lemma_row_hits_below_zero(grid: Seq<Seq<TileId>>, y: int, x_end: int, a: TileId, d: int)
    ensures
        row_hits_below(grid, y, x_end, a, 0, d) == 0,
    decreases x_end,
{
    if x_end > 0 {
        lemma_row_hits_below_zero(grid, y, x_end - 1, a, d);
    }
}

proof fn lemma_hits_below_zero(grid: Seq<Seq<TileId>>, y_end: int, a: TileId, d: int)
    ensures
        hits_below_upto(grid, y_end, a, 0, d) == 0,
    decreases y_end,
{
    if y_end > 0 {
        lemma_hits_below_zero(grid, y_end - 1, a, d);
        lemma_row_hits_below_zero(grid, y_end - 1, cols(grid), a, d);
    }
}

proof fn lemma_row_hits_below_all(grid: Seq<Seq<TileId>>, n: int, y: int, x_end: int, a: TileId, d: int)
    requires
        grid_ok(grid, n),
        0 <= d < 4,
        0 <= y < rows(grid),
        x_end <= cols(grid),
    ensures
        row_hits_below(grid, y, x_end, a, n, d) == row_occurrences(grid, y, x_end, a),
    decreases x_end,
{
    if x_end > 0 {
        lemma_row_hits_below_all(grid, n, y, x_end - 1, a, d);
        let ny = step_y(y, d, rows(grid));
        let nx = step_x(x_end - 1, d, cols(grid));
        assert(grid[ny][nx] < n);
    }
}

proof fn lemma_hits_below_all(grid: Seq<Seq<TileId>>, n: int, y_end: int, a: TileId, d: int)
    requires
        grid_ok(grid, n),
        0 <= d < 4,
        y_end <= rows(grid),
    ensures
        hits_below_upto(grid, y_end, a, n, d) == occurrences_upto(grid, y_end, a),
    decreases y_end,
{
    if y_end > 0 {
        lemma_hits_below_all(grid, n, y_end - 1, a, d);
        lemma_row_hits_below_all(grid, n, y_end - 1, cols(grid), a, d);
    }
}

proof fn lemma_pair_count_sum_below(grid: Seq<Seq<TileId>>, a: TileId, b_end: int, d: int)
    requires
        0 <= b_end <= usize::MAX,
    ensures
        pair_count_sum(grid, a, b_end, d) == hits_below_upto(grid, rows(grid), a, b_end, d),
    decreases b_end,
{
    if b_end > 0 {
        lemma_pair_count_sum_below(grid, a, b_end - 1, d);
        lemma_hits_below_step(grid, rows(grid), a, b_end, d);
    } else {
        lemma_hits_below_zero(grid, rows(grid), a, d);
    }
}

/// Over all tiles `b`, the counts of `b` next to `a` in one direction add up
/// to the number of times `a` occurs: every occurrence has one neighbour there.
pub proof fn lemma_pair_counts_add_up(grid: Seq<Seq<TileId>>, n: int, a: TileId, d: int)
    requires
        grid_ok(grid, n),
        n <= usize::MAX,
        0 <= d < 4,
    ensures
        pair_count_sum(grid, a, n, d) == tile_freq(grid, a),
{
    lemma_pair_count_sum_below(grid, a, n, d);
    lemma_hits_below_all(grid, n, rows(grid), a, d);
}

proof fn lemma_row_occurs(grid: Seq<Seq<TileId>>, y: int, x_end: int, x: int)
    requires
        0 <= x < x_end,
    ensures
        row_occurrences(grid, y, x_end, grid[y][x]) > 0,
    decreases x_end,
{
    if x < x_end - 1 {
        lemma_row_occurs(grid, y, x_end - 1, x);
    }
}

proof fn lemma_occurs_upto(grid: Seq<Seq<TileId>>, y_end: int, x: int, y: int)
    requires
        0 <= y < y_end,
        0 <= x < cols(grid),
    ensures
        occurrences_upto(grid, y_end, grid[y][x]) > 0,
    decreases y_end,
{
    if y < y_end - 1 {
        lemma_occurs_upto(grid, y_end - 1, x, y);
    } else {
        lemma_row_occurs(grid, y, cols(grid), x);
    }
}

/// A tile that stands in a cell of the grid occurs at least once.
pub proof fn lemma_occurs(grid: Seq<Seq<TileId>>, x: int, y: int)
    requires
        0 <= y < rows(grid),
        0 <= x < cols(grid),
    ensures
        tile_freq(grid, grid[y][x]) > 0,
{
    lemma_occurs_upto(grid, rows(grid), x, y);
}

} // verus!

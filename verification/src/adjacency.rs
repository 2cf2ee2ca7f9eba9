//! The adjacency model: for each ordered pair of tiles and each direction, how
//! compatible the second tile is with the first one standing before it.

use vstd::prelude::*;
use crate::catalog::TileId;
use crate::direction::{DIRECTIONS, neighbor, opposite};
use crate::sample::{
    cols, grid_ok, grid_view, hit, hits_upto, lemma_bounds, lemma_pair_count_symmetric, lemma_pair_counts_add_up,
    lemma_row_bounds, neighbor_id, occurrences_upto, pair_count, pair_count_sum, row_hits,
    row_occurrences, rows, tile_freq,
};
use crate::weight::ONE;

verus! {

/// Position of the weight for neighbour tile `tile` and direction `dir` in the
/// row of weights of one tile.
pub open spec fn slot(tile: int, dir: int) -> int {
    tile * 4 + dir
}

/// The share `count / total` as a weight.  A positive count never gives the
/// weight zero.
pub open spec fn normalized(count: nat, total: nat) -> u32 {
    let share = (count * ONE) / (total as int);
    if count == 0 || total == 0 {
        0
    } else if share == 0 {
        1
    } else if share > u32::MAX {
        u32::MAX
    } else {
        share as u32
    }
}

/// The count itself as a weight, cut off at the largest weight.
pub open spec fn unnormalized(count: nat) -> u32 {
    if count * ONE > u32::MAX {
        u32::MAX
    } else {
        (count * ONE) as u32
    }
}

/// The compatibility weight that the grid gives to tile `b` standing next to
/// tile `a` in direction `d`: the share of `a`'s neighbours in that direction
/// that are `b`.  For the tile in the top-left corner, which fills the border
/// of every output, the count is kept as it is.
pub open spec fn sample_weight(grid: Seq<Seq<TileId>>, a: TileId, b: TileId, d: int) -> u32 {
    if a == grid[0][0] {
        unnormalized(pair_count(grid, a, b, d))
    } else {
        normalized(pair_count(grid, a, b, d), tile_freq(grid, a))
    }
}

/// Number of cells holding `a` that a row-by-row scan meets before `(x, y)`.
pub open spec fn seen_occurrences(grid: Seq<Seq<TileId>>, x: int, y: int, a: TileId) -> nat {
    occurrences_upto(grid, y, a) + row_occurrences(grid, y, x, a)
}

/// Number of hits that a row-by-row scan meets before `(x, y)`.
pub open spec fn seen_hits(grid: Seq<Seq<TileId>>, x: int, y: int, a: TileId, b: TileId, d: int) -> nat {
    hits_upto(grid, y, a, b, d) + row_hits(grid, y, x, a, b, d)
}

/// The leading tile and its count after the scan has also taken in cell
/// `(x, y)`: the tile of that cell takes the lead if its count so far is
/// larger than the leading count.
pub open spec fn lead_after(grid: Seq<Seq<TileId>>, x: int, y: int, lead: (TileId, nat)) -> (TileId, nat) {
    let id = grid[y][x];
    let count = seen_occurrences(grid, x + 1, y, id);
    if count > lead.1 {
        (id, count)
    } else {
        lead
    }
}

/// The lead after the first `x_end` cells of row `y`, starting from `lead`.
pub open spec fn lead_in_row(grid: Seq<Seq<TileId>>, y: int, x_end: int, lead: (TileId, nat)) -> (TileId, nat)
    decreases x_end,
{
    if x_end <= 0 {
        lead
    } else {
        lead_after(grid, x_end - 1, y, lead_in_row(grid, y, x_end - 1, lead))
    }
}

/// The lead after the first `y_end` rows.
pub open spec fn lead_upto(grid: Seq<Seq<TileId>>, y_end: int) -> (TileId, nat)
    decreases y_end,
{
    if y_end <= 0 {
        (0, 0)
    } else {
        lead_in_row(grid, y_end - 1, cols(grid), lead_upto(grid, y_end - 1))
    }
}

/// The most common tile of the grid: a tile that occurs most often and,
/// among several such, the one whose count reached that number first in a
/// row-by-row scan.
pub open spec fn most_common_of(grid: Seq<Seq<TileId>>) -> TileId {
    lead_upto(grid, rows(grid)).0
}

/// What an adjacency model holds.
pub struct AdjacencySpec {
    /// Number of tiles.
    pub n: nat,
    /// The tile that fills the border and may stand nowhere else.
    pub forbidden: TileId,
    /// For each tile, the weights of its neighbours, at `slot(tile, dir)`.
    pub weights: Seq<Seq<u32>>,
    /// How often each tile occurs in the sample.
    pub freqs: Seq<u32>,
    /// Number of cells of the sample.
    pub total: nat,
    /// The tile to fall back on.
    pub most_common: TileId,
}

impl AdjacencySpec {
    /// The weight of tile `b` standing next to tile `a` in direction `d`.
    pub open spec fn weight(self, a: TileId, b: TileId, d: int) -> u32 {
        self.weights[a as int][slot(b as int, d)]
    }

    /// Tile `b` may follow tile `a` in a direction exactly when `a` may follow
    /// `b` in the opposite direction.
    pub open spec fn symmetric(self) -> bool {
        forall|a: TileId, b: TileId, d: int|
            a < self.n && b < self.n && 0 <= d < 4 ==> ((#[trigger] self.weight(a, b, d)) > 0
                <==> self.weight(b, a, opposite(d)) > 0)
    }

    /// The shape and bounds that every model has.
    pub open spec fn wf(self) -> bool {
        &&& 0 < self.n <= u32::MAX
        &&& self.n * 4 <= usize::MAX
        &&& self.forbidden < self.n
        &&& self.most_common < self.n
        &&& self.weights.len() == self.n
        &&& forall|a: int| 0 <= a < self.n ==> (#[trigger] self.weights[a]).len() == self.n * 4
        &&& self.freqs.len() == self.n
        &&& 0 < self.total <= u32::MAX
        &&& forall|a: int| 0 <= a < self.n ==> (#[trigger] self.freqs[a]) <= self.total
        &&& self.symmetric()
    }

    /// Whether the model holds the statistics of `grid` over `n` tiles.
    pub open spec fn built_from(self, grid: Seq<Seq<TileId>>, n: int) -> bool {
        &&& self.n == n
        &&& self.forbidden == grid[0][0]
        &&& self.total == rows(grid) * cols(grid)
        &&& self.most_common == most_common_of(grid)
        &&& forall|a: TileId| a < n ==> (#[trigger] self.freqs[a as int]) == tile_freq(grid, a)
        &&& forall|a: TileId, b: TileId, d: int|
            a < n && b < n && 0 <= d < 4 ==> (#[trigger] self.weight(a, b, d)) == sample_weight(grid, a, b, d)
    }
}

/// Whether a model of `grid` over `n` tiles can be held: the number of cells
/// and of tiles fit in 32 bits, and a row of weights can be indexed.
pub open spec fn model_fits(grid: Seq<Seq<TileId>>, n: int) -> bool {
    &&& rows(grid) * cols(grid) <= u32::MAX
    &&& n <= u32::MAX
    &&& n * 4 <= usize::MAX
}

/// Computes `normalized(count, total)`.
pub fn normalize(count: u32, total: u32) -> (w: u32)
    ensures
        w == normalized(count as nat, total as nat),
        (w > 0) == (count > 0 && total > 0),
{
    if count == 0 || total == 0 {
        return 0;
    }
    assert(count * ONE <= 0xffff_ffff * 1_000_000) by (nonlinear_arith)
        requires
            ONE == 1_000_000,
            count <= 0xffff_ffff,
    ;
    let scaled: u64 = (count as u64) * (ONE as u64);
    let q: u64 = scaled / (total as u64);
    if q == 0 {
        1
    } else if q > u32::MAX as u64 {
        u32::MAX
    } else {
        q as u32
    }
}

/// Computes `unnormalized(count)`.
pub fn scale_count(count: u32) -> (w: u32)
    ensures
        w == unnormalized(count as nat),
        (w > 0) == (count > 0),
{
    assert(count * ONE <= 0xffff_ffff * 1_000_000 && (count > 0 ==> count * ONE > 0)) by (nonlinear_arith)
        requires
            ONE == 1_000_000,
            count <= 0xffff_ffff,
    ;
    let scaled: u64 = (count as u64) * (ONE as u64);
    if scaled > u32::MAX as u64 {
        u32::MAX
    } else {
        scaled as u32
    }
}

/// The sample's weight is positive exactly where the pair was seen.
pub proof fn lemma_weight_support(grid: Seq<Seq<TileId>>, n: int, a: TileId, b: TileId, d: int)
    requires
        grid_ok(grid, n),
    ensures
        sample_weight(grid, a, b, d) > 0 <==> pair_count(grid, a, b, d) > 0,
{
    lemma_bounds(grid, rows(grid), a, b, d);
    let c = pair_count(grid, a, b, d);
    assert(c > 0 ==> c * ONE > 0) by (nonlinear_arith)
        requires
            ONE == 1_000_000,
    ;
}

/// Symmetry of support: the sample lets tile `b` stand next to tile `a` in
/// direction `d` exactly when it lets `a` stand next to `b` in the opposite
/// direction.
pub proof fn lemma_weight_symmetric(grid: Seq<Seq<TileId>>, n: int, a: TileId, b: TileId, d: int)
    requires
        grid_ok(grid, n),
        0 <= d < 4,
    ensures
        sample_weight(grid, a, b, d) > 0 <==> sample_weight(grid, b, a, opposite(d)) > 0,
{
    lemma_weight_support(grid, n, a, b, d);
    lemma_weight_support(grid, n, b, a, opposite(d));
    lemma_pair_count_symmetric(grid, n, a, b, d);
}

/// The sum of the weights `sample_weight(grid, a, b, d)` over the tiles `b`
/// below `b_end`.
pub open spec fn weight_sum(grid: Seq<Seq<TileId>>, a: TileId, b_end: int, d: int) -> nat
    decreases b_end,
{
    if b_end <= 0 {
        0
    } else {
        weight_sum(grid, a, b_end - 1, d) + sample_weight(grid, a, (b_end - 1) as usize, d) as nat
    }
}

proof fn lemma_weight_sum_bounds(grid: Seq<Seq<TileId>>, n: int, a: TileId, b_end: int, d: int)
    requires
        grid_ok(grid, n),
        a != grid[0][0],
        tile_freq(grid, a) > 0,
        0 <= b_end <= usize::MAX,
    ensures
        weight_sum(grid, a, b_end, d) * tile_freq(grid, a) <= pair_count_sum(grid, a, b_end, d) * ONE + b_end
            * tile_freq(grid, a),
        pair_count_sum(grid, a, b_end, d) * ONE <= weight_sum(grid, a, b_end, d) * tile_freq(grid, a) + b_end
            * tile_freq(grid, a),
    decreases b_end,
{
    let t = tile_freq(grid, a) as int;
    if b_end > 0 {
        lemma_weight_sum_bounds(grid, n, a, b_end - 1, d);
        let b = (b_end - 1) as usize;
        let c = pair_count(grid, a, b, d) as int;
        let w = sample_weight(grid, a, b, d) as int;
        lemma_bounds(grid, rows(grid), a, b, d);
        assert(c <= t);
        let q = (c * ONE) / t;
        assert(q * t <= c * ONE < q * t + t && q <= ONE) by (nonlinear_arith)
            requires
                q == (c * ONE) / t,
                0 <= c <= t,
                t > 0,
                ONE == 1_000_000,
        ;
        assert(q <= w <= q + 1);
        assert(w * t <= q * t + t && q * t <= w * t) by (nonlinear_arith)
            requires
                q <= w <= q + 1,
                t > 0,
        ;
        let ws = weight_sum(grid, a, b_end - 1, d) as int;
        let cs = pair_count_sum(grid, a, b_end - 1, d) as int;
        assert((ws + w) * t == ws * t + w * t) by (nonlinear_arith);
        assert((cs + c) * ONE == cs * ONE + c * ONE) by (nonlinear_arith);
        assert((b_end - 1) * t + t == b_end * t) by (nonlinear_arith);
        assert(weight_sum(grid, a, b_end, d) == ws + w);
        assert(pair_count_sum(grid, a, b_end, d) == cs + c);
    } else {
        assert(0 * t == 0);
        assert(0 * (ONE as int) == 0);
    }
}

/// For a tile that occurs in the sample and is not the border tile, the
/// weights of all tiles next to it in one direction add up to one, up to
/// one millionth for each tile.
pub proof fn lemma_weights_add_up(grid: Seq<Seq<TileId>>, n: int, a: TileId, d: int)
    requires
        grid_ok(grid, n),
        n <= usize::MAX,
        0 <= d < 4,
        a != grid[0][0],
        tile_freq(grid, a) > 0,
    ensures
        ONE - n <= weight_sum(grid, a, n, d) <= ONE + n,
{
    lemma_weight_sum_bounds(grid, n, a, n, d);
    lemma_pair_counts_add_up(grid, n, a, d);
    let t = tile_freq(grid, a) as int;
    let s = weight_sum(grid, a, n, d) as int;
    assert(s <= ONE + n) by (nonlinear_arith)
        requires
            s * t <= t * ONE + n * t,
            t > 0,
    ;
    assert(ONE - n <= s) by (nonlinear_arith)
        requires
            t * ONE <= s * t + n * t,
            t > 0,
    ;
}

/// A grid has one model: two well-formed models that hold the statistics of
/// the same grid are equal.
pub proof fn lemma_model_unique(grid: Seq<Seq<TileId>>, n: int, a: AdjacencySpec, b: AdjacencySpec)
    requires
        a.wf(),
        b.wf(),
        a.built_from(grid, n),
        b.built_from(grid, n),
    ensures
        a == b,
{
    assert forall|t: int| 0 <= t < n implies a.freqs[t] == b.freqs[t] by {
        assert(a.freqs[(t as usize) as int] == tile_freq(grid, t as usize));
        assert(b.freqs[(t as usize) as int] == tile_freq(grid, t as usize));
    }
    assert(a.freqs =~= b.freqs);
    assert forall|t: int, k: int| 0 <= t < n && 0 <= k < n * 4 implies a.weights[t][k] == b.weights[t][k] by {
        let other = (k / 4) as usize;
        let d = k % 4;
        assert(k == slot(other as int, d));
        assert(a.weight(t as usize, other, d) == sample_weight(grid, t as usize, other, d));
        assert(b.weight(t as usize, other, d) == sample_weight(grid, t as usize, other, d));
    }
    assert(a.weights =~~= b.weights);
}

impl AdjacencySpec {
    /// The sum of the weights `weight(a, b, d)` over the tiles `b` below
    /// `b_end`.
    pub open spec fn row_sum(self, a: TileId, b_end: int, d: int) -> nat
        decreases b_end,
    {
        if b_end <= 0 {
            0
        } else {
            self.row_sum(a, b_end - 1, d) + self.weight(a, (b_end - 1) as usize, d) as nat
        }
    }

    proof fn lemma_row_sum(self, grid: Seq<Seq<TileId>>, a: TileId, b_end: int, d: int)
        requires
            self.wf(),
            self.built_from(grid, self.n as int),
            a < self.n,
            0 <= d < 4,
            0 <= b_end <= self.n,
        ensures
            self.row_sum(a, b_end, d) == weight_sum(grid, a, b_end, d),
        decreases b_end,
    {
        if b_end > 0 {
            self.lemma_row_sum(grid, a, b_end - 1, d);
        }
    }

    /// In the model of a grid, the weights of all tiles next to a tile that
    /// occurs and is not the border tile add up, in each direction, to one,
    /// up to one millionth for each tile.
    pub proof fn lemma_rows_add_up(self, grid: Seq<Seq<TileId>>, a: TileId, d: int)
        requires
            self.wf(),
            grid_ok(grid, self.n as int),
            self.built_from(grid, self.n as int),
            a < self.n,
            a != self.forbidden,
            self.freqs[a as int] > 0,
            0 <= d < 4,
        ensures
            ONE - self.n <= self.row_sum(a, self.n as int, d) <= ONE + self.n,
    {
        self.lemma_row_sum(grid, a, self.n as int, d);
        lemma_weights_add_up(grid, self.n as int, a, d);
    }
}

proof fn lemma_lead_in_row(grid: Seq<Seq<TileId>>, n: int, y: int, x_end: int, lead: (TileId, nat))
    requires
        grid_ok(grid, n),
        0 <= y < rows(grid),
        0 <= x_end <= cols(grid),
        lead.0 < n,
        forall|t: TileId| seen_occurrences(grid, 0, y, t) <= lead.1,
        lead.1 <= seen_occurrences(grid, 0, y, lead.0),
    ensures
        lead_in_row(grid, y, x_end, lead).0 < n,
        forall|t: TileId| seen_occurrences(grid, x_end, y, t) <= lead_in_row(grid, y, x_end, lead).1,
        lead_in_row(grid, y, x_end, lead).1 <= seen_occurrences(
            grid,
            x_end,
            y,
            lead_in_row(grid, y, x_end, lead).0,
        ),
    decreases x_end,
{
    if x_end > 0 {
        lemma_lead_in_row(grid, n, y, x_end - 1, lead);
        let before = lead_in_row(grid, y, x_end - 1, lead);
        let after = lead_in_row(grid, y, x_end, lead);
        assert(after == lead_after(grid, x_end - 1, y, before));
        assert(grid[y][x_end - 1] < n);
        let x = x_end - 1;
        assert forall|t: TileId| #[trigger] seen_occurrences(grid, x_end, y, t) <= after.1 by {
            assert(seen_occurrences(grid, x, y, t) <= before.1);
        }
    }
}

proof fn lemma_lead_upto(grid: Seq<Seq<TileId>>, n: int, y_end: int)
    requires
        grid_ok(grid, n),
        0 <= y_end <= rows(grid),
    ensures
        lead_upto(grid, y_end).0 < n,
        forall|t: TileId| occurrences_upto(grid, y_end, t) <= lead_upto(grid, y_end).1,
        lead_upto(grid, y_end).1 <= occurrences_upto(grid, y_end, lead_upto(grid, y_end).0),
    decreases y_end,
{
    if y_end > 0 {
        let y = y_end - 1;
        lemma_lead_upto(grid, n, y);
        let lead = lead_upto(grid, y);
        assert forall|t: TileId| #[trigger] seen_occurrences(grid, 0, y, t) <= lead.1 by {
            assert(occurrences_upto(grid, y, t) <= lead.1);
        }
        lemma_lead_in_row(grid, n, y, cols(grid), lead);
        let after = lead_upto(grid, y_end);
        assert forall|t: TileId| #[trigger] occurrences_upto(grid, y_end, t) <= after.1 by {
            assert(seen_occurrences(grid, cols(grid), y, t) <= after.1);
        }
    } else {
        assert(grid[0][0] < n);
    }
}

/// No tile occurs more often than the most common one.
pub proof fn lemma_most_common(grid: Seq<Seq<TileId>>, n: int, t: TileId)
    requires
        grid_ok(grid, n),
    ensures
        most_common_of(grid) < n,
        tile_freq(grid, t) <= tile_freq(grid, most_common_of(grid)),
{
    lemma_lead_upto(grid, n, rows(grid));
}

/// Adds one to the count at `counts[a][k]`.
fn bump(counts: &mut Vec<Vec<u32>>, a: usize, k: usize)
    requires
        a < old(counts).len(),
        k < old(counts)[a as int].len(),
        old(counts)[a as int][k as int] < u32::MAX,
    ensures
        final(counts).len() == old(counts).len(),
        forall|i: int| 0 <= i < old(counts).len() ==> (#[trigger] final(counts)[i]).len() == old(counts)[i].len(),
        forall|i: int, j: int|
            0 <= i < old(counts).len() && 0 <= j < old(counts)[i].len() ==> #[trigger] final(counts)[i][j] == (
            if i == a && j == k {
                (old(counts)[i][j] + 1) as u32
            } else {
                old(counts)[i][j]
            }),
{
    let cur: u32 = counts[a][k];
    counts[a][k] = cur + 1;
}

/// Counts, over the whole grid, the pairs of touching tiles and the
/// occurrences of each tile, and finds the most common tile.
fn tally(grid: &Vec<Vec<TileId>>, n: usize) -> (t: (Vec<Vec<u32>>, Vec<u32>, TileId))
    requires
        grid_ok(grid_view(grid), n as int),
        model_fits(grid_view(grid), n as int),
    ensures
        t.0.len() == n,
        forall|a: int| 0 <= a < n ==> (#[trigger] t.0[a]).len() == n * 4,
        forall|a: TileId, b: TileId, d: int|
            a < n && b < n && 0 <= d < 4 ==> #[trigger] t.0[a as int][slot(b as int, d)] == pair_count(grid_view(grid), a, b, d),
        t.1.len() == n,
        forall|a: TileId| a < n ==> (#[trigger] t.1[a as int]) == tile_freq(grid_view(grid), a),
        t.2 == most_common_of(grid_view(grid)),
{
    let ghost gv = grid_view(grid);
    let height: usize = grid.len();
    let width: usize = grid[0].len();
    let mut counts: Vec<Vec<u32>> = Vec::new();
    let mut a: usize = 0;
    while a < n
        invariant
            a <= n,
            n * 4 <= usize::MAX,
            counts.len() == a,
            forall|i: int| 0 <= i < a ==> (#[trigger] counts[i]).len() == n * 4,
            forall|i: int, j: int| 0 <= i < a && 0 <= j < n * 4 ==> #[trigger] counts[i][j] == 0,
        decreases n - a,
    {
        counts.push(vec![0u32; n * 4]);
        a += 1;
    }
    let mut freqs: Vec<u32> = vec![0u32; n];
    let mut lead: TileId = 0;
    let mut lead_count: u32 = 0;
    let mut y: usize = 0;
    while y < height
        invariant
            y <= height,
            gv == grid_view(grid),
            height == rows(gv),
            width == cols(gv),
            grid_ok(gv, n as int),
            model_fits(gv, n as int),
            counts.len() == n,
            forall|i: int| 0 <= i < n ==> (#[trigger] counts[i]).len() == n * 4,
            freqs.len() == n,
            forall|a: TileId, b: TileId, d: int|
                a < n && b < n && 0 <= d < 4 ==> #[trigger] counts[a as int][slot(b as int, d)] == hits_upto(gv,
                    y as int,
                    a,
                    b,
                    d,
                ),
            forall|a: TileId| a < n ==> (#[trigger] freqs[a as int]) == occurrences_upto(gv, y as int, a),
            (lead, lead_count as nat) == lead_upto(gv, y as int),
        decreases height - y,
    {
        let mut x: usize = 0;
        while x < width
            invariant
                x <= width,
                y < height,
                gv == grid_view(grid),
                height == rows(gv),
                width == cols(gv),
                grid_ok(gv, n as int),
                model_fits(gv, n as int),
                counts.len() == n,
                forall|i: int| 0 <= i < n ==> (#[trigger] counts[i]).len() == n * 4,
                freqs.len() == n,
                forall|a: TileId, b: TileId, d: int|
                    a < n && b < n && 0 <= d < 4 ==> #[trigger] counts[a as int][slot(b as int, d)] == seen_hits(gv,
                        x as int,
                        y as int,
                        a,
                        b,
                        d,
                    ),
                forall|a: TileId| a < n ==> (#[trigger] freqs[a as int]) == seen_occurrences(gv, x as int, y as int, a),
                (lead, lead_count as nat) == lead_in_row(gv, y as int, x as int, lead_upto(gv, y as int)),
            decreases width - x,
        {
            assert(gv[y as int] == grid[y as int]@);
            let id: TileId = grid[y][x];
            proof {
                lemma_bounds(gv, y as int, id, 0, 0);
                lemma_row_bounds(gv, y as int, x as int, id, 0, 0);
                assert(y * width + x < height * width) by (nonlinear_arith)
                    requires
                        y < height,
                        x < width,
                ;
            }
            let count: u32 = freqs[id] + 1;
            freqs.set(id, count);
            if count > lead_count {
                lead_count = count;
                lead = id;
            }
            let mut d: usize = 0;
            while d < DIRECTIONS
                invariant
                    d <= DIRECTIONS,
                    x < width,
                    y < height,
                    gv == grid_view(grid),
                    height == rows(gv),
                    width == cols(gv),
                    grid_ok(gv, n as int),
                    model_fits(gv, n as int),
                    id == gv[y as int][x as int],
                    counts.len() == n,
                    forall|i: int| 0 <= i < n ==> (#[trigger] counts[i]).len() == n * 4,
                    forall|a: TileId, b: TileId, dd: int|
                        a < n && b < n && 0 <= dd < 4 ==> #[trigger] counts[a as int][slot(b as int, dd)]
                            == seen_hits(gv, x as int, y as int, a, b, dd) + (if dd < d && hit(gv,
                            x as int,
                            y as int,
                            a,
                            b,
                            dd,
                        ) {
                            1nat
                        } else {
                            0nat
                        }),
                decreases DIRECTIONS - d,
            {
                let nb: (usize, usize) = neighbor((x, y), d, width, height);
                assert(gv[nb.1 as int] == grid[nb.1 as int]@);
                let value: TileId = grid[nb.1][nb.0];
                assert(value == neighbor_id(gv, x as int, y as int, d as int));
                assert(hit(gv, x as int, y as int, id, value, d as int));
                proof {
                    lemma_bounds(gv, y as int, id, value, d as int);
                    lemma_row_bounds(gv, y as int, x as int, id, value, d as int);
                    assert(y * width + x < height * width) by (nonlinear_arith)
                        requires
                            y < height,
                            x < width,
                    ;
                    assert(counts[id as int][slot(value as int, d as int)] == seen_hits(gv,
                        x as int,
                        y as int,
                        id,
                        value,
                        d as int,
                    ));
                }
                let ghost before = counts;
                bump(&mut counts, id, value * 4 + d);
                proof {
                    assert forall|a: TileId, b: TileId, dd: int| a < n && b < n && 0 <= dd < 4 implies #[trigger] counts[a as int][slot(
                        b as int,
                        dd,
                    )] == seen_hits(gv, x as int, y as int, a, b, dd) + (if dd < d + 1 && hit(gv,
                        x as int,
                        y as int,
                        a,
                        b,
                        dd,
                    ) {
                        1nat
                    } else {
                        0nat
                    }) by {
                        assert(before[a as int][slot(b as int, dd)] == seen_hits(gv,
                            x as int,
                            y as int,
                            a,
                            b,
                            dd,
                        ) + (if dd < d && hit(gv, x as int, y as int, a, b, dd) {
                            1nat
                        } else {
                            0nat
                        }));
                        assert(0 <= slot(b as int, dd) < n * 4);
                    }
                }
                d += 1;
            }
            x += 1;
        }
        y += 1;
    }
    (counts, freqs, lead)
}

/// The statistics of a sample that the synthesis reads.
pub struct AdjacencyModel {
    n: usize,
    forbidden: TileId,
    weights: Vec<Vec<u32>>,
    freqs: Vec<u32>,
    total: u32,
    most_common: TileId,
}

impl View for AdjacencyModel {
    type V = AdjacencySpec;

    closed spec fn view(&self) -> AdjacencySpec {
        AdjacencySpec {
            n: self.n as nat,
            forbidden: self.forbidden,
            weights: Seq::new(self.weights.len() as nat, |a: int| self.weights[a]@),
            freqs: self.freqs@,
            total: self.total as nat,
            most_common: self.most_common,
        }
    }
}

impl AdjacencyModel {
    /// Builds the model of a grid of tile identifiers over `n` tiles.  There is
    /// no model exactly when the grid or the number of tiles is too large to
    /// be counted in 32 bits.
    pub fn build(grid: &Vec<Vec<TileId>>, n: usize) -> (model: Option<AdjacencyModel>)
        requires
            grid_ok(grid_view(grid), n as int),
        ensures
            model.is_some() == model_fits(grid_view(grid), n as int),
            model matches Some(m) ==> m@.wf() && m@.built_from(grid_view(grid), n as int),
    {
        let ghost gv = grid_view(grid);
        let height: usize = grid.len();
        let width: usize = grid[0].len();
        let cells: usize = match height.checked_mul(width) {
            Some(c) => c,
            None => {
                return None;
            },
        };
        if cells > u32::MAX as usize || n > u32::MAX as usize || n > usize::MAX / 4 {
            return None;
        }
        let (counts, freqs, most_common) = tally(grid, n);
        let forbidden: TileId = grid[0][0];
        let mut weights: Vec<Vec<u32>> = Vec::new();
        let mut a: usize = 0;
        while a < n
            invariant
                a <= n,
                n * 4 <= usize::MAX,
                counts.len() == n,
                forall|i: int| 0 <= i < n ==> (#[trigger] counts[i]).len() == n * 4,
                freqs.len() == n,
                weights.len() == a,
                forall|i: int| 0 <= i < a ==> (#[trigger] weights[i]).len() == n * 4,
                forall|i: int, j: int|
                    0 <= i < a && 0 <= j < n * 4 ==> #[trigger] weights[i][j] == (if i == forbidden {
                        unnormalized(counts[i][j] as nat)
                    } else {
                        normalized(counts[i][j] as nat, freqs[i] as nat)
                    }),
            decreases n - a,
        {
            let mut row: Vec<u32> = Vec::new();
            let mut k: usize = 0;
            while k < n * 4
                invariant
                    k <= n * 4,
                    a < n,
                    n * 4 <= usize::MAX,
                    counts.len() == n,
                    counts[a as int].len() == n * 4,
                    freqs.len() == n,
                    row.len() == k,
                    forall|j: int|
                        0 <= j < k ==> #[trigger] row[j] == (if a == forbidden {
                            unnormalized(counts[a as int][j] as nat)
                        } else {
                            normalized(counts[a as int][j] as nat, freqs[a as int] as nat)
                        }),
                decreases n * 4 - k,
            {
                let w: u32 = if a == forbidden {
                    scale_count(counts[a][k])
                } else {
                    normalize(counts[a][k], freqs[a])
                };
                row.push(w);
                k += 1;
            }
            weights.push(row);
            a += 1;
        }
        let model = AdjacencyModel { n, forbidden, weights, freqs, total: cells as u32, most_common };
        proof {
            let m = model@;
            assert(height * width > 0) by (nonlinear_arith)
                requires
                    height > 0,
                    width > 0,
            ;
            lemma_most_common(gv, n as int, 0);
            assert(forbidden < n);
            assert forall|a: TileId| a < n implies (#[trigger] m.freqs[a as int]) == tile_freq(gv, a)
                && m.freqs[a as int] <= m.total by {
                lemma_bounds(gv, rows(gv), a, 0, 0);
            }
            assert forall|a: TileId, b: TileId, d: int| a < n && b < n && 0 <= d < 4 implies (#[trigger] m.weight(
                a,
                b,
                d,
            )) == sample_weight(gv, a, b, d) by {
                assert(0 <= slot(b as int, d) < n * 4);
                assert(counts[a as int][slot(b as int, d)] == pair_count(gv, a, b, d));
                assert(m.weights[a as int] == model.weights[a as int]@);
            }
            assert forall|a: TileId, b: TileId, d: int| a < n && b < n && 0 <= d < 4 implies ((#[trigger] m.weight(
                a,
                b,
                d,
            )) > 0 <==> m.weight(b, a, opposite(d)) > 0) by {
                lemma_weight_symmetric(gv, n as int, a, b, d);
                assert(m.weight(b, a, opposite(d)) == sample_weight(gv, b, a, opposite(d)));
            }
        }
        Some(model)
    }

    /// Number of tiles.
    pub fn tile_count(&self) -> (n: usize)
        ensures
            n == self@.n,
    {
        self.n
    }

    /// The tile that fills the border.
    pub fn forbidden(&self) -> (t: TileId)
        ensures
            t == self@.forbidden,
    {
        self.forbidden
    }

    /// The tile to fall back on when no tile can be drawn.
    pub fn most_common(&self) -> (t: TileId)
        ensures
            t == self@.most_common,
    {
        self.most_common
    }

    /// Number of cells of the sample.
    pub fn total_freq(&self) -> (total: u32)
        ensures
            total == self@.total,
    {
        self.total
    }

    /// How often tile `a` occurs in the sample.
    pub fn freq(&self, a: TileId) -> (f: u32)
        requires
            self@.wf(),
            a < self@.n,
        ensures
            f == self@.freqs[a as int],
    {
        self.freqs[a]
    }

    /// The weight of tile `b` standing next to tile `a` in direction `dir`.
    pub fn edge_weight(&self, a: TileId, b: TileId, dir: usize) -> (w: u32)
        requires
            self@.wf(),
            a < self@.n,
            b < self@.n,
            dir < DIRECTIONS,
        ensures
            w == self@.weight(a, b, dir as int),
    {
        assert(self@.weights[a as int] == self.weights[a as int]@);
        assert(slot(b as int, dir as int) < self@.n * 4);
        self.weights[a][b * 4 + dir]
    }
}

} // verus!

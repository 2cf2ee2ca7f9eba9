//! The state of the output grid as a mathematical value: which cells are
//! decided, what each undecided cell believes, and what is queued.

use vstd::prelude::*;
use crate::adjacency::{AdjacencySpec, slot};
use crate::catalog::TileId;
use crate::direction::neighbor_of;
use crate::weight::ONE;

verus! {

/// The state of one cell of the output grid.
#[derive(Clone, Copy, Debug, PartialEq, Eq, Structural)]
pub enum TileType {
    /// The cell holds this tile.
    Tile(TileId),
    /// The cell is undecided: it holds a belief for each tile and direction.
    Field,
    /// No tile is left for the cell.
    Dead,
}

impl TileType {
    /// Whether the cell holds a tile.
    pub fn is_real(&self) -> (decided: bool)
        ensures
            decided == (*self is Tile),
    {
        match self {
            TileType::Tile(_) => true,
            _ => false,
        }
    }
}

/// A position in the grid: column, then row.
pub type Pos = (usize, usize);

/// The output grid, its queues and its counters.
pub struct GridSpec {
    /// Number of columns.
    pub width: nat,
    /// Number of rows.
    pub height: nat,
    /// The state of each cell, by row and column.
    pub types: Seq<Seq<TileType>>,
    /// The beliefs of each cell, by row and column; the belief that tile `t`
    /// fits what lies in direction `d` stands at `slot(t, d)`.
    pub fields: Seq<Seq<Seq<u32>>>,
    /// The cells whose beliefs are to be recomputed; the last comes first.
    pub damage: Seq<Pos>,
    /// The undecided cells that may be decided next.
    pub candidates: Seq<Pos>,
    /// How often each tile has been decided and accepted.
    pub out_freqs: Seq<u32>,
    /// Number of accepted decisions.
    pub out_total: nat,
    /// Number of decisions that fell back on the most common tile.
    pub fallbacks: nat,
}

/// 1 for a nonzero weight, 0 for zero.
pub open spec fn nonzero(w: u32) -> nat {
    if w != 0 {
        1
    } else {
        0
    }
}

/// Number of nonzero weights in a cell.
pub open spec fn cell_support(cell: Seq<u32>) -> nat
    decreases cell.len(),
{
    if cell.len() == 0 {
        0
    } else {
        cell_support(cell.drop_last()) + nonzero(cell.last())
    }
}

/// Number of nonzero weights in a row of cells.
pub open spec fn row_support(row: Seq<Seq<u32>>) -> nat
    decreases row.len(),
{
    if row.len() == 0 {
        0
    } else {
        row_support(row.drop_last()) + cell_support(row.last())
    }
}

/// Number of nonzero weights in the grid.
pub open spec fn grid_support(fields: Seq<Seq<Seq<u32>>>) -> nat
    decreases fields.len(),
{
    if fields.len() == 0 {
        0
    } else {
        grid_support(fields.drop_last()) + row_support(fields.last())
    }
}

/// 1 for an undecided cell, 0 for any other.
pub open spec fn undecided(t: TileType) -> nat {
    if t is Field {
        1
    } else {
        0
    }
}

/// Number of undecided cells in a row.
pub open spec fn row_undecided(row: Seq<TileType>) -> nat
    decreases row.len(),
{
    if row.len() == 0 {
        0
    } else {
        row_undecided(row.drop_last()) + undecided(row.last())
    }
}

/// Number of undecided cells in the grid.
pub open spec fn grid_undecided(types: Seq<Seq<TileType>>) -> nat
    decreases types.len(),
{
    if types.len() == 0 {
        0
    } else {
        grid_undecided(types.drop_last()) + row_undecided(types.last())
    }
}


/// The first position next to the border on a ring of `len` positions.
pub open spec fn inner_first(len: int) -> usize {
    if len <= 1 {
        0
    } else {
        1
    }
}

/// The last position next to the border on a ring of `len` positions.
pub open spec fn inner_last(len: int) -> usize {
    if len <= 1 {
        0
    } else {
        (len - 2) as usize
    }
}

/// Whether `(x, y)` lies on the border of a `width` by `height` grid.
pub open spec fn on_border(x: int, y: int, width: int, height: int) -> bool {
    x == 0 || x == width - 1 || y == 0 || y == height - 1
}

/// For each of the first `y_end` rows, the first and the last inner cell.
pub open spec fn side_queue(width: int, y_end: int) -> Seq<Pos> {
    Seq::new(
        (2 * y_end) as nat,
        |i: int| if i % 2 == 0 {
            (inner_first(width), (i / 2) as usize)
        } else {
            (inner_last(width), (i / 2) as usize)
        },
    )
}

/// For each of the first `x_end` columns, the first and the last inner cell.
pub open spec fn level_queue(height: int, x_end: int) -> Seq<Pos> {
    Seq::new(
        (2 * x_end) as nat,
        |i: int| if i % 2 == 0 {
            ((i / 2) as usize, inner_first(height))
        } else {
            ((i / 2) as usize, inner_last(height))
        },
    )
}

/// The cells next to the border, as they are queued when the border is laid:
/// for each row the first and the last inner cell, then the same for each
/// column.
pub open spec fn border_queue(width: int, height: int) -> Seq<Pos> {
    side_queue(width, height) + level_queue(height, width)
}

impl GridSpec {
    /// The grid in which every cell is undecided and believes in every tile
    /// with weight one, nothing is queued and nothing is counted.
    pub open spec fn blank(width: nat, height: nat, n: nat) -> GridSpec {
        GridSpec {
            width,
            height,
            types: Seq::new(height, |y: int| Seq::new(width, |x: int| TileType::Field)),
            fields: Seq::new(height, |y: int| Seq::new(width, |x: int| Seq::new(n * 4, |k: int| ONE))),
            damage: Seq::empty(),
            candidates: Seq::empty(),
            out_freqs: Seq::new(n, |t: int| 0u32),
            out_total: 0,
            fallbacks: 0,
        }
    }

    /// The grid with tile `t` laid on every cell of the border and the cells
    /// next to the border queued.
    pub open spec fn edged(self, t: TileId) -> GridSpec {
        GridSpec {
            types: Seq::new(
                self.height,
                |y: int|
                    Seq::new(
                        self.width,
                        |x: int| if on_border(x, y, self.width as int, self.height as int) {
                            TileType::Tile(t)
                        } else {
                            self.types[y][x]
                        },
                    ),
            ),
            damage: self.damage + border_queue(self.width as int, self.height as int),
            ..self
        }
    }

    /// The grid with tile `t` laid on the first and the last cell of each of
    /// the first `y_end` rows, and the inner cells next to them queued.
    pub open spec fn with_sides(self, t: TileId, y_end: int) -> GridSpec {
        GridSpec {
            types: Seq::new(
                self.height,
                |y: int|
                    Seq::new(
                        self.width,
                        |x: int| if y < y_end && (x == 0 || x == self.width - 1) {
                            TileType::Tile(t)
                        } else {
                            self.types[y][x]
                        },
                    ),
            ),
            damage: self.damage + side_queue(self.width as int, y_end),
            ..self
        }
    }

    /// The grid with tile `t` laid on the first and the last cell of every
    /// row and of each of the first `x_end` columns, and the inner cells next
    /// to them queued.
    pub open spec fn with_levels(self, t: TileId, x_end: int) -> GridSpec {
        GridSpec {
            types: Seq::new(
                self.height,
                |y: int|
                    Seq::new(
                        self.width,
                        |x: int| if x == 0 || x == self.width - 1 || (x < x_end && (y == 0 || y == self.height
                            - 1)) {
                            TileType::Tile(t)
                        } else {
                            self.types[y][x]
                        },
                    ),
            ),
            damage: self.damage + side_queue(self.width as int, self.height as int) + level_queue(
                self.height as int,
                x_end,
            ),
            ..self
        }
    }

    /// Whether `p` lies in the grid.
    pub open spec fn contains(self, p: Pos) -> bool {
        p.0 < self.width && p.1 < self.height
    }

    /// The state of cell `p`.
    pub open spec fn type_at(self, p: Pos) -> TileType {
        self.types[p.1 as int][p.0 as int]
    }

    /// The beliefs of cell `p`.
    pub open spec fn cell(self, p: Pos) -> Seq<u32> {
        self.fields[p.1 as int][p.0 as int]
    }

    /// The belief of cell `p` that tile `t` fits what lies in direction `d`.
    pub open spec fn field_at(self, p: Pos, d: int, t: TileId) -> u32 {
        self.cell(p)[slot(t as int, d)]
    }

    /// The neighbour of `p` in direction `d`; the grid wraps around.
    pub open spec fn toward(self, p: Pos, d: int) -> Pos {
        neighbor_of(p, d, self.width as int, self.height as int)
    }

    /// The grid with the state of cell `p` replaced.
    pub open spec fn with_type(self, p: Pos, t: TileType) -> GridSpec {
        GridSpec { types: self.types.update(p.1 as int, self.types[p.1 as int].update(p.0 as int, t)), ..self }
    }

    /// The grid with the beliefs of cell `p` replaced.
    pub open spec fn with_cell(self, p: Pos, cell: Seq<u32>) -> GridSpec {
        GridSpec {
            fields: self.fields.update(p.1 as int, self.fields[p.1 as int].update(p.0 as int, cell)),
            ..self
        }
    }

    /// The grid with the four neighbours of `p` queued for recomputation, in
    /// the order of the directions.
    pub open spec fn with_neighbors_queued(self, p: Pos) -> GridSpec {
        GridSpec {
            damage: self.damage.push(self.toward(p, 0)).push(self.toward(p, 1)).push(self.toward(p, 2)).push(
                self.toward(p, 3),
            ),
            ..self
        }
    }

    /// Number of nonzero beliefs.
    pub open spec fn support(self) -> nat {
        grid_support(self.fields)
    }

    /// Number of undecided cells.
    pub open spec fn undecided_count(self) -> nat {
        grid_undecided(self.types)
    }

    /// The shape and bounds that every grid over the model `adj` has.
    pub open spec fn wf(self, adj: AdjacencySpec) -> bool {
        &&& 0 < self.width <= u32::MAX
        &&& 0 < self.height <= u32::MAX
        &&& self.width * self.height <= u32::MAX
        &&& self.types.len() == self.height
        &&& forall|y: int| 0 <= y < self.height ==> (#[trigger] self.types[y]).len() == self.width
        &&& forall|y: int, x: int|
            0 <= y < self.height && 0 <= x < self.width ==> ((#[trigger] self.types[y][x]) matches TileType::Tile(t)
                ==> t < adj.n)
        &&& self.fields.len() == self.height
        &&& forall|y: int| 0 <= y < self.height ==> (#[trigger] self.fields[y]).len() == self.width
        &&& forall|y: int, x: int|
            0 <= y < self.height && 0 <= x < self.width ==> (#[trigger] self.fields[y][x]).len() == adj.n * 4
        &&& forall|i: int| 0 <= i < self.damage.len() ==> self.contains(#[trigger] self.damage[i])
        &&& forall|i: int| 0 <= i < self.candidates.len() ==> self.contains(#[trigger] self.candidates[i])
        &&& self.out_freqs.len() == adj.n
        &&& forall|t: int| 0 <= t < adj.n ==> (#[trigger] self.out_freqs[t]) <= self.out_total
        &&& self.out_total + self.undecided_count() <= self.width * self.height
        &&& self.fallbacks <= self.out_total
    }
}

/// Replacing one weight of a cell changes the cell's support by the
/// difference between the two weights' being nonzero.
pub proof fn lemma_cell_support_update(cell: Seq<u32>, k: int, w: u32)
    requires
        0 <= k < cell.len(),
    ensures
        cell_support(cell.update(k, w)) + nonzero(cell[k]) == cell_support(cell) + nonzero(w),
    decreases cell.len(),
{
    if k == cell.len() - 1 {
        assert(cell.update(k, w).drop_last() =~= cell.drop_last());
    } else {
        assert(cell.update(k, w).drop_last() =~= cell.drop_last().update(k, w));
        lemma_cell_support_update(cell.drop_last(), k, w);
    }
}

/// A cell whose weights are nonzero only where another's are has no larger
/// support; and a smaller one if it is zero somewhere the other is not.
pub proof fn lemma_cell_support_shrinks(before: Seq<u32>, after: Seq<u32>)
    requires
        before.len() == after.len(),
        forall|k: int| 0 <= k < after.len() && after[k] != 0 ==> before[k] != 0,
    ensures
        cell_support(after) <= cell_support(before),
        (exists|k: int| 0 <= k < after.len() && #[trigger] after[k] == 0 && before[k] != 0) ==> cell_support(after)
            < cell_support(before),
    decreases before.len(),
{
    if before.len() > 0 {
        lemma_cell_support_shrinks(before.drop_last(), after.drop_last());
        if exists|k: int| 0 <= k < after.len() && #[trigger] after[k] == 0 && before[k] != 0 {
            let k = choose|k: int| 0 <= k < after.len() && #[trigger] after[k] == 0 && before[k] != 0;
            if k < after.len() - 1 {
                assert(after.drop_last()[k] == 0 && before.drop_last()[k] != 0);
            }
        }
    }
}

/// Replacing one cell of a row changes the row's support by the difference of
/// the two cells' supports.
pub proof fn lemma_row_support_update(row: Seq<Seq<u32>>, x: int, cell: Seq<u32>)
    requires
        0 <= x < row.len(),
    ensures
        row_support(row.update(x, cell)) + cell_support(row[x]) == row_support(row) + cell_support(cell),
    decreases row.len(),
{
    if x == row.len() - 1 {
        assert(row.update(x, cell).drop_last() =~= row.drop_last());
    } else {
        assert(row.update(x, cell).drop_last() =~= row.drop_last().update(x, cell));
        lemma_row_support_update(row.drop_last(), x, cell);
    }
}

/// Replacing one row of the grid changes the grid's support by the difference
/// of the two rows' supports.
pub proof fn lemma_grid_support_update(fields: Seq<Seq<Seq<u32>>>, y: int, row: Seq<Seq<u32>>)
    requires
        0 <= y < fields.len(),
    ensures
        grid_support(fields.update(y, row)) + row_support(fields[y]) == grid_support(fields) + row_support(row),
    decreases fields.len(),
{
    if y == fields.len() - 1 {
        assert(fields.update(y, row).drop_last() =~= fields.drop_last());
    } else {
        assert(fields.update(y, row).drop_last() =~= fields.drop_last().update(y, row));
        lemma_grid_support_update(fields.drop_last(), y, row);
    }
}

/// Replacing the state of one cell of a row changes the number of undecided
/// cells by the difference of the two states' being undecided.
pub proof fn lemma_row_undecided_update(row: Seq<TileType>, x: int, t: TileType)
    requires
        0 <= x < row.len(),
    ensures
        row_undecided(row.update(x, t)) + undecided(row[x]) == row_undecided(row) + undecided(t),
    decreases row.len(),
{
    if x == row.len() - 1 {
        assert(row.update(x, t).drop_last() =~= row.drop_last());
    } else {
        assert(row.update(x, t).drop_last() =~= row.drop_last().update(x, t));
        lemma_row_undecided_update(row.drop_last(), x, t);
    }
}

/// Replacing one row of states changes the number of undecided cells by the
/// difference of the two rows' numbers.
pub proof fn lemma_grid_undecided_update(types: Seq<Seq<TileType>>, y: int, row: Seq<TileType>)
    requires
        0 <= y < types.len(),
    ensures
        grid_undecided(types.update(y, row)) + row_undecided(types[y]) == grid_undecided(types) + row_undecided(
            row,
        ),
    decreases types.len(),
{
    if y == types.len() - 1 {
        assert(types.update(y, row).drop_last() =~= types.drop_last());
    } else {
        assert(types.update(y, row).drop_last() =~= types.drop_last().update(y, row));
        lemma_grid_undecided_update(types.drop_last(), y, row);
    }
}

impl GridSpec {
    /// Replacing the beliefs of one cell changes the support by the difference
    /// of the two cells' supports.
    pub proof fn lemma_with_cell_support(self, p: Pos, cell: Seq<u32>)
        requires
            p.1 < self.fields.len(),
            p.0 < self.fields[p.1 as int].len(),
        ensures
            self.with_cell(p, cell).support() + cell_support(self.cell(p)) == self.support() + cell_support(cell),
    {
        let row = self.fields[p.1 as int];
        lemma_row_support_update(row, p.0 as int, cell);
        lemma_grid_support_update(self.fields, p.1 as int, row.update(p.0 as int, cell));
    }

    /// Replacing the state of one cell changes the number of undecided cells
    /// by the difference of the two states' being undecided.
    pub proof fn lemma_with_type_undecided(self, p: Pos, t: TileType)
        requires
            p.1 < self.types.len(),
            p.0 < self.types[p.1 as int].len(),
        ensures
            self.with_type(p, t).undecided_count() + undecided(self.type_at(p)) == self.undecided_count()
                + undecided(t),
    {
        let row = self.types[p.1 as int];
        lemma_row_undecided_update(row, p.0 as int, t);
        lemma_grid_undecided_update(self.types, p.1 as int, row.update(p.0 as int, t));
    }

    /// Replacing the beliefs of a cell by a cell of the right length keeps the
    /// grid well formed.
    pub proof fn lemma_with_cell_wf(self, adj: AdjacencySpec, p: Pos, cell: Seq<u32>)
        requires
            self.wf(adj),
            self.contains(p),
            cell.len() == adj.n * 4,
        ensures
            self.with_cell(p, cell).wf(adj),
    {
        let g = self.with_cell(p, cell);
        assert forall|y: int| 0 <= y < g.height implies (#[trigger] g.fields[y]).len() == g.width by {
            assert(self.fields[y].len() == self.width);
        }
        assert forall|y: int, x: int| 0 <= y < g.height && 0 <= x < g.width implies (#[trigger] g.fields[y][x]).len()
            == adj.n * 4 by {
            assert(self.fields[y][x].len() == adj.n * 4);
        }
    }

    /// Replacing the state of a cell keeps the grid well formed, if the new
    /// state names a tile of the model or is dead, or if the cell was not
    /// undecided before.
    pub proof fn lemma_with_type_wf(self, adj: AdjacencySpec, p: Pos, t: TileType)
        requires
            self.wf(adj),
            self.contains(p),
            t matches TileType::Tile(id) ==> id < adj.n,
            t is Field ==> self.type_at(p) is Field,
        ensures
            self.with_type(p, t).wf(adj),
            self.with_type(p, t).undecided_count() <= self.undecided_count(),
            self.type_at(p) is Field && !(t is Field) ==> self.with_type(p, t).undecided_count() + 1
                == self.undecided_count(),
    {
        let g = self.with_type(p, t);
        self.lemma_with_type_undecided(p, t);
        assert forall|y: int| 0 <= y < g.height implies (#[trigger] g.types[y]).len() == g.width by {
            assert(self.types[y].len() == self.width);
        }
        assert forall|y: int, x: int| 0 <= y < g.height && 0 <= x < g.width implies ((#[trigger] g.types[y][x]) matches TileType::Tile(
            id,
        ) ==> id < adj.n) by {
            if y == p.1 && x == p.0 {
            } else {
                assert(g.types[y][x] == self.types[y][x]);
            }
        }
    }

    /// Queueing the neighbours of a cell keeps the grid well formed.
    pub proof fn lemma_with_neighbors_queued_wf(self, adj: AdjacencySpec, p: Pos)
        requires
            self.wf(adj),
            self.contains(p),
        ensures
            self.with_neighbors_queued(p).wf(adj),
    {
        let g = self.with_neighbors_queued(p);
        assert forall|i: int| 0 <= i < g.damage.len() implies g.contains(#[trigger] g.damage[i]) by {
            if i < self.damage.len() {
                assert(g.damage[i] == self.damage[i]);
            }
        }
    }

    /// Queueing a cell, or listing it as a candidate, keeps the grid well
    /// formed.
    pub proof fn lemma_push_wf(self, adj: AdjacencySpec, p: Pos)
        requires
            self.wf(adj),
            self.contains(p),
        ensures
            (GridSpec { candidates: self.candidates.push(p), ..self }).wf(adj),
            (GridSpec { damage: self.damage.push(p), ..self }).wf(adj),
    {
        let g = GridSpec { candidates: self.candidates.push(p), ..self };
        assert forall|i: int| 0 <= i < g.candidates.len() implies g.contains(#[trigger] g.candidates[i]) by {
            if i < self.candidates.len() {
                assert(g.candidates[i] == self.candidates[i]);
            }
        }
        let h = GridSpec { damage: self.damage.push(p), ..self };
        assert forall|i: int| 0 <= i < h.damage.len() implies h.contains(#[trigger] h.damage[i]) by {
            if i < self.damage.len() {
                assert(h.damage[i] == self.damage[i]);
            }
        }
    }
}

/// A row of states has at most as many undecided cells as cells.
pub proof fn lemma_row_undecided_bound(row: Seq<TileType>)
    ensures
        row_undecided(row) <= row.len(),
    decreases row.len(),
{
    if row.len() > 0 {
        lemma_row_undecided_bound(row.drop_last());
    }
}

/// A grid of states has at most as many undecided cells as cells.
pub proof fn lemma_grid_undecided_bound(types: Seq<Seq<TileType>>, width: nat)
    requires
        forall|y: int| 0 <= y < types.len() ==> (#[trigger] types[y]).len() == width,
    ensures
        grid_undecided(types) <= types.len() * width,
    decreases types.len(),
{
    if types.len() > 0 {
        lemma_grid_undecided_bound(types.drop_last(), width);
        lemma_row_undecided_bound(types.last());
        assert((types.len() - 1) * width + width == types.len() * width) by (nonlinear_arith);
    } else {
        assert(0 * width == 0);
    }
}

/// A row in which cells are undecided only where they were before has no
/// more undecided cells than before.
pub proof fn lemma_row_undecided_shrinks(before: Seq<TileType>, after: Seq<TileType>)
    requires
        before.len() == after.len(),
        forall|x: int| 0 <= x < after.len() && after[x] is Field ==> before[x] is Field,
    ensures
        row_undecided(after) <= row_undecided(before),
    decreases before.len(),
{
    if before.len() > 0 {
        lemma_row_undecided_shrinks(before.drop_last(), after.drop_last());
    }
}

/// A grid in which cells are undecided only where they were before has no
/// more undecided cells than before.
pub proof fn lemma_grid_undecided_shrinks(before: Seq<Seq<TileType>>, after: Seq<Seq<TileType>>)
    requires
        before.len() == after.len(),
        forall|y: int| 0 <= y < after.len() ==> (#[trigger] after[y]).len() == before[y].len(),
        forall|y: int, x: int|
            0 <= y < after.len() && 0 <= x < after[y].len() && (#[trigger] after[y][x]) is Field
                ==> before[y][x] is Field,
    ensures
        grid_undecided(after) <= grid_undecided(before),
    decreases before.len(),
{
    if before.len() > 0 {
        lemma_grid_undecided_shrinks(before.drop_last(), after.drop_last());
        lemma_row_undecided_shrinks(before.last(), after.last());
    }
}

impl GridSpec {
    /// The blank grid is well formed if it is not empty and not too large.
    pub proof fn lemma_blank_wf(width: nat, height: nat, adj: AdjacencySpec)
        requires
            0 < width,
            0 < height,
            width * height <= u32::MAX,
        ensures
            GridSpec::blank(width, height, adj.n).wf(adj),
    {
        let g = GridSpec::blank(width, height, adj.n);
        assert(width <= u32::MAX && height <= u32::MAX) by (nonlinear_arith)
            requires
                0 < width,
                0 < height,
                width * height <= u32::MAX,
        ;
        lemma_grid_undecided_bound(g.types, width);
        assert(height * width == width * height) by (nonlinear_arith);
    }

    /// Laying the border keeps the grid well formed.
    pub proof fn lemma_edged_wf(self, adj: AdjacencySpec, t: TileId)
        requires
            self.wf(adj),
            t < adj.n,
            self.width <= usize::MAX,
            self.height <= usize::MAX,
        ensures
            self.edged(t).wf(adj),
    {
        let g = self.edged(t);
        lemma_grid_undecided_shrinks(self.types, g.types);
        let w = self.width as int;
        let h = self.height as int;
        assert forall|i: int| 0 <= i < g.damage.len() implies g.contains(#[trigger] g.damage[i]) by {
            if i < self.damage.len() {
                assert(g.damage[i] == self.damage[i]);
            } else {
                let j = i - self.damage.len();
                assert(g.damage[i] == border_queue(w, h)[j]);
            }
        }
    }
}

/// A row in which cells are undecided only where they were before, and one
/// cell is undecided no longer, has fewer undecided cells than before.
pub proof fn lemma_row_undecided_drops(before: Seq<TileType>, after: Seq<TileType>, x: int)
    requires
        before.len() == after.len(),
        forall|c: int| 0 <= c < after.len() && after[c] is Field ==> before[c] is Field,
        0 <= x < before.len(),
        before[x] is Field,
        !(after[x] is Field),
    ensures
        row_undecided(after) < row_undecided(before),
    decreases before.len(),
{
    if x == before.len() - 1 {
        lemma_row_undecided_shrinks(before.drop_last(), after.drop_last());
    } else {
        lemma_row_undecided_drops(before.drop_last(), after.drop_last(), x);
    }
}

/// A grid in which cells are undecided only where they were before, and one
/// cell is undecided no longer, has fewer undecided cells than before.
pub proof fn lemma_grid_undecided_drops(before: Seq<Seq<TileType>>, after: Seq<Seq<TileType>>, x: int, y: int)
    requires
        before.len() == after.len(),
        forall|r: int| 0 <= r < after.len() ==> (#[trigger] after[r]).len() == before[r].len(),
        forall|r: int, c: int|
            0 <= r < after.len() && 0 <= c < after[r].len() && (#[trigger] after[r][c]) is Field
                ==> before[r][c] is Field,
        0 <= y < before.len(),
        0 <= x < before[y].len(),
        before[y][x] is Field,
        !(after[y][x] is Field),
    ensures
        grid_undecided(after) < grid_undecided(before),
    decreases before.len(),
{
    if y == before.len() - 1 {
        lemma_grid_undecided_shrinks(before.drop_last(), after.drop_last());
        lemma_row_undecided_drops(before.last(), after.last(), x);
    } else {
        lemma_grid_undecided_drops(before.drop_last(), after.drop_last(), x, y);
        lemma_row_undecided_shrinks(before.last(), after.last());
    }
}

impl GridSpec {
    /// Whether `later` has the size of this grid and every cell that is
    /// decided or dead here is the same there: only undecided cells change.
    pub open spec fn keeps_settled(self, later: GridSpec) -> bool {
        &&& later.width == self.width
        &&& later.height == self.height
        &&& forall|q: Pos|
            self.contains(q) && !(self.type_at(q) is Field) ==> #[trigger] later.type_at(q) == self.type_at(q)
    }

    /// Whether `later` has the size of this grid and differs in state only
    /// where an undecided cell has died.
    pub open spec fn decays_to(self, later: GridSpec) -> bool {
        &&& later.width == self.width
        &&& later.height == self.height
        &&& forall|q: Pos|
            self.contains(q) ==> #[trigger] later.type_at(q) == self.type_at(q) || (self.type_at(q) is Field
                && later.type_at(q) is Dead)
    }

    /// Whether every undecided cell that has a decided neighbour is a
    /// candidate or queued for recomputation; the cell `skip` is exempt.
    pub open spec fn covered_except(self, skip: Option<Pos>) -> bool {
        forall|p: Pos|
            self.contains(p) && self.type_at(p) is Field && #[trigger] self.has_decided_neighbor(p) && Some(p)
                != skip ==> self.candidates.contains(p) || self.damage.contains(p)
    }

    /// Whether every undecided cell that has a decided neighbour is a
    /// candidate or queued for recomputation.
    pub open spec fn covered(self) -> bool {
        self.covered_except(None)
    }

    /// Whether a neighbour of `p` is decided.
    pub open spec fn has_decided_neighbor(self, p: Pos) -> bool {
        ||| self.type_at(self.toward(p, 0)) is Tile
        ||| self.type_at(self.toward(p, 1)) is Tile
        ||| self.type_at(self.toward(p, 2)) is Tile
        ||| self.type_at(self.toward(p, 3)) is Tile
    }

    /// Whether the grid is at rest: nothing is queued, no candidate is left,
    /// and no undecided cell has a decided neighbour.
    pub open spec fn at_rest(self) -> bool {
        &&& self.damage.len() == 0
        &&& self.candidates.len() == 0
        &&& forall|p: Pos| self.contains(p) && self.type_at(p) is Field ==> !#[trigger] self.has_decided_neighbor(p)
    }

    /// The neighbours of a cell of the grid lie in the grid.
    pub proof fn lemma_toward(self, adj: AdjacencySpec, p: Pos, d: int)
        requires
            self.wf(adj),
            self.contains(p),
            0 <= d < 4,
        ensures
            self.contains(self.toward(p, d)),
            self.toward(self.toward(p, d), crate::direction::opposite(d)) == p,
    {
        crate::direction::lemma_step_back(p, d, self.width as int, self.height as int);
    }

    /// Replacing the beliefs of one cell changes the beliefs of that cell only.
    pub proof fn lemma_with_cell_at(self, adj: AdjacencySpec, p: Pos, cell: Seq<u32>)
        requires
            self.wf(adj),
            self.contains(p),
        ensures
            self.with_cell(p, cell).cell(p) == cell,
            forall|q: Pos| self.contains(q) && q != p ==> #[trigger] self.with_cell(p, cell).cell(q) == self.cell(q),
            self.with_cell(p, cell).types == self.types,
            self.with_cell(p, cell).damage == self.damage,
            self.with_cell(p, cell).candidates == self.candidates,
    {
        assert forall|q: Pos| self.contains(q) && q != p implies #[trigger] self.with_cell(p, cell).cell(q)
            == self.cell(q) by {
            assert(self.fields[q.1 as int].len() == self.width);
        }
    }

    /// Replacing the state of one cell changes the state of that cell only.
    pub proof fn lemma_with_type_at(self, adj: AdjacencySpec, p: Pos, t: TileType)
        requires
            self.wf(adj),
            self.contains(p),
        ensures
            self.with_type(p, t).type_at(p) == t,
            forall|q: Pos| self.contains(q) && q != p ==> #[trigger] self.with_type(p, t).type_at(q) == self.type_at(q),
    {
        assert forall|q: Pos| self.contains(q) && q != p implies #[trigger] self.with_type(p, t).type_at(q)
            == self.type_at(q) by {
            assert(self.types[q.1 as int].len() == self.width);
        }
    }

    /// A grid that keeps what was settled has no more undecided cells; and
    /// fewer, if a cell that was undecided is so no longer.
    pub proof fn lemma_keeps_settled_count(self, adj: AdjacencySpec, later: GridSpec)
        requires
            self.wf(adj),
            later.wf(adj),
            self.keeps_settled(later),
        ensures
            later.undecided_count() <= self.undecided_count(),
            forall|p: Pos|
                self.contains(p) && self.type_at(p) is Field && !(#[trigger] later.type_at(p) is Field)
                    ==> later.undecided_count() < self.undecided_count(),
    {
        assert forall|r: int, c: int|
            0 <= r < later.types.len() && 0 <= c < later.types[r].len() && (#[trigger] later.types[r][c]) is Field implies self.types[r][c] is Field by {
            let q: Pos = (c as usize, r as usize);
            assert(later.type_at(q) == later.types[r][c]);
            assert(self.type_at(q) == self.types[r][c]);
        }
        lemma_grid_undecided_shrinks(self.types, later.types);
        assert forall|p: Pos|
            self.contains(p) && self.type_at(p) is Field && !(#[trigger] later.type_at(p) is Field) implies later.undecided_count()
            < self.undecided_count() by {
            lemma_grid_undecided_drops(self.types, later.types, p.0 as int, p.1 as int);
        }
    }
}

impl GridSpec {
    /// In the blank grid no cell has a decided neighbour.
    pub proof fn lemma_blank_covered(width: nat, height: nat, adj: AdjacencySpec)
        requires
            0 < width,
            0 < height,
            width * height <= u32::MAX,
        ensures
            GridSpec::blank(width, height, adj.n).covered(),
    {
        let g = GridSpec::blank(width, height, adj.n);
        GridSpec::lemma_blank_wf(width, height, adj);
        assert forall|p: Pos| g.contains(p) implies !#[trigger] g.has_decided_neighbor(p) by {
            g.lemma_toward(adj, p, 0);
            g.lemma_toward(adj, p, 1);
            g.lemma_toward(adj, p, 2);
            g.lemma_toward(adj, p, 3);
        }
    }

    /// After the border was laid, every undecided cell with a decided
    /// neighbour is a candidate or queued, if that held before; and the cells
    /// of the border are decided.
    pub proof fn lemma_edged_covered(self, adj: AdjacencySpec, t: TileId)
        requires
            self.wf(adj),
            t < adj.n,
            self.covered(),
        ensures
            self.edged(t).covered(),
            forall|p: Pos|
                self.contains(p) && on_border(p.0 as int, p.1 as int, self.width as int, self.height as int)
                    ==> #[trigger] self.edged(t).type_at(p) == TileType::Tile(t),
    {
        let e = self.edged(t);
        let w = self.width as int;
        let h = self.height as int;
        let side = side_queue(w, h);
        let level = level_queue(h, w);
        let n = self.damage.len() as int;
        assert forall|q: Pos|
            e.contains(q) && e.type_at(q) is Field && #[trigger] e.has_decided_neighbor(q) implies e.candidates.contains(
            q,
        ) || e.damage.contains(q) by {
            let x = q.0 as int;
            let y = q.1 as int;
            assert(!on_border(x, y, w, h));
            assert(e.type_at(q) == self.type_at(q));
            self.lemma_toward(adj, q, 0);
            self.lemma_toward(adj, q, 1);
            self.lemma_toward(adj, q, 2);
            self.lemma_toward(adj, q, 3);
            if x == 1 {
                assert(side[2 * y] == q);
                assert(e.damage[n + 2 * y] == q);
            } else if x == w - 2 {
                assert(side[2 * y + 1] == q);
                assert(e.damage[n + 2 * y + 1] == q);
            } else if y == 1 {
                assert(level[2 * x] == q);
                assert(e.damage[n + 2 * h + 2 * x] == q);
            } else if y == h - 2 {
                assert(level[2 * x + 1] == q);
                assert(e.damage[n + 2 * h + 2 * x + 1] == q);
            } else {
                assert forall|d: int| 0 <= d < 4 implies e.type_at(self.toward(q, d)) == self.type_at(
                    self.toward(q, d),
                ) by {
                    let r = self.toward(q, d);
                    assert(!on_border(r.0 as int, r.1 as int, w, h));
                }
                assert(self.has_decided_neighbor(q));
                if self.damage.contains(q) {
                    let i = choose|i: int| 0 <= i < self.damage.len() && self.damage[i] == q;
                    assert(e.damage[i] == q);
                }
            }
        }
    }
}

} // verus!

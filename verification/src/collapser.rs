//! The synthesis engine: one value that owns the sample's statistics, the
//! output grid, the queues and the counters.

use vstd::prelude::*;
use crate::adjacency::{AdjacencyModel, AdjacencySpec, slot};
use crate::catalog::{TileCatalog, TileId, sample_size, tile_cols, tile_rows, well_tiled};
use crate::direction::{DIRECTIONS, neighbor};
use crate::grid::{GridSpec, Pos, TileType, inner_first, inner_last};
use crate::pixel::Rgba;
use crate::sample::{cols, grid_ok, grid_view, rows};
use crate::weight::ONE;

verus! {

/// The synthesis engine.
pub struct Collapser {
    pub(crate) catalog: TileCatalog,
    pub(crate) model: AdjacencyModel,
    pub(crate) width: usize,
    pub(crate) height: usize,
    pub(crate) types: Vec<Vec<TileType>>,
    pub(crate) fields: Vec<Vec<Vec<u32>>>,
    pub(crate) damage: Vec<Pos>,
    pub(crate) candidates: Vec<Pos>,
    pub(crate) out_freqs: Vec<u32>,
    pub(crate) out_total: u32,
    pub(crate) fallbacks: u32,
}

/// The beliefs of a grid of cells as a mathematical value.
pub open spec fn fields_view(fields: &Vec<Vec<Vec<u32>>>) -> Seq<Seq<Seq<u32>>> {
    Seq::new(fields.len() as nat, |y: int| Seq::new(fields[y].len() as nat, |x: int| fields[y][x]@))
}

impl View for Collapser {
    type V = GridSpec;

    open(crate) spec fn view(&self) -> GridSpec {
        GridSpec {
            width: self.width as nat,
            height: self.height as nat,
            types: Seq::new(self.types.len() as nat, |y: int| self.types[y]@),
            fields: fields_view(&self.fields),
            damage: self.damage@,
            candidates: self.candidates@,
            out_freqs: self.out_freqs@,
            out_total: self.out_total as nat,
            fallbacks: self.fallbacks as nat,
        }
    }
}

impl Collapser {
    /// The statistics of the sample.
    pub open(crate) spec fn adjacency(&self) -> AdjacencySpec {
        self.model@
    }

    /// The tiles of the sample.
    pub open(crate) spec fn tiles(&self) -> TileCatalog {
        self.catalog
    }

    /// Whether the engine is in order: its statistics and its grid are well
    /// formed.
    pub open spec fn wf(&self) -> bool {
        &&& self.adjacency().wf()
        &&& self@.wf(self.adjacency())
    }

    /// Whether two engines differ at most in the grid, the queues and the
    /// counters.
    pub open spec fn same_sample(&self, other: &Collapser) -> bool {
        &&& self.adjacency() == other.adjacency()
        &&& self.tiles() == other.tiles()
    }

    /// Number of columns of the output grid.
    pub fn width(&self) -> (w: usize)
        ensures
            w == self@.width,
    {
        self.width
    }

    /// Number of rows of the output grid.
    pub fn height(&self) -> (h: usize)
        ensures
            h == self@.height,
    {
        self.height
    }

    /// The statistics of the sample.
    pub fn model(&self) -> (m: &AdjacencyModel)
        ensures
            m@ == self.adjacency(),
    {
        &self.model
    }

    /// The tiles of the sample.
    pub fn catalog(&self) -> (c: &TileCatalog)
        ensures
            *c == self.tiles(),
    {
        &self.catalog
    }

    /// Number of decisions that fell back on the most common tile.
    pub fn fallbacks(&self) -> (count: u32)
        ensures
            count == self@.fallbacks,
    {
        self.fallbacks
    }

    /// Number of accepted decisions.
    pub fn decided(&self) -> (count: u32)
        ensures
            count == self@.out_total,
    {
        self.out_total
    }

    /// Number of cells queued for recomputation.
    pub fn damage_len(&self) -> (len: usize)
        ensures
            len == self@.damage.len(),
    {
        self.damage.len()
    }

    /// Number of candidates.
    pub fn candidates_len(&self) -> (len: usize)
        ensures
            len == self@.candidates.len(),
    {
        self.candidates.len()
    }

    /// The cells queued for recomputation; the last comes first.
    pub fn damage(&self) -> (list: Vec<Pos>)
        ensures
            list@ == self@.damage,
    {
        copy_positions(&self.damage)
    }

    /// The candidates.
    pub fn candidates(&self) -> (list: Vec<Pos>)
        ensures
            list@ == self@.candidates,
    {
        copy_positions(&self.candidates)
    }

    /// The state of cell `p`.
    pub fn get_type(&self, p: Pos) -> (t: TileType)
        requires
            self.wf(),
            self@.contains(p),
        ensures
            t == self@.type_at(p),
    {
        assert(self@.types[p.1 as int] == self.types[p.1 as int]@);
        self.types[p.1][p.0]
    }

    /// The beliefs of cell `p`, at `slot(tile, direction)`.
    pub fn get_all_fields(&self, p: Pos) -> (cell: &Vec<u32>)
        requires
            self.wf(),
            self@.contains(p),
        ensures
            cell@ == self@.cell(p),
            cell.len() == self.adjacency().n * 4,
    {
        assert(self@.fields[p.1 as int].len() == self@.width);
        assert(self@.fields[p.1 as int][p.0 as int] == self.fields[p.1 as int][p.0 as int]@);
        &self.fields[p.1][p.0]
    }

    /// The belief of cell `p` that tile `t` fits what lies in direction `dir`.
    pub fn get_field(&self, p: Pos, dir: usize, t: TileId) -> (w: u32)
        requires
            self.wf(),
            self@.contains(p),
            dir < DIRECTIONS,
            t < self.adjacency().n,
        ensures
            w == self@.field_at(p, dir as int, t),
    {
        let cell: &Vec<u32> = self.get_all_fields(p);
        assert(slot(t as int, dir as int) < self.adjacency().n * 4);
        cell[t * 4 + dir]
    }

    /// The neighbour of `p` in direction `dir`.
    pub fn toward(&self, p: Pos, dir: usize) -> (q: Pos)
        requires
            self.wf(),
            self@.contains(p),
            dir < DIRECTIONS,
        ensures
            q == self@.toward(p, dir as int),
            self@.contains(q),
    {
        neighbor(p, dir, self.width, self.height)
    }

    /// Replaces the state of cell `p`.
    pub(crate) fn set_type(&mut self, p: Pos, t: TileType)
        requires
            old(self).wf(),
            old(self)@.contains(p),
        ensures
            final(self)@ == old(self)@.with_type(p, t),
            final(self).same_sample(old(self)),
    {
        assert(self@.types[p.1 as int] == self.types[p.1 as int]@);
        self.types[p.1][p.0] = t;
        assert(self@.types =~~= old(self)@.with_type(p, t).types);
        assert(self@.fields =~~= old(self)@.fields);
    }

    /// Replaces the beliefs of cell `p`.
    pub(crate) fn set_cell(&mut self, p: Pos, cell: Vec<u32>)
        requires
            old(self).wf(),
            old(self)@.contains(p),
        ensures
            final(self)@ == old(self)@.with_cell(p, cell@),
            final(self).same_sample(old(self)),
    {
        assert(self@.fields[p.1 as int].len() == self@.width);
        self.fields[p.1][p.0] = cell;
        assert(self@.fields =~~= old(self)@.with_cell(p, cell@).fields);
        assert(self@.types =~~= old(self)@.types);
    }

    /// Replaces one belief of cell `p`.
    pub(crate) fn set_field(&mut self, p: Pos, k: usize, w: u32)
        requires
            old(self).wf(),
            old(self)@.contains(p),
            k < old(self).adjacency().n * 4,
        ensures
            final(self)@ == old(self)@.with_cell(p, old(self)@.cell(p).update(k as int, w)),
            final(self).same_sample(old(self)),
    {
        assert(self@.fields[p.1 as int].len() == self@.width);
        assert(self@.fields[p.1 as int][p.0 as int] == self.fields[p.1 as int][p.0 as int]@);
        self.fields[p.1][p.0][k] = w;
        assert(self@.fields =~~= old(self)@.with_cell(p, old(self)@.cell(p).update(k as int, w)).fields);
        assert(self@.types =~~= old(self)@.types);
    }

    /// Takes the last queued cell from the queue.
    pub(crate) fn pop_damage(&mut self) -> (p: Pos)
        requires
            old(self).wf(),
            old(self)@.damage.len() > 0,
        ensures
            p == old(self)@.damage.last(),
            final(self)@ == old(self)@.without_last_damage(),
            final(self).same_sample(old(self)),
    {
        let p: Pos = self.damage.pop().unwrap();
        assert(self@.fields =~~= old(self)@.fields);
        assert(self@.types =~~= old(self)@.types);
        p
    }

    /// Takes the candidate at `index` from the list.
    pub fn take_candidate(&mut self, index: usize) -> (p: Pos)
        requires
            old(self).wf(),
            index < old(self)@.candidates.len(),
        ensures
            p == old(self)@.candidates[index as int],
            final(self)@ == old(self)@.without_candidate(index as int),
            final(self).wf(),
            final(self).same_sample(old(self)),
    {
        proof {
            self@.lemma_without_candidate(self.adjacency(), index as int);
        }
        let p: Pos = self.candidates.remove(index);
        assert(self@.fields =~~= old(self)@.fields);
        assert(self@.types =~~= old(self)@.types);
        p
    }

    /// Queues the four neighbours of `p` for recomputation.
    pub(crate) fn queue_neighbors(&mut self, p: Pos)
        requires
            old(self).wf(),
            old(self)@.contains(p),
        ensures
            final(self)@ == old(self)@.with_neighbors_queued(p),
            final(self).same_sample(old(self)),
    {
        let q0: Pos = neighbor(p, 0, self.width, self.height);
        let q1: Pos = neighbor(p, 1, self.width, self.height);
        let q2: Pos = neighbor(p, 2, self.width, self.height);
        let q3: Pos = neighbor(p, 3, self.width, self.height);
        self.damage.push(q0);
        self.damage.push(q1);
        self.damage.push(q2);
        self.damage.push(q3);
        assert(self@.fields =~~= old(self)@.fields);
        assert(self@.types =~~= old(self)@.types);
    }
}

/// Why no engine could be made.
#[derive(Clone, Copy, Debug, PartialEq, Eq, Structural)]
pub enum InitError {
    /// The sample is not a rectangle cut exactly into tiles.
    BadSample,
    /// The output grid has no cells.
    EmptyGrid,
    /// The sample or the output grid has too many cells to be counted.
    TooLarge,
}

/// Whether a sample and an output grid of the given size can be held: the
/// cells of each can be counted in 32 bits, and four weights for each tile of
/// the sample can be indexed.
pub open spec fn sizes_fit(px: &Vec<Vec<Rgba>>, width: int, height: int) -> bool {
    &&& width * height <= u32::MAX
    &&& tile_cols(px) * tile_rows(px) <= u32::MAX
    &&& tile_cols(px) * tile_rows(px) * 4 <= usize::MAX
}

/// A grid of undecided cells.
fn blank_types(width: usize, height: usize) -> (types: Vec<Vec<TileType>>)
    ensures
        types.len() == height,
        forall|y: int| 0 <= y < height ==> (#[trigger] types[y]).len() == width,
        forall|y: int, x: int| 0 <= y < height && 0 <= x < width ==> #[trigger] types[y][x] == TileType::Field,
{
    let mut types: Vec<Vec<TileType>> = Vec::new();
    let mut y: usize = 0;
    while y < height
        invariant
            y <= height,
            types.len() == y,
            forall|r: int| 0 <= r < y ==> (#[trigger] types[r]).len() == width,
            forall|r: int, x: int| 0 <= r < y && 0 <= x < width ==> #[trigger] types[r][x] == TileType::Field,
        decreases height - y,
    {
        let mut row: Vec<TileType> = Vec::new();
        let mut x: usize = 0;
        while x < width
            invariant
                x <= width,
                row.len() == x,
                forall|c: int| 0 <= c < x ==> #[trigger] row[c] == TileType::Field,
            decreases width - x,
        {
            row.push(TileType::Field);
            x += 1;
        }
        types.push(row);
        y += 1;
    }
    types
}

/// A grid of cells that believe in every tile with weight one.
fn blank_fields(width: usize, height: usize, len: usize) -> (fields: Vec<Vec<Vec<u32>>>)
    ensures
        fields.len() == height,
        forall|y: int| 0 <= y < height ==> (#[trigger] fields[y]).len() == width,
        forall|y: int, x: int| 0 <= y < height && 0 <= x < width ==> (#[trigger] fields[y][x]).len() == len,
        forall|y: int, x: int, k: int|
            0 <= y < height && 0 <= x < width && 0 <= k < len ==> #[trigger] fields[y][x][k] == ONE,
{
    let mut fields: Vec<Vec<Vec<u32>>> = Vec::new();
    let mut y: usize = 0;
    while y < height
        invariant
            y <= height,
            fields.len() == y,
            forall|r: int| 0 <= r < y ==> (#[trigger] fields[r]).len() == width,
            forall|r: int, x: int| 0 <= r < y && 0 <= x < width ==> (#[trigger] fields[r][x]).len() == len,
            forall|r: int, x: int, k: int|
                0 <= r < y && 0 <= x < width && 0 <= k < len ==> #[trigger] fields[r][x][k] == ONE,
        decreases height - y,
    {
        let mut row: Vec<Vec<u32>> = Vec::new();
        let mut x: usize = 0;
        while x < width
            invariant
                x <= width,
                row.len() == x,
                forall|c: int| 0 <= c < x ==> (#[trigger] row[c]).len() == len,
                forall|c: int, k: int| 0 <= c < x && 0 <= k < len ==> #[trigger] row[c][k] == ONE,
            decreases width - x,
        {
            let mut cell: Vec<u32> = Vec::new();
            let mut k: usize = 0;
            while k < len
                invariant
                    k <= len,
                    cell.len() == k,
                    forall|i: int| 0 <= i < k ==> #[trigger] cell[i] == ONE,
                decreases len - k,
            {
                cell.push(ONE);
                k += 1;
            }
            row.push(cell);
            x += 1;
        }
        fields.push(row);
        y += 1;
    }
    fields
}

/// A list of zeros.
fn zeros(len: usize) -> (list: Vec<u32>)
    ensures
        list.len() == len,
        forall|i: int| 0 <= i < len ==> #[trigger] list[i] == 0,
{
    let mut list: Vec<u32> = Vec::new();
    let mut i: usize = 0;
    while i < len
        invariant
            i <= len,
            list.len() == i,
            forall|k: int| 0 <= k < i ==> #[trigger] list[k] == 0,
        decreases len - i,
    {
        list.push(0);
        i += 1;
    }
    list
}

impl Collapser {
    /// Makes an engine for a sample of pixels and an output grid of `width` by
    /// `height` cells: cuts the sample into tiles, takes its statistics, and
    /// lays out a grid of undecided cells with the sample's corner tile on the
    /// border.
    pub fn init(px_map: &Vec<Vec<Rgba>>, width: usize, height: usize) -> (made: Result<Collapser, InitError>)
        ensures
            match made {
                Ok(c) => {
                    &&& well_tiled(px_map)
                    &&& sizes_fit(px_map, width as int, height as int)
                    &&& c.wf()
                    &&& c.tiles().describes(px_map)
                    &&& c.adjacency().built_from(c.tiles().ids(), c.tiles().count() as int)
                    &&& c.adjacency().forbidden == 0
                    &&& forall|t: int| 0 <= t < c.adjacency().n ==> #[trigger] c.adjacency().freqs[t] > 0
                    &&& c@ == GridSpec::blank(width as nat, height as nat, c.tiles().count()).edged(0)
                },
                Err(InitError::BadSample) => !well_tiled(px_map),
                Err(InitError::EmptyGrid) => well_tiled(px_map) && (width == 0 || height == 0),
                Err(InitError::TooLarge) => well_tiled(px_map) && width > 0 && height > 0 && !sizes_fit(
                    px_map,
                    width as int,
                    height as int,
                ),
            },
    {
        let size: (usize, usize) = match sample_size(px_map) {
            Some(size) => size,
            None => {
                return Err(InitError::BadSample);
            },
        };
        if width == 0 || height == 0 {
            return Err(InitError::EmptyGrid);
        }
        let cells: usize = match width.checked_mul(height) {
            Some(cells) => cells,
            None => {
                return Err(InitError::TooLarge);
            },
        };
        let sample_cells: usize = match size.0.checked_mul(size.1) {
            Some(cells) => cells,
            None => {
                return Err(InitError::TooLarge);
            },
        };
        if cells > u32::MAX as usize || sample_cells > u32::MAX as usize || sample_cells > usize::MAX / 4 {
            return Err(InitError::TooLarge);
        }
        let catalog: TileCatalog = TileCatalog::extract(px_map);
        let n: usize = catalog.tiles.len();
        proof {
            let gv = grid_view(&catalog.grid);
            assert(grid_ok(gv, n as int));
            assert(rows(gv) * cols(gv) == tile_cols(px_map) * tile_rows(px_map)) by (nonlinear_arith)
                requires
                    rows(gv) == tile_rows(px_map),
                    cols(gv) == tile_cols(px_map),
            ;
            assert(tile_rows(px_map) * tile_cols(px_map) == tile_cols(px_map) * tile_rows(px_map)) by (nonlinear_arith);
        }
        let model: AdjacencyModel = match AdjacencyModel::build(&catalog.grid, n) {
            Some(model) => model,
            None => {
                return Err(InitError::TooLarge);
            },
        };
        proof {
            let gv = grid_view(&catalog.grid);
            assert forall|t: int| 0 <= t < n implies #[trigger] model@.freqs[t] > 0 by {
                let id = t as usize;
                assert(crate::catalog::in_rows(catalog.grid@, id));
                let (y, x) = choose|y: int, x: int|
                    0 <= y < catalog.grid@.len() && 0 <= x < catalog.grid@[y].len() && #[trigger] catalog.grid@[y][x]
                        == id;
                assert(gv[y][x] == id);
                crate::sample::lemma_occurs(gv, x, y);
                assert(model@.freqs[id as int] == crate::sample::tile_freq(gv, id));
            }
        }
        let mut collapser = Collapser {
            catalog,
            model,
            width,
            height,
            types: blank_types(width, height),
            fields: blank_fields(width, height, n * 4),
            damage: Vec::new(),
            candidates: Vec::new(),
            out_freqs: zeros(n),
            out_total: 0,
            fallbacks: 0,
        };
        proof {
            let blank = GridSpec::blank(width as nat, height as nat, n as nat);
            assert(collapser@.types =~~= blank.types);
            assert(collapser@.fields =~~= blank.fields);
            assert(collapser@.out_freqs =~= blank.out_freqs);
            assert(collapser@.damage =~= blank.damage);
            assert(collapser@.candidates =~= blank.candidates);
            assert(collapser@ == blank);
            GridSpec::lemma_blank_wf(width as nat, height as nat, collapser.adjacency());
        }
        collapser.init_edges();
        Ok(collapser)
    }

    /// Lays the border tile on every cell of the border and queues the cells
    /// next to the border.
    pub fn init_edges(&mut self)
        requires
            old(self).wf(),
        ensures
            final(self).wf(),
            final(self).same_sample(old(self)),
            final(self)@ == old(self)@.edged(old(self).adjacency().forbidden),
    {
        let ghost g = self@;
        let ghost adj = self.adjacency();
        let t: TileId = self.model.forbidden();
        let w: usize = self.width;
        let h: usize = self.height;
        let first_x: usize = if w <= 1 { 0 } else { 1 };
        let last_x: usize = if w <= 1 { 0 } else { w - 2 };
        let first_y: usize = if h <= 1 { 0 } else { 1 };
        let last_y: usize = if h <= 1 { 0 } else { h - 2 };
        proof {
            assert(g.types =~~= g.with_sides(t, 0).types);
            assert(g.damage =~= g.with_sides(t, 0).damage);
        }
        let mut y: usize = 0;
        while y < h
            invariant
                y <= h,
                w == g.width,
                h == g.height,
                g.wf(adj),
                adj.wf(),
                t == adj.forbidden,
                first_x == inner_first(w as int),
                last_x == inner_last(w as int),
                self.wf(),
                self.same_sample(old(self)),
                self.adjacency() == adj,
                self@ == g.with_sides(t, y as int),
            decreases h - y,
        {
            let ghost before = self@;
            proof {
                before.lemma_with_type_wf(adj, (0, y), TileType::Tile(t));
                before.with_type((0, y), TileType::Tile(t)).lemma_with_type_wf(
                    adj,
                    ((w - 1) as usize, y),
                    TileType::Tile(t),
                );
            }
            self.set_type((0, y), TileType::Tile(t));
            self.set_type((w - 1, y), TileType::Tile(t));
            proof {
                self@.lemma_push_wf(adj, (first_x, y));
            }
            self.damage.push((first_x, y));
            proof {
                assert(self@.fields =~~= g.fields);
                self@.lemma_push_wf(adj, (last_x, y));
            }
            self.damage.push((last_x, y));
            proof {
                let goal = g.with_sides(t, y + 1);
                assert(self@.fields =~~= g.fields);
                assert(self@.types =~~= goal.types);
                assert(self@.damage =~= goal.damage);
            }
            y += 1;
        }
        proof {
            assert(self@.types =~~= g.with_levels(t, 0).types);
            assert(self@.damage =~= g.with_levels(t, 0).damage);
        }
        let mut x: usize = 0;
        while x < w
            invariant
                x <= w,
                w == g.width,
                h == g.height,
                g.wf(adj),
                adj.wf(),
                t == adj.forbidden,
                first_y == inner_first(h as int),
                last_y == inner_last(h as int),
                self.wf(),
                self.same_sample(old(self)),
                self.adjacency() == adj,
                self@ == g.with_levels(t, x as int),
            decreases w - x,
        {
            let ghost before = self@;
            proof {
                before.lemma_with_type_wf(adj, (x, 0), TileType::Tile(t));
                before.with_type((x, 0), TileType::Tile(t)).lemma_with_type_wf(
                    adj,
                    (x, (h - 1) as usize),
                    TileType::Tile(t),
                );
            }
            self.set_type((x, 0), TileType::Tile(t));
            self.set_type((x, h - 1), TileType::Tile(t));
            proof {
                self@.lemma_push_wf(adj, (x, first_y));
            }
            self.damage.push((x, first_y));
            proof {
                assert(self@.fields =~~= g.fields);
                self@.lemma_push_wf(adj, (x, last_y));
            }
            self.damage.push((x, last_y));
            proof {
                let goal = g.with_levels(t, x + 1);
                assert(self@.fields =~~= g.fields);
                assert(self@.types =~~= goal.types);
                assert(self@.damage =~= goal.damage);
            }
            x += 1;
        }
        proof {
            let goal = g.edged(t);
            assert(self@.types =~~= goal.types);
            assert(self@.damage =~= goal.damage);
        }
    }
}

/// Copies a list of positions.
pub fn copy_positions(list: &Vec<Pos>) -> (copy: Vec<Pos>)
    ensures
        copy@ == list@,
{
    let mut copy: Vec<Pos> = Vec::with_capacity(list.len());
    let mut i: usize = 0;
    while i < list.len()
        invariant
            i <= list.len(),
            copy.len() == i,
            forall|k: int| 0 <= k < i ==> copy[k] == list[k],
        decreases list.len() - i,
    {
        copy.push(list[i]);
        i += 1;
    }
    assert(copy@ =~= list@);
    copy
}

/// Whether `p` stands in the list.
pub fn contains_pos(list: &Vec<Pos>, p: Pos) -> (found: bool)
    ensures
        found == list@.contains(p),
{
    let mut i: usize = 0;
    while i < list.len()
        invariant
            i <= list.len(),
            forall|k: int| 0 <= k < i ==> list[k] != p,
        decreases list.len() - i,
    {
        if list[i].0 == p.0 && list[i].1 == p.1 {
            return true;
        }
        i += 1;
    }
    false
}

} // verus!

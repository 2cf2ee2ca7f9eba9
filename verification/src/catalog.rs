//! The tile catalogue: the distinct tiles of a sample, numbered in the order
//! in which a row-by-row scan first meets them.

use vstd::prelude::*;
use crate::pixel::{Rgba, TILESIZE, get_tile_from_image, same_tile, tile_at, tile_in_bounds};

verus! {

/// Identifier of a tile: its index in the catalogue.
pub type TileId = usize;

/// Whether the pixel rows form a rectangle that is cut exactly into at least
/// one tile in each dimension.
pub open spec fn well_tiled(px: &Vec<Vec<Rgba>>) -> bool {
    &&& px.len() > 0
    &&& px.len() % TILESIZE == 0
    &&& px[0].len() > 0
    &&& px[0].len() % TILESIZE == 0
    &&& forall|r: int| 0 <= r < px.len() ==> (#[trigger] px[r]).len() == px[0].len()
}

/// Number of tile columns of a well-tiled sample.
pub open spec fn tile_cols(px: &Vec<Vec<Rgba>>) -> int {
    px[0].len() as int / TILESIZE as int
}

/// Number of tile rows of a well-tiled sample.
pub open spec fn tile_rows(px: &Vec<Vec<Rgba>>) -> int {
    px.len() as int / TILESIZE as int
}

/// Checks whether the sample is well tiled and, if so, returns its size in
/// tiles as `(columns, rows)`.
pub fn sample_size(px: &Vec<Vec<Rgba>>) -> (size: Option<(usize, usize)>)
    ensures
        size.is_some() == well_tiled(px),
        size matches Some((cols, rows)) ==> cols == tile_cols(px) && rows == tile_rows(px) && cols
            > 0 && rows > 0,
{
    if px.len() == 0 || px.len() % TILESIZE != 0 {
        return None;
    }
    let width: usize = px[0].len();
    if width == 0 || width % TILESIZE != 0 {
        return None;
    }
    let mut r: usize = 0;
    while r < px.len()
        invariant
            r <= px.len(),
            width == px[0].len(),
            forall|k: int| 0 <= k < r ==> (#[trigger] px[k]).len() == width,
        decreases px.len() - r,
    {
        if px[r].len() != width {
            return None;
        }
        r += 1;
    }
    Some((width / TILESIZE, px.len() / TILESIZE))
}

/// Whether `id` stands somewhere in the rows.
pub open spec fn in_rows(rows: Seq<Vec<TileId>>, id: TileId) -> bool {
    exists|y: int, x: int| 0 <= y < rows.len() && 0 <= x < rows[y].len() && #[trigger] rows[y][x] == id
}

/// Whether `id` stands in the row before column `x_end`.
pub open spec fn in_row_before(row: Seq<TileId>, x_end: int, id: TileId) -> bool {
    exists|x: int| 0 <= x < x_end && x < row.len() && #[trigger] row[x] == id
}

/// Whether `id` stands in a cell that a row-by-row scan meets before `(x, y)`.
pub open spec fn seen_before(grid: Seq<Vec<TileId>>, x: int, y: int, id: TileId) -> bool {
    in_rows(grid.take(y), id) || in_row_before(grid[y]@, x, id)
}

/// The result of cutting a sample into tiles: a grid of tile identifiers and
/// the pixels of each identifier.
pub struct TileCatalog {
    /// The identifier of each tile of the sample, row by row.
    pub grid: Vec<Vec<TileId>>,
    /// The pixels of each tile, by identifier.
    pub tiles: Vec<Vec<Rgba>>,
}

impl TileCatalog {
    /// The identifiers of the sample's tiles, row by row, as a mathematical
    /// value.
    pub open spec fn ids(&self) -> Seq<Seq<TileId>> {
        crate::sample::grid_view(&self.grid)
    }

    /// The pixels of each tile, by identifier, as a mathematical value.
    pub open spec fn pixels(&self) -> Seq<Seq<Rgba>> {
        Seq::new(self.tiles.len() as nat, |i: int| self.tiles[i]@)
    }

    /// Number of distinct tiles.
    pub open spec fn count(&self) -> nat {
        self.tiles.len() as nat
    }

    /// Whether this catalogue is the one that `px` gives: the grid has the
    /// sample's size in tiles, each cell names the tile that stands there, no
    /// two identifiers hold the same pixels, and identifiers are handed out in
    /// the order in which the tiles are first met.
    pub open spec fn describes(&self, px: &Vec<Vec<Rgba>>) -> bool {
        &&& self.grid.len() == tile_rows(px)
        &&& forall|y: int| 0 <= y < self.grid.len() ==> (#[trigger] self.grid[y]).len() == tile_cols(px)
        &&& forall|y: int, x: int|
            0 <= y < self.grid.len() && 0 <= x < tile_cols(px) ==> {
                &&& (#[trigger] self.grid[y][x]) < self.tiles.len()
                &&& self.tiles[self.grid[y][x] as int]@ == tile_at(px, x, y)
            }
        &&& forall|i: int, j: int|
            0 <= i < j < self.tiles.len() ==> (#[trigger] self.tiles[i])@ != (#[trigger] self.tiles[j])@
        &&& forall|id: TileId| id < self.tiles.len() ==> in_rows(self.grid@, id)
        &&& forall|y: int, x: int, id: TileId|
            0 <= y < self.grid.len() && 0 <= x < tile_cols(px) && id < (#[trigger] self.grid[y][x])
                ==> #[trigger] seen_before(self.grid@, x, y, id)
    }

    /// Looks for the first identifier whose pixels are those of `tile`.
    pub fn find(tiles: &Vec<Vec<Rgba>>, tile: &Vec<Rgba>) -> (found: Option<TileId>)
        ensures
            found matches Some(id) ==> id < tiles.len() && tiles[id as int]@ == tile@ && forall|i: int|
                0 <= i < id ==> (#[trigger] tiles[i])@ != tile@,
            found is None ==> forall|i: int| 0 <= i < tiles.len() ==> (#[trigger] tiles[i])@ != tile@,
    {
        let mut i: usize = 0;
        while i < tiles.len()
            invariant
                i <= tiles.len(),
                forall|k: int| 0 <= k < i ==> (#[trigger] tiles[k])@ != tile@,
            decreases tiles.len() - i,
        {
            if same_tile(&tiles[i], tile) {
                return Some(i);
            }
            i += 1;
        }
        None
    }

    /// Cuts the sample into tiles and numbers the distinct ones.
    pub fn extract(px: &Vec<Vec<Rgba>>) -> (cat: TileCatalog)
        requires
            well_tiled(px),
        ensures
            cat.describes(px),
            0 < cat.count() <= tile_rows(px) * tile_cols(px),
            cat.grid[0][0] == 0,
    {
        let rows: usize = px.len() / TILESIZE;
        let cols: usize = px[0].len() / TILESIZE;
        let mut tiles: Vec<Vec<Rgba>> = Vec::new();
        let mut grid: Vec<Vec<TileId>> = Vec::new();
        let mut y: usize = 0;
        while y < rows
            invariant
                y <= rows,
                well_tiled(px),
                rows == tile_rows(px),
                cols == tile_cols(px),
                cols > 0,
                grid.len() == y,
                forall|r: int| 0 <= r < y ==> (#[trigger] grid[r]).len() == cols,
                forall|r: int, c: int|
                    0 <= r < y && 0 <= c < cols ==> {
                        &&& (#[trigger] grid[r][c]) < tiles.len()
                        &&& tiles[grid[r][c] as int]@ == tile_at(px, c, r)
                    },
                forall|i: int, j: int|
                    0 <= i < j < tiles.len() ==> (#[trigger] tiles[i])@ != (#[trigger] tiles[j])@,
                forall|id: TileId| id < tiles.len() ==> in_rows(grid@, id),
                forall|r: int, c: int, id: TileId|
                    0 <= r < y && 0 <= c < cols && id < (#[trigger] grid[r][c]) ==> #[trigger] seen_before(
                        grid@,
                        c,
                        r,
                        id,
                    ),
                y > 0 ==> tiles.len() > 0 && grid[0][0] == 0,
                tiles.len() <= y * cols,
            decreases rows - y,
        {
            let mut row: Vec<TileId> = Vec::new();
            let mut x: usize = 0;
            while x < cols
                invariant
                    x <= cols,
                    y < rows,
                    well_tiled(px),
                    rows == tile_rows(px),
                    cols == tile_cols(px),
                    grid.len() == y,
                    row.len() == x,
                    forall|r: int| 0 <= r < y ==> (#[trigger] grid[r]).len() == cols,
                    forall|r: int, c: int|
                        0 <= r < y && 0 <= c < cols ==> {
                            &&& (#[trigger] grid[r][c]) < tiles.len()
                            &&& tiles[grid[r][c] as int]@ == tile_at(px, c, r)
                        },
                    forall|c: int|
                        0 <= c < x ==> {
                            &&& (#[trigger] row[c]) < tiles.len()
                            &&& tiles[row[c] as int]@ == tile_at(px, c, y as int)
                        },
                    forall|i: int, j: int|
                        0 <= i < j < tiles.len() ==> (#[trigger] tiles[i])@ != (#[trigger] tiles[j])@,
                    forall|id: TileId|
                        id < tiles.len() ==> in_rows(grid@, id) || in_row_before(row@, x as int, id),
                    forall|r: int, c: int, id: TileId|
                        0 <= r < y && 0 <= c < cols && id < (#[trigger] grid[r][c])
                            ==> #[trigger] seen_before(grid@, c, r, id),
                    forall|c: int, id: TileId|
                        0 <= c < x && id < (#[trigger] row[c]) ==> in_rows(grid@, id) || #[trigger] in_row_before(
                            row@,
                            c,
                            id,
                        ),
                    y > 0 ==> tiles.len() > 0 && grid[0][0] == 0,
                    y == 0 && x > 0 ==> tiles.len() > 0 && row[0] == 0,
                    tiles.len() <= y * cols + x,
                decreases cols - x,
            {
                proof {
                    lemma_tile_fits(px, x as int, y as int);
                }
                let tile: Vec<Rgba> = get_tile_from_image(px, (x, y));
                let ghost old_row = row@;
                let ghost old_tiles = tiles@;
                let id: TileId = match Self::find(&tiles, &tile) {
                    Some(id) => id,
                    None => {
                        tiles.push(tile);
                        tiles.len() - 1
                    },
                };
                row.push(id);
                proof {
                    assert(forall|i: int| 0 <= i < old_tiles.len() ==> tiles[i] == old_tiles[i]);
                    assert(row[x as int] == id);
                    assert forall|c: int, k: TileId|
                        0 <= c < x + 1 && k < (#[trigger] row[c]) implies in_rows(grid@, k)
                        || #[trigger] in_row_before(row@, c, k) by {
                        if c < x {
                            assert(row[c] == old_row[c]);
                            if !in_rows(grid@, k) {
                                assert(in_row_before(old_row, c, k));
                                let w = choose|w: int| 0 <= w < c && w < old_row.len() && old_row[w] == k;
                                assert(row[w] == k);
                            }
                        } else {
                            if !in_rows(grid@, k) {
                                assert(in_row_before(old_row, x as int, k));
                                let w = choose|w: int| 0 <= w < x && w < old_row.len() && old_row[w] == k;
                                assert(row[w] == k);
                            }
                        }
                    }
                    assert forall|k: TileId| k < tiles.len() implies in_rows(grid@, k) || in_row_before(
                        row@,
                        x + 1,
                        k,
                    ) by {
                        if k < old_tiles.len() {
                            if !in_rows(grid@, k) {
                                let w = choose|w: int| 0 <= w < x && w < old_row.len() && old_row[w] == k;
                                assert(row[w] == k);
                            }
                        } else {
                            assert(row[x as int] == k);
                        }
                    }
                    if y == 0 && x == 0 {
                        assert(!in_rows(grid@, 0));
                        assert(!in_row_before(old_row, 0, 0));
                    }
                }
                x += 1;
            }
            let ghost old_grid = grid@;
            grid.push(row);
            proof {
                assert(y * cols + cols == (y + 1) * cols) by (nonlinear_arith);
                assert(forall|r: int| 0 <= r < y ==> grid[r] == old_grid[r]);
                assert(grid[y as int] == row);
                assert(grid@.take(y as int) =~= old_grid);
                assert forall|k: TileId| k < tiles.len() implies in_rows(grid@, k) by {
                    if in_rows(old_grid, k) {
                        let (r, c) = choose|r: int, c: int|
                            0 <= r < old_grid.len() && 0 <= c < old_grid[r].len() && #[trigger] old_grid[r][c]
                                == k;
                        assert(grid[r][c] == k);
                    } else {
                        let w = choose|w: int| 0 <= w < cols && w < row.len() && row[w] == k;
                        assert(grid[y as int][w] == k);
                    }
                }
                assert forall|r: int, c: int, k: TileId|
                    0 <= r < y + 1 && 0 <= c < cols && k < (#[trigger] grid[r][c]) implies #[trigger] seen_before(
                    grid@,
                    c,
                    r,
                    k,
                ) by {
                    if r < y {
                        assert(seen_before(old_grid, c, r, k));
                        assert(grid@.take(r) =~= old_grid.take(r));
                    } else {
                        assert(row[c] == grid[r][c]);
                    }
                }
            }
            y += 1;
        }
        proof {
            assert(y * cols == tile_rows(px) * tile_cols(px));
        }
        TileCatalog { grid, tiles }
    }
}

/// In a well-tiled sample every tile of the tile grid lies within the pixels.
pub proof fn lemma_tile_fits(px: &Vec<Vec<Rgba>>, x: int, y: int)
    requires
        well_tiled(px),
        0 <= x < tile_cols(px),
        0 <= y < tile_rows(px),
    ensures
        tile_in_bounds(px, x, y),
{
}

/// Two catalogues of the same sample name the tile of every cell alike.
pub proof fn lemma_same_id(px: &Vec<Vec<Rgba>>, a: &TileCatalog, b: &TileCatalog, x: int, y: int)
    requires
        well_tiled(px),
        a.describes(px),
        b.describes(px),
        0 <= y < tile_rows(px),
        0 <= x < tile_cols(px),
    ensures
        a.grid[y][x] == b.grid[y][x],
    decreases y, x, 1int,
{
    lemma_id_not_larger(px, a, b, x, y);
    lemma_id_not_larger(px, b, a, x, y);
}

/// Of two catalogues of the same sample, the first gives no cell a larger
/// identifier than the second: a smaller identifier has been met before, in
/// both catalogues alike, so the first would hold the cell's pixels twice.
proof fn lemma_id_not_larger(px: &Vec<Vec<Rgba>>, first: &TileCatalog, second: &TileCatalog, x: int, y: int)
    requires
        well_tiled(px),
        first.describes(px),
        second.describes(px),
        0 <= y < tile_rows(px),
        0 <= x < tile_cols(px),
    ensures
        first.grid[y][x] <= second.grid[y][x],
    decreases y, x, 0int,
{
    let id = second.grid[y][x];
    let other = first.grid[y][x];
    if id < other {
        assert(seen_before(first.grid@, x, y, id));
        if in_rows(first.grid@.take(y), id) {
            let rows = first.grid@.take(y);
            let (y2, x2) = choose|y2: int, x2: int|
                0 <= y2 < rows.len() && 0 <= x2 < rows[y2].len() && #[trigger] rows[y2][x2] == id;
            assert(rows[y2] == first.grid[y2]);
            assert(first.grid[y2][x2] == id);
            lemma_same_id(px, first, second, x2, y2);
            assert(second.grid[y2][x2] == id);
            assert(first.tiles[id as int]@ == tile_at(px, x2, y2));
            assert(second.tiles[id as int]@ == tile_at(px, x2, y2));
            assert(second.tiles[id as int]@ == tile_at(px, x, y));
            assert(first.tiles[other as int]@ == tile_at(px, x, y));
            assert(first.tiles[id as int]@ == first.tiles[other as int]@);
        } else {
            let row = first.grid[y]@;
            let x2 = choose|x2: int| 0 <= x2 < x && x2 < row.len() && #[trigger] row[x2] == id;
            assert(first.grid[y][x2] == id);
            lemma_same_id(px, first, second, x2, y);
            assert(second.grid[y][x2] == id);
            assert(first.tiles[id as int]@ == tile_at(px, x2, y));
            assert(second.tiles[id as int]@ == tile_at(px, x2, y));
            assert(second.tiles[id as int]@ == tile_at(px, x, y));
            assert(first.tiles[other as int]@ == tile_at(px, x, y));
            assert(first.tiles[id as int]@ == first.tiles[other as int]@);
        }
    }
}

/// Every tile of a catalogue stands somewhere in the sample.
pub proof fn lemma_tile_occurs(px: &Vec<Vec<Rgba>>, a: &TileCatalog, id: TileId) -> (at: (int, int))
    requires
        well_tiled(px),
        a.describes(px),
        id < a.count(),
    ensures
        0 <= at.1 < tile_rows(px),
        0 <= at.0 < tile_cols(px),
        a.grid[at.1][at.0] == id,
{
    assert(in_rows(a.grid@, id));
    let (y, x) = choose|y: int, x: int|
        0 <= y < a.grid@.len() && 0 <= x < a.grid@[y].len() && #[trigger] a.grid@[y][x] == id;
    (x, y)
}

/// A sample has one catalogue: two catalogues that describe the same sample
/// hold the same identifiers and the same tiles.
pub proof fn lemma_catalog_unique(px: &Vec<Vec<Rgba>>, a: &TileCatalog, b: &TileCatalog)
    requires
        well_tiled(px),
        a.describes(px),
        b.describes(px),
    ensures
        a.ids() == b.ids(),
        a.pixels() == b.pixels(),
{
    assert forall|y: int, x: int| 0 <= y < tile_rows(px) && 0 <= x < tile_cols(px) implies a.grid[y][x]
        == b.grid[y][x] by {
        lemma_same_id(px, a, b, x, y);
    }
    assert(a.ids() =~~= b.ids());
    if a.count() < b.count() {
        let id = a.count() as usize;
        let at = lemma_tile_occurs(px, b, id);
        lemma_same_id(px, a, b, at.0, at.1);
        assert(a.grid[at.1][at.0] < a.tiles.len());
    }
    if b.count() < a.count() {
        let id = b.count() as usize;
        let at = lemma_tile_occurs(px, a, id);
        lemma_same_id(px, a, b, at.0, at.1);
        assert(b.grid[at.1][at.0] < b.tiles.len());
    }
    assert forall|i: int| 0 <= i < a.tiles.len() implies (#[trigger] a.tiles[i])@ == b.tiles[i]@ by {
        let at = lemma_tile_occurs(px, a, i as usize);
        lemma_same_id(px, a, b, at.0, at.1);
        assert(a.tiles[a.grid[at.1][at.0] as int]@ == tile_at(px, at.0, at.1));
        assert(b.tiles[b.grid[at.1][at.0] as int]@ == tile_at(px, at.0, at.1));
    }
    assert(a.pixels() =~~= b.pixels());
}

} // verus!

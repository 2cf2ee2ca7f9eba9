//! Pixels and the square blocks of pixels that serve as tiles.

use vstd::prelude::*;

verus! {

/// Side length of a tile, in pixels.
pub const TILESIZE: usize = 16;

/// Number of pixels in one tile.
pub const TILE_PIXELS: usize = 256;

/// An 8-bit RGBA pixel.
#[derive(Clone, Copy, Debug, PartialEq, Eq, Structural, Hash)]
pub struct Rgba {
    pub r: u8,
    pub g: u8,
    pub b: u8,
    pub a: u8,
}

impl Rgba {
    /// Builds a pixel from its four channels.
    pub fn new(r: u8, g: u8, b: u8, a: u8) -> (px: Rgba)
        ensures
            px == (Rgba { r, g, b, a }),
    {
        Rgba { r, g, b, a }
    }
}

/// Whether the pixel rows `a` hold the whole tile whose top-left pixel is at
/// column `x * TILESIZE`, row `y * TILESIZE`.
pub open spec fn tile_in_bounds(a: &Vec<Vec<Rgba>>, x: int, y: int) -> bool {
    &&& 0 <= x
    &&& 0 <= y
    &&& (y + 1) * TILESIZE <= a.len()
    &&& forall|iy: int|
        0 <= iy < TILESIZE ==> (x + 1) * TILESIZE <= (#[trigger] a[y * TILESIZE + iy]).len()
}

/// The pixels of the tile at tile coordinates `(x, y)`, row by row.
pub open spec fn tile_at(a: &Vec<Vec<Rgba>>, x: int, y: int) -> Seq<Rgba> {
    Seq::new(
        TILE_PIXELS as nat,
        |i: int| a[y * TILESIZE + i / (TILESIZE as int)][x * TILESIZE + i % (TILESIZE as int)],
    )
}

/// Copies the tile at tile coordinates `pos = (x, y)` out of the pixel rows.
pub fn get_tile_from_image(a: &Vec<Vec<Rgba>>, pos: (usize, usize)) -> (ret: Vec<Rgba>)
    requires
        tile_in_bounds(a, pos.0 as int, pos.1 as int),
    ensures
        ret@ == tile_at(a, pos.0 as int, pos.1 as int),
{
    let x: usize = pos.0;
    let y: usize = pos.1;
    let mut ret: Vec<Rgba> = Vec::with_capacity(TILE_PIXELS);
    let mut iy: usize = 0;
    while iy < TILESIZE
        invariant
            iy <= TILESIZE,
            tile_in_bounds(a, x as int, y as int),
            ret.len() == iy * TILESIZE,
            forall|i: int|
                0 <= i < ret.len() ==> ret[i] == #[trigger] tile_at(a, x as int, y as int)[i],
        decreases TILESIZE - iy,
    {
        let row: &Vec<Rgba> = &a[y * TILESIZE + iy];
        assert(row == a[y * TILESIZE + iy]);
        let mut ix: usize = 0;
        while ix < TILESIZE
            invariant
                ix <= TILESIZE,
                iy < TILESIZE,
                tile_in_bounds(a, x as int, y as int),
                row == a[y * TILESIZE + iy],
                (x + 1) * TILESIZE <= row.len(),
                ret.len() == iy * TILESIZE + ix,
                forall|i: int|
                    0 <= i < ret.len() ==> ret[i] == #[trigger] tile_at(a, x as int, y as int)[i],
            decreases TILESIZE - ix,
        {
            ret.push(row[x * TILESIZE + ix]);
            ix += 1;
        }
        iy += 1;
    }
    assert(ret@ =~= tile_at(a, x as int, y as int));
    ret
}

/// Whether two tiles hold the same pixels.
pub fn same_tile(a: &Vec<Rgba>, b: &Vec<Rgba>) -> (same: bool)
    ensures
        same == (a@ == b@),
{
    if a.len() != b.len() {
        return false;
    }
    let mut i: usize = 0;
    while i < a.len()
        invariant
            i <= a.len(),
            a.len() == b.len(),
            forall|k: int| 0 <= k < i ==> a[k] == b[k],
        decreases a.len() - i,
    {
        if a[i] != b[i] {
            return false;
        }
        i += 1;
    }
    assert(a@ =~= b@);
    true
}

} // verus!

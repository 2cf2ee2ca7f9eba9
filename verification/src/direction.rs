//! The four grid directions and wrap-around neighbourhood.

use vstd::prelude::*;

verus! {

/// Number of directions: right, down, left, up, in this order.
pub const DIRECTIONS: usize = 4;

/// The direction that points the other way.
pub open spec fn opposite(dir: int) -> int {
    (dir + 2) % 4
}

/// Index of the direction opposite to `dir_index`.
pub fn get_opposite_direction(dir_index: usize) -> (opp: usize)
    ensures
        opp == opposite(dir_index as int),
        opp < DIRECTIONS,
{
    (dir_index % 4 + 2) % 4
}

/// The column reached from column `x` by one step in direction `dir` on a
/// ring of `width` columns.
pub open spec fn step_x(x: int, dir: int, width: int) -> int {
    if dir == 0 {
        if x + 1 == width { 0 } else { x + 1 }
    } else if dir == 2 {
        if x == 0 { width - 1 } else { x - 1 }
    } else {
        x
    }
}

/// The row reached from row `y` by one step in direction `dir` on a ring of
/// `height` rows.
pub open spec fn step_y(y: int, dir: int, height: int) -> int {
    if dir == 1 {
        if y + 1 == height { 0 } else { y + 1 }
    } else if dir == 3 {
        if y == 0 { height - 1 } else { y - 1 }
    } else {
        y
    }
}

/// The neighbour of `pos` in direction `dir` on a `width` by `height` torus.
pub open spec fn neighbor_of(pos: (usize, usize), dir: int, width: int, height: int) -> (usize, usize) {
    (step_x(pos.0 as int, dir, width) as usize, step_y(pos.1 as int, dir, height) as usize)
}

/// Computes the neighbour of `pos` in direction `dir`, wrapping at the edges.
pub fn neighbor(pos: (usize, usize), dir: usize, width: usize, height: usize) -> (nb: (usize, usize))
    requires
        pos.0 < width,
        pos.1 < height,
        dir < DIRECTIONS,
    ensures
        nb == neighbor_of(pos, dir as int, width as int, height as int),
        nb.0 < width,
        nb.1 < height,
{
    let x: usize = pos.0;
    let y: usize = pos.1;
    if dir == 0 {
        (if x + 1 == width { 0 } else { x + 1 }, y)
    } else if dir == 1 {
        (x, if y + 1 == height { 0 } else { y + 1 })
    } else if dir == 2 {
        (if x == 0 { width - 1 } else { x - 1 }, y)
    } else {
        (x, if y == 0 { height - 1 } else { y - 1 })
    }
}

/// On a ring, a step in a direction followed by a step in the opposite
/// direction returns to the start.
pub proof fn lemma_step_there_and_back(x: int, y: int, dir: int, width: int, height: int)
    requires
        0 <= dir < 4,
        0 <= x < width,
        0 <= y < height,
    ensures
        0 <= step_x(x, dir, width) < width,
        0 <= step_y(y, dir, height) < height,
        step_x(step_x(x, dir, width), opposite(dir), width) == x,
        step_y(step_y(y, dir, height), opposite(dir), height) == y,
{
}

/// Stepping in a direction and then in the opposite one returns to the start.
pub proof fn lemma_step_back(pos: (usize, usize), dir: int, width: int, height: int)
    requires
        0 <= dir < 4,
        pos.0 < width <= usize::MAX,
        pos.1 < height <= usize::MAX,
    ensures
        neighbor_of(neighbor_of(pos, dir, width, height), opposite(dir), width, height) == pos,
{
}

} // verus!

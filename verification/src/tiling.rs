//! How an image larger than a layer is cut into blocks, row by row.

use crate::geometry::Rect;
use crate::SIZE;
use vstd::arithmetic::div_mod::{
    lemma_fundamental_div_mod, lemma_fundamental_div_mod_converse, lemma_mod_pos_bound,
    lemma_multiply_divide_lt,
};
use vstd::prelude::*;

verus! {

/// The number of blocks of at most a layer's edge that cover `length`.
pub open spec fn blocks(length: u32) -> int {
    (length + SIZE - 1) / (SIZE as int)
}

/// The number of tiles that an image of `width` by `height` is cut into.
pub open spec fn tile_count(width: u32, height: u32) -> int {
    blocks(width) * blocks(height)
}

/// The piece of `length` that block number `n` covers, as its start and
/// its extent: a whole layer's edge, or what is left of `length`.
pub open spec fn span(length: u32, n: int) -> (int, int) {
    let start = n * SIZE;
    (start, if length - start < SIZE { length - start } else { SIZE as int })
}

/// The tile in row `row` and column `col` of an image of `width` by
/// `height`, in the image's coordinates.
pub open spec fn tile_at(width: u32, height: u32, row: int, col: int) -> Rect {
    Rect {
        x: span(width, col).0 as u32,
        y: span(height, row).0 as u32,
        width: span(width, col).1 as u32,
        height: span(height, row).1 as u32,
    }
}

/// The `k`-th tile of an image of `width` by `height`, counted row by row.
pub open spec fn tile(width: u32, height: u32, k: int) -> Rect {
    tile_at(width, height, k / blocks(width), k % blocks(width))
}

/// A tile's row and column from its number, and back.
pub proof fn lemma_tile_number(width: u32, height: u32, row: int, col: int)
    requires
        0 <= row < blocks(height),
        0 <= col < blocks(width),
    ensures
        0 <= row * blocks(width) + col < tile_count(width, height),
        (row * blocks(width) + col) / blocks(width) == row,
        (row * blocks(width) + col) % blocks(width) == col,
        tile(width, height, row * blocks(width) + col) == tile_at(width, height, row, col),
{
    let cols = blocks(width);
    let rows = blocks(height);
    let k = row * cols + col;
    lemma_fundamental_div_mod_converse(k, cols, row, col);
    assert(0 <= row * cols && row * cols + cols <= cols * rows) by (nonlinear_arith)
        requires
            0 <= row < rows,
            0 < cols,
    ;
}

/// The row and column of a tile number lie in the grid.
pub proof fn lemma_tile_grid(width: u32, height: u32, k: int)
    requires
        0 <= k < tile_count(width, height),
    ensures
        0 <= k / blocks(width) < blocks(height),
        0 <= k % blocks(width) < blocks(width),
        k == (k / blocks(width)) * blocks(width) + k % blocks(width),
{
    let cols = blocks(width);
    let rows = blocks(height);
    assert(cols > 0) by {
        if cols <= 0 {
            assert(cols * rows <= 0) by (nonlinear_arith)
                requires
                    cols <= 0,
                    rows >= 0,
            ;
        }
    }
    lemma_fundamental_div_mod(k, cols);
    lemma_mod_pos_bound(k, cols);
    lemma_multiply_divide_lt(k, cols, rows);
    vstd::arithmetic::div_mod::lemma_div_pos_is_pos(k, cols);
    assert(cols * (k / cols) == (k / cols) * cols) by (nonlinear_arith);
}

/// Every tile covers a cell, is no larger than a layer, and lies inside
/// the image.
pub proof fn lemma_tile_inside(width: u32, height: u32, k: int)
    requires
        0 <= k < tile_count(width, height),
    ensures
        ({
            let t = tile(width, height, k);
            &&& 0 < t.width <= SIZE
            &&& 0 < t.height <= SIZE
            &&& t.x + t.width <= width
            &&& t.y + t.height <= height
            &&& t.x == (k % blocks(width)) * SIZE
            &&& t.y == (k / blocks(width)) * SIZE
        }),
{
    lemma_tile_grid(width, height, k);
}

/// The tiles cover the image exactly once: each cell of the image lies in
/// the tile of its row and column of blocks, and in no other tile.
pub proof fn lemma_tiles_cover_once(width: u32, height: u32, px: int, py: int)
    requires
        0 <= px < width,
        0 <= py < height,
    ensures
        ({
            let k = (py / (SIZE as int)) * blocks(width) + px / (SIZE as int);
            &&& 0 <= k < tile_count(width, height)
            &&& tile(width, height, k).contains(px, py)
            &&& forall|j: int|
                0 <= j < tile_count(width, height) && (#[trigger] tile(width, height, j)).contains(
                    px,
                    py,
                ) ==> j == k
        }),
{
    let row = py / (SIZE as int);
    let col = px / (SIZE as int);
    let k = row * blocks(width) + col;
    lemma_tile_number(width, height, row, col);
    assert forall|j: int|
        0 <= j < tile_count(width, height) && (#[trigger] tile(width, height, j)).contains(
            px,
            py,
        ) implies j == k by {
        lemma_tile_grid(width, height, j);
        lemma_tile_inside(width, height, j);
        let jr = j / blocks(width);
        let jc = j % blocks(width);
        assert(jc == col);
        assert(jr == row);
    }
}

} // verus!

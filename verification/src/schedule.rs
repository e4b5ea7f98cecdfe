//! Per-frame partition of the framebuffer among the cores: a contiguous band
//! of rows for each core, or a list of tiles handed out one by one.

use vstd::prelude::*;

verus! {

/// The rows `[start_y, end_y)` of the frame.
#[derive(Clone, Copy, Debug, PartialEq, Eq, Structural)]
pub struct RowBand {
    pub start_y: usize,
    pub end_y: usize,
}

/// First row of the band of `core_id`.
pub open spec fn band_start(core_id: int, num_cores: int, height: int) -> int {
    core_id * (height / num_cores)
}

/// Row after the last of the band of `core_id`: the last core takes the rows
/// that the division leaves over.
pub open spec fn band_end(core_id: int, num_cores: int, height: int) -> int {
    if core_id == num_cores - 1 {
        height
    } else {
        (core_id + 1) * (height / num_cores)
    }
}

/// Row `y` belongs to the band of `core_id`.
pub open spec fn band_holds(core_id: int, num_cores: int, height: int, y: int) -> bool {
    band_start(core_id, num_cores, height) <= y < band_end(core_id, num_cores, height)
}

/// The core that renders row `y`.
pub open spec fn band_owner(num_cores: int, height: int, y: int) -> int {
    let rows = height / num_cores;
    if rows == 0 || y / rows >= num_cores - 1 {
        num_cores - 1
    } else {
        y / rows
    }
}

proof fn lemma_band_bounds(core_id: int, num_cores: int, height: int)
    requires
        0 <= core_id < num_cores,
        0 <= height,
    ensures
        0 <= band_start(core_id, num_cores, height) <= band_end(core_id, num_cores, height)
            <= height,
        (core_id + 1) * (height / num_cores) <= height,
        band_start(core_id, num_cores, height) + height / num_cores == (core_id + 1) * (height
            / num_cores),
{
    let rows = height / num_cores;
    assert(0 <= rows && rows * num_cores <= height) by (nonlinear_arith)
        requires
            rows == height / num_cores,
            num_cores > 0,
            height >= 0,
    ;
    assert(0 <= core_id * rows && core_id * rows + rows == (core_id + 1) * rows && (core_id + 1)
        * rows <= rows * num_cores) by (nonlinear_arith)
        requires
            0 <= core_id < num_cores,
            0 <= rows,
    ;
}

/// The rows that core `core_id` of `num_cores` renders of a frame of `height` rows.
pub fn row_band(core_id: usize, num_cores: usize, height: usize) -> (band: RowBand)
    requires
        core_id < num_cores,
    ensures
        band.start_y == band_start(core_id as int, num_cores as int, height as int),
        band.end_y == band_end(core_id as int, num_cores as int, height as int),
        band.start_y <= band.end_y <= height,
{
    proof {
        lemma_band_bounds(core_id as int, num_cores as int, height as int);
    }
    let chunk_size: usize = height / num_cores;
    let start_y: usize = core_id * chunk_size;
    let end_y: usize = if core_id == num_cores - 1 {
        height
    } else {
        start_y + chunk_size
    };
    RowBand { start_y, end_y }
}

/// Every row of the frame lies in the band of exactly one core, and no band
/// reaches outside the frame.
pub proof fn lemma_bands_partition(num_cores: int, height: int, y: int)
    requires
        num_cores >= 1,
        height >= 0,
    ensures
        0 <= y < height ==> 0 <= band_owner(num_cores, height, y) < num_cores && band_holds(
            band_owner(num_cores, height, y),
            num_cores,
            height,
            y,
        ),
        forall|c: int|
            0 <= c < num_cores && #[trigger] band_holds(c, num_cores, height, y) ==> 0 <= y
                < height && c == band_owner(num_cores, height, y),
{
    let rows = height / num_cores;
    let last = num_cores - 1;
    assert(0 <= rows && rows * num_cores <= height) by (nonlinear_arith)
        requires
            rows == height / num_cores,
            num_cores > 0,
            height >= 0,
    ;
    assert(last * rows <= height && last * rows >= 0) by (nonlinear_arith)
        requires
            last == num_cores - 1,
            num_cores >= 1,
            rows >= 0,
            rows * num_cores <= height,
    ;
    if 0 <= y < height {
        let owner = band_owner(num_cores, height, y);
        if rows > 0 {
            let q = y / rows;
            assert(q * rows <= y < (q + 1) * rows && q >= 0) by (nonlinear_arith)
                requires
                    q == y / rows,
                    rows > 0,
                    y >= 0,
            ;
            if q >= last {
                assert(last * rows <= q * rows) by (nonlinear_arith)
                    requires
                        last <= q,
                        rows > 0,
                ;
            }
        } else {
            assert(last * rows == 0) by (nonlinear_arith)
                requires
                    rows == 0,
            ;
        }
        assert(band_holds(owner, num_cores, height, y));
    }
    assert forall|c: int|
        0 <= c < num_cores && #[trigger] band_holds(c, num_cores, height, y) implies 0 <= y
        < height && c == band_owner(num_cores, height, y) by {
        lemma_band_bounds(c, num_cores, height);
        if rows > 0 {
            let q = y / rows;
            assert(q * rows <= y < (q + 1) * rows) by (nonlinear_arith)
                requires
                    q == y / rows,
                    rows > 0,
                    y >= 0,
            ;
            if c < last {
                assert(c == q) by (nonlinear_arith)
                    requires
                        c * rows <= y < (c + 1) * rows,
                        q * rows <= y < (q + 1) * rows,
                        rows > 0,
                ;
            } else {
                assert(q >= last) by (nonlinear_arith)
                    requires
                        last * rows <= y,
                        y < (q + 1) * rows,
                        rows > 0,
                ;
            }
        } else {
            if c < last {
                assert((c + 1) * rows == 0 && c * rows == 0) by (nonlinear_arith)
                    requires
                        rows == 0,
                ;
            }
        }
    }
}

/// A rectangle `[min_x, max_x) x [min_y, max_y)` of the framebuffer that one
/// core renders alone for one frame.
#[derive(Clone, Copy, Debug, PartialEq, Eq, Structural)]
pub struct Tile {
    pub min_x: usize,
    pub min_y: usize,
    pub max_x: usize,
    pub max_y: usize,
}

/// Number of tiles of side `tile` that cover `extent` pixels.
pub open spec fn tile_count(extent: int, tile: int) -> int {
    (extent + tile - 1) / tile
}

/// First pixel of tile number `i` along one axis.
pub open spec fn tile_lo(i: int, tile: int) -> int {
    i * tile
}

/// Pixel after the last of tile number `i` along one axis: clipped at the frame's edge.
pub open spec fn tile_hi(i: int, tile: int, extent: int) -> int {
    if (i + 1) * tile < extent {
        (i + 1) * tile
    } else {
        extent
    }
}

/// `t` is tile number `i` of the frame, counted row by row.
pub open spec fn is_tile(t: Tile, width: int, height: int, tile_w: int, tile_h: int, i: int) -> bool {
    let cols = tile_count(width, tile_w);
    &&& t.min_x == tile_lo(i % cols, tile_w)
    &&& t.max_x == tile_hi(i % cols, tile_w, width)
    &&& t.min_y == tile_lo(i / cols, tile_h)
    &&& t.max_y == tile_hi(i / cols, tile_h, height)
}

/// Pixel `(x, y)` lies in tile number `i` of the frame.
pub open spec fn tile_holds(
    width: int,
    height: int,
    tile_w: int,
    tile_h: int,
    i: int,
    x: int,
    y: int,
) -> bool {
    let cols = tile_count(width, tile_w);
    &&& tile_lo(i % cols, tile_w) <= x < tile_hi(i % cols, tile_w, width)
    &&& tile_lo(i / cols, tile_h) <= y < tile_hi(i / cols, tile_h, height)
}

/// Number of the tile that holds pixel `(x, y)`.
pub open spec fn tile_owner(width: int, tile_w: int, tile_h: int, x: int, y: int) -> int {
    (y / tile_h) * tile_count(width, tile_w) + x / tile_w
}

/// Tile number `i` starts inside the frame exactly while `i` is below the count.
proof fn lemma_tile_count(extent: int, tile: int, i: int)
    requires
        extent >= 0,
        tile > 0,
        i >= 0,
    ensures
        i * tile < extent <==> i < tile_count(extent, tile),
        i * tile >= 0,
        (i + 1) * tile == i * tile + tile,
        tile_count(extent, tile) >= 0,
{
    let n = (extent + tile - 1) / tile;
    assert(n * tile <= extent + tile - 1 < n * tile + tile) by (nonlinear_arith)
        requires
            n == (extent + tile - 1) / tile,
            tile > 0,
    ;
    assert(i * tile >= 0 && (i + 1) * tile == i * tile + tile) by (nonlinear_arith)
        requires
            i >= 0,
            tile > 0,
    ;
    if i < n {
        assert(i * tile <= (n - 1) * tile && (n - 1) * tile == n * tile - tile)
            by (nonlinear_arith)
            requires
                i <= n - 1,
                tile > 0,
        ;
    } else {
        assert(i * tile >= n * tile) by (nonlinear_arith)
            requires
                i >= n,
                tile > 0,
        ;
    }
    if n < 0 {
        assert(n * tile + tile <= 0) by (nonlinear_arith)
            requires
                n + 1 <= 0,
                tile > 0,
        ;
    }
}

/// Row and column of a tile number.
proof fn lemma_tile_index(row: int, col: int, cols: int)
    requires
        0 <= row,
        0 <= col < cols,
    ensures
        (row * cols + col) / cols == row,
        (row * cols + col) % cols == col,
        row * cols + col >= 0,
{
    assert((row * cols + col) / cols == row && (row * cols + col) % cols == col && row * cols
        >= 0) by (nonlinear_arith)
        requires
            0 <= row,
            0 <= col < cols,
    ;
}

/// The tiles of side `tile_w` x `tile_h` that cover a frame of `width` x
/// `height` pixels, row by row; the tiles at the right and lower edge are clipped.
pub fn build_tiles(width: usize, height: usize, tile_w: usize, tile_h: usize) -> (tiles: Vec<Tile>)
    requires
        tile_w > 0,
        tile_h > 0,
    ensures
        tiles.len() == tile_count(height as int, tile_h as int) * tile_count(
            width as int,
            tile_w as int,
        ),
        forall|i: int|
            0 <= i < tiles.len() ==> is_tile(
                #[trigger] tiles[i],
                width as int,
                height as int,
                tile_w as int,
                tile_h as int,
                i,
            ),
{
    let mut tiles: Vec<Tile> = Vec::new();
    let ghost cols = tile_count(width as int, tile_w as int);
    let ghost rows = tile_count(height as int, tile_h as int);
    let ghost mut row: int = 0;
    let mut y: usize = 0;
    proof {
        lemma_tile_count(height as int, tile_h as int, 0);
        lemma_tile_count(width as int, tile_w as int, 0);
        assert(0 * cols == 0) by (nonlinear_arith);
    }
    while y < height
        invariant
            tile_w > 0,
            tile_h > 0,
            cols == tile_count(width as int, tile_w as int),
            rows == tile_count(height as int, tile_h as int),
            cols >= 0,
            0 <= row <= rows,
            y <= height,
            y == (if row * tile_h < height {
                row * tile_h
            } else {
                height as int
            }),
            tiles.len() == row * cols,
            forall|i: int|
                0 <= i < tiles.len() ==> is_tile(
                    #[trigger] tiles[i],
                    width as int,
                    height as int,
                    tile_w as int,
                    tile_h as int,
                    i,
                ),
        decreases height - y,
    {
        proof {
            lemma_tile_count(height as int, tile_h as int, row);
            lemma_tile_count(height as int, tile_h as int, row + 1);
        }
        let max_y: usize = if height - y < tile_h {
            height
        } else {
            y + tile_h
        };
        let ghost mut col: int = 0;
        let mut x: usize = 0;
        proof {
            lemma_tile_count(width as int, tile_w as int, 0);
        }
        while x < width
            invariant
                tile_w > 0,
                tile_h > 0,
                cols == tile_count(width as int, tile_w as int),
                rows == tile_count(height as int, tile_h as int),
                0 <= row < rows,
                0 <= col <= cols,
                y == tile_lo(row, tile_h as int),
                max_y == tile_hi(row, tile_h as int, height as int),
                x <= width,
                x == (if col * tile_w < width {
                    col * tile_w
                } else {
                    width as int
                }),
                tiles.len() == row * cols + col,
                forall|i: int|
                    0 <= i < tiles.len() ==> is_tile(
                        #[trigger] tiles[i],
                        width as int,
                        height as int,
                        tile_w as int,
                        tile_h as int,
                        i,
                    ),
            decreases width - x,
        {
            proof {
                lemma_tile_count(width as int, tile_w as int, col);
                lemma_tile_count(width as int, tile_w as int, col + 1);
                lemma_tile_index(row, col, cols);
            }
            let max_x: usize = if width - x < tile_w {
                width
            } else {
                x + tile_w
            };
            tiles.push(Tile { min_x: x, min_y: y, max_x, max_y });
            x = max_x;
            proof {
                col = col + 1;
            }
        }
        proof {
            lemma_tile_count(width as int, tile_w as int, col);
            assert(col == cols);
            assert((row + 1) * cols == row * cols + cols) by (nonlinear_arith);
            row = row + 1;
        }
        y = max_y;
    }
    proof {
        lemma_tile_count(height as int, tile_h as int, row);
        assert(row == rows);
    }
    tiles
}

/// The tile that the shared counter's value `ticket` stands for, if any is left.
/// Each value is taken by one core only, so each tile is rendered once.
pub fn next_tile(tiles: &Vec<Tile>, ticket: usize) -> (tile: Option<Tile>)
    ensures
        tile == (if ticket < tiles.len() {
            Some(tiles[ticket as int])
        } else {
            None
        }),
{
    if ticket < tiles.len() {
        Some(tiles[ticket])
    } else {
        None
    }
}

/// Every pixel of the frame lies in exactly one tile, and no tile reaches
/// outside the frame.
pub proof fn lemma_tiles_partition(
    width: int,
    height: int,
    tile_w: int,
    tile_h: int,
    x: int,
    y: int,
)
    requires
        width >= 0,
        height >= 0,
        tile_w > 0,
        tile_h > 0,
    ensures
        0 <= x < width && 0 <= y < height ==> 0 <= tile_owner(width, tile_w, tile_h, x, y)
            < tile_count(height, tile_h) * tile_count(width, tile_w) && tile_holds(
            width,
            height,
            tile_w,
            tile_h,
            tile_owner(width, tile_w, tile_h, x, y),
            x,
            y,
        ),
        forall|i: int|
            0 <= i < tile_count(height, tile_h) * tile_count(width, tile_w) && #[trigger] tile_holds(
                width,
                height,
                tile_w,
                tile_h,
                i,
                x,
                y,
            ) ==> 0 <= x < width && 0 <= y < height && i == tile_owner(width, tile_w, tile_h, x, y),
{
    let cols = tile_count(width, tile_w);
    let rows = tile_count(height, tile_h);
    lemma_tile_count(width, tile_w, 0);
    lemma_tile_count(height, tile_h, 0);
    if 0 <= x < width && 0 <= y < height {
        let col = x / tile_w;
        let row = y / tile_h;
        assert(col * tile_w <= x < (col + 1) * tile_w && col >= 0) by (nonlinear_arith)
            requires
                col == x / tile_w,
                tile_w > 0,
                x >= 0,
        ;
        assert(row * tile_h <= y < (row + 1) * tile_h && row >= 0) by (nonlinear_arith)
            requires
                row == y / tile_h,
                tile_h > 0,
                y >= 0,
        ;
        lemma_tile_count(width, tile_w, col);
        lemma_tile_count(height, tile_h, row);
        lemma_tile_index(row, col, cols);
        assert(row * cols + col < rows * cols) by (nonlinear_arith)
            requires
                0 <= row < rows,
                0 <= col < cols,
        ;
    }
    assert forall|i: int|
        0 <= i < rows * cols && #[trigger] tile_holds(
            width,
            height,
            tile_w,
            tile_h,
            i,
            x,
            y,
        ) implies 0 <= x < width && 0 <= y < height && i == tile_owner(
        width,
        tile_w,
        tile_h,
        x,
        y,
    ) by {
        assert(cols > 0) by (nonlinear_arith)
            requires
                0 <= i < rows * cols,
                cols >= 0,
                rows >= 0,
        ;
        let col = i % cols;
        let row = i / cols;
        assert(i == row * cols + col && 0 <= col < cols && row >= 0) by (nonlinear_arith)
            requires
                col == i % cols,
                row == i / cols,
                cols > 0,
                i >= 0,
        ;
        lemma_tile_count(width, tile_w, col);
        lemma_tile_count(height, tile_h, row);
        assert(x / tile_w == col) by (nonlinear_arith)
            requires
                col * tile_w <= x < (col + 1) * tile_w,
                tile_w > 0,
        ;
        assert(y / tile_h == row) by (nonlinear_arith)
            requires
                row * tile_h <= y < (row + 1) * tile_h,
                tile_h > 0,
        ;
    }
}

} // verus!

//! Greedy meshing of a dense chunk of voxels: the surface between solid and
//! empty cells, as few axis-aligned rectangles of one block each.
//!
//! A chunk is sampled every `2^lod` voxels. Along each axis the samples form
//! slices; between two neighbouring slices lies a plane, and a cell of a plane
//! is exposed in a direction when the sample behind it is solid and the one
//! in front of it is not. Each plane is held as one bit row per line and
//! merged greedily into rectangles.

use vstd::prelude::*;
use crate::bits::{and_not, has_bit, lemma_empty_row, test_bit, with_bit};
use crate::grid::{axis_index, direction_of, Axis, Direction};
use crate::world::{block_in, Svo};

verus! {

/// Side length of a chunk in voxels.
pub const CHUNK_SIZE: usize = 32;

/// Number of voxels in one layer of a chunk.
const CHUNK_LAYER: usize = 1024;

/// Coarsest level of detail: one sample for the whole chunk.
pub const MAX_LOD: u32 = 5;

/// A dense cube of `CHUNK_SIZE` voxels per side, placed in the world.
pub struct Chunk {
    blocks: Vec<u8>,
    origin_x: i32,
    origin_y: i32,
    origin_z: i32,
}

/// A rectangle of the surface: its corner with the smallest coordinates in
/// world space, its extents along the two axes of its plane, the direction of
/// its outside and its block. The extents run along y and z for a face across
/// x, along x and z for one across y, along x and y for one across z.
#[derive(Clone, Copy, Debug, PartialEq, Eq, Structural)]
pub struct Face {
    pub x: i32,
    pub y: i32,
    pub z: i32,
    pub width: i32,
    pub height: i32,
    pub direction: Direction,
    pub block: u8,
}

/// Whether a coordinate lies inside a chunk.
pub open spec fn in_chunk(x: int, y: int, z: int) -> bool {
    0 <= x < 32 && 0 <= y < 32 && 0 <= z < 32
}

/// A chunk's origin is far enough from the ends of `i32` for every corner of
/// the chunk to have world coordinates.
pub open spec fn origin_fits(x: int, y: int, z: int) -> bool {
    &&& i32::MIN <= x <= i32::MAX - 32
    &&& i32::MIN <= y <= i32::MAX - 32
    &&& i32::MIN <= z <= i32::MAX - 32
}

/// Distance between two samples at a level of detail.
pub open spec fn scale_of(lod: u32) -> int {
    if lod == 0 {
        1
    } else if lod == 1 {
        2
    } else if lod == 2 {
        4
    } else if lod == 3 {
        8
    } else if lod == 4 {
        16
    } else {
        32
    }
}

/// Number of samples along each axis at a level of detail.
pub open spec fn samples_of(lod: u32) -> int {
    if lod == 0 {
        32
    } else if lod == 1 {
        16
    } else if lod == 2 {
        8
    } else if lod == 3 {
        4
    } else if lod == 4 {
        2
    } else {
        1
    }
}

impl View for Chunk {
    type V = Map<(int, int, int), u8>;

    /// The block of every voxel of the chunk, by its place in the chunk.
    open spec fn view(&self) -> Map<(int, int, int), u8> {
        Map::new(
            |p: (int, int, int)| in_chunk(p.0, p.1, p.2),
            |p: (int, int, int)| self.stored(p.0, p.1, p.2),
        )
    }
}

impl Chunk {
    /// The blocks of the chunk in storage order: along x first, then y, then z.
    pub closed spec fn cells(&self) -> Seq<u8> {
        self.blocks@
    }

    /// The block that the chunk holds for one of its voxels.
    pub open spec fn stored(&self, x: int, y: int, z: int) -> u8 {
        self.cells()[x + 32 * y + 1024 * z]
    }

    /// World coordinates of the chunk's voxel `(0, 0, 0)`.
    pub closed spec fn origin(&self) -> (int, int, int) {
        (self.origin_x as int, self.origin_y as int, self.origin_z as int)
    }

    /// The chunk holds all its voxels and lies inside the coordinate range.
    pub closed spec fn wf(&self) -> bool {
        &&& self.blocks@.len() == 32768
        &&& origin_fits(self.origin_x as int, self.origin_y as int, self.origin_z as int)
    }

    /// The block at a place in the chunk: air outside of it.
    pub open spec fn block_at(&self, x: int, y: int, z: int) -> u8 {
        block_in(self@, x, y, z)
    }

    /// A chunk of air at `(origin_x, origin_y, origin_z)`.
    pub fn new(origin_x: i32, origin_y: i32, origin_z: i32) -> (chunk: Self)
        requires
            origin_fits(origin_x as int, origin_y as int, origin_z as int),
        ensures
            chunk.wf(),
            chunk.origin() == (origin_x as int, origin_y as int, origin_z as int),
            chunk@ == Map::new(
                |p: (int, int, int)| in_chunk(p.0, p.1, p.2),
                |p: (int, int, int)| 0u8,
            ),
    {
        let blocks: Vec<u8> = vec![0u8; 32768];
        Chunk { blocks, origin_x, origin_y, origin_z }
    }

    /// The block at `(x, y, z)` of the chunk; air outside of it.
    pub fn get(&self, x: usize, y: usize, z: usize) -> (block: u8)
        requires
            self.wf(),
        ensures
            block == self.block_at(x as int, y as int, z as int),
    {
        if x >= CHUNK_SIZE || y >= CHUNK_SIZE || z >= CHUNK_SIZE {
            return 0;
        }
        self.blocks[x + CHUNK_SIZE * y + CHUNK_LAYER * z]
    }

    /// Sets the block at `(x, y, z)` of the chunk; nothing happens outside of it.
    pub fn set(&mut self, x: usize, y: usize, z: usize, block: u8)
        requires
            old(self).wf(),
        ensures
            final(self).wf(),
            final(self).origin() == old(self).origin(),
            final(self)@ == (if in_chunk(x as int, y as int, z as int) {
                old(self)@.insert((x as int, y as int, z as int), block)
            } else {
                old(self)@
            }),
    {
        if x >= CHUNK_SIZE || y >= CHUNK_SIZE || z >= CHUNK_SIZE {
            return ;
        }
        self.blocks[x + CHUNK_SIZE * y + CHUNK_LAYER * z] = block;
        proof {
            assert forall|p: (int, int, int)| in_chunk(p.0, p.1, p.2) implies (
            #[trigger] self.stored(p.0, p.1, p.2)) == (if p == (x as int, y as int, z as int) {
                block
            } else {
                old(self).stored(p.0, p.1, p.2)
            }) by {}
            assert(self@ =~= old(self)@.insert((x as int, y as int, z as int), block));
        }
    }
}

/// A cell of a plane: the plane is number `d` across `axis`, between the
/// slices `d - 1` and `d`, seen from the side that `positive` tells; `u` and
/// `v` are the cell's place in the plane.
pub struct Cell {
    pub axis: Axis,
    pub positive: bool,
    pub d: int,
    pub u: int,
    pub v: int,
}

/// A rectangle of cells of one plane, with the block it shows.
pub struct Rect {
    pub axis: Axis,
    pub positive: bool,
    pub d: int,
    pub u: int,
    pub v: int,
    pub w: int,
    pub h: int,
    pub block: u8,
}

/// The sample at place `(u, v)` of slice `d` across `axis`: air outside the chunk.
pub open spec fn sample_at(chunk: Chunk, lod: u32, axis: Axis, d: int, u: int, v: int) -> u8 {
    let n = samples_of(lod);
    let s = scale_of(lod);
    if 0 <= d < n && 0 <= u < n && 0 <= v < n {
        match axis {
            Axis::X => chunk.block_at(d * s, u * s, v * s),
            Axis::Y => chunk.block_at(u * s, d * s, v * s),
            Axis::Z => chunk.block_at(u * s, v * s, d * s),
        }
    } else {
        0
    }
}

/// The sample is not air.
pub open spec fn solid(chunk: Chunk, lod: u32, axis: Axis, d: int, u: int, v: int) -> bool {
    sample_at(chunk, lod, axis, d, u, v) != 0
}

/// The cell is part of the surface: the sample behind it is solid and the
/// one in front of it is not.
pub open spec fn exposed(chunk: Chunk, lod: u32, cell: Cell) -> bool {
    if cell.positive {
        solid(chunk, lod, cell.axis, cell.d - 1, cell.u, cell.v) && !solid(
            chunk,
            lod,
            cell.axis,
            cell.d,
            cell.u,
            cell.v,
        )
    } else {
        !solid(chunk, lod, cell.axis, cell.d - 1, cell.u, cell.v) && solid(
            chunk,
            lod,
            cell.axis,
            cell.d,
            cell.u,
            cell.v,
        )
    }
}

/// The block that an exposed cell shows: that of the sample behind it.
pub open spec fn face_block(chunk: Chunk, lod: u32, cell: Cell) -> u8 {
    sample_at(
        chunk,
        lod,
        cell.axis,
        if cell.positive {
            cell.d - 1
        } else {
            cell.d
        },
        cell.u,
        cell.v,
    )
}

/// The cell is one of a plane of the chunk.
pub open spec fn in_grid(lod: u32, cell: Cell) -> bool {
    let n = samples_of(lod);
    0 <= cell.d <= n && 0 <= cell.u < n && 0 <= cell.v < n
}

/// The rectangle holds the cell.
pub open spec fn rect_covers(rect: Rect, cell: Cell) -> bool {
    &&& rect.axis == cell.axis
    &&& rect.positive == cell.positive
    &&& rect.d == cell.d
    &&& rect.u <= cell.u < rect.u + rect.w
    &&& rect.v <= cell.v < rect.v + rect.h
}

/// Sample distance and sample count at a level of detail.
proof fn lemma_scale(lod: u32)
    requires
        lod <= 5,
    ensures
        1 <= scale_of(lod) <= 32,
        1 <= samples_of(lod) <= 32,
        samples_of(lod) * scale_of(lod) == 32,
{
    if lod == 0 {
    } else if lod == 1 {
    } else if lod == 2 {
    } else if lod == 3 {
    } else if lod == 4 {
    } else {
    }
}

/// A sample's place in the chunk.
proof fn lemma_sample_place(lod: u32, i: int)
    requires
        lod <= 5,
        0 <= i <= samples_of(lod),
    ensures
        0 <= i * scale_of(lod) <= 32,
        i < samples_of(lod) ==> i * scale_of(lod) + scale_of(lod) <= 32,
{
    lemma_scale(lod);
    let n = samples_of(lod);
    let s = scale_of(lod);
    assert(0 <= i * s <= 32 && (i < n ==> i * s + s <= 32)) by (nonlinear_arith)
        requires
            0 <= i <= n,
            n * s == 32,
            s >= 1,
    ;
}

/// The sample at place `(u, v)` of slice `d` across `axis`.
fn sample_block(chunk: &Chunk, lod: u32, axis: Axis, d: usize, u: usize, v: usize) -> (block: u8)
    requires
        chunk.wf(),
        lod <= 5,
        d < samples_of(lod),
        u < samples_of(lod),
        v < samples_of(lod),
    ensures
        block == sample_at(*chunk, lod, axis, d as int, u as int, v as int),
{
    let scale: usize = 1usize << lod;
    assert(scale == scale_of(lod)) by (bit_vector)
        requires
            scale == 1usize << lod,
            lod <= 5,
    ;
    proof {
        lemma_sample_place(lod, d as int);
        lemma_sample_place(lod, u as int);
        lemma_sample_place(lod, v as int);
    }
    match axis {
        Axis::X => chunk.get(d * scale, u * scale, v * scale),
        Axis::Y => chunk.get(u * scale, d * scale, v * scale),
        Axis::Z => chunk.get(u * scale, v * scale, d * scale),
    }
}

/// Number of samples along each axis.
fn sample_count(lod: u32) -> (n: usize)
    requires
        lod <= 5,
    ensures
        n == samples_of(lod),
        1 <= n <= 32,
{
    let n: usize = CHUNK_SIZE >> lod;
    assert(n == (if lod == 0 {
        32usize
    } else if lod == 1 {
        16usize
    } else if lod == 2 {
        8usize
    } else if lod == 3 {
        4usize
    } else if lod == 4 {
        2usize
    } else {
        1usize
    })) by (bit_vector)
        requires
            n == 32usize >> lod,
            lod <= 5,
    ;
    n
}

/// The rows of slice `d` across `axis`: bit `u` of row `v` is set where the
/// sample is solid. The slice behind the last one is empty.
fn slice_rows(chunk: &Chunk, lod: u32, axis: Axis, d: usize) -> (rows: Vec<u32>)
    requires
        chunk.wf(),
        lod <= 5,
        d <= samples_of(lod),
    ensures
        rows.len() == samples_of(lod),
        forall|u: int, v: int|
            0 <= v < rows.len() ==> #[trigger] has_bit(rows[v], u) == solid(
                *chunk,
                lod,
                axis,
                d as int,
                u,
                v,
            ),
{
    let n: usize = sample_count(lod);
    let mut rows: Vec<u32> = Vec::new();
    let mut v: usize = 0;
    while v < n
        invariant
            chunk.wf(),
            lod <= 5,
            n == samples_of(lod),
            d <= n,
            v <= n,
            rows.len() == v,
            forall|u: int, r: int|
                0 <= r < rows.len() ==> #[trigger] has_bit(rows[r], u) == solid(
                    *chunk,
                    lod,
                    axis,
                    d as int,
                    u,
                    r,
                ),
        decreases n - v,
    {
        let mut row: u32 = 0;
        if d < n {
            let mut u: usize = 0;
            proof {
                assert forall|k: int| !#[trigger] has_bit(row, k) by {
                    lemma_empty_row(k);
                }
            }
            while u < n
                invariant
                    chunk.wf(),
                    lod <= 5,
                    n == samples_of(lod),
                    d < n,
                    v < n,
                    u <= n,
                    forall|k: int|
                        #[trigger] has_bit(row, k) == (k < u && solid(
                            *chunk,
                            lod,
                            axis,
                            d as int,
                            k,
                            v as int,
                        )),
                decreases n - u,
            {
                if sample_block(chunk, lod, axis, d, u, v) != 0 {
                    row = with_bit(row, u);
                }
                u = u + 1;
            }
        }
        proof {
            assert forall|k: int| #[trigger] has_bit(row, k) == solid(
                *chunk,
                lod,
                axis,
                d as int,
                k,
                v as int,
            ) by {
                lemma_empty_row(k);
            }
        }
        let ghost before = rows@;
        rows.push(row);
        proof {
            assert forall|u: int, r: int| 0 <= r < rows.len() implies #[trigger] has_bit(
                rows[r],
                u,
            ) == solid(*chunk, lod, axis, d as int, u, r) by {
                if r < v {
                    assert(rows[r] == before[r]);
                }
            }
        }
        v = v + 1;
    }
    rows
}

/// The cell at place `(u, v)` of a plane.
pub open spec fn plane_cell(axis: Axis, positive: bool, d: int, u: int, v: int) -> Cell {
    Cell { axis, positive, d, u, v }
}

/// The cell at place `(u, v)` of the plane of a rectangle.
pub open spec fn rect_cell(rect: Rect, u: int, v: int) -> Cell {
    Cell { axis: rect.axis, positive: rect.positive, d: rect.d, u, v }
}

/// The slice whose samples a plane shows from one side.
pub open spec fn shown_slice(positive: bool, d: int) -> int {
    if positive {
        d - 1
    } else {
        d
    }
}

/// The rows of the plane `d` across `axis`: bit `u` of row `v` is set where
/// the cell is exposed on the side that `positive` tells.
fn exposed_rows(prev: &Vec<u32>, curr: &Vec<u32>, positive: bool) -> (rows: Vec<u32>)
    requires
        prev.len() == curr.len(),
    ensures
        rows.len() == prev.len(),
        forall|u: int, v: int|
            0 <= v < rows.len() ==> #[trigger] has_bit(rows[v], u) == (if positive {
                has_bit(prev[v], u) && !has_bit(curr[v], u)
            } else {
                !has_bit(prev[v], u) && has_bit(curr[v], u)
            }),
{
    let mut rows: Vec<u32> = Vec::new();
    let mut v: usize = 0;
    while v < prev.len()
        invariant
            prev.len() == curr.len(),
            v <= prev.len(),
            rows.len() == v,
            forall|u: int, r: int|
                0 <= r < rows.len() ==> #[trigger] has_bit(rows[r], u) == (if positive {
                    has_bit(prev[r], u) && !has_bit(curr[r], u)
                } else {
                    !has_bit(prev[r], u) && has_bit(curr[r], u)
                }),
        decreases prev.len() - v,
    {
        let row: u32 = if positive {
            and_not(prev[v], curr[v])
        } else {
            and_not(curr[v], prev[v])
        };
        let ghost before = rows@;
        rows.push(row);
        proof {
            assert forall|u: int, r: int| 0 <= r < rows.len() implies #[trigger] has_bit(
                rows[r],
                u,
            ) == (if positive {
                has_bit(prev[r], u) && !has_bit(curr[r], u)
            } else {
                !has_bit(prev[r], u) && has_bit(curr[r], u)
            }) by {
                if r < v {
                    assert(rows[r] == before[r]);
                }
            }
        }
        v = v + 1;
    }
    rows
}

/// Cell `(k, v)` of a plane is still free in `row` and shows block `id`.
spec fn joins(chunk: Chunk, lod: u32, axis: Axis, src: int, row: u32, k: int, v: int, id: u8) -> bool {
    has_bit(row, k) && sample_at(chunk, lod, axis, src, k, v) == id
}

/// How far the run of free cells of block `id` that starts at `(u, v)` reaches to the right.
fn run_width(
    chunk: &Chunk,
    lod: u32,
    axis: Axis,
    src: usize,
    row: u32,
    u: usize,
    v: usize,
    id: u8,
) -> (w: usize)
    requires
        chunk.wf(),
        lod <= 5,
        src < samples_of(lod),
        u < samples_of(lod),
        v < samples_of(lod),
        joins(*chunk, lod, axis, src as int, row, u as int, v as int, id),
    ensures
        1 <= w,
        u + w <= samples_of(lod),
        forall|k: int|
            u <= k < u + w ==> #[trigger] joins(*chunk, lod, axis, src as int, row, k, v as int, id),
        u + w < samples_of(lod) ==> !joins(
            *chunk,
            lod,
            axis,
            src as int,
            row,
            u + w,
            v as int,
            id,
        ),
{
    let n: usize = sample_count(lod);
    let mut w: usize = 1;
    while u + w < n
        invariant
            chunk.wf(),
            lod <= 5,
            n == samples_of(lod),
            n <= 32,
            src < n,
            v < n,
            1 <= w,
            u + w <= n,
            forall|k: int|
                u <= k < u + w ==> #[trigger] joins(
                    *chunk,
                    lod,
                    axis,
                    src as int,
                    row,
                    k,
                    v as int,
                    id,
                ),
        ensures
            u + w < n ==> !joins(*chunk, lod, axis, src as int, row, u + w, v as int, id),
        decreases n - w,
    {
        if !test_bit(row, u + w) {
            break ;
        }
        if sample_block(chunk, lod, axis, src, u + w, v) != id {
            break ;
        }
        w = w + 1;
    }
    w
}

/// Whether the cells `[u, u + w)` of line `v` are all free in `row` and show block `id`.
fn row_joins(
    chunk: &Chunk,
    lod: u32,
    axis: Axis,
    src: usize,
    row: u32,
    u: usize,
    w: usize,
    v: usize,
    id: u8,
) -> (all: bool)
    requires
        chunk.wf(),
        lod <= 5,
        src < samples_of(lod),
        u + w <= samples_of(lod),
        v < samples_of(lod),
    ensures
        all == forall|k: int|
            u <= k < u + w ==> #[trigger] joins(*chunk, lod, axis, src as int, row, k, v as int, id),
{
    proof {
        lemma_scale(lod);
    }
    let mut k: usize = u;
    while k < u + w
        invariant
            chunk.wf(),
            lod <= 5,
            src < samples_of(lod),
            u + w <= samples_of(lod),
            samples_of(lod) <= 32,
            v < samples_of(lod),
            u <= k <= u + w,
            forall|j: int|
                u <= j < k ==> #[trigger] joins(
                    *chunk,
                    lod,
                    axis,
                    src as int,
                    row,
                    j,
                    v as int,
                    id,
                ),
        decreases u + w - k,
    {
        if !test_bit(row, k) {
            assert(!joins(*chunk, lod, axis, src as int, row, k as int, v as int, id));
            return false;
        }
        if sample_block(chunk, lod, axis, src, k, v) != id {
            assert(!joins(*chunk, lod, axis, src as int, row, k as int, v as int, id));
            return false;
        }
        k = k + 1;
    }
    true
}

/// How far down the rectangle of free cells of block `id` reaches whose
/// first line is `[u, u + w)` of line `v`.
fn run_height(
    chunk: &Chunk,
    lod: u32,
    axis: Axis,
    src: usize,
    rows: &Vec<u32>,
    u: usize,
    w: usize,
    v: usize,
    id: u8,
) -> (h: usize)
    requires
        chunk.wf(),
        lod <= 5,
        src < samples_of(lod),
        rows.len() == samples_of(lod),
        u + w <= samples_of(lod),
        v < samples_of(lod),
        forall|k: int|
            u <= k < u + w ==> #[trigger] joins(
                *chunk,
                lod,
                axis,
                src as int,
                rows[v as int],
                k,
                v as int,
                id,
            ),
    ensures
        1 <= h,
        v + h <= samples_of(lod),
        forall|k: int, r: int|
            u <= k < u + w && v <= r < v + h ==> #[trigger] joins(
                *chunk,
                lod,
                axis,
                src as int,
                rows[r],
                k,
                r,
                id,
            ),
        v + h < samples_of(lod) ==> exists|k: int|
            u <= k < u + w && !#[trigger] joins(
                *chunk,
                lod,
                axis,
                src as int,
                rows[v + h],
                k,
                v + h,
                id,
            ),
{
    let n: usize = sample_count(lod);
    let mut h: usize = 1;
    while v + h < n
        invariant
            chunk.wf(),
            lod <= 5,
            n == samples_of(lod),
            src < n,
            rows.len() == n,
            u + w <= n,
            1 <= h,
            v + h <= n,
            forall|k: int, r: int|
                u <= k < u + w && v <= r < v + h ==> #[trigger] joins(
                    *chunk,
                    lod,
                    axis,
                    src as int,
                    rows[r],
                    k,
                    r,
                    id,
                ),
        ensures
            v + h < n ==> exists|k: int|
                u <= k < u + w && !#[trigger] joins(
                    *chunk,
                    lod,
                    axis,
                    src as int,
                    rows[v + h],
                    k,
                    v + h,
                    id,
                ),
        decreases n - h,
    {
        if !row_joins(chunk, lod, axis, src, rows[v + h], u, w, v + h, id) {
            break ;
        }
        h = h + 1;
    }
    h
}

/// Clears the cells `[u, u + w) x [v, v + h)` in the rows of a plane.
fn clear_rect(rows: &mut Vec<u32>, u: usize, w: usize, v: usize, h: usize)
    requires
        u + w <= 32,
        v + h <= old(rows).len(),
    ensures
        final(rows).len() == old(rows).len(),
        forall|k: int, r: int|
            0 <= r < old(rows).len() ==> #[trigger] has_bit(final(rows)[r], k) == (has_bit(
                old(rows)[r],
                k,
            ) && !(u <= k < u + w && v <= r < v + h)),
{
    let mut taken: u32 = 0;
    let mut k: usize = u;
    proof {
        assert forall|j: int| !#[trigger] has_bit(taken, j) by {
            lemma_empty_row(j);
        }
    }
    while k < u + w
        invariant
            u + w <= 32,
            u <= k <= u + w,
            forall|j: int| #[trigger] has_bit(taken, j) == (u <= j < k),
        decreases u + w - k,
    {
        taken = with_bit(taken, k);
        k = k + 1;
    }
    let mut r: usize = v;
    while r < v + h
        invariant
            v + h <= old(rows).len(),
            v <= r <= v + h,
            rows.len() == old(rows).len(),
            forall|j: int| #[trigger] has_bit(taken, j) == (u <= j < u + w),
            forall|j: int, i: int|
                0 <= i < old(rows).len() ==> #[trigger] has_bit(rows[i], j) == (has_bit(
                    old(rows)[i],
                    j,
                ) && !(u <= j < u + w && v <= i < r)),
        decreases v + h - r,
    {
        let ghost before = rows@;
        let cleared: u32 = and_not(rows[r], taken);
        rows[r] = cleared;
        proof {
            assert forall|j: int, i: int| 0 <= i < old(rows).len() implies #[trigger] has_bit(
                rows[i],
                j,
            ) == (has_bit(old(rows)[i], j) && !(u <= j < u + w && v <= i < r + 1)) by {
                if i != r {
                    assert(rows[i] == before[i]);
                }
            }
        }
        r = r + 1;
    }
}

/// Some rectangle among `rects[lo..hi)` holds the cell.
pub open spec fn covered(rects: Seq<Rect>, lo: int, hi: int, cell: Cell) -> bool {
    exists|i: int| lo <= i < hi && #[trigger] rect_covers(rects[i], cell)
}

/// The rectangle lies on a plane of the chunk and holds at least one cell.
pub open spec fn rect_valid(lod: u32, rect: Rect) -> bool {
    let n = samples_of(lod);
    &&& 0 <= rect.d <= n
    &&& 0 <= rect.u
    &&& 1 <= rect.w
    &&& rect.u + rect.w <= n
    &&& 0 <= rect.v
    &&& 1 <= rect.h
    &&& rect.v + rect.h <= n
}

/// Every cell of the rectangle is exposed and shows the rectangle's block.
pub open spec fn rect_on_surface(chunk: Chunk, lod: u32, rect: Rect) -> bool {
    forall|u: int, v: int|
        rect.u <= u < rect.u + rect.w && rect.v <= v < rect.v + rect.h ==> exposed(
            chunk,
            lod,
            #[trigger] rect_cell(rect, u, v),
        ) && face_block(chunk, lod, rect_cell(rect, u, v)) == rect.block
}

/// No cell of rectangle `i` is held by a rectangle before it.
pub open spec fn rect_apart(rects: Seq<Rect>, i: int) -> bool {
    forall|u: int, v: int|
        rects[i].u <= u < rects[i].u + rects[i].w && rects[i].v <= v < rects[i].v + rects[i].h
            ==> !covered(rects, 0, i, #[trigger] rect_cell(rects[i], u, v))
}

/// Rectangle `i` could have taken the cell: the cell is exposed, shows the
/// rectangle's block, and no rectangle before `i` holds it.
pub open spec fn can_join(chunk: Chunk, lod: u32, rects: Seq<Rect>, i: int, cell: Cell) -> bool {
    &&& exposed(chunk, lod, cell)
    &&& face_block(chunk, lod, cell) == rects[i].block
    &&& !covered(rects, 0, i, cell)
}

/// Rectangle `i` cannot grow: the cells left and right of its first line
/// could not join it, and neither could some cell of the line above it and
/// some cell of the line below it.
pub open spec fn rect_maximal(chunk: Chunk, lod: u32, rects: Seq<Rect>, i: int) -> bool {
    let r = rects[i];
    let n = samples_of(lod);
    &&& r.u + r.w < n ==> !can_join(chunk, lod, rects, i, rect_cell(r, r.u + r.w, r.v))
    &&& r.u > 0 ==> !can_join(chunk, lod, rects, i, rect_cell(r, r.u - 1, r.v))
    &&& r.v + r.h < n ==> exists|k: int|
        r.u <= k < r.u + r.w && !can_join(chunk, lod, rects, i, #[trigger] rect_cell(r, k, r.v + r.h))
    &&& r.v > 0 ==> exists|k: int|
        r.u <= k < r.u + r.w && !can_join(chunk, lod, rects, i, #[trigger] rect_cell(r, k, r.v - 1))
}

/// Number of a plane in the order in which the planes are meshed: across x,
/// then y, then z; along each axis from the lowest plane up; on each plane
/// the side towards larger coordinates first.
pub open spec fn plane_rank(axis: Axis, positive: bool, d: int) -> int {
    (axis_index(axis) * 33 + d) * 2 + (if positive {
        0int
    } else {
        1int
    })
}

/// Place of a rectangle in the order of the scan: by its plane, then by the
/// line and the column of its first cell.
pub open spec fn scan_key(rect: Rect) -> int {
    (plane_rank(rect.axis, rect.positive, rect.d) * 32 + rect.v) * 32 + rect.u
}

/// Rectangle `i` comes after the one before it in the order of the scan.
pub open spec fn rect_ordered(rects: Seq<Rect>, i: int) -> bool {
    i > 0 ==> scan_key(rects[i - 1]) < scan_key(rects[i])
}

/// What holds of each rectangle of a mesh.
pub open spec fn rect_sound(chunk: Chunk, lod: u32, rects: Seq<Rect>, i: int) -> bool {
    &&& rect_valid(lod, rects[i])
    &&& rect_ordered(rects, i)
    &&& rect_on_surface(chunk, lod, rects[i])
    &&& rect_apart(rects, i)
    &&& rect_maximal(chunk, lod, rects, i)
}

/// The rectangles lie on the surface, one block each, overlap nowhere, are
/// maximal and stand in the order of the scan.
pub open spec fn mesh_sound(chunk: Chunk, lod: u32, rects: Seq<Rect>) -> bool {
    forall|i: int| 0 <= i < rects.len() ==> #[trigger] rect_sound(chunk, lod, rects, i)
}

/// Every exposed cell of the chunk is held by a rectangle.
pub open spec fn mesh_complete(chunk: Chunk, lod: u32, rects: Seq<Rect>) -> bool {
    forall|cell: Cell|
        in_grid(lod, cell) && #[trigger] exposed(chunk, lod, cell) ==> covered(
            rects,
            0,
            rects.len() as int,
            cell,
        )
}

/// The face in world space that stands for a rectangle of cells.
pub open spec fn face_of(rect: Rect, chunk: Chunk, lod: u32) -> Face {
    let s = scale_of(lod);
    let origin = chunk.origin();
    let direction = direction_of(rect.axis, rect.positive);
    let width = (rect.w * s) as i32;
    let height = (rect.h * s) as i32;
    match rect.axis {
        Axis::X => Face {
            x: (origin.0 + rect.d * s) as i32,
            y: (origin.1 + rect.u * s) as i32,
            z: (origin.2 + rect.v * s) as i32,
            width,
            height,
            direction,
            block: rect.block,
        },
        Axis::Y => Face {
            x: (origin.0 + rect.u * s) as i32,
            y: (origin.1 + rect.d * s) as i32,
            z: (origin.2 + rect.v * s) as i32,
            width,
            height,
            direction,
            block: rect.block,
        },
        Axis::Z => Face {
            x: (origin.0 + rect.u * s) as i32,
            y: (origin.1 + rect.v * s) as i32,
            z: (origin.2 + rect.d * s) as i32,
            width,
            height,
            direction,
            block: rect.block,
        },
    }
}

/// Face `i` stands for rectangle `i`, for every `i`.
spec fn faces_match(faces: Seq<Face>, rects: Seq<Rect>, chunk: Chunk, lod: u32) -> bool {
    &&& faces.len() == rects.len()
    &&& forall|i: int| 0 <= i < faces.len() ==> #[trigger] faces[i] == face_of(rects[i], chunk, lod)
}

/// The rectangle lies on the plane `d` across `axis`, on the side that `positive` tells.
spec fn on_plane(rect: Rect, axis: Axis, positive: bool, d: int) -> bool {
    rect.axis == axis && rect.positive == positive && rect.d == d
}

/// The rows of a plane show the cells that are exposed and that no
/// rectangle from `base` on holds.
spec fn rows_show(
    rows: Seq<u32>,
    chunk: Chunk,
    lod: u32,
    axis: Axis,
    positive: bool,
    d: int,
    rects: Seq<Rect>,
    base: int,
) -> bool {
    &&& rows.len() == samples_of(lod)
    &&& forall|u: int, v: int|
        0 <= v < rows.len() ==> #[trigger] has_bit(rows[v], u) == (exposed(
            chunk,
            lod,
            plane_cell(axis, positive, d, u, v),
        ) && !covered(rects, base, rects.len() as int, plane_cell(axis, positive, d, u, v)))
}

/// The face for the rectangle `[u, u + w) x [v, v + h)` of a plane.
fn make_face(
    chunk: &Chunk,
    lod: u32,
    axis: Axis,
    positive: bool,
    d: usize,
    u: usize,
    v: usize,
    w: usize,
    h: usize,
    block: u8,
) -> (face: Face)
    requires
        chunk.wf(),
        lod <= 5,
        d <= samples_of(lod),
        u + w <= samples_of(lod),
        v + h <= samples_of(lod),
    ensures
        face == face_of(
            Rect { axis, positive, d: d as int, u: u as int, v: v as int, w: w as int, h: h as int, block },
            *chunk,
            lod,
        ),
{
    let scale: usize = 1usize << lod;
    assert(scale == scale_of(lod)) by (bit_vector)
        requires
            scale == 1usize << lod,
            lod <= 5,
    ;
    proof {
        lemma_sample_place(lod, d as int);
        lemma_sample_place(lod, u as int);
        lemma_sample_place(lod, v as int);
        lemma_sample_place(lod, w as int);
        lemma_sample_place(lod, h as int);
    }
    let pd: i32 = (d * scale) as i32;
    let pu: i32 = (u * scale) as i32;
    let pv: i32 = (v * scale) as i32;
    let width: i32 = (w * scale) as i32;
    let height: i32 = (h * scale) as i32;
    let direction: Direction = Direction::along(axis, positive);
    match axis {
        Axis::X => Face {
            x: chunk.origin_x + pd,
            y: chunk.origin_y + pu,
            z: chunk.origin_z + pv,
            width,
            height,
            direction,
            block,
        },
        Axis::Y => Face {
            x: chunk.origin_x + pu,
            y: chunk.origin_y + pd,
            z: chunk.origin_z + pv,
            width,
            height,
            direction,
            block,
        },
        Axis::Z => Face {
            x: chunk.origin_x + pu,
            y: chunk.origin_y + pv,
            z: chunk.origin_z + pd,
            width,
            height,
            direction,
            block,
        },
    }
}

/// A rectangle is sound among its predecessors, whatever follows it.
proof fn lemma_sound_prefix(chunk: Chunk, lod: u32, a: Seq<Rect>, b: Seq<Rect>, i: int)
    requires
        0 <= i < a.len(),
        i < b.len(),
        forall|j: int| 0 <= j <= i ==> a[j] == b[j],
        rect_sound(chunk, lod, a, i),
    ensures
        rect_sound(chunk, lod, b, i),
{
    assert forall|cell: Cell| covered(b, 0, i, cell) == covered(a, 0, i, cell) by {
        if covered(b, 0, i, cell) {
            let j = choose|j: int| 0 <= j < i && #[trigger] rect_covers(b[j], cell);
            assert(rect_covers(a[j], cell));
        }
        if covered(a, 0, i, cell) {
            let j = choose|j: int| 0 <= j < i && #[trigger] rect_covers(a[j], cell);
            assert(rect_covers(b[j], cell));
        }
    }
    let r = a[i];
    let n = samples_of(lod);
    assert(rect_apart(b, i)) by {
        assert forall|u: int, v: int|
            b[i].u <= u < b[i].u + b[i].w && b[i].v <= v < b[i].v + b[i].h implies !covered(
            b,
            0,
            i,
            #[trigger] rect_cell(b[i], u, v),
        ) by {
            assert(!covered(a, 0, i, rect_cell(a[i], u, v)));
        }
    }
    if r.v + r.h < n {
        let k = choose|k: int|
            r.u <= k < r.u + r.w && !can_join(chunk, lod, a, i, #[trigger] rect_cell(r, k, r.v + r.h));
        assert(!can_join(chunk, lod, b, i, rect_cell(r, k, r.v + r.h)));
    }
    if r.v > 0 {
        let k = choose|k: int|
            r.u <= k < r.u + r.w && !can_join(chunk, lod, a, i, #[trigger] rect_cell(r, k, r.v - 1));
        assert(!can_join(chunk, lod, b, i, rect_cell(r, k, r.v - 1)));
    }
}

/// No rectangle before `upto` lies on the plane.
spec fn off_plane(rects: Seq<Rect>, upto: int, axis: Axis, positive: bool, d: int) -> bool {
    forall|i: int| 0 <= i < upto ==> !#[trigger] on_plane(rects[i], axis, positive, d)
}

/// The scan of a plane has come to cell `(u, v)`: the rectangles before
/// `base` lie on earlier planes, the others on this plane, with their first
/// cells before `(u, v)`.
spec fn scan_front(
    rects: Seq<Rect>,
    base: int,
    axis: Axis,
    positive: bool,
    d: int,
    u: int,
    v: int,
) -> bool {
    &&& forall|i: int|
        0 <= i < base ==> plane_rank((#[trigger] rects[i]).axis, rects[i].positive, rects[i].d)
            < plane_rank(axis, positive, d)
    &&& forall|i: int|
        base <= i < rects.len() ==> on_plane(#[trigger] rects[i], axis, positive, d) && (rects[i].v
            < v || (rects[i].v == v && rects[i].u < u))
}

/// The cells of `rect` are free in `rows` and show its block, and the run
/// stops where the rectangle ends.
spec fn greedy_pick(chunk: Chunk, lod: u32, rows: Seq<u32>, rect: Rect) -> bool {
    let n = samples_of(lod);
    let src = shown_slice(rect.positive, rect.d);
    &&& forall|k: int, r: int|
        rect.u <= k < rect.u + rect.w && rect.v <= r < rect.v + rect.h ==> #[trigger] joins(
            chunk,
            lod,
            rect.axis,
            src,
            rows[r],
            k,
            r,
            rect.block,
        )
    &&& rect.u + rect.w < n ==> !joins(
        chunk,
        lod,
        rect.axis,
        src,
        rows[rect.v],
        rect.u + rect.w,
        rect.v,
        rect.block,
    )
    &&& rect.v + rect.h < n ==> exists|k: int|
        rect.u <= k < rect.u + rect.w && !#[trigger] joins(
            chunk,
            lod,
            rect.axis,
            src,
            rows[rect.v + rect.h],
            k,
            rect.v + rect.h,
            rect.block,
        )
}

/// `cleared` is `rows` without the cells of `rect`.
spec fn rows_cleared(rows: Seq<u32>, cleared: Seq<u32>, rect: Rect) -> bool {
    &&& cleared.len() == rows.len()
    &&& forall|k: int, r: int|
        0 <= r < rows.len() ==> #[trigger] has_bit(cleared[r], k) == (has_bit(rows[r], k) && !(
        rect.u <= k < rect.u + rect.w && rect.v <= r < rect.v + rect.h))
}

/// A rectangle that the greedy scan picked keeps the mesh sound, and the
/// rows without its cells show what is left of the plane.
proof fn lemma_push_rect(
    chunk: Chunk,
    lod: u32,
    rects: Seq<Rect>,
    base: int,
    rows: Seq<u32>,
    cleared: Seq<u32>,
    rect: Rect,
)
    requires
        lod <= 5,
        mesh_sound(chunk, lod, rects),
        0 <= base <= rects.len(),
        scan_front(rects, base, rect.axis, rect.positive, rect.d, rect.u, rect.v),
        rect_valid(lod, rect),
        rows_show(rows, chunk, lod, rect.axis, rect.positive, rect.d, rects, base),
        greedy_pick(chunk, lod, rows, rect),
        scanned(rows, rect.u, rect.v),
        rows_cleared(rows, cleared, rect),
    ensures
        mesh_sound(chunk, lod, rects.push(rect)),
        scan_front(
            rects.push(rect),
            base,
            rect.axis,
            rect.positive,
            rect.d,
            rect.u + rect.w,
            rect.v,
        ),
        rows_show(cleared, chunk, lod, rect.axis, rect.positive, rect.d, rects.push(rect), base),
{
    let n = samples_of(lod);
    let len = rects.len() as int;
    let after = rects.push(rect);
    let src = shown_slice(rect.positive, rect.d);
    lemma_scale(lod);
    assert(off_plane(rects, base, rect.axis, rect.positive, rect.d)) by {
        assert forall|i: int| 0 <= i < base implies !#[trigger] on_plane(
            rects[i],
            rect.axis,
            rect.positive,
            rect.d,
        ) by {
            assert(plane_rank(rects[i].axis, rects[i].positive, rects[i].d) < plane_rank(
                rect.axis,
                rect.positive,
                rect.d,
            ));
        }
    }
    assert(rect_ordered(after, len)) by {
        if len > 0 {
            let prev = rects[len - 1];
            assert(rect_sound(chunk, lod, rects, len - 1));
            if len - 1 < base {
                assert(plane_rank(prev.axis, prev.positive, prev.d) < plane_rank(
                    rect.axis,
                    rect.positive,
                    rect.d,
                ));
            } else {
                assert(on_plane(prev, rect.axis, rect.positive, rect.d));
            }
        }
    }
    assert(scan_front(
        after,
        base,
        rect.axis,
        rect.positive,
        rect.d,
        rect.u + rect.w,
        rect.v,
    )) by {
        assert forall|i: int| 0 <= i < base implies plane_rank(
            (#[trigger] after[i]).axis,
            after[i].positive,
            after[i].d,
        ) < plane_rank(rect.axis, rect.positive, rect.d) by {
            assert(after[i] == rects[i]);
        }
        assert forall|i: int| base <= i < after.len() implies on_plane(
            #[trigger] after[i],
            rect.axis,
            rect.positive,
            rect.d,
        ) && (after[i].v < rect.v || (after[i].v == rect.v && after[i].u < rect.u + rect.w)) by {
            if i < len {
                assert(after[i] == rects[i]);
            }
        }
    }
    // What the rows say of a cell of this plane, in terms of all rectangles so far.
    assert forall|u: int, v: int| 0 <= v < n && has_bit(rows[v], u) implies exposed(
        chunk,
        lod,
        rect_cell(rect, u, v),
    ) && !covered(after, 0, len, #[trigger] rect_cell(rect, u, v)) by {
        let cell = rect_cell(rect, u, v);
        assert(cell == plane_cell(rect.axis, rect.positive, rect.d, u, v));
        if covered(after, 0, len, cell) {
            let j = choose|j: int| 0 <= j < len && #[trigger] rect_covers(after[j], cell);
            assert(rect_covers(rects[j], cell));
            if j < base {
                assert(on_plane(rects[j], rect.axis, rect.positive, rect.d));
            }
        }
    }
    assert forall|u: int, v: int| 0 <= v < n && !has_bit(rows[v], u) implies !exposed(
        chunk,
        lod,
        rect_cell(rect, u, v),
    ) || covered(after, 0, len, #[trigger] rect_cell(rect, u, v)) by {
        let cell = rect_cell(rect, u, v);
        assert(cell == plane_cell(rect.axis, rect.positive, rect.d, u, v));
        if exposed(chunk, lod, cell) {
            let j = choose|j: int| base <= j < len && #[trigger] rect_covers(rects[j], cell);
            assert(rect_covers(after[j], cell));
        }
    }
    assert(rect_on_surface(chunk, lod, rect)) by {
        assert forall|u: int, v: int|
            rect.u <= u < rect.u + rect.w && rect.v <= v < rect.v + rect.h implies exposed(
            chunk,
            lod,
            #[trigger] rect_cell(rect, u, v),
        ) && face_block(chunk, lod, rect_cell(rect, u, v)) == rect.block by {
            assert(joins(chunk, lod, rect.axis, src, rows[v], u, v, rect.block));
        }
    }
    assert(rect_apart(after, len)) by {
        assert forall|u: int, v: int|
            rect.u <= u < rect.u + rect.w && rect.v <= v < rect.v + rect.h implies !covered(
            after,
            0,
            len,
            #[trigger] rect_cell(rect, u, v),
        ) by {
            assert(joins(chunk, lod, rect.axis, src, rows[v], u, v, rect.block));
        }
    }
    assert(rect_maximal(chunk, lod, after, len)) by {
        if rect.u + rect.w < n {
            let cell = rect_cell(rect, rect.u + rect.w, rect.v);
            assert(!joins(chunk, lod, rect.axis, src, rows[rect.v], rect.u + rect.w, rect.v, rect.block));
            if !has_bit(rows[rect.v], rect.u + rect.w) {
                assert(!exposed(chunk, lod, cell) || covered(after, 0, len, cell));
            }
        }
        if rect.v + rect.h < n {
            let k = choose|k: int|
                rect.u <= k < rect.u + rect.w && !#[trigger] joins(
                    chunk,
                    lod,
                    rect.axis,
                    src,
                    rows[rect.v + rect.h],
                    k,
                    rect.v + rect.h,
                    rect.block,
                );
            let cell = rect_cell(rect, k, rect.v + rect.h);
            if !has_bit(rows[rect.v + rect.h], k) {
                assert(!exposed(chunk, lod, cell) || covered(after, 0, len, cell));
            }
            assert(!can_join(chunk, lod, after, len, rect_cell(rect, k, rect.v + rect.h)));
        }
        if rect.u > 0 {
            let cell = rect_cell(rect, rect.u - 1, rect.v);
            assert(!has_bit(rows[rect.v], rect.u - 1));
            assert(!exposed(chunk, lod, cell) || covered(after, 0, len, cell));
        }
        if rect.v > 0 {
            let cell = rect_cell(rect, rect.u, rect.v - 1);
            assert(!has_bit(rows[rect.v - 1], rect.u));
            assert(!exposed(chunk, lod, cell) || covered(after, 0, len, cell));
            assert(!can_join(chunk, lod, after, len, rect_cell(rect, rect.u, rect.v - 1)));
        }
    }
    assert forall|i: int| 0 <= i < after.len() implies #[trigger] rect_sound(
        chunk,
        lod,
        after,
        i,
    ) by {
        if i < len {
            assert(rect_sound(chunk, lod, rects, i));
            lemma_sound_prefix(chunk, lod, rects, after, i);
        }
    }
    assert forall|u: int, v: int| 0 <= v < cleared.len() implies #[trigger] has_bit(
        cleared[v],
        u,
    ) == (exposed(chunk, lod, plane_cell(rect.axis, rect.positive, rect.d, u, v)) && !covered(
        after,
        base,
        after.len() as int,
        plane_cell(rect.axis, rect.positive, rect.d, u, v),
    )) by {
        let cell = plane_cell(rect.axis, rect.positive, rect.d, u, v);
        assert(has_bit(rows[v], u) == (exposed(chunk, lod, cell) && !covered(
            rects,
            base,
            len,
            cell,
        )));
        if covered(after, base, after.len() as int, cell) {
            let j = choose|j: int| base <= j < after.len() && #[trigger] rect_covers(after[j], cell);
            if j < len {
                assert(rect_covers(rects[j], cell));
            }
        }
        if covered(rects, base, len, cell) {
            let j = choose|j: int| base <= j < len && #[trigger] rect_covers(rects[j], cell);
            assert(rect_covers(after[j], cell));
        }
        if rect_covers(rect, cell) {
            assert(rect_covers(after[len], cell));
        }
    }
}

/// Every row before `v` is empty, and so is row `v` left of `u`.
spec fn scanned(rows: Seq<u32>, u: int, v: int) -> bool {
    &&& forall|k: int, r: int| 0 <= r < v ==> !#[trigger] has_bit(rows[r], k)
    &&& forall|k: int| 0 <= k < u ==> !#[trigger] has_bit(rows[v], k)
}

/// Merges the exposed cells of one plane into rectangles, scanning line by
/// line from the left: a rectangle grows to the right while the cells are
/// free and of its block, then downwards while whole lines are.
fn mesh_plane(
    chunk: &Chunk,
    lod: u32,
    axis: Axis,
    positive: bool,
    d: usize,
    rows: &mut Vec<u32>,
    faces: &mut Vec<Face>,
    Ghost(rects): Ghost<Seq<Rect>>,
) -> (out: Ghost<Seq<Rect>>)
    requires
        chunk.wf(),
        lod <= 5,
        d <= samples_of(lod),
        faces_match(old(faces)@, rects, *chunk, lod),
        mesh_sound(*chunk, lod, rects),
        scan_front(rects, rects.len() as int, axis, positive, d as int, 0, 0),
        rows_show(old(rows)@, *chunk, lod, axis, positive, d as int, rects, rects.len() as int),
    ensures
        faces_match(final(faces)@, out@, *chunk, lod),
        mesh_sound(*chunk, lod, out@),
        out@.len() >= rects.len(),
        forall|i: int| 0 <= i < rects.len() ==> out@[i] == rects[i],
        forall|i: int| rects.len() <= i < out@.len() ==> on_plane(out@[i], axis, positive, d as int),
        forall|u: int, v: int|
            0 <= v < samples_of(lod) && exposed(
                *chunk,
                lod,
                #[trigger] plane_cell(axis, positive, d as int, u, v),
            ) ==> covered(
                out@,
                0,
                out@.len() as int,
                plane_cell(axis, positive, d as int, u, v),
            ),
{
    let n: usize = sample_count(lod);
    let ghost base = rects.len() as int;
    let ghost mut done: Seq<Rect> = rects;
    let mut v: usize = 0;
    while v < n
        invariant
            chunk.wf(),
            lod <= 5,
            n == samples_of(lod),
            d <= n,
            v <= n,
            base == rects.len(),
            done.len() >= base,
            faces_match(faces@, done, *chunk, lod),
            mesh_sound(*chunk, lod, done),
            scan_front(done, base, axis, positive, d as int, 0, v as int),
            rows_show(rows@, *chunk, lod, axis, positive, d as int, done, base),
            forall|i: int| 0 <= i < base ==> done[i] == rects[i],
            forall|k: int, r: int| 0 <= r < v ==> !#[trigger] has_bit(rows[r], k),
        decreases n - v,
    {
        let mut u: usize = 0;
        while u < n
            invariant
                chunk.wf(),
                lod <= 5,
                n == samples_of(lod),
                n <= 32,
                d <= n,
                v < n,
                u <= n,
                base == rects.len(),
                done.len() >= base,
                faces_match(faces@, done, *chunk, lod),
                mesh_sound(*chunk, lod, done),
                scan_front(done, base, axis, positive, d as int, u as int, v as int),
                rows_show(rows@, *chunk, lod, axis, positive, d as int, done, base),
                forall|i: int| 0 <= i < base ==> done[i] == rects[i],
                scanned(rows@, u as int, v as int),
            decreases n - u,
        {
            if test_bit(rows[v], u) {
                proof {
                    // An exposed cell has a solid sample behind it, so that slice exists.
                    assert(exposed(*chunk, lod, plane_cell(axis, positive, d as int, u as int, v as int)));
                }
                let src: usize = if positive {
                    d - 1
                } else {
                    d
                };
                let id: u8 = sample_block(chunk, lod, axis, src, u, v);
                let w: usize = run_width(chunk, lod, axis, src, rows[v], u, v, id);
                let h: usize = run_height(chunk, lod, axis, src, rows, u, w, v, id);
                let face: Face = make_face(chunk, lod, axis, positive, d, u, v, w, h, id);
                let ghost rect = Rect {
                    axis,
                    positive,
                    d: d as int,
                    u: u as int,
                    v: v as int,
                    w: w as int,
                    h: h as int,
                    block: id,
                };
                let ghost before = rows@;
                let ghost old_faces = faces@;
                faces.push(face);
                clear_rect(rows, u, w, v, h);
                proof {
                    assert(shown_slice(rect.positive, rect.d) == src);
                    assert forall|k: int, r: int|
                        rect.u <= k < rect.u + rect.w && rect.v <= r < rect.v
                            + rect.h implies #[trigger] joins(
                        *chunk,
                        lod,
                        rect.axis,
                        shown_slice(rect.positive, rect.d),
                        before[r],
                        k,
                        r,
                        rect.block,
                    ) by {
                        assert(joins(*chunk, lod, axis, src as int, before[r], k, r, id));
                    }
                    if rect.v + rect.h < n {
                        let k = choose|k: int|
                            u <= k < u + w && !#[trigger] joins(
                                *chunk,
                                lod,
                                axis,
                                src as int,
                                before[v + h],
                                k,
                                v + h,
                                id,
                            );
                        assert(!joins(
                            *chunk,
                            lod,
                            rect.axis,
                            shown_slice(rect.positive, rect.d),
                            before[rect.v + rect.h],
                            k,
                            rect.v + rect.h,
                            rect.block,
                        ));
                    }
                    assert(greedy_pick(*chunk, lod, before, rect));
                    lemma_push_rect(*chunk, lod, done, base, before, rows@, rect);
                    done = done.push(rect);
                    assert forall|i: int| 0 <= i < faces@.len() implies #[trigger] faces@[i]
                        == face_of(done[i], *chunk, lod) by {
                        if i < old_faces.len() {
                            assert(faces@[i] == old_faces[i]);
                        }
                    }
                }
                u = u + w;
            } else {
                u = u + 1;
            }
        }
        v = v + 1;
    }
    proof {
        assert forall|u: int, v: int|
            0 <= v < samples_of(lod) && exposed(
                *chunk,
                lod,
                #[trigger] plane_cell(axis, positive, d as int, u, v),
            ) implies covered(
            done,
            0,
            done.len() as int,
            plane_cell(axis, positive, d as int, u, v),
        ) by {
            let cell = plane_cell(axis, positive, d as int, u, v);
            assert(!has_bit(rows[v], u));
            assert(covered(done, base, done.len() as int, cell));
            let j = choose|j: int| base <= j < done.len() && #[trigger] rect_covers(done[j], cell);
            assert(rect_covers(done[j], cell));
        }
    }
    Ghost(done)
}

/// The rectangle of cells that a face of a chunk stands for.
pub open spec fn rect_of(face: Face, chunk: Chunk, lod: u32) -> Rect {
    let s = scale_of(lod);
    let origin = chunk.origin();
    let x = (face.x - origin.0) / s;
    let y = (face.y - origin.1) / s;
    let z = (face.z - origin.2) / s;
    let w = face.width / (s as i32);
    let h = face.height / (s as i32);
    match face.direction {
        Direction::PosX => Rect {
            axis: Axis::X,
            positive: true,
            d: x,
            u: y,
            v: z,
            w,
            h,
            block: face.block,
        },
        Direction::NegX => Rect {
            axis: Axis::X,
            positive: false,
            d: x,
            u: y,
            v: z,
            w,
            h,
            block: face.block,
        },
        Direction::PosY => Rect {
            axis: Axis::Y,
            positive: true,
            d: y,
            u: x,
            v: z,
            w,
            h,
            block: face.block,
        },
        Direction::NegY => Rect {
            axis: Axis::Y,
            positive: false,
            d: y,
            u: x,
            v: z,
            w,
            h,
            block: face.block,
        },
        Direction::PosZ => Rect {
            axis: Axis::Z,
            positive: true,
            d: z,
            u: x,
            v: y,
            w,
            h,
            block: face.block,
        },
        Direction::NegZ => Rect {
            axis: Axis::Z,
            positive: false,
            d: z,
            u: x,
            v: y,
            w,
            h,
            block: face.block,
        },
    }
}

/// The rectangles that the faces of a chunk stand for.
pub open spec fn rects_of(faces: Seq<Face>, chunk: Chunk, lod: u32) -> Seq<Rect> {
    Seq::new(faces.len(), |i: int| rect_of(faces[i], chunk, lod))
}

/// The faces are a greedy mesh of the chunk's surface: each is a rectangle
/// of whole cells, exposed and of one block; together they hold every exposed
/// cell; no two overlap; and each is maximal in the order of the list.
pub open spec fn is_mesh(faces: Seq<Face>, chunk: Chunk, lod: u32) -> bool {
    let rects = rects_of(faces, chunk, lod);
    &&& forall|i: int| 0 <= i < faces.len() ==> #[trigger] faces[i] == face_of(rects[i], chunk, lod)
    &&& mesh_sound(chunk, lod, rects)
    &&& mesh_complete(chunk, lod, rects)
}

/// The planes below rank `bound` are meshed, and no other.
spec fn meshed_below(chunk: Chunk, lod: u32, rects: Seq<Rect>, bound: int) -> bool {
    &&& forall|cell: Cell|
        in_grid(lod, cell) && plane_rank(cell.axis, cell.positive, cell.d) < bound
            && #[trigger] exposed(chunk, lod, cell) ==> covered(rects, 0, rects.len() as int, cell)
    &&& forall|i: int|
        0 <= i < rects.len() ==> plane_rank(
            (#[trigger] rects[i]).axis,
            rects[i].positive,
            rects[i].d,
        ) < bound
}

/// A face stands for the rectangle it was made of.
proof fn lemma_rect_of_face(rect: Rect, chunk: Chunk, lod: u32)
    requires
        chunk.wf(),
        lod <= 5,
        rect_valid(lod, rect),
    ensures
        rect_of(face_of(rect, chunk, lod), chunk, lod) == rect,
{
    let s = scale_of(lod);
    lemma_scale(lod);
    lemma_sample_place(lod, rect.d);
    lemma_sample_place(lod, rect.u);
    lemma_sample_place(lod, rect.v);
    lemma_sample_place(lod, rect.w);
    lemma_sample_place(lod, rect.h);
    assert((rect.d * s) / s == rect.d && (rect.u * s) / s == rect.u && (rect.v * s) / s == rect.v
        && (rect.w * s) / s == rect.w && (rect.h * s) / s == rect.h) by (nonlinear_arith)
        requires
            s >= 1,
    ;
}

/// Meshing one more plane keeps the earlier planes meshed.
proof fn lemma_plane_meshed(
    chunk: Chunk,
    lod: u32,
    rects: Seq<Rect>,
    out: Seq<Rect>,
    axis: Axis,
    positive: bool,
    d: int,
)
    requires
        lod <= 5,
        0 <= d <= samples_of(lod),
        meshed_below(chunk, lod, rects, plane_rank(axis, positive, d)),
        out.len() >= rects.len(),
        forall|i: int| 0 <= i < rects.len() ==> out[i] == rects[i],
        forall|i: int| rects.len() <= i < out.len() ==> on_plane(out[i], axis, positive, d),
        forall|u: int, v: int|
            0 <= v < samples_of(lod) && exposed(
                chunk,
                lod,
                #[trigger] plane_cell(axis, positive, d, u, v),
            ) ==> covered(out, 0, out.len() as int, plane_cell(axis, positive, d, u, v)),
    ensures
        meshed_below(chunk, lod, out, plane_rank(axis, positive, d) + 1),
{
    let bound = plane_rank(axis, positive, d);
    assert forall|cell: Cell|
        in_grid(lod, cell) && plane_rank(cell.axis, cell.positive, cell.d) < bound + 1
            && #[trigger] exposed(chunk, lod, cell) implies covered(
        out,
        0,
        out.len() as int,
        cell,
    ) by {
        if plane_rank(cell.axis, cell.positive, cell.d) < bound {
            assert(covered(rects, 0, rects.len() as int, cell));
            let j = choose|j: int| 0 <= j < rects.len() && #[trigger] rect_covers(rects[j], cell);
            assert(rect_covers(out[j], cell));
        } else {
            assert(cell.axis == axis && cell.positive == positive && cell.d == d);
            assert(cell == plane_cell(axis, positive, d, cell.u, cell.v));
        }
    }
    assert forall|i: int| 0 <= i < out.len() implies plane_rank(
        (#[trigger] out[i]).axis,
        out[i].positive,
        out[i].d,
    ) < bound + 1 by {
        if i < rects.len() {
            assert(out[i] == rects[i]);
        } else {
            assert(on_plane(out[i], axis, positive, d));
        }
    }
}

/// Turns dense chunks into faces.
pub struct ChunkMesher;

impl ChunkMesher {
    /// The faces of the chunk's surface at a level of detail: the chunk is
    /// sampled every `2^lod` voxels, and the exposed cells of each plane are
    /// merged greedily into rectangles of one block.
    pub fn generate(chunk: &Chunk, lod: u32) -> (faces: Vec<Face>)
        requires
            chunk.wf(),
            lod <= MAX_LOD,
        ensures
            is_mesh(faces@, *chunk, lod),
    {
        let n: usize = sample_count(lod);
        let mut faces: Vec<Face> = Vec::new();
        let ghost mut rects: Seq<Rect> = Seq::empty();
        let mut a: usize = 0;
        while a < 3
            invariant
                chunk.wf(),
                lod <= 5,
                n == samples_of(lod),
                1 <= n <= 32,
                a <= 3,
                faces_match(faces@, rects, *chunk, lod),
                mesh_sound(*chunk, lod, rects),
                meshed_below(*chunk, lod, rects, a * 66),
            decreases 3 - a,
        {
            let axis: Axis = if a == 0 {
                Axis::X
            } else if a == 1 {
                Axis::Y
            } else {
                Axis::Z
            };
            let mut prev: Vec<u32> = vec![0u32; n];
            proof {
                assert forall|u: int, v: int| 0 <= v < prev.len() implies #[trigger] has_bit(
                    prev[v],
                    u,
                ) == solid(*chunk, lod, axis, -1, u, v) by {
                    lemma_empty_row(u);
                }
            }
            let mut d: usize = 0;
            while d <= n
                invariant
                    chunk.wf(),
                    lod <= 5,
                    n == samples_of(lod),
                    1 <= n <= 32,
                    a < 3,
                    axis_index(axis) == a,
                    d <= n + 1,
                    prev.len() == n,
                    forall|u: int, v: int|
                        0 <= v < prev.len() ==> #[trigger] has_bit(prev[v], u) == solid(
                            *chunk,
                            lod,
                            axis,
                            d - 1,
                            u,
                            v,
                        ),
                    faces_match(faces@, rects, *chunk, lod),
                    mesh_sound(*chunk, lod, rects),
                    meshed_below(*chunk, lod, rects, plane_rank(axis, true, d as int)),
                decreases n + 1 - d,
            {
                let curr: Vec<u32> = slice_rows(chunk, lod, axis, d);
                let mut rows: Vec<u32> = exposed_rows(&prev, &curr, true);
                proof {
                    lemma_fresh_plane(*chunk, lod, rects, rows@, axis, true, d as int);
                }
                let out = mesh_plane(chunk, lod, axis, true, d, &mut rows, &mut faces, Ghost(rects));
                proof {
                    lemma_plane_meshed(*chunk, lod, rects, out@, axis, true, d as int);
                    rects = out@;
                }
                let mut rows: Vec<u32> = exposed_rows(&prev, &curr, false);
                proof {
                    lemma_fresh_plane(*chunk, lod, rects, rows@, axis, false, d as int);
                }
                let out = mesh_plane(chunk, lod, axis, false, d, &mut rows, &mut faces, Ghost(rects));
                proof {
                    lemma_plane_meshed(*chunk, lod, rects, out@, axis, false, d as int);
                    rects = out@;
                }
                prev = curr;
                d = d + 1;
            }
            proof {
                lemma_axis_meshed(*chunk, lod, rects, axis, d as int);
            }
            a = a + 1;
        }
        proof {
            let ghost found = rects_of(faces@, *chunk, lod);
            assert forall|i: int| 0 <= i < rects.len() implies found[i] == rects[i] by {
                assert(rect_sound(*chunk, lod, rects, i));
                assert(faces@[i] == face_of(rects[i], *chunk, lod));
                lemma_rect_of_face(rects[i], *chunk, lod);
            }
            assert(found =~= rects);
            assert forall|cell: Cell|
                in_grid(lod, cell) && #[trigger] exposed(*chunk, lod, cell) implies covered(
                rects,
                0,
                rects.len() as int,
                cell,
            ) by {
                assert(plane_rank(cell.axis, cell.positive, cell.d) < 198);
            }
        }
        faces
    }
}

/// Before a plane is meshed, its rows show all its exposed cells, and every
/// rectangle lies on an earlier plane.
proof fn lemma_fresh_plane(
    chunk: Chunk,
    lod: u32,
    rects: Seq<Rect>,
    rows: Seq<u32>,
    axis: Axis,
    positive: bool,
    d: int,
)
    requires
        rows.len() == samples_of(lod),
        forall|u: int, v: int|
            0 <= v < rows.len() ==> #[trigger] has_bit(rows[v], u) == (if positive {
                solid(chunk, lod, axis, d - 1, u, v) && !solid(chunk, lod, axis, d, u, v)
            } else {
                !solid(chunk, lod, axis, d - 1, u, v) && solid(chunk, lod, axis, d, u, v)
            }),
        forall|i: int|
            0 <= i < rects.len() ==> plane_rank(
                (#[trigger] rects[i]).axis,
                rects[i].positive,
                rects[i].d,
            ) < plane_rank(axis, positive, d),
    ensures
        scan_front(rects, rects.len() as int, axis, positive, d, 0, 0),
        rows_show(rows, chunk, lod, axis, positive, d, rects, rects.len() as int),
{
}

/// When the last plane across an axis is meshed, every plane before the
/// next axis is.
proof fn lemma_axis_meshed(chunk: Chunk, lod: u32, rects: Seq<Rect>, axis: Axis, d: int)
    requires
        lod <= 5,
        d == samples_of(lod) + 1,
        meshed_below(chunk, lod, rects, plane_rank(axis, true, d)),
    ensures
        meshed_below(chunk, lod, rects, (axis_index(axis) + 1) * 66),
{
    lemma_scale(lod);
    assert forall|cell: Cell|
        in_grid(lod, cell) && plane_rank(cell.axis, cell.positive, cell.d) < (axis_index(axis) + 1)
            * 66 && #[trigger] exposed(chunk, lod, cell) implies covered(
        rects,
        0,
        rects.len() as int,
        cell,
    ) by {
        assert(plane_rank(cell.axis, cell.positive, cell.d) < plane_rank(axis, true, d));
    }
}

/// The faces of a mesh hold exactly the exposed cells of the chunk.
pub proof fn lemma_mesh_covers_surface(faces: Seq<Face>, chunk: Chunk, lod: u32, cell: Cell)
    requires
        lod <= 5,
        is_mesh(faces, chunk, lod),
    ensures
        covered(rects_of(faces, chunk, lod), 0, faces.len() as int, cell) <==> in_grid(lod, cell)
            && exposed(chunk, lod, cell),
{
    let rects = rects_of(faces, chunk, lod);
    if covered(rects, 0, faces.len() as int, cell) {
        let i = choose|i: int| 0 <= i < faces.len() && #[trigger] rect_covers(rects[i], cell);
        assert(rect_sound(chunk, lod, rects, i));
        assert(cell == rect_cell(rects[i], cell.u, cell.v));
    }
}

/// No two faces of a mesh hold the same cell.
pub proof fn lemma_mesh_faces_apart(
    faces: Seq<Face>,
    chunk: Chunk,
    lod: u32,
    i: int,
    j: int,
    cell: Cell,
)
    requires
        is_mesh(faces, chunk, lod),
        0 <= i < j < faces.len(),
    ensures
        !(rect_covers(rects_of(faces, chunk, lod)[i], cell) && rect_covers(
            rects_of(faces, chunk, lod)[j],
            cell,
        )),
{
    let rects = rects_of(faces, chunk, lod);
    if rect_covers(rects[i], cell) && rect_covers(rects[j], cell) {
        assert(rect_sound(chunk, lod, rects, j));
        assert(cell == rect_cell(rects[j], cell.u, cell.v));
        assert(covered(rects, 0, j, cell));
    }
}

/// A corner of a face in world space.
#[derive(Clone, Copy, Debug, PartialEq, Eq, Structural)]
pub struct Corner {
    pub x: i64,
    pub y: i64,
    pub z: i64,
}

/// The point `(x + dx, y + dy, z + dz)`.
pub open spec fn corner_at(face: Face, dx: int, dy: int, dz: int) -> Corner {
    Corner { x: (face.x + dx) as i64, y: (face.y + dy) as i64, z: (face.z + dz) as i64 }
}

/// The four corners of a face, in the order in which they turn
/// counter-clockwise for a viewer on the face's outside. The first three
/// and the first, third and fourth are its two triangles.
pub open spec fn corners_of(face: Face) -> Seq<Corner> {
    let w = face.width as int;
    let h = face.height as int;
    match face.direction {
        Direction::PosX => seq![
            corner_at(face, 0, 0, 0),
            corner_at(face, 0, w, 0),
            corner_at(face, 0, w, h),
            corner_at(face, 0, 0, h),
        ],
        Direction::NegX => seq![
            corner_at(face, 0, 0, 0),
            corner_at(face, 0, 0, h),
            corner_at(face, 0, w, h),
            corner_at(face, 0, w, 0),
        ],
        Direction::PosY => seq![
            corner_at(face, 0, 0, 0),
            corner_at(face, 0, 0, h),
            corner_at(face, w, 0, h),
            corner_at(face, w, 0, 0),
        ],
        Direction::NegY => seq![
            corner_at(face, 0, 0, 0),
            corner_at(face, w, 0, 0),
            corner_at(face, w, 0, h),
            corner_at(face, 0, 0, h),
        ],
        Direction::PosZ => seq![
            corner_at(face, 0, 0, 0),
            corner_at(face, w, 0, 0),
            corner_at(face, w, h, 0),
            corner_at(face, 0, h, 0),
        ],
        Direction::NegZ => seq![
            corner_at(face, 0, 0, 0),
            corner_at(face, 0, h, 0),
            corner_at(face, w, h, 0),
            corner_at(face, w, 0, 0),
        ],
    }
}

/// The outward unit vector of a direction.
pub open spec fn normal_of(direction: Direction) -> (int, int, int) {
    match direction {
        Direction::PosX => (1, 0, 0),
        Direction::NegX => (-1, 0, 0),
        Direction::PosY => (0, 1, 0),
        Direction::NegY => (0, -1, 0),
        Direction::PosZ => (0, 0, 1),
        Direction::NegZ => (0, 0, -1),
    }
}

/// The cross product of the sides `a -> b` and `a -> c`.
pub open spec fn cross(a: Corner, b: Corner, c: Corner) -> (int, int, int) {
    let ux = b.x - a.x;
    let uy = b.y - a.y;
    let uz = b.z - a.z;
    let vx = c.x - a.x;
    let vy = c.y - a.y;
    let vz = c.z - a.z;
    (uy * vz - uz * vy, uz * vx - ux * vz, ux * vy - uy * vx)
}

impl Face {
    /// The four corners of the face, counter-clockwise as seen from its outside.
    pub fn corners(&self) -> (corners: [Corner; 4])
        ensures
            corners@ == corners_of(*self),
    {
        let x: i64 = self.x as i64;
        let y: i64 = self.y as i64;
        let z: i64 = self.z as i64;
        let w: i64 = self.width as i64;
        let h: i64 = self.height as i64;
        let corners: [Corner; 4] = match self.direction {
            Direction::PosX => [
                Corner { x, y, z },
                Corner { x, y: y + w, z },
                Corner { x, y: y + w, z: z + h },
                Corner { x, y, z: z + h },
            ],
            Direction::NegX => [
                Corner { x, y, z },
                Corner { x, y, z: z + h },
                Corner { x, y: y + w, z: z + h },
                Corner { x, y: y + w, z },
            ],
            Direction::PosY => [
                Corner { x, y, z },
                Corner { x, y, z: z + h },
                Corner { x: x + w, y, z: z + h },
                Corner { x: x + w, y, z },
            ],
            Direction::NegY => [
                Corner { x, y, z },
                Corner { x: x + w, y, z },
                Corner { x: x + w, y, z: z + h },
                Corner { x, y, z: z + h },
            ],
            Direction::PosZ => [
                Corner { x, y, z },
                Corner { x: x + w, y, z },
                Corner { x: x + w, y: y + h, z },
                Corner { x, y: y + h, z },
            ],
            Direction::NegZ => [
                Corner { x, y, z },
                Corner { x, y: y + h, z },
                Corner { x: x + w, y: y + h, z },
                Corner { x: x + w, y, z },
            ],
        };
        assert(corners@ =~= corners_of(*self));
        corners
    }
}

/// Both triangles of a face turn counter-clockwise for a viewer on its
/// outside: their normal is the face's direction, as long as the area.
pub proof fn lemma_corners_face_outwards(face: Face)
    ensures
        ({
            let c = corners_of(face);
            let n = normal_of(face.direction);
            let area = face.width * face.height;
            &&& cross(c[0], c[1], c[2]) == (n.0 * area, n.1 * area, n.2 * area)
            &&& cross(c[0], c[2], c[3]) == (n.0 * area, n.1 * area, n.2 * area)
        }),
{
    let w = face.width as int;
    let h = face.height as int;
    let c = corners_of(face);
    let n = normal_of(face.direction);
    let area = face.width * face.height;
    assert(w * 0 == 0 && h * 0 == 0 && 0 * w == 0 && 0 * h == 0 && 0 * 0 == 0 && h * w == w * h)
        by (nonlinear_arith);
    assert(0 * area == 0 && 1 * area == area && (-1) * area == -area) by (nonlinear_arith);
    assert(area == w * h);
    let o = corner_at(face, 0, 0, 0);
    assert(c[0] == o);
    match face.direction {
        Direction::PosX => {
            assert(c[1] == corner_at(face, 0, w, 0) && c[2] == corner_at(face, 0, w, h) && c[3]
                == corner_at(face, 0, 0, h));
        },
        Direction::NegX => {
            assert(c[1] == corner_at(face, 0, 0, h) && c[2] == corner_at(face, 0, w, h) && c[3]
                == corner_at(face, 0, w, 0));
        },
        Direction::PosY => {
            assert(c[1] == corner_at(face, 0, 0, h) && c[2] == corner_at(face, w, 0, h) && c[3]
                == corner_at(face, w, 0, 0));
        },
        Direction::NegY => {
            assert(c[1] == corner_at(face, w, 0, 0) && c[2] == corner_at(face, w, 0, h) && c[3]
                == corner_at(face, 0, 0, h));
        },
        Direction::PosZ => {
            assert(c[1] == corner_at(face, w, 0, 0) && c[2] == corner_at(face, w, h, 0) && c[3]
                == corner_at(face, 0, h, 0));
        },
        Direction::NegZ => {
            assert(c[1] == corner_at(face, 0, h, 0) && c[2] == corner_at(face, w, h, 0) && c[3]
                == corner_at(face, w, 0, 0));
        },
    }
}

impl Chunk {
    /// The chunk of the world whose voxel `(0, 0, 0)` is at `(origin_x,
    /// origin_y, origin_z)`: a copy of the world's blocks in that cube, air
    /// where the cube leaves the world.
    pub fn from_world(world: &Svo, origin_x: i32, origin_y: i32, origin_z: i32) -> (chunk: Self)
        requires
            world.wf(),
            origin_fits(origin_x as int, origin_y as int, origin_z as int),
        ensures
            chunk.wf(),
            chunk.origin() == (origin_x as int, origin_y as int, origin_z as int),
            forall|x: int, y: int, z: int|
                in_chunk(x, y, z) ==> #[trigger] chunk.block_at(x, y, z) == world.block_at(
                    origin_x + x,
                    origin_y + y,
                    origin_z + z,
                ),
    {
        let mut blocks: Vec<u8> = Vec::new();
        let mut z: usize = 0;
        while z < CHUNK_SIZE
            invariant
                world.wf(),
                origin_fits(origin_x as int, origin_y as int, origin_z as int),
                z <= 32,
                blocks.len() == 1024 * z,
                forall|i: int|
                    0 <= i < blocks.len() ==> #[trigger] blocks[i] == world.block_at(
                        origin_x + i % 32,
                        origin_y + (i / 32) % 32,
                        origin_z + i / 1024,
                    ),
            decreases 32 - z,
        {
            let mut y: usize = 0;
            while y < CHUNK_SIZE
                invariant
                    world.wf(),
                    origin_fits(origin_x as int, origin_y as int, origin_z as int),
                    z < 32,
                    y <= 32,
                    blocks.len() == 1024 * z + 32 * y,
                    forall|i: int|
                        0 <= i < blocks.len() ==> #[trigger] blocks[i] == world.block_at(
                            origin_x + i % 32,
                            origin_y + (i / 32) % 32,
                            origin_z + i / 1024,
                        ),
                decreases 32 - y,
            {
                let mut x: usize = 0;
                while x < CHUNK_SIZE
                    invariant
                        world.wf(),
                        origin_fits(origin_x as int, origin_y as int, origin_z as int),
                        z < 32,
                        y < 32,
                        x <= 32,
                        blocks.len() == 1024 * z + 32 * y + x,
                        forall|i: int|
                            0 <= i < blocks.len() ==> #[trigger] blocks[i] == world.block_at(
                                origin_x + i % 32,
                                origin_y + (i / 32) % 32,
                                origin_z + i / 1024,
                            ),
                    decreases 32 - x,
                {
                    let block: u8 = world.get_block(
                        origin_x + x as i32,
                        origin_y + y as i32,
                        origin_z + z as i32,
                    );
                    blocks.push(block);
                    x = x + 1;
                }
                y = y + 1;
            }
            z = z + 1;
        }
        let chunk = Chunk { blocks, origin_x, origin_y, origin_z };
        proof {
            assert forall|x: int, y: int, z: int| in_chunk(x, y, z) implies #[trigger] chunk.block_at(
                x,
                y,
                z,
            ) == world.block_at(origin_x + x, origin_y + y, origin_z + z) by {
                let i = x + 32 * y + 1024 * z;
                assert(i % 32 == x && (i / 32) % 32 == y && i / 1024 == z);
                assert(chunk.stored(x, y, z) == chunk.blocks@[i]);
            }
        }
        chunk
    }
}

/// A run of equal blocks in storage order.
#[derive(Clone, Copy, Debug, PartialEq, Eq, Structural)]
pub struct Run {
    pub block: u8,
    pub count: u32,
}

/// The blocks that a list of runs stands for.
pub open spec fn expand(runs: Seq<Run>) -> Seq<u8>
    decreases runs.len(),
{
    if runs.len() == 0 {
        Seq::empty()
    } else {
        expand(runs.drop_last()) + Seq::new(runs.last().count as nat, |i: int| runs.last().block)
    }
}

/// No run is empty, and no two neighbours are of the same block.
pub open spec fn runs_minimal(runs: Seq<Run>) -> bool {
    &&& forall|i: int| 0 <= i < runs.len() ==> (#[trigger] runs[i]).count >= 1
    &&& forall|i: int| 0 < i < runs.len() ==> (#[trigger] runs[i]).block != runs[i - 1].block
}

impl Chunk {
    /// The run-length encoding of the chunk's blocks in storage order, with
    /// as few runs as there can be.
    pub fn compress(&self) -> (runs: Vec<Run>)
        requires
            self.wf(),
        ensures
            expand(runs@) == self.cells(),
            runs_minimal(runs@),
    {
        let len: usize = self.blocks.len();
        let mut runs: Vec<Run> = Vec::new();
        let mut i: usize = 0;
        while i < len
            invariant
                len == self.blocks@.len(),
                len == 32768,
                i <= len,
                expand(runs@) == self.blocks@.subrange(0, i as int),
                runs_minimal(runs@),
                0 < i < len && runs@.len() > 0 ==> runs@.last().block != self.blocks@[i as int],
                i > 0 ==> runs@.len() > 0,
            decreases len - i,
        {
            let block: u8 = self.blocks[i];
            let mut count: u32 = 1;
            while i + (count as usize) < len
                invariant
                    len == self.blocks@.len(),
                    len == 32768,
                    i < len,
                    1 <= count,
                    i + count <= len,
                    forall|k: int| i <= k < i + count ==> self.blocks@[k] == block,
                ensures
                    i + count < len ==> self.blocks@[i + count] != block,
                decreases len - count,
            {
                if self.blocks[i + count as usize] != block {
                    break ;
                }
                count = count + 1;
            }
            let ghost before = runs@;
            runs.push(Run { block, count });
            proof {
                assert(runs@.drop_last() =~= before);
                assert(expand(runs@) =~= self.blocks@.subrange(0, i + count));
                assert forall|k: int| 0 < k < runs@.len() implies (#[trigger] runs@[k]).block
                    != runs@[k - 1].block by {
                    if k < before.len() {
                        assert(before[k].block != before[k - 1].block);
                    }
                }
            }
            i = i + count as usize;
        }
        proof {
            assert(self.blocks@.subrange(0, len as int) =~= self.blocks@);
        }
        runs
    }
}

/// The order of the scan is that of the list.
proof fn lemma_keys_increase(chunk: Chunk, lod: u32, rects: Seq<Rect>, i: int, j: int)
    requires
        mesh_sound(chunk, lod, rects),
        0 <= i <= j < rects.len(),
    ensures
        scan_key(rects[i]) <= scan_key(rects[j]),
    decreases j - i,
{
    if i < j {
        assert(rect_sound(chunk, lod, rects, j));
        lemma_keys_increase(chunk, lod, rects, i, j - 1);
    }
}

/// A rectangle that holds a cell does not come after the cell in the order of the scan.
proof fn lemma_cover_key(lod: u32, holder: Rect, rect: Rect)
    requires
        lod <= 5,
        rect_valid(lod, holder),
        rect_valid(lod, rect),
        rect_covers(holder, rect_cell(rect, rect.u, rect.v)),
    ensures
        scan_key(holder) <= scan_key(rect),
{
    lemma_scale(lod);
}

/// Two rectangles at the same place in the order of the scan start in the same cell.
proof fn lemma_key_place(lod: u32, r: Rect, s: Rect)
    requires
        lod <= 5,
        rect_valid(lod, r),
        rect_valid(lod, s),
        scan_key(r) == scan_key(s),
    ensures
        r.axis == s.axis,
        r.positive == s.positive,
        r.d == s.d,
        r.u == s.u,
        r.v == s.v,
{
    lemma_scale(lod);
    let kr = plane_rank(r.axis, r.positive, r.d);
    let ks = plane_rank(s.axis, s.positive, s.d);
    assert(kr == ks);
    assert(axis_index(r.axis) * 33 + r.d == axis_index(s.axis) * 33 + s.d);
    assert(axis_index(r.axis) == axis_index(s.axis));
}

/// Two meshes of a chunk that agree on their first `i` rectangles agree on the next.
proof fn lemma_next_equal(chunk: Chunk, lod: u32, a: Seq<Rect>, b: Seq<Rect>, i: int)
    requires
        lod <= 5,
        mesh_sound(chunk, lod, a),
        mesh_complete(chunk, lod, a),
        mesh_sound(chunk, lod, b),
        mesh_complete(chunk, lod, b),
        0 <= i < a.len(),
        i <= b.len(),
        forall|j: int| 0 <= j < i ==> a[j] == b[j],
    ensures
        i < b.len(),
        a[i] == b[i],
{
    let n = samples_of(lod);
    lemma_scale(lod);
    assert forall|cell: Cell| covered(b, 0, i, cell) == covered(a, 0, i, cell) by {
        if covered(b, 0, i, cell) {
            let j = choose|j: int| 0 <= j < i && #[trigger] rect_covers(b[j], cell);
            assert(rect_covers(a[j], cell));
        }
        if covered(a, 0, i, cell) {
            let j = choose|j: int| 0 <= j < i && #[trigger] rect_covers(a[j], cell);
            assert(rect_covers(b[j], cell));
        }
    }
    let r = a[i];
    assert(rect_sound(chunk, lod, a, i));
    let first = rect_cell(r, r.u, r.v);
    assert(exposed(chunk, lod, first) && face_block(chunk, lod, first) == r.block);
    assert(!covered(a, 0, i, first));
    assert(in_grid(lod, first));
    assert(covered(b, 0, b.len() as int, first));
    let j = choose|j: int| 0 <= j < b.len() && #[trigger] rect_covers(b[j], first);
    if j < i {
        assert(rect_covers(a[j], first));
        assert(covered(a, 0, i, first));
    }
    assert(i <= j);
    let s = b[i];
    assert(rect_sound(chunk, lod, b, i));
    assert(rect_sound(chunk, lod, b, j));
    lemma_keys_increase(chunk, lod, b, i, j);
    lemma_cover_key(lod, b[j], r);
    let other = rect_cell(s, s.u, s.v);
    assert(exposed(chunk, lod, other) && face_block(chunk, lod, other) == s.block);
    assert(!covered(b, 0, i, other));
    assert(in_grid(lod, other));
    assert(covered(a, 0, a.len() as int, other));
    let k = choose|k: int| 0 <= k < a.len() && #[trigger] rect_covers(a[k], other);
    if k < i {
        assert(rect_covers(b[k], other));
        assert(covered(b, 0, i, other));
    }
    assert(rect_sound(chunk, lod, a, k));
    lemma_keys_increase(chunk, lod, a, i, k);
    lemma_cover_key(lod, a[k], s);
    lemma_key_place(lod, r, s);
    assert(first == other);
    assert(r.block == s.block);
    // Neither is wider than the other: the cell right of the narrower one could join it.
    if r.w < s.w {
        let cell = rect_cell(s, r.u + r.w, r.v);
        assert(cell == rect_cell(r, r.u + r.w, r.v));
        assert(exposed(chunk, lod, cell) && face_block(chunk, lod, cell) == s.block);
        assert(!covered(b, 0, i, cell));
        assert(can_join(chunk, lod, a, i, cell));
    }
    if s.w < r.w {
        let cell = rect_cell(r, s.u + s.w, s.v);
        assert(cell == rect_cell(s, s.u + s.w, s.v));
        assert(exposed(chunk, lod, cell) && face_block(chunk, lod, cell) == r.block);
        assert(!covered(a, 0, i, cell));
        assert(can_join(chunk, lod, b, i, cell));
    }
    assert(r.w == s.w);
    // Neither is higher than the other: every cell below the lower one could join it.
    if r.h < s.h {
        let c = choose|c: int|
            r.u <= c < r.u + r.w && !can_join(chunk, lod, a, i, #[trigger] rect_cell(r, c, r.v + r.h));
        let cell = rect_cell(s, c, r.v + r.h);
        assert(cell == rect_cell(r, c, r.v + r.h));
        assert(exposed(chunk, lod, cell) && face_block(chunk, lod, cell) == s.block);
        assert(!covered(b, 0, i, cell));
        assert(can_join(chunk, lod, a, i, cell));
    }
    if s.h < r.h {
        let c = choose|c: int|
            s.u <= c < s.u + s.w && !can_join(chunk, lod, b, i, #[trigger] rect_cell(s, c, s.v + s.h));
        let cell = rect_cell(r, c, s.v + s.h);
        assert(cell == rect_cell(s, c, s.v + s.h));
        assert(exposed(chunk, lod, cell) && face_block(chunk, lod, cell) == r.block);
        assert(!covered(a, 0, i, cell));
        assert(can_join(chunk, lod, b, i, cell));
    }
    assert(r.h == s.h);
}

/// Two meshes of a chunk agree on as many rectangles as the first has.
proof fn lemma_prefix_equal(chunk: Chunk, lod: u32, a: Seq<Rect>, b: Seq<Rect>, i: int)
    requires
        lod <= 5,
        mesh_sound(chunk, lod, a),
        mesh_complete(chunk, lod, a),
        mesh_sound(chunk, lod, b),
        mesh_complete(chunk, lod, b),
        0 <= i <= a.len(),
    ensures
        i <= b.len(),
        forall|j: int| 0 <= j < i ==> a[j] == b[j],
    decreases i,
{
    if i > 0 {
        lemma_prefix_equal(chunk, lod, a, b, i - 1);
        lemma_next_equal(chunk, lod, a, b, i - 1);
    }
}

/// A chunk has one mesh only: the properties of a mesh fix every face of the
/// list and their order.
pub proof fn lemma_mesh_unique(chunk: Chunk, lod: u32, a: Seq<Face>, b: Seq<Face>)
    requires
        lod <= 5,
        is_mesh(a, chunk, lod),
        is_mesh(b, chunk, lod),
    ensures
        a == b,
{
    let ra = rects_of(a, chunk, lod);
    let rb = rects_of(b, chunk, lod);
    lemma_prefix_equal(chunk, lod, ra, rb, ra.len() as int);
    lemma_prefix_equal(chunk, lod, rb, ra, rb.len() as int);
    assert(a.len() == b.len());
    assert forall|i: int| 0 <= i < a.len() implies a[i] == b[i] by {
        assert(ra[i] == rb[i]);
        assert(a[i] == face_of(ra[i], chunk, lod));
        assert(b[i] == face_of(rb[i], chunk, lod));
    }
    assert(a =~= b);
}

} // verus!

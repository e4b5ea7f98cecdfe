//! Triangle fill with a depth test, in integer arithmetic: screen-space
//! triangles are filled into a tile of a colour and depth target. A pixel is
//! written only where the triangle is strictly nearer than what the target
//! holds, so the order in which triangles arrive does not matter.

use vstd::prelude::*;
use crate::schedule::Tile;
use crate::surface::{sky_pixel, Pixel};

verus! {

/// Depth of a pixel that nothing has been drawn to.
pub const DEPTH_FAR: u32 = 0xFFFF_FFFF;

/// Largest width and height of a target.
pub const MAX_SIDE: usize = 0x7FFF_FFFF;

/// A corner of a triangle on the screen: pixel coordinates and depth.
#[derive(Clone, Copy, Debug, PartialEq, Eq, Structural)]
pub struct ScreenVertex {
    pub x: i32,
    pub y: i32,
    pub depth: u32,
}

/// A triangle on the screen, of one colour. It faces the viewer when its
/// corners turn counter-clockwise, that is when `area2` is positive.
#[derive(Clone, Copy, Debug, PartialEq, Eq, Structural)]
pub struct Triangle {
    pub a: ScreenVertex,
    pub b: ScreenVertex,
    pub c: ScreenVertex,
    pub color: Pixel,
}

/// What a target holds for one pixel.
#[derive(Clone, Copy, Debug, PartialEq, Eq, Structural)]
pub struct Sample {
    pub color: Pixel,
    pub depth: u32,
}

/// A colour buffer with its depth buffer.
pub struct RenderTarget {
    width: usize,
    height: usize,
    color: Vec<Pixel>,
    depth: Vec<u32>,
}

/// Edge function: twice the signed area of the triangle `(a, b, p)`.
pub open spec fn edge(ax: int, ay: int, bx: int, by: int, px: int, py: int) -> int {
    (bx - ax) * (py - ay) - (by - ay) * (px - ax)
}

/// Twice the signed area of a triangle.
pub open spec fn area2(t: Triangle) -> int {
    edge(t.a.x as int, t.a.y as int, t.b.x as int, t.b.y as int, t.c.x as int, t.c.y as int)
}

/// Weight of corner `a` at pixel `(x, y)`: the edge function of the opposite side.
pub open spec fn weight_a(t: Triangle, x: int, y: int) -> int {
    edge(t.b.x as int, t.b.y as int, t.c.x as int, t.c.y as int, x, y)
}

/// Weight of corner `b` at pixel `(x, y)`.
pub open spec fn weight_b(t: Triangle, x: int, y: int) -> int {
    edge(t.c.x as int, t.c.y as int, t.a.x as int, t.a.y as int, x, y)
}

/// Weight of corner `c` at pixel `(x, y)`.
pub open spec fn weight_c(t: Triangle, x: int, y: int) -> int {
    edge(t.a.x as int, t.a.y as int, t.b.x as int, t.b.y as int, x, y)
}

/// Pixel `(x, y)` lies in a triangle that faces the viewer.
pub open spec fn inside(t: Triangle, x: int, y: int) -> bool {
    &&& area2(t) > 0
    &&& weight_a(t, x, y) >= 0
    &&& weight_b(t, x, y) >= 0
    &&& weight_c(t, x, y) >= 0
}

/// Depth of a triangle at a pixel: the corners' depths, weighted, over the area.
pub open spec fn depth_at(t: Triangle, x: int, y: int) -> int {
    (weight_a(t, x, y) * t.a.depth + weight_b(t, x, y) * t.b.depth + weight_c(t, x, y)
        * t.c.depth) / area2(t)
}

/// A pixel after a triangle was drawn over it: the triangle's colour and
/// depth where the triangle covers the pixel and is strictly nearer.
pub open spec fn shaded(before: Sample, t: Triangle, x: int, y: int) -> Sample {
    if inside(t, x, y) && depth_at(t, x, y) < before.depth {
        Sample { color: t.color, depth: depth_at(t, x, y) as u32 }
    } else {
        before
    }
}

/// Pixel `(x, y)` lies in the tile.
pub open spec fn tile_has(tile: Tile, x: int, y: int) -> bool {
    tile.min_x <= x < tile.max_x && tile.min_y <= y < tile.max_y
}

/// The edge functions of a triangle at a pixel, with corner `a` moved to the
/// origin: `(u1, v1)` is `b - a`, `(u2, v2)` is `c - a`, `(p, q)` the pixel.
proof fn lemma_edges_moved(t: Triangle, x: int, y: int)
    ensures
        ({
            let u1 = t.b.x - t.a.x;
            let v1 = t.b.y - t.a.y;
            let u2 = t.c.x - t.a.x;
            let v2 = t.c.y - t.a.y;
            let p = x - t.a.x;
            let q = y - t.a.y;
            &&& area2(t) == u1 * v2 - v1 * u2
            &&& weight_c(t, x, y) == u1 * q - v1 * p
            &&& weight_b(t, x, y) == v2 * p - u2 * q
            &&& weight_a(t, x, y) == (u1 * v2 - v1 * u2) - (u1 * q - v1 * p) - (v2 * p - u2 * q)
        }),
{
    let u1 = t.b.x - t.a.x;
    let v1 = t.b.y - t.a.y;
    let u2 = t.c.x - t.a.x;
    let v2 = t.c.y - t.a.y;
    let p = x - t.a.x;
    let q = y - t.a.y;
    assert((0 - u2) * (q - v2) == u2 * v2 - u2 * q) by (nonlinear_arith);
    assert((0 - v2) * (p - u2) == u2 * v2 - v2 * p) by (nonlinear_arith);
    assert((u2 - u1) * (q - v1) == u2 * q - v1 * u2 - u1 * q + u1 * v1) by (nonlinear_arith);
    assert((v2 - v1) * (p - u1) == v2 * p - u1 * v2 - v1 * p + u1 * v1) by (nonlinear_arith);
    assert(t.a.x - t.c.x == 0 - u2);
    assert(t.a.y - t.c.y == 0 - v2);
    assert(y - t.c.y == q - v2);
    assert(x - t.c.x == p - u2);
    assert(t.c.x - t.b.x == u2 - u1);
    assert(t.c.y - t.b.y == v2 - v1);
    assert(y - t.b.y == q - v1);
    assert(x - t.b.x == p - u1);
}

/// The weights of a pixel add up to the area.
proof fn lemma_weights_sum(t: Triangle, x: int, y: int)
    ensures
        weight_a(t, x, y) + weight_b(t, x, y) + weight_c(t, x, y) == area2(t),
{
    lemma_edges_moved(t, x, y);
}

/// Inside a triangle the depth lies between the corners' depths.
proof fn lemma_depth_range(t: Triangle, x: int, y: int)
    requires
        inside(t, x, y),
    ensures
        0 <= depth_at(t, x, y) <= u32::MAX,
{
    lemma_weights_sum(t, x, y);
    let wa = weight_a(t, x, y);
    let wb = weight_b(t, x, y);
    let wc = weight_c(t, x, y);
    let area = area2(t);
    let za = t.a.depth as int;
    let zb = t.b.depth as int;
    let zc = t.c.depth as int;
    let sum = wa * za + wb * zb + wc * zc;
    let far = u32::MAX as int;
    assert(0 <= wa * za <= wa * far) by (nonlinear_arith)
        requires
            wa >= 0,
            0 <= za <= far,
    ;
    assert(0 <= wb * zb <= wb * far) by (nonlinear_arith)
        requires
            wb >= 0,
            0 <= zb <= far,
    ;
    assert(0 <= wc * zc <= wc * far) by (nonlinear_arith)
        requires
            wc >= 0,
            0 <= zc <= far,
    ;
    assert(wa * far + wb * far + wc * far == area * far) by (nonlinear_arith)
        requires
            wa + wb + wc == area,
    ;
    assert(0 <= sum / area <= far) by (nonlinear_arith)
        requires
            0 <= sum <= area * far,
            area > 0,
    ;
}

/// Inside a triangle a pixel lies between the corners' coordinates.
proof fn lemma_inside_bounds(t: Triangle, x: int, y: int)
    requires
        inside(t, x, y),
    ensures
        t.a.x <= x || t.b.x <= x || t.c.x <= x,
        t.a.x >= x || t.b.x >= x || t.c.x >= x,
        t.a.y <= y || t.b.y <= y || t.c.y <= y,
        t.a.y >= y || t.b.y >= y || t.c.y >= y,
{
    lemma_edges_moved(t, x, y);
    let u1 = t.b.x - t.a.x;
    let v1 = t.b.y - t.a.y;
    let u2 = t.c.x - t.a.x;
    let v2 = t.c.y - t.a.y;
    let p = x - t.a.x;
    let q = y - t.a.y;
    let wa = weight_a(t, x, y);
    let wb = weight_b(t, x, y);
    let wc = weight_c(t, x, y);
    let area = area2(t);
    // The pixel is the mean of the corners, weighted: first along x, then along y.
    assert(wb * u1 + wc * u2 == area * p) by {
        assert((v2 * p - u2 * q) * u1 == (u1 * v2) * p - (u1 * u2) * q) by (nonlinear_arith);
        assert((u1 * q - v1 * p) * u2 == (u1 * u2) * q - (v1 * u2) * p) by (nonlinear_arith);
        assert((u1 * v2 - v1 * u2) * p == (u1 * v2) * p - (v1 * u2) * p) by (nonlinear_arith);
    }
    assert(wb * v1 + wc * v2 == area * q) by {
        assert((v2 * p - u2 * q) * v1 == (v1 * v2) * p - (v1 * u2) * q) by (nonlinear_arith);
        assert((u1 * q - v1 * p) * v2 == (u1 * v2) * q - (v1 * v2) * p) by (nonlinear_arith);
        assert((u1 * v2 - v1 * u2) * q == (u1 * v2) * q - (v1 * u2) * q) by (nonlinear_arith);
    }
    assert(wa * 0 == 0);
    lemma_between(wa, wb, wc, area, 0, u1, u2, p);
    lemma_between(wa, wb, wc, area, 0, v1, v2, q);
}

/// A weighted mean with non-negative weights lies between its terms.
proof fn lemma_between(wa: int, wb: int, wc: int, area: int, a: int, b: int, c: int, p: int)
    requires
        wa >= 0,
        wb >= 0,
        wc >= 0,
        wa + wb + wc == area,
        area > 0,
        wa * a + wb * b + wc * c == area * p,
    ensures
        a <= p || b <= p || c <= p,
        a >= p || b >= p || c >= p,
{
    if a > p && b > p && c > p {
        assert(wa * a + wb * b + wc * c > area * p) by (nonlinear_arith)
            requires
                wa >= 0,
                wb >= 0,
                wc >= 0,
                wa + wb + wc == area,
                area > 0,
                a >= p + 1,
                b >= p + 1,
                c >= p + 1,
        ;
    }
    if a < p && b < p && c < p {
        assert(wa * a + wb * b + wc * c < area * p) by (nonlinear_arith)
            requires
                wa >= 0,
                wb >= 0,
                wc >= 0,
                wa + wb + wc == area,
                area > 0,
                a <= p - 1,
                b <= p - 1,
                c <= p - 1,
        ;
    }
}

/// Drawing two triangles over a pixel gives the same pixel in either order,
/// unless both cover it at the same depth in different colours: the nearest wins.
pub proof fn lemma_depth_order_independent(
    before: Sample,
    first: Triangle,
    second: Triangle,
    x: int,
    y: int,
)
    requires
        !(inside(first, x, y) && inside(second, x, y) && depth_at(first, x, y) == depth_at(
            second,
            x,
            y,
        ) && first.color != second.color),
    ensures
        shaded(shaded(before, first, x, y), second, x, y) == shaded(
            shaded(before, second, x, y),
            first,
            x,
            y,
        ),
{
    if inside(first, x, y) {
        lemma_depth_range(first, x, y);
    }
    if inside(second, x, y) {
        lemma_depth_range(second, x, y);
    }
}

/// Place of a pixel in a buffer of `width` x `height` pixels, row by row.
proof fn lemma_pixel_index(width: int, height: int, x: int, y: int)
    requires
        0 <= x < width,
        0 <= y < height,
    ensures
        0 <= y * width + x < width * height,
        y * width >= 0,
{
    assert(0 <= y * width && y * width + width <= width * height) by (nonlinear_arith)
        requires
            0 <= y,
            y + 1 <= height,
            width > 0,
    ;
}

/// Different pixels have different places.
proof fn lemma_pixel_index_differs(width: int, x: int, y: int, px: int, py: int)
    requires
        0 <= x < width,
        0 <= px < width,
        0 <= y,
        0 <= py,
        (x, y) != (px, py),
    ensures
        y * width + x != py * width + px,
{
    if y < py {
        assert(y * width + width <= py * width) by (nonlinear_arith)
            requires
                y + 1 <= py,
                width > 0,
        ;
    } else if py < y {
        assert(py * width + width <= y * width) by (nonlinear_arith)
            requires
                py + 1 <= y,
                width > 0,
        ;
    }
}

/// The product of two bounded numbers is bounded.
proof fn lemma_product_bound(a: int, b: int, m: int, n: int)
    requires
        -m <= a <= m,
        -n <= b <= n,
    ensures
        -(m * n) <= a * b <= m * n,
{
    assert(-(m * n) <= a * b <= m * n) by (nonlinear_arith)
        requires
            -m <= a <= m,
            -n <= b <= n,
    ;
}

/// The value of the edge function of the side `(a, b)` at the point `p`.
fn edge_value(ax: i32, ay: i32, bx: i32, by: i32, px: i64, py: i64) -> (e: i128)
    requires
        -0x8000_0000 <= px <= 0x8000_0000,
        -0x8000_0000 <= py <= 0x8000_0000,
    ensures
        e == edge(ax as int, ay as int, bx as int, by as int, px as int, py as int),
        -0x8_0000_0000_0000_0000 <= e <= 0x8_0000_0000_0000_0000,
{
    let ux: i128 = bx as i128 - ax as i128;
    let uy: i128 = by as i128 - ay as i128;
    let dx: i128 = px as i128 - ax as i128;
    let dy: i128 = py as i128 - ay as i128;
    proof {
        lemma_product_bound(ux as int, dy as int, 0x1_0000_0000, 0x1_0000_0000);
        lemma_product_bound(uy as int, dx as int, 0x1_0000_0000, 0x1_0000_0000);
        assert(0x1_0000_0000int * 0x1_0000_0000int == 0x1_0000_0000_0000_0000int);
    }
    ux * dy - uy * dx
}

/// One step to the right changes an edge function by a constant.
proof fn lemma_edge_step(ax: int, ay: int, bx: int, by: int, px: int, py: int)
    ensures
        edge(ax, ay, bx, by, px + 1, py) == edge(ax, ay, bx, by, px, py) + (ay - by),
{
    assert((by - ay) * (px + 1 - ax) == (by - ay) * (px - ax) + (by - ay)) by (nonlinear_arith);
}

/// The smallest of three.
spec fn min3_spec(a: int, b: int, c: int) -> int {
    if a <= b && a <= c {
        a
    } else if b <= c {
        b
    } else {
        c
    }
}

/// The largest of three.
spec fn max3_spec(a: int, b: int, c: int) -> int {
    if a >= b && a >= c {
        a
    } else if b >= c {
        b
    } else {
        c
    }
}

/// `v` brought into `[lo, hi]`.
spec fn clip_spec(v: int, lo: int, hi: int) -> int {
    if v < lo {
        lo
    } else if v > hi {
        hi
    } else {
        v
    }
}

/// The smallest of three.
fn min3(a: i32, b: i32, c: i32) -> (m: i32)
    ensures
        m == min3_spec(a as int, b as int, c as int),
{
    let ab: i32 = if a < b {
        a
    } else {
        b
    };
    if ab < c {
        ab
    } else {
        c
    }
}

/// The largest of three.
fn max3(a: i32, b: i32, c: i32) -> (m: i32)
    ensures
        m == max3_spec(a as int, b as int, c as int),
{
    let ab: i32 = if a > b {
        a
    } else {
        b
    };
    if ab > c {
        ab
    } else {
        c
    }
}

/// `v` brought into `[lo, hi]`.
fn clip(v: i64, lo: usize, hi: usize) -> (out: usize)
    requires
        lo <= hi <= MAX_SIDE,
    ensures
        out == clip_spec(v as int, lo as int, hi as int),
{
    if v < lo as i64 {
        lo
    } else if v > hi as i64 {
        hi
    } else {
        v as usize
    }
}

impl RenderTarget {
    /// Width of the target in pixels.
    pub closed spec fn cols(&self) -> int {
        self.width as int
    }

    /// Height of the target in pixels.
    pub closed spec fn rows(&self) -> int {
        self.height as int
    }

    /// Both buffers hold every pixel.
    pub closed spec fn wf(&self) -> bool {
        &&& self.width <= MAX_SIDE
        &&& self.height <= MAX_SIDE
        &&& self.width * self.height <= usize::MAX
        &&& self.color@.len() == self.width * self.height
        &&& self.depth@.len() == self.width * self.height
    }

    /// What the target holds for pixel `(x, y)`.
    pub closed spec fn sample(&self, x: int, y: int) -> Sample {
        Sample { color: self.color@[y * self.width + x], depth: self.depth@[y * self.width + x] }
    }

    /// Pixel `(x, y)` is one of the target.
    pub open spec fn has(&self, x: int, y: int) -> bool {
        0 <= x < self.cols() && 0 <= y < self.rows()
    }

    /// A target of `width` x `height` pixels that shows the sky, infinitely far.
    pub fn new(width: usize, height: usize) -> (target: Self)
        requires
            width <= MAX_SIDE,
            height <= MAX_SIDE,
            width * height <= usize::MAX,
        ensures
            target.wf(),
            target.cols() == width,
            target.rows() == height,
            forall|x: int, y: int|
                target.has(x, y) ==> #[trigger] target.sample(x, y) == (Sample {
                    color: Pixel { red: 135, green: 206, blue: 235 },
                    depth: DEPTH_FAR,
                }),
    {
        let len: usize = width * height;
        let color: Vec<Pixel> = vec![sky_pixel(); len];
        let depth: Vec<u32> = vec![DEPTH_FAR; len];
        let target = RenderTarget { width, height, color, depth };
        proof {
            assert forall|x: int, y: int| target.has(x, y) implies #[trigger] target.sample(x, y)
                == (Sample { color: Pixel { red: 135, green: 206, blue: 235 }, depth: DEPTH_FAR }) by {
                lemma_pixel_index(width as int, height as int, x, y);
            }
        }
        target
    }

    /// Width of the target in pixels.
    pub fn width(&self) -> (width: usize)
        ensures
            width == self.cols(),
    {
        self.width
    }

    /// Height of the target in pixels.
    pub fn height(&self) -> (height: usize)
        ensures
            height == self.rows(),
    {
        self.height
    }

    /// What the target holds for pixel `(x, y)`.
    pub fn get(&self, x: usize, y: usize) -> (sample: Sample)
        requires
            self.wf(),
            self.has(x as int, y as int),
        ensures
            sample == self.sample(x as int, y as int),
    {
        proof {
            lemma_pixel_index(self.width as int, self.height as int, x as int, y as int);
        }
        let index: usize = y * self.width + x;
        Sample { color: self.color[index], depth: self.depth[index] }
    }

    /// Sets what the target holds for pixel `(x, y)`.
    pub fn put(&mut self, x: usize, y: usize, sample: Sample)
        requires
            old(self).wf(),
            old(self).has(x as int, y as int),
        ensures
            final(self).wf(),
            final(self).cols() == old(self).cols(),
            final(self).rows() == old(self).rows(),
            forall|px: int, py: int|
                old(self).has(px, py) ==> #[trigger] final(self).sample(px, py) == (if px == x && py
                    == y {
                    sample
                } else {
                    old(self).sample(px, py)
                }),
    {
        proof {
            lemma_pixel_index(self.width as int, self.height as int, x as int, y as int);
        }
        let index: usize = y * self.width + x;
        self.color[index] = sample.color;
        self.depth[index] = sample.depth;
        proof {
            assert forall|px: int, py: int| old(self).has(px, py) implies #[trigger] self.sample(
                px,
                py,
            ) == (if px == x && py == y {
                sample
            } else {
                old(self).sample(px, py)
            }) by {
                lemma_pixel_index(self.width as int, self.height as int, px, py);
                if !(px == x && py == y) {
                    lemma_pixel_index_differs(self.width as int, x as int, y as int, px, py);
                }
            }
        }
    }

    /// Shows the sky, infinitely far, in every pixel of the tile.
    pub fn clear_tile(&mut self, tile: Tile)
        requires
            old(self).wf(),
            tile.max_x <= old(self).cols(),
            tile.max_y <= old(self).rows(),
        ensures
            final(self).wf(),
            final(self).cols() == old(self).cols(),
            final(self).rows() == old(self).rows(),
            forall|px: int, py: int|
                old(self).has(px, py) ==> #[trigger] final(self).sample(px, py) == (if tile_has(
                    tile,
                    px,
                    py,
                ) {
                    Sample { color: Pixel { red: 135, green: 206, blue: 235 }, depth: DEPTH_FAR }
                } else {
                    old(self).sample(px, py)
                }),
    {
        let blank = Sample { color: sky_pixel(), depth: DEPTH_FAR };
        let mut y: usize = tile.min_y;
        while y < tile.max_y
            invariant
                self.wf(),
                self.cols() == old(self).cols(),
                self.rows() == old(self).rows(),
                tile.max_x <= self.cols(),
                tile.max_y <= self.rows(),
                tile.min_y <= y || y == tile.min_y,
                blank == (Sample { color: Pixel { red: 135, green: 206, blue: 235 }, depth: DEPTH_FAR }),
                forall|px: int, py: int|
                    old(self).has(px, py) ==> #[trigger] self.sample(px, py) == (if tile_has(
                        tile,
                        px,
                        py,
                    ) && py < y {
                        blank
                    } else {
                        old(self).sample(px, py)
                    }),
            decreases tile.max_y - y,
        {
            let mut x: usize = tile.min_x;
            while x < tile.max_x
                invariant
                    self.wf(),
                    self.cols() == old(self).cols(),
                    self.rows() == old(self).rows(),
                    tile.max_x <= self.cols(),
                    tile.max_y <= self.rows(),
                    tile.min_y <= y < tile.max_y,
                    tile.min_x <= x,
                    forall|px: int, py: int|
                        old(self).has(px, py) ==> #[trigger] self.sample(px, py) == (if tile_has(
                            tile,
                            px,
                            py,
                        ) && (py < y || (py == y && px < x)) {
                            blank
                        } else {
                            old(self).sample(px, py)
                        }),
                decreases tile.max_x - x,
            {
                self.put(x, y, blank);
                x = x + 1;
            }
            y = y + 1;
        }
    }
}

impl RenderTarget {
    /// Draws a triangle into a tile: every pixel of the tile that the
    /// triangle covers, and where it is strictly nearer than what the target
    /// holds, takes the triangle's colour and depth. A triangle that faces
    /// away, or has no area, draws nothing. The edge functions are stepped
    /// from pixel to pixel along a row; the result is that of evaluating them
    /// at every pixel.
    pub fn fill_triangle(&mut self, tile: Tile, tri: &Triangle)
        requires
            old(self).wf(),
            tile.max_x <= old(self).cols(),
            tile.max_y <= old(self).rows(),
        ensures
            final(self).wf(),
            final(self).cols() == old(self).cols(),
            final(self).rows() == old(self).rows(),
            forall|px: int, py: int|
                old(self).has(px, py) ==> #[trigger] final(self).sample(px, py) == (if tile_has(
                    tile,
                    px,
                    py,
                ) {
                    shaded(old(self).sample(px, py), *tri, px, py)
                } else {
                    old(self).sample(px, py)
                }),
    {
        let area: i128 = edge_value(
            tri.a.x,
            tri.a.y,
            tri.b.x,
            tri.b.y,
            tri.c.x as i64,
            tri.c.y as i64,
        );
        if area <= 0 || tile.min_x >= tile.max_x || tile.min_y >= tile.max_y {
            return ;
        }
        // The triangle's bounding box, cut to the tile.
        let x0: usize = clip(min3(tri.a.x, tri.b.x, tri.c.x) as i64, tile.min_x, tile.max_x);
        let x1: usize = clip(max3(tri.a.x, tri.b.x, tri.c.x) as i64 + 1, tile.min_x, tile.max_x);
        let y0: usize = clip(min3(tri.a.y, tri.b.y, tri.c.y) as i64, tile.min_y, tile.max_y);
        let y1: usize = clip(max3(tri.a.y, tri.b.y, tri.c.y) as i64 + 1, tile.min_y, tile.max_y);
        let step_a: i128 = tri.b.y as i128 - tri.c.y as i128;
        let step_b: i128 = tri.c.y as i128 - tri.a.y as i128;
        let step_c: i128 = tri.a.y as i128 - tri.b.y as i128;
        let za: i128 = tri.a.depth as i128;
        let zb: i128 = tri.b.depth as i128;
        let zc: i128 = tri.c.depth as i128;
        let ghost min_x = min3_spec(tri.a.x as int, tri.b.x as int, tri.c.x as int);
        let ghost max_x = max3_spec(tri.a.x as int, tri.b.x as int, tri.c.x as int);
        let ghost min_y = min3_spec(tri.a.y as int, tri.b.y as int, tri.c.y as int);
        let ghost max_y = max3_spec(tri.a.y as int, tri.b.y as int, tri.c.y as int);
        let mut y: usize = y0;
        while y < y1
            invariant
                x0 == clip_spec(min_x, tile.min_x as int, tile.max_x as int),
                x1 == clip_spec(max_x + 1, tile.min_x as int, tile.max_x as int),
                y0 == clip_spec(min_y, tile.min_y as int, tile.max_y as int),
                y1 == clip_spec(max_y + 1, tile.min_y as int, tile.max_y as int),
                y <= y1 || y == y0,
                self.wf(),
                self.cols() == old(self).cols(),
                self.rows() == old(self).rows(),
                tile.min_x <= x0 <= tile.max_x,
                tile.min_x <= x1 <= tile.max_x,
                tile.max_x <= self.cols(),
                tile.min_y <= y0 <= tile.max_y,
                y1 <= tile.max_y,
                tile.max_y <= self.rows(),
                self.cols() <= MAX_SIDE,
                self.rows() <= MAX_SIDE,
                y0 <= y,
                area == area2(*tri),
                area > 0,
                step_a == tri.b.y - tri.c.y,
                step_b == tri.c.y - tri.a.y,
                step_c == tri.a.y - tri.b.y,
                za == tri.a.depth,
                zb == tri.b.depth,
                zc == tri.c.depth,
                forall|px: int, py: int|
                    old(self).has(px, py) ==> #[trigger] self.sample(px, py) == (if x0 <= px < x1
                        && y0 <= py < y {
                        shaded(old(self).sample(px, py), *tri, px, py)
                    } else {
                        old(self).sample(px, py)
                    }),
            decreases y1 - y,
        {
            let mut wa: i128 = edge_value(tri.b.x, tri.b.y, tri.c.x, tri.c.y, x0 as i64, y as i64);
            let mut wb: i128 = edge_value(tri.c.x, tri.c.y, tri.a.x, tri.a.y, x0 as i64, y as i64);
            let mut wc: i128 = edge_value(tri.a.x, tri.a.y, tri.b.x, tri.b.y, x0 as i64, y as i64);
            let mut x: usize = x0;
            while x < x1
                invariant
                    self.wf(),
                    self.cols() == old(self).cols(),
                    self.rows() == old(self).rows(),
                    tile.min_x <= x0 <= tile.max_x,
                    x1 <= tile.max_x,
                    tile.max_x <= self.cols(),
                    tile.min_y <= y0 <= y,
                    y < y1,
                    y1 <= tile.max_y,
                    tile.max_y <= self.rows(),
                    self.cols() <= MAX_SIDE,
                    self.rows() <= MAX_SIDE,
                    x0 <= x,
                    x <= x1 || x == x0,
                    area == area2(*tri),
                    area > 0,
                    step_a == tri.b.y - tri.c.y,
                    step_b == tri.c.y - tri.a.y,
                    step_c == tri.a.y - tri.b.y,
                    za == tri.a.depth,
                    zb == tri.b.depth,
                    zc == tri.c.depth,
                    wa == weight_a(*tri, x as int, y as int),
                    wb == weight_b(*tri, x as int, y as int),
                    wc == weight_c(*tri, x as int, y as int),
                    forall|px: int, py: int|
                        old(self).has(px, py) ==> #[trigger] self.sample(px, py) == (if x0 <= px
                            < x1 && (y0 <= py < y || (py == y && px < x)) {
                            shaded(old(self).sample(px, py), *tri, px, py)
                        } else {
                            old(self).sample(px, py)
                        }),
                decreases x1 - x,
            {
                if wa >= 0 && wb >= 0 && wc >= 0 {
                    proof {
                        lemma_edge_range(*tri, x as int, y as int);
                        lemma_product_bound(
                            wa as int,
                            za as int,
                            0x8_0000_0000_0000_0000,
                            0x1_0000_0000,
                        );
                        lemma_product_bound(
                            wb as int,
                            zb as int,
                            0x8_0000_0000_0000_0000,
                            0x1_0000_0000,
                        );
                        lemma_product_bound(
                            wc as int,
                            zc as int,
                            0x8_0000_0000_0000_0000,
                            0x1_0000_0000,
                        );
                        assert(0x8_0000_0000_0000_0000int * 0x1_0000_0000int
                            == 0x8_0000_0000_0000_0000_0000_0000int);
                        lemma_depth_range(*tri, x as int, y as int);
                    }
                    let z: i128 = (wa * za + wb * zb + wc * zc) / area;
                    let held: Sample = self.get(x, y);
                    if z < held.depth as i128 {
                        self.put(x, y, Sample { color: tri.color, depth: z as u32 });
                    }
                }
                proof {
                    lemma_edge_range(*tri, x as int + 1, y as int);
                    lemma_edge_step(
                        tri.b.x as int,
                        tri.b.y as int,
                        tri.c.x as int,
                        tri.c.y as int,
                        x as int,
                        y as int,
                    );
                    lemma_edge_step(
                        tri.c.x as int,
                        tri.c.y as int,
                        tri.a.x as int,
                        tri.a.y as int,
                        x as int,
                        y as int,
                    );
                    lemma_edge_step(
                        tri.a.x as int,
                        tri.a.y as int,
                        tri.b.x as int,
                        tri.b.y as int,
                        x as int,
                        y as int,
                    );
                }
                wa = wa + step_a;
                wb = wb + step_b;
                wc = wc + step_c;
                x = x + 1;
            }
            y = y + 1;
        }
        proof {
            assert forall|px: int, py: int|
                tile_has(tile, px, py) && !(x0 <= px < x1 && y0 <= py < y1) implies !inside(
                *tri,
                px,
                py,
            ) by {
                if inside(*tri, px, py) {
                    lemma_inside_bounds(*tri, px, py);
                }
            }
        }
    }
}

/// The edge functions of a triangle stay small on the screen.
proof fn lemma_edge_range(t: Triangle, x: int, y: int)
    requires
        0 <= x <= 0x8000_0000,
        0 <= y <= 0x8000_0000,
    ensures
        -0x8_0000_0000_0000_0000 <= weight_a(t, x, y) <= 0x8_0000_0000_0000_0000,
        -0x8_0000_0000_0000_0000 <= weight_b(t, x, y) <= 0x8_0000_0000_0000_0000,
        -0x8_0000_0000_0000_0000 <= weight_c(t, x, y) <= 0x8_0000_0000_0000_0000,
{
    lemma_product_bound(t.c.x - t.b.x, y - t.b.y, 0x1_0000_0000, 0x1_0000_0000);
    lemma_product_bound(t.c.y - t.b.y, x - t.b.x, 0x1_0000_0000, 0x1_0000_0000);
    lemma_product_bound(t.a.x - t.c.x, y - t.c.y, 0x1_0000_0000, 0x1_0000_0000);
    lemma_product_bound(t.a.y - t.c.y, x - t.c.x, 0x1_0000_0000, 0x1_0000_0000);
    lemma_product_bound(t.b.x - t.a.x, y - t.a.y, 0x1_0000_0000, 0x1_0000_0000);
    lemma_product_bound(t.b.y - t.a.y, x - t.a.x, 0x1_0000_0000, 0x1_0000_0000);
    assert(0x1_0000_0000int * 0x1_0000_0000int == 0x1_0000_0000_0000_0000int);
}

} // verus!

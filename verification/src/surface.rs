//! The render target and its way to the display: the fixed-size framebuffer,
//! the integer upscaling of its rows to the display's resolution, and the
//! packing of a pixel for the display's layout.

use vstd::prelude::*;
use crate::schedule::RowBand;

verus! {

/// Width of the framebuffer in pixels.
pub const FB_W: usize = 320;

/// Height of the framebuffer in pixels.
pub const FB_H: usize = 200;

/// A colour.
#[derive(Clone, Copy, Debug, PartialEq, Eq, Structural)]
pub struct Pixel {
    pub red: u8,
    pub green: u8,
    pub blue: u8,
}

/// Order of the colour channels in a 32-bit pixel of the display.
#[derive(Clone, Copy, Debug, PartialEq, Eq, Structural)]
pub enum PixelLayout {
    /// Red in the lowest byte, then green, then blue.
    Rgb,
    /// Blue in the lowest byte, then green, then red.
    Bgr,
    /// Any layout that cannot be written directly.
    Unsupported,
}

/// The colour behind everything.
pub fn sky_pixel() -> (sky: Pixel)
    ensures
        sky == (Pixel { red: 135, green: 206, blue: 235 }),
{
    Pixel { red: 135, green: 206, blue: 235 }
}

/// Place of pixel `(x, y)` in the framebuffer.
pub fn pixel_index(x: usize, y: usize) -> (index: usize)
    requires
        x < FB_W,
        y < FB_H,
    ensures
        index == y * FB_W + x,
        index < FB_W * FB_H,
{
    y * FB_W + x
}

/// The 32-bit value of a pixel in a layout.
pub open spec fn packed(layout: PixelLayout, pixel: Pixel) -> Option<u32> {
    match layout {
        PixelLayout::Rgb => Some((pixel.red + 256 * pixel.green + 65536 * pixel.blue) as u32),
        PixelLayout::Bgr => Some((pixel.blue + 256 * pixel.green + 65536 * pixel.red) as u32),
        PixelLayout::Unsupported => None,
    }
}

/// Packs a pixel for the display. For a layout that cannot be written
/// directly there is no value, and the caller skips the write.
pub fn pack_pixel(layout: PixelLayout, pixel: Pixel) -> (word: Option<u32>)
    ensures
        word == packed(layout, pixel),
{
    let r: u32 = pixel.red as u32;
    let g: u32 = pixel.green as u32;
    let b: u32 = pixel.blue as u32;
    assert(r | (g << 8) | (b << 16) == r + 256 * g + 65536 * b) by (bit_vector)
        requires
            r < 256,
            g < 256,
            b < 256,
    ;
    assert(b | (g << 8) | (r << 16) == b + 256 * g + 65536 * r) by (bit_vector)
        requires
            r < 256,
            g < 256,
            b < 256,
    ;
    match layout {
        PixelLayout::Rgb => Some(r | (g << 8) | (b << 16)),
        PixelLayout::Bgr => Some(b | (g << 8) | (r << 16)),
        PixelLayout::Unsupported => None,
    }
}

/// How often each framebuffer pixel is repeated on a display of `w` x `h`
/// pixels: horizontally, then vertically.
pub fn scale_factors(w: usize, h: usize) -> (scale: (usize, usize))
    ensures
        scale.0 == w / FB_W,
        scale.1 == h / FB_H,
{
    (w / FB_W, h / FB_H)
}

/// What display pixel `x` of a line shows of framebuffer row `py`, where the
/// row's pixels are repeated `scale_w` times: `None` right of the scaled row.
pub open spec fn scaled_source(py: int, scale_w: int, x: int) -> Option<int> {
    if scale_w > 0 && x / scale_w < FB_W {
        Some(py * FB_W + x / scale_w)
    } else {
        None
    }
}

proof fn lemma_scaled_column(px: int, scale_w: int, i: int)
    requires
        0 <= px,
        0 <= i < scale_w,
    ensures
        (px * scale_w + i) / scale_w == px,
        px * scale_w + scale_w == (px + 1) * scale_w,
        0 <= px * scale_w,
{
    assert((px * scale_w + i) / scale_w == px && px * scale_w + scale_w == (px + 1) * scale_w && 0
        <= px * scale_w) by (nonlinear_arith)
        requires
            0 <= px,
            0 <= i < scale_w,
    ;
}

proof fn lemma_scaled_bound(px: int, scale_w: int, x: int)
    requires
        0 <= px,
        0 < scale_w,
        0 <= x,
    ensures
        x < px * scale_w <==> x / scale_w < px,
{
    assert(x < px * scale_w <==> x / scale_w < px) by (nonlinear_arith)
        requires
            0 <= px,
            0 < scale_w,
            0 <= x,
    ;
}

/// Writes framebuffer row `py` into the display line `line`, each pixel
/// repeated `scale_w` times. Pixels of the line right of the scaled row, and
/// all of them for a factor of 0, keep what they held.
pub fn fill_line(line: &mut Vec<Pixel>, frame: &[Pixel], py: usize, scale_w: usize)
    requires
        frame.len() == FB_W * FB_H,
        py < FB_H,
        scale_w * FB_W <= usize::MAX,
    ensures
        final(line).len() == old(line).len(),
        forall|x: int|
            0 <= x < old(line).len() ==> #[trigger] final(line)[x] == (match scaled_source(
                py as int,
                scale_w as int,
                x,
            ) {
                Some(source) => frame[source],
                None => old(line)[x],
            }),
{
    let w: usize = line.len();
    let mut px: usize = 0;
    while px < FB_W
        invariant
            frame.len() == FB_W * FB_H,
            py < FB_H,
            scale_w * FB_W <= usize::MAX,
            px <= FB_W,
            line.len() == w,
            w == old(line).len(),
            forall|x: int|
                0 <= x < w ==> #[trigger] line[x] == (if scale_w > 0 && x / (scale_w as int) < px {
                    frame[py * FB_W + x / (scale_w as int)]
                } else {
                    old(line)[x]
                }),
        decreases FB_W - px,
    {
        let pixel: Pixel = frame[pixel_index(px, py)];
        proof {
            assert(px * scale_w <= scale_w * FB_W && px * scale_w + scale_w <= scale_w * FB_W)
                by (nonlinear_arith)
                requires
                    px < FB_W,
            ;
        }
        let x_start: usize = px * scale_w;
        let mut i: usize = 0;
        proof {
            assert forall|x: int| 0 <= x < w implies #[trigger] line[x] == (if x < x_start {
                frame[py * FB_W + x / (scale_w as int)]
            } else {
                old(line)[x]
            }) by {
                if scale_w > 0 {
                    lemma_scaled_bound(px as int, scale_w as int, x);
                } else {
                    assert(px * scale_w == 0) by (nonlinear_arith)
                        requires
                            scale_w == 0,
                    ;
                }
            }
        }
        while i < scale_w
            invariant
                frame.len() == FB_W * FB_H,
                py < FB_H,
                px < FB_W,
                x_start == px * scale_w,
                x_start + scale_w <= usize::MAX,
                i <= scale_w,
                line.len() == w,
                w == old(line).len(),
                pixel == frame[py * FB_W + px],
                forall|x: int|
                    0 <= x < w ==> #[trigger] line[x] == (if x < x_start + i {
                        frame[py * FB_W + x / (scale_w as int)]
                    } else {
                        old(line)[x]
                    }),
            decreases scale_w - i,
        {
            if x_start + i < w {
                let ghost before = line@;
                line[x_start + i] = pixel;
                proof {
                    lemma_scaled_column(px as int, scale_w as int, i as int);
                    assert forall|x: int| 0 <= x < w implies #[trigger] line[x] == (if x < x_start
                        + i + 1 {
                        frame[py * FB_W + x / (scale_w as int)]
                    } else {
                        old(line)[x]
                    }) by {
                        if x != x_start + i {
                            assert(line[x] == before[x]);
                        }
                    }
                }
            }
            i = i + 1;
        }
        proof {
            assert forall|x: int| 0 <= x < w implies #[trigger] line[x] == (if scale_w > 0 && x / (
            scale_w as int) < px + 1 {
                frame[py * FB_W + x / (scale_w as int)]
            } else {
                old(line)[x]
            }) by {
                if scale_w > 0 {
                    lemma_scaled_bound(px as int, scale_w as int, x);
                    lemma_scaled_bound(px as int + 1, scale_w as int, x);
                    lemma_scaled_column(px as int, scale_w as int, 0);
                }
            }
        }
        px = px + 1;
    }
}

/// The display rows that show framebuffer row `py`, where each row is
/// repeated `scale_h` times on a display of `h` rows.
pub fn dest_rows(py: usize, scale_h: usize, h: usize) -> (rows: RowBand)
    requires
        py < FB_H,
        scale_h * FB_H <= usize::MAX,
    ensures
        rows.start_y == (if py * scale_h < h {
            py * scale_h
        } else {
            h as int
        }),
        rows.end_y == (if (py + 1) * scale_h < h {
            (py + 1) * scale_h
        } else {
            h as int
        }),
{
    proof {
        assert(py * scale_h + scale_h <= scale_h * FB_H && (py + 1) * scale_h == py * scale_h
            + scale_h && 0 <= py * scale_h) by (nonlinear_arith)
            requires
                py < FB_H,
                0 <= scale_h,
        ;
    }
    let y_start: usize = py * scale_h;
    let y_end: usize = y_start + scale_h;
    RowBand {
        start_y: if y_start < h {
            y_start
        } else {
            h
        },
        end_y: if y_end < h {
            y_end
        } else {
            h
        },
    }
}

} // verus!

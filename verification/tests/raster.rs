use voxel_core::raster::{RenderTarget, Sample, ScreenVertex, Triangle, DEPTH_FAR};
use voxel_core::schedule::Tile;
use voxel_core::surface::Pixel;

const RED: Pixel = Pixel { red: 255, green: 0, blue: 0 };
const GREEN: Pixel = Pixel { red: 0, green: 255, blue: 0 };
const SKY: Pixel = Pixel { red: 135, green: 206, blue: 235 };

fn vertex(x: i32, y: i32, depth: u32) -> ScreenVertex {
    ScreenVertex { x, y, depth }
}

fn whole(target: &RenderTarget) -> Tile {
    Tile { min_x: 0, min_y: 0, max_x: target.width(), max_y: target.height() }
}

fn contents(target: &RenderTarget) -> Vec<Sample> {
    let mut all = Vec::new();
    for y in 0..target.height() {
        for x in 0..target.width() {
            all.push(target.get(x, y));
        }
    }
    all
}

/// The edge function evaluated at one pixel, without any stepping.
fn edge(a: ScreenVertex, b: ScreenVertex, x: i64, y: i64) -> i128 {
    (b.x as i128 - a.x as i128) * (y as i128 - a.y as i128)
        - (b.y as i128 - a.y as i128) * (x as i128 - a.x as i128)
}

/// What the pixel holds after the triangle, computed pixel by pixel.
fn reference(before: Sample, t: &Triangle, x: i64, y: i64) -> Sample {
    let area = edge(t.a, t.b, t.c.x as i64, t.c.y as i64);
    if area <= 0 {
        return before;
    }
    let (wa, wb, wc) = (edge(t.b, t.c, x, y), edge(t.c, t.a, x, y), edge(t.a, t.b, x, y));
    if wa < 0 || wb < 0 || wc < 0 {
        return before;
    }
    let z = (wa * t.a.depth as i128 + wb * t.b.depth as i128 + wc * t.c.depth as i128) / area;
    if z < before.depth as i128 {
        Sample { color: t.color, depth: z as u32 }
    } else {
        before
    }
}

#[test]
fn new_target_shows_the_sky() {
    let target = RenderTarget::new(4, 3);
    assert_eq!(target.width(), 4);
    assert_eq!(target.height(), 3);
    assert!(contents(&target).iter().all(|s| *s == Sample { color: SKY, depth: DEPTH_FAR }));
    assert_eq!(DEPTH_FAR, u32::MAX);
}

#[test]
fn put_changes_one_pixel() {
    let mut target = RenderTarget::new(4, 3);
    target.put(2, 1, Sample { color: RED, depth: 5 });
    for y in 0..3 {
        for x in 0..4 {
            let expected = if (x, y) == (2, 1) {
                Sample { color: RED, depth: 5 }
            } else {
                Sample { color: SKY, depth: DEPTH_FAR }
            };
            assert_eq!(target.get(x, y), expected);
        }
    }
}

#[test]
fn clear_tile_resets_the_tile_only() {
    let mut target = RenderTarget::new(4, 4);
    for y in 0..4 {
        for x in 0..4 {
            target.put(x, y, Sample { color: RED, depth: 1 });
        }
    }
    target.clear_tile(Tile { min_x: 1, min_y: 2, max_x: 3, max_y: 4 });
    for y in 0..4 {
        for x in 0..4 {
            let inside = (1..3).contains(&x) && (2..4).contains(&y);
            let expected = if inside {
                Sample { color: SKY, depth: DEPTH_FAR }
            } else {
                Sample { color: RED, depth: 1 }
            };
            assert_eq!(target.get(x, y), expected);
        }
    }
}

#[test]
fn triangle_covers_its_pixels_with_interpolated_depth() {
    let mut target = RenderTarget::new(4, 4);
    let tri = Triangle { a: vertex(0, 0, 0), b: vertex(3, 0, 30), c: vertex(0, 3, 60), color: RED };
    let tile = whole(&target);
    target.fill_triangle(tile, &tri);
    for y in 0..4i32 {
        for x in 0..4i32 {
            let expected = if x + y <= 3 {
                Sample { color: RED, depth: (10 * x + 20 * y) as u32 }
            } else {
                Sample { color: SKY, depth: DEPTH_FAR }
            };
            assert_eq!(target.get(x as usize, y as usize), expected);
        }
    }
}

#[test]
fn triangle_facing_away_draws_nothing() {
    let mut target = RenderTarget::new(4, 4);
    let back = Triangle { a: vertex(0, 0, 0), b: vertex(0, 3, 0), c: vertex(3, 0, 0), color: RED };
    let flat = Triangle { a: vertex(0, 0, 0), b: vertex(1, 1, 0), c: vertex(3, 3, 0), color: RED };
    let tile = whole(&target);
    target.fill_triangle(tile, &back);
    target.fill_triangle(tile, &flat);
    assert!(contents(&target).iter().all(|s| *s == Sample { color: SKY, depth: DEPTH_FAR }));
}

#[test]
fn triangle_is_cut_to_the_tile() {
    let mut target = RenderTarget::new(8, 8);
    let tri = Triangle { a: vertex(-5, -5, 7), b: vertex(20, -5, 7), c: vertex(-5, 20, 7), color: GREEN };
    let tile = Tile { min_x: 2, min_y: 3, max_x: 5, max_y: 6 };
    target.fill_triangle(tile, &tri);
    for y in 0..8 {
        for x in 0..8 {
            let inside = (2..5).contains(&x) && (3..6).contains(&y);
            let expected = if inside {
                Sample { color: GREEN, depth: 7 }
            } else {
                Sample { color: SKY, depth: DEPTH_FAR }
            };
            assert_eq!(target.get(x, y), expected);
        }
    }
    let before = contents(&target);
    target.fill_triangle(Tile { min_x: 4, min_y: 4, max_x: 4, max_y: 8 }, &tri);
    target.fill_triangle(Tile { min_x: 6, min_y: 7, max_x: 8, max_y: 7 }, &tri);
    assert_eq!(contents(&target), before);
}

#[test]
fn nearer_triangle_wins_in_either_order() {
    let near = Triangle { a: vertex(0, 0, 10), b: vertex(6, 0, 10), c: vertex(0, 6, 10), color: RED };
    let far = Triangle { a: vertex(7, 7, 20), b: vertex(1, 7, 20), c: vertex(7, 1, 20), color: GREEN };
    let mut one = RenderTarget::new(8, 8);
    let tile = whole(&one);
    one.fill_triangle(tile, &near);
    one.fill_triangle(tile, &far);
    let mut other = RenderTarget::new(8, 8);
    other.fill_triangle(tile, &far);
    other.fill_triangle(tile, &near);
    assert_eq!(contents(&one), contents(&other));
    // (3, 3) lies in both, (0, 0) in the near one only, (7, 7) in the far one only.
    assert_eq!(one.get(3, 3), Sample { color: RED, depth: 10 });
    assert_eq!(one.get(0, 0), Sample { color: RED, depth: 10 });
    assert_eq!(one.get(7, 7), Sample { color: GREEN, depth: 20 });
}

#[test]
fn crossing_triangles_agree_in_either_order() {
    // Depths cross inside the overlap: each triangle is nearer somewhere.
    let tilted = Triangle { a: vertex(0, 0, 0), b: vertex(15, 0, 300), c: vertex(0, 15, 0), color: RED };
    let level = Triangle { a: vertex(0, 0, 101), b: vertex(15, 0, 101), c: vertex(0, 15, 101), color: GREEN };
    let mut one = RenderTarget::new(16, 16);
    let tile = whole(&one);
    one.fill_triangle(tile, &tilted);
    one.fill_triangle(tile, &level);
    let mut other = RenderTarget::new(16, 16);
    other.fill_triangle(tile, &level);
    other.fill_triangle(tile, &tilted);
    assert_eq!(contents(&one), contents(&other));
    assert_eq!(one.get(1, 1), Sample { color: RED, depth: 20 });
    assert_eq!(one.get(10, 1), Sample { color: GREEN, depth: 101 });
}

#[test]
fn equal_depth_keeps_the_first() {
    let first = Triangle { a: vertex(0, 0, 5), b: vertex(3, 0, 5), c: vertex(0, 3, 5), color: RED };
    let second = Triangle { color: GREEN, ..first };
    let mut target = RenderTarget::new(4, 4);
    let tile = whole(&target);
    target.fill_triangle(tile, &first);
    target.fill_triangle(tile, &second);
    assert_eq!(target.get(1, 1), Sample { color: RED, depth: 5 });
}

#[test]
fn stepping_along_rows_equals_evaluation_per_pixel() {
    let mut seed: u32 = 4242;
    let mut next = |range: i32| -> i32 {
        seed = seed.wrapping_mul(1664525).wrapping_add(1013904223);
        ((seed >> 8) % range as u32) as i32
    };
    for _ in 0..200 {
        let mut target = RenderTarget::new(24, 16);
        let mut plain = contents(&target);
        for _ in 0..4 {
            let tri = Triangle {
                a: vertex(next(40) - 8, next(30) - 7, next(1000) as u32),
                b: vertex(next(40) - 8, next(30) - 7, next(1000) as u32),
                c: vertex(next(40) - 8, next(30) - 7, next(1000) as u32),
                color: Pixel { red: next(256) as u8, green: next(256) as u8, blue: 0 },
            };
            let min_x = next(24) as usize;
            let min_y = next(16) as usize;
            let tile = Tile {
                min_x,
                min_y,
                max_x: min_x + next(25 - min_x as i32) as usize,
                max_y: min_y + next(17 - min_y as i32) as usize,
            };
            target.fill_triangle(tile, &tri);
            for y in tile.min_y..tile.max_y {
                for x in tile.min_x..tile.max_x {
                    plain[y * 24 + x] = reference(plain[y * 24 + x], &tri, x as i64, y as i64);
                }
            }
            assert_eq!(contents(&target), plain);
        }
    }
}

#[test]
fn corners_at_the_ends_of_the_range_do_not_overflow() {
    let mut target = RenderTarget::new(4, 4);
    let tri = Triangle {
        a: vertex(i32::MIN, i32::MIN, u32::MAX - 1),
        b: vertex(i32::MAX, i32::MIN, u32::MAX - 1),
        c: vertex(i32::MAX, i32::MAX, u32::MAX - 1),
        color: RED,
    };
    let tile = whole(&target);
    target.fill_triangle(tile, &tri);
    for y in 0..4 {
        for x in 0..4 {
            let expected = if x >= y {
                Sample { color: RED, depth: u32::MAX - 1 }
            } else {
                Sample { color: SKY, depth: DEPTH_FAR }
            };
            assert_eq!(target.get(x, y), expected);
        }
    }
}

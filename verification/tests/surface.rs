use voxel_core::schedule::RowBand;
use voxel_core::surface::{
    dest_rows, fill_line, pack_pixel, pixel_index, scale_factors, sky_pixel, Pixel, PixelLayout, FB_H, FB_W,
};

fn frame() -> Vec<Pixel> {
    let mut frame = Vec::new();
    for y in 0..FB_H {
        for x in 0..FB_W {
            frame.push(Pixel { red: (x % 256) as u8, green: y as u8, blue: (x / 256) as u8 });
        }
    }
    frame
}

const BLACK: Pixel = Pixel { red: 0, green: 0, blue: 0 };

#[test]
fn framebuffer_size() {
    assert_eq!((FB_W, FB_H), (320, 200));
    assert_eq!(sky_pixel(), Pixel { red: 135, green: 206, blue: 235 });
}

#[test]
fn pixel_index_is_row_major() {
    assert_eq!(pixel_index(0, 0), 0);
    assert_eq!(pixel_index(319, 0), 319);
    assert_eq!(pixel_index(0, 1), 320);
    assert_eq!(pixel_index(319, 199), 63999);
}

#[test]
fn pixel_is_packed_by_layout() {
    let pixel = Pixel { red: 0x11, green: 0x22, blue: 0x33 };
    assert_eq!(pack_pixel(PixelLayout::Rgb, pixel), Some(0x0033_2211));
    assert_eq!(pack_pixel(PixelLayout::Bgr, pixel), Some(0x0011_2233));
    assert_eq!(pack_pixel(PixelLayout::Unsupported, pixel), None);
    assert_eq!(pack_pixel(PixelLayout::Rgb, Pixel { red: 255, green: 255, blue: 255 }), Some(0x00ff_ffff));
}

#[test]
fn scale_factors_round_down() {
    assert_eq!(scale_factors(1920, 1080), (6, 5));
    assert_eq!(scale_factors(320, 200), (1, 1));
    assert_eq!(scale_factors(319, 199), (0, 0));
    assert_eq!(scale_factors(0, 0), (0, 0));
}

#[test]
fn line_repeats_each_pixel() {
    let frame = frame();
    let mut line = vec![BLACK; 1000];
    fill_line(&mut line, &frame, 7, 3);
    for x in 0..1000 {
        let expected = if x < 960 { frame[7 * 320 + x / 3] } else { BLACK };
        assert_eq!(line[x], expected);
    }
}

#[test]
fn short_line_is_cut() {
    let frame = frame();
    let mut line = vec![BLACK; 100];
    fill_line(&mut line, &frame, 199, 2);
    for x in 0..100 {
        assert_eq!(line[x], frame[199 * 320 + x / 2]);
    }
}

#[test]
fn factor_zero_leaves_the_line() {
    let frame = frame();
    let mut line = vec![sky_pixel(); 50];
    fill_line(&mut line, &frame, 0, 0);
    assert!(line.iter().all(|p| *p == sky_pixel()));
    let mut empty: Vec<Pixel> = Vec::new();
    fill_line(&mut empty, &frame, 0, 4);
    assert!(empty.is_empty());
}

#[test]
fn display_rows_of_a_framebuffer_row() {
    assert_eq!(dest_rows(0, 5, 1080), RowBand { start_y: 0, end_y: 5 });
    assert_eq!(dest_rows(199, 5, 1080), RowBand { start_y: 995, end_y: 1000 });
    assert_eq!(dest_rows(199, 5, 998), RowBand { start_y: 995, end_y: 998 });
    assert_eq!(dest_rows(199, 5, 900), RowBand { start_y: 900, end_y: 900 });
    assert_eq!(dest_rows(3, 0, 900), RowBand { start_y: 0, end_y: 0 });
}

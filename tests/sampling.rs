use pal::raster::{sample_4by4_area, sample_image, Image, Pixel, SampleMode};

fn image(w: usize, h: usize, f: impl Fn(usize, usize) -> Pixel) -> Image {
    let mut pixels = Vec::new();
    for y in 0..h {
        for x in 0..w {
            pixels.push(f(x, y));
        }
    }
    Image { width: w, height: h, pixels }
}

fn px(r: u8, g: u8, b: u8) -> Pixel {
    Pixel { r, g, b, a: 255 }
}

fn quadrant() -> Image {
    image(8, 8, |x, y| if x < 4 && y < 4 { px(255, 0, 0) } else { px(0, 0, 0) })
}

#[test]
fn block_in_red_quadrant_is_red() {
    let c = sample_4by4_area(&quadrant(), 0, 0, 8, 8).unwrap();
    assert_eq!((c.r, c.g, c.b), (255, 0, 0));
}

#[test]
fn straddling_block_is_truncated_average() {
    let c = sample_4by4_area(&quadrant(), 2, 2, 8, 8).unwrap();
    assert_eq!((c.r, c.g, c.b), (63, 0, 0));
    let c = sample_4by4_area(&quadrant(), 4, 4, 8, 8).unwrap();
    assert_eq!((c.r, c.g, c.b), (0, 0, 0));
}

#[test]
fn block_past_the_edge_is_skipped() {
    assert!(sample_4by4_area(&quadrant(), 5, 0, 8, 8).is_none());
    assert!(sample_4by4_area(&quadrant(), 0, 5, 8, 8).is_none());
}

#[test]
fn transparent_pixels_are_left_out() {
    let clear = image(4, 4, |_, _| Pixel { r: 9, g: 9, b: 9, a: 0 });
    assert!(sample_4by4_area(&clear, 0, 0, 4, 4).is_none());
    let half = image(4, 4, |x, _| if x < 2 { px(200, 100, 0) } else { Pixel { r: 0, g: 0, b: 0, a: 0 } });
    let c = sample_4by4_area(&half, 0, 0, 4, 4).unwrap();
    assert_eq!((c.r, c.g, c.b), (200, 100, 0));
}

#[test]
fn uniform_image_gives_one_sample_value() {
    let img = image(32, 32, |_, _| px(100, 150, 200));
    let s = sample_image(&img, SampleMode::Block);
    assert_eq!(s.colors.len(), 29 * 29);
    for c in &s.colors {
        assert_eq!((c.r, c.g, c.b), (100, 150, 200));
    }
    assert_eq!((s.darkest.r, s.darkest.g, s.darkest.b), (100, 150, 200));
    assert_eq!((s.lightest.r, s.lightest.g, s.lightest.b), (100, 150, 200));
}

#[test]
fn scan_stops_at_sample_count() {
    let img = image(100, 100, |x, y| px(x as u8, y as u8, 7));
    let s = sample_image(&img, SampleMode::Point);
    assert_eq!(s.colors.len(), 1024);
    assert_eq!((s.colors[0].r, s.colors[0].g), (0, 0));
    assert_eq!((s.colors[1].r, s.colors[1].g), (3, 0));
    assert_eq!((s.colors[34].r, s.colors[34].g), (0, 3));
}

#[test]
fn extremes_skip_near_black_and_white() {
    let img = image(3, 1, |x, _| match x {
        0 => px(0, 0, 0),
        1 => px(255, 255, 255),
        _ => px(120, 120, 120),
    });
    let s = sample_image(&img, SampleMode::Point);
    assert_eq!(s.colors.len(), 3);
    assert_eq!((s.darkest.r, s.lightest.r), (120, 120));
}

#[test]
fn empty_image_has_no_samples() {
    let img = image(0, 0, |_, _| px(0, 0, 0));
    let s = sample_image(&img, SampleMode::Block);
    assert!(s.colors.is_empty());
    assert_eq!((s.darkest.r, s.darkest.g, s.darkest.b), (255, 255, 255));
    assert_eq!((s.lightest.r, s.lightest.g, s.lightest.b), (0, 0, 0));
}

#[test]
fn near_white_only_image_has_default_extremes() {
    let img = image(4, 4, |_, _| px(250, 250, 250));
    for mode in [SampleMode::Block, SampleMode::Point] {
        let s = sample_image(&img, mode);
        assert!(!s.colors.is_empty());
        assert_eq!((s.darkest.r, s.darkest.g, s.darkest.b), (255, 255, 255));
        assert_eq!((s.lightest.r, s.lightest.g, s.lightest.b), (0, 0, 0));
    }
}

#[test]
fn near_black_only_image_has_default_extremes() {
    let img = image(4, 4, |_, _| px(5, 5, 5));
    for mode in [SampleMode::Block, SampleMode::Point] {
        let s = sample_image(&img, mode);
        assert!(!s.colors.is_empty());
        assert_eq!((s.darkest.r, s.darkest.g, s.darkest.b), (255, 255, 255));
        assert_eq!((s.lightest.r, s.lightest.g, s.lightest.b), (0, 0, 0));
    }
}

#[test]
fn extremes_ignore_out_of_bounds_samples() {
    let img = image(4, 1, |x, _| match x {
        0 => px(250, 250, 250),
        1 => px(100, 100, 100),
        2 => px(5, 5, 5),
        _ => px(200, 200, 200),
    });
    let s = sample_image(&img, SampleMode::Point);
    assert_eq!(s.darkest.r, 100);
    assert_eq!(s.lightest.r, 200);
}

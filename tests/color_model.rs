use pal::color::{Color, Saturation};
use pal::raster::Pixel;

fn color(r: u8, g: u8, b: u8) -> Color {
    Color::from_rgba(Pixel { r, g, b, a: 255 })
}

fn rgb(c: &Color) -> (u8, u8, u8) {
    (c.r, c.g, c.b)
}

#[test]
fn from_rgba_derives_chroma_and_luminance() {
    let red = color(255, 0, 0);
    assert_eq!(red.chroma, 255);
    assert_eq!(red.luminance, 542_130);
    let c = color(10, 20, 30);
    assert_eq!(c.chroma, 20);
    assert_eq!(c.luminance, 185_960);
    let white = color(255, 255, 255);
    assert_eq!(white.chroma, 0);
    assert_eq!(white.luminance, pal::color::LUMINANCE_ONE);
}

#[test]
fn from_rgba_ignores_alpha() {
    let a = Color::from_rgba(Pixel { r: 1, g: 2, b: 3, a: 0 });
    let b = Color::from_rgba(Pixel { r: 1, g: 2, b: 3, a: 200 });
    assert_eq!(a, b);
}

#[test]
fn distance_is_squared_euclidean() {
    assert_eq!(color(0, 0, 0).distance_to(&color(3, 4, 0)), 25);
    assert_eq!(color(255, 255, 255).distance_to(&color(0, 0, 0)), 195_075);
    assert_eq!(color(7, 8, 9).distance_to(&color(7, 8, 9)), 0);
}

#[test]
fn saturation_one_is_identity() {
    for c in [color(200, 100, 50), color(0, 0, 0), color(1, 254, 77)] {
        assert_eq!(c.with_saturation(Saturation { num: 1, den: 1 }), c);
        assert_eq!(c.with_saturation(Saturation { num: 3, den: 3 }), c);
    }
}

#[test]
fn saturation_zero_is_gray() {
    let g = color(255, 0, 0).with_saturation(Saturation { num: 0, den: 1 });
    assert_eq!(rgb(&g), (54, 54, 54));
    assert_eq!(g.chroma, 0);
    let g = color(200, 100, 50).with_saturation(Saturation { num: 0, den: 1 });
    assert_eq!(rgb(&g), (117, 117, 117));
    assert_eq!(g.chroma, 0);
}

#[test]
fn saturation_scales_and_clamps() {
    let c = color(200, 100, 50).with_saturation(Saturation { num: 2, den: 1 });
    assert_eq!(rgb(&c), (255, 82, 0));
    assert_eq!(c.chroma, 255);
    assert_eq!(c.luminance, 1_128_594);
    let h = color(200, 100, 50).with_saturation(Saturation { num: 1, den: 2 });
    assert_eq!(rgb(&h), (158, 108, 83));
    assert_eq!(h.chroma, 75);
}

#[test]
fn saturation_leaves_gray_alone() {
    let g = color(90, 90, 90);
    assert_eq!(g.with_saturation(Saturation { num: 5, den: 1 }), g);
}

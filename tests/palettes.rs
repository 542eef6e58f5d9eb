use pal::color::{Color, Saturation};
use pal::options::Method;
use pal::palette::{
    aaverage_generate_colorscheme, ansi_generate_colorscheme, generate_colorscheme, kmeans_generate_colorscheme,
};
use pal::raster::{Image, Pixel};

fn image(w: usize, h: usize, f: impl Fn(usize, usize) -> Pixel) -> Image {
    let mut pixels = Vec::new();
    for y in 0..h {
        for x in 0..w {
            pixels.push(f(x, y));
        }
    }
    Image { width: w, height: h, pixels }
}

fn px(r: u8, g: u8, b: u8) -> Pixel {
    Pixel { r, g, b, a: 255 }
}

fn rgb(c: &Color) -> (u8, u8, u8) {
    (c.r, c.g, c.b)
}

fn manhattan(a: &Color, b: &Color) -> i32 {
    (a.r as i32 - b.r as i32).abs() + (a.g as i32 - b.g as i32).abs() + (a.b as i32 - b.b as i32).abs()
}

fn quadrants() -> Image {
    image(64, 64, |x, y| match (x < 32, y < 32) {
        (true, true) => px(255, 0, 0),
        (false, true) => px(0, 200, 0),
        (true, false) => px(20, 20, 20),
        (false, false) => px(128, 128, 128),
    })
}

fn stripes() -> Image {
    image(128, 64, |x, y| {
        let band = (x / 8) as u8;
        px(band.wrapping_mul(37), (y as u8).wrapping_mul(4), 255 - band.wrapping_mul(15))
    })
}

#[test]
fn area_average_palette_is_distinct_and_bounded() {
    for img in [quadrants(), stripes()] {
        let cs = aaverage_generate_colorscheme(&img);
        assert!(cs.palette.len() <= 16);
        for i in 0..cs.palette.len() {
            for j in 0..cs.palette.len() {
                if i != j {
                    assert!(manhattan(&cs.palette[i], &cs.palette[j]) >= 50);
                }
            }
            if i + 1 < cs.palette.len() {
                assert!(cs.palette[i].chroma >= cs.palette[i + 1].chroma);
            }
        }
    }
}

#[test]
fn area_average_keeps_saturated_colors() {
    let cs = aaverage_generate_colorscheme(&quadrants());
    assert!(!cs.palette.is_empty());
    assert_eq!(rgb(&cs.palette[0]), (255, 0, 0));
}

#[test]
fn area_average_of_uniform_image_is_empty() {
    let cs = aaverage_generate_colorscheme(&image(32, 32, |_, _| px(100, 150, 200)));
    assert!(cs.palette.is_empty());
    assert_eq!(rgb(&cs.background), (100, 150, 200));
    assert_eq!(rgb(&cs.foreground), (100, 150, 200));
}

#[test]
fn kmeans_palette_has_sixteen_entries() {
    for img in [quadrants(), stripes(), image(2, 2, |x, y| px((x * 100) as u8, (y * 100) as u8, 50))] {
        let cs = kmeans_generate_colorscheme(&img);
        assert_eq!(cs.palette.len(), 16);
        for i in 0..15 {
            assert!(cs.palette[i].chroma >= cs.palette[i + 1].chroma);
        }
    }
}

#[test]
fn kmeans_of_uniform_image_repeats_the_color() {
    let cs = kmeans_generate_colorscheme(&image(32, 32, |_, _| px(100, 150, 200)));
    assert_eq!(cs.palette.len(), 16);
    for c in &cs.palette {
        assert_eq!(rgb(c), (100, 150, 200));
    }
}

#[test]
fn kmeans_centers_move_to_cluster_means() {
    let img = image(32, 32, |x, _| if x < 16 { px(250, 10, 10) } else { px(10, 10, 250) });
    let cs = kmeans_generate_colorscheme(&img);
    assert!(cs.palette.iter().any(|c| rgb(c) == (250, 10, 10)));
    assert!(cs.palette.iter().all(|c| rgb(c) == (250, 10, 10) || rgb(c) == (10, 10, 250)));
}

#[test]
fn ansi_ends_are_darkest_and_lightest() {
    for img in [quadrants(), stripes()] {
        let cs = ansi_generate_colorscheme(&img);
        assert_eq!(cs.palette.len(), 16);
        assert_eq!(cs.palette[0], cs.background);
        assert_eq!(cs.palette[15], cs.foreground);
    }
}

#[test]
fn ansi_matches_nearest_sample() {
    let cs = ansi_generate_colorscheme(&quadrants());
    assert_eq!(rgb(&cs.palette[9]), (255, 0, 0));
    assert_eq!(rgb(&cs.palette[8]), (128, 128, 128));
}

#[test]
fn ansi_of_empty_image_uses_defaults() {
    let cs = ansi_generate_colorscheme(&image(0, 0, |_, _| px(0, 0, 0)));
    assert_eq!(cs.palette.len(), 16);
    assert_eq!(rgb(&cs.palette[0]), (255, 255, 255));
    assert_eq!(rgb(&cs.palette[7]), (255, 255, 255));
    assert_eq!(rgb(&cs.palette[15]), (0, 0, 0));
}

#[test]
fn generate_applies_saturation_everywhere() {
    let img = image(32, 32, |_, _| px(100, 150, 200));
    let cs = generate_colorscheme(&img, Method::KMeans, Saturation { num: 0, den: 1 });
    assert_eq!(cs.palette.len(), 16);
    for c in &cs.palette {
        assert_eq!(rgb(c), (142, 142, 142));
    }
    assert_eq!(rgb(&cs.background), (142, 142, 142));
    assert_eq!(rgb(&cs.foreground), (142, 142, 142));
}

#[test]
fn scheme_saturation_maps_every_color() {
    let img = quadrants();
    let plain = aaverage_generate_colorscheme(&img);
    let n = plain.palette.len();
    let first = plain.palette[0];
    let bg = plain.background;
    let gray = plain.with_saturation(Saturation { num: 0, den: 1 });
    assert_eq!(gray.palette.len(), n);
    assert_eq!(gray.palette[0], first.with_saturation(Saturation { num: 0, den: 1 }));
    assert_eq!(gray.background, bg.with_saturation(Saturation { num: 0, den: 1 }));
    for c in &gray.palette {
        assert_eq!(c.chroma, 0);
    }
}

#[test]
fn ansi_ends_skip_near_white_and_near_black() {
    let light = ansi_generate_colorscheme(&image(4, 4, |_, _| px(250, 250, 250)));
    assert_eq!(rgb(&light.background), (255, 255, 255));
    assert_eq!(rgb(&light.palette[0]), (255, 255, 255));
    assert_eq!(rgb(&light.foreground), (0, 0, 0));
    let dark = ansi_generate_colorscheme(&image(4, 4, |_, _| px(5, 5, 5)));
    assert_eq!(rgb(&dark.foreground), (0, 0, 0));
    assert_eq!(rgb(&dark.palette[15]), (0, 0, 0));
    assert_eq!(rgb(&dark.background), (255, 255, 255));
}

#[test]
fn background_skips_near_white_in_every_builder() {
    let img = image(4, 4, |_, _| px(250, 250, 250));
    assert_eq!(rgb(&aaverage_generate_colorscheme(&img).background), (255, 255, 255));
    assert_eq!(rgb(&kmeans_generate_colorscheme(&img).background), (255, 255, 255));
}

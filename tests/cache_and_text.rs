use pal::codec::{cache_file_name, cache_key, format_color, parse_colorscheme, serialize_colorscheme, CacheError};
use pal::color::Color;
use pal::options::{Args, Method, OutputFormat};
use pal::palette::Colorscheme;
use pal::raster::Pixel;
use pal::template::render_template;

fn color(r: u8, g: u8, b: u8) -> Color {
    Color::from_rgba(Pixel { r, g, b, a: 255 })
}

fn rgb(c: &Color) -> (u8, u8, u8) {
    (c.r, c.g, c.b)
}

fn scheme() -> Colorscheme {
    Colorscheme {
        palette: vec![color(255, 0, 0), color(0, 128, 255)],
        background: color(1, 2, 3),
        foreground: color(250, 251, 252),
    }
}

#[test]
fn serialize_writes_one_line_per_color() {
    assert_eq!(serialize_colorscheme(&scheme()), "#010203\n#fafbfc\n#ff0000\n#0080ff\n");
}

#[test]
fn cache_round_trip_keeps_channels() {
    let cs = scheme();
    let back = parse_colorscheme(&serialize_colorscheme(&cs)).unwrap();
    assert_eq!(back.background, cs.background);
    assert_eq!(back.foreground, cs.foreground);
    assert_eq!(back.palette, cs.palette);
}

#[test]
fn parse_skips_blank_lines_and_trims() {
    let cs = parse_colorscheme("\n  #FFaa00  \n\nabcdef\r\n#000000\n").unwrap();
    assert_eq!(rgb(&cs.background), (255, 170, 0));
    assert_eq!(rgb(&cs.foreground), (171, 205, 239));
    assert_eq!(cs.palette.len(), 1);
    assert_eq!(rgb(&cs.palette[0]), (0, 0, 0));
    assert_eq!(cs.background.chroma, 255);
}

#[test]
fn parse_without_palette_is_accepted() {
    let cs = parse_colorscheme("#010203\n#040506").unwrap();
    assert!(cs.palette.is_empty());
    assert_eq!(rgb(&cs.foreground), (4, 5, 6));
}

#[test]
fn parse_errors() {
    assert_eq!(parse_colorscheme("").err(), Some(CacheError::MissingBackground));
    assert_eq!(parse_colorscheme("\n \n").err(), Some(CacheError::MissingBackground));
    assert_eq!(parse_colorscheme("#010203\n").err(), Some(CacheError::MissingForeground));
    assert_eq!(parse_colorscheme("#010203\n#0102\n").err(), Some(CacheError::Malformed));
    assert_eq!(parse_colorscheme("#010203\n#01020g\n").err(), Some(CacheError::Malformed));
    assert_eq!(parse_colorscheme("#0102030\n#010203\n").err(), Some(CacheError::Malformed));
    assert_eq!(parse_colorscheme("bad\n").err(), Some(CacheError::Malformed));
}

#[test]
fn format_color_hex_and_rgb() {
    let c = color(255, 128, 0);
    assert_eq!(format_color(&c, OutputFormat::HEX), "#ff8000");
    assert_eq!(format_color(&c, OutputFormat::RGB), "rgb(255, 128, 0)");
    assert_eq!(format_color(&color(5, 50, 0), OutputFormat::RGB), "rgb(5, 50, 0)");
    assert_eq!(format_color(&color(0, 0, 0), OutputFormat::HEX), "#000000");
}

#[test]
fn template_placeholders_are_replaced() {
    let out = render_template(
        "a `@background` b `@color0` c `@color99` d `@colorx` e `@foreground` f `@color+1` g `open",
        &scheme(),
        OutputFormat::HEX,
    );
    assert_eq!(out, "a #010203 b #ff0000 c `@color99` d `@colorx` e #fafbfc f #0080ff g `open");
}

#[test]
fn template_without_placeholders_is_unchanged() {
    let text = "plain text, äöü\nsecond line";
    assert_eq!(render_template(text, &scheme(), OutputFormat::RGB), text);
    assert_eq!(render_template("``", &scheme(), OutputFormat::RGB), "``");
    assert_eq!(render_template("`@color1`", &scheme(), OutputFormat::RGB), "rgb(0, 128, 255)");
}

#[test]
fn cache_file_names() {
    assert_eq!(cache_file_name(0xabc), "abc.pal");
    assert_eq!(cache_file_name(0), "0.pal");
    assert_eq!(cache_file_name(u64::MAX), "ffffffffffffffff.pal");
    assert_eq!(cache_file_name(16), "10.pal");
}

#[test]
fn method_tags() {
    assert_eq!(Method::AreaAverage.tag(), 0);
    assert_eq!(Method::KMeans.tag(), 1);
    assert_eq!(Method::ANSI.tag(), 2);
}

#[test]
fn default_args() {
    let a = Args::default();
    assert_eq!((a.saturation.num, a.saturation.den), (1, 1));
    assert_eq!(a.method, Method::AreaAverage);
    assert_eq!(a.format, OutputFormat::HEX);
    assert!(!a.verbose && !a.preview);
}

#[test]
fn cache_key_depends_on_every_part() {
    let base = cache_key("/tmp/a.png", Some(1_700_000_000), 1.0f32.to_bits(), Method::AreaAverage);
    assert_eq!(base, cache_key("/tmp/a.png", Some(1_700_000_000), 1.0f32.to_bits(), Method::AreaAverage));
    assert_ne!(base, cache_key("/tmp/b.png", Some(1_700_000_000), 1.0f32.to_bits(), Method::AreaAverage));
    assert_ne!(base, cache_key("/tmp/a.png", Some(1_700_000_001), 1.0f32.to_bits(), Method::AreaAverage));
    assert_ne!(base, cache_key("/tmp/a.png", None, 1.0f32.to_bits(), Method::AreaAverage));
    assert_ne!(base, cache_key("/tmp/a.png", Some(1_700_000_000), 0.5f32.to_bits(), Method::AreaAverage));
    assert_ne!(base, cache_key("/tmp/a.png", Some(1_700_000_000), 1.0f32.to_bits(), Method::KMeans));
    assert_ne!(
        cache_key("https://x/y.png", None, 1.0f32.to_bits(), Method::KMeans),
        cache_key("https://x/y.png", None, 1.0f32.to_bits(), Method::ANSI)
    );
}

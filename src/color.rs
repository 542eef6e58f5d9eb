use vstd::prelude::*;

use vstd::arithmetic::div_mod::{lemma_div_denominator, lemma_div_multiples_vanish};

use crate::raster::Pixel;

verus! {

/// One sample of an image: channel values plus derived chroma and luminance.
#[derive(Debug, Clone, Copy, PartialEq, Eq, Structural)]
pub struct Color {
    pub r: u8,
    pub g: u8,
    pub b: u8,
    pub chroma: u8,
    /// Relative luminance scaled so that `LUMINANCE_ONE` stands for 1.0.
    pub luminance: u32,
}

pub const LUMINANCE_ONE: u32 = 2_550_000;

pub open spec fn max3(a: int, b: int, c: int) -> int {
    if a >= b && a >= c { a } else if b >= c { b } else { c }
}

pub open spec fn min3(a: int, b: int, c: int) -> int {
    if a <= b && a <= c { a } else if b <= c { b } else { c }
}

pub open spec fn chroma_of(r: u8, g: u8, b: u8) -> int {
    max3(r as int, g as int, b as int) - min3(r as int, g as int, b as int)
}

/// BT.709 weights over 10000, so the weighted sum is at most `LUMINANCE_ONE`.
pub open spec fn luminance_of(r: u8, g: u8, b: u8) -> int {
    2126 * r + 7152 * g + 722 * b
}

/// A saturation factor as the fraction `num / den`.
#[derive(Debug, Clone, Copy, PartialEq, Eq, Structural)]
pub struct Saturation {
    pub num: i32,
    pub den: u32,
}

impl Saturation {
    pub open spec fn wf(&self) -> bool {
        self.den > 0
    }

    /// The factor is exactly one.
    pub open spec fn is_one(&self) -> bool {
        self.num as int == self.den as int
    }
}

/// `gray + (ch - gray) * f` with `gray = lum / 10000`, over the common
/// denominator `10000 * den`.
pub open spec fn scaled_channel_numerator(ch: u8, lum: int, f: Saturation) -> int {
    lum * f.den + (10000 * ch - lum) * f.num
}

/// The new channel value: clamped to `[0, 255]`, then truncated.
pub open spec fn saturated_channel(ch: u8, lum: int, f: Saturation) -> int {
    let n = scaled_channel_numerator(ch, lum, f);
    let d = 10000 * f.den;
    if n <= 0 {
        0
    } else if n / d >= 255 {
        255
    } else {
        n / d
    }
}

/// What the saturation transform does to a well-formed color's channels.
pub open spec fn saturated_rgb(c: Color, f: Saturation) -> (u8, u8, u8) {
    if f.is_one() || c.chroma == 0 {
        (c.r, c.g, c.b)
    } else {
        let lum = c.luminance as int;
        (
            saturated_channel(c.r, lum, f) as u8,
            saturated_channel(c.g, lum, f) as u8,
            saturated_channel(c.b, lum, f) as u8,
        )
    }
}

pub open spec fn squared_distance(a: (u8, u8, u8), b: (u8, u8, u8)) -> int {
    (a.0 - b.0) * (a.0 - b.0) + (a.1 - b.1) * (a.1 - b.1) + (a.2 - b.2) * (a.2 - b.2)
}

pub open spec fn abs(x: int) -> int {
    if x < 0 { -x } else { x }
}

pub open spec fn manhattan_distance(a: (u8, u8, u8), b: (u8, u8, u8)) -> int {
    abs(a.0 - b.0) + abs(a.1 - b.1) + abs(a.2 - b.2)
}

fn max_u8(a: u8, b: u8) -> (r: u8)
    ensures
        r == if a >= b { a } else { b },
{
    if a >= b { a } else { b }
}

fn min_u8(a: u8, b: u8) -> (r: u8)
    ensures
        r == if a <= b { a } else { b },
{
    if a <= b { a } else { b }
}

fn clamped_channel(ch: u8, lum: u32, f: Saturation) -> (r: u8)
    requires
        f.wf(),
        lum <= LUMINANCE_ONE,
    ensures
        r as int == saturated_channel(ch, lum as int, f),
{
    let l = lum as i64;
    let d = f.den as i64;
    let n = f.num as i64;
    let c = ch as i64;
    assert(0 <= l * d <= 2_550_000 * 4_294_967_295) by (nonlinear_arith)
        requires 0 <= l <= 2_550_000, 0 <= d <= 4_294_967_295;
    let diff = 10000 * c - l;
    assert(-2_550_000 * 2_147_483_648 <= diff * n <= 2_550_000 * 2_147_483_648) by (nonlinear_arith)
        requires -2_550_000 <= diff <= 2_550_000, -2_147_483_648 <= n <= 2_147_483_647;
    let num = l * d + diff * n;
    let den = 10000 * d;
    if num <= 0 {
        0
    } else {
        let q = num / den;
        if q >= 255 {
            255
        } else {
            q as u8
        }
    }
}

impl Color {
    pub open spec fn wf(&self) -> bool {
        &&& self.chroma as int == chroma_of(self.r, self.g, self.b)
        &&& self.luminance as int == luminance_of(self.r, self.g, self.b)
    }

    pub open spec fn rgb(&self) -> (u8, u8, u8) {
        (self.r, self.g, self.b)
    }

    /// The color with channels `r`, `g`, `b`; chroma and luminance derived.
    pub open spec fn of_rgb(r: u8, g: u8, b: u8) -> Color {
        Color { r, g, b, chroma: chroma_of(r, g, b) as u8, luminance: luminance_of(r, g, b) as u32 }
    }

    /// Builds a color from an RGBA pixel; alpha is ignored.
    pub fn from_rgba(pixel: Pixel) -> (c: Color)
        ensures
            c.wf(),
            c.rgb() == (pixel.r, pixel.g, pixel.b),
            c == Color::of_rgb(pixel.r, pixel.g, pixel.b),
    {
        Color::from_channels(pixel.r, pixel.g, pixel.b)
    }

    pub(crate) fn from_channels(r: u8, g: u8, b: u8) -> (c: Color)
        ensures
            c.wf(),
            c == Color::of_rgb(r, g, b),
    {
        let max = max_u8(max_u8(r, g), b);
        let min = min_u8(min_u8(r, g), b);
        let luminance = 2126 * (r as u32) + 7152 * (g as u32) + 722 * (b as u32);
        Color { r, g, b, chroma: max - min, luminance }
    }

    /// Squared Euclidean RGB distance; it orders colors as the distance does.
    pub fn distance_to(&self, other: &Color) -> (d: u32)
        ensures
            d as int == squared_distance(self.rgb(), other.rgb()),
    {
        let dr = self.r as i32 - other.r as i32;
        let dg = self.g as i32 - other.g as i32;
        let db = self.b as i32 - other.b as i32;
        assert(0 <= dr * dr <= 65025 && 0 <= dg * dg <= 65025 && 0 <= db * db <= 65025)
            by (nonlinear_arith)
            requires -255 <= dr <= 255, -255 <= dg <= 255, -255 <= db <= 255;
        (dr * dr + dg * dg + db * db) as u32
    }

    /// Moves each channel toward the color's gray point by `saturation`:
    /// factor one or a gray color leaves it as it is.
    pub fn with_saturation(self, saturation: Saturation) -> (c: Color)
        requires
            self.wf(),
            saturation.wf(),
        ensures
            c.wf(),
            c.rgb() == saturated_rgb(self, saturation),
            saturation.is_one() || self.chroma == 0 ==> c == self,
    {
        if saturation.num as i64 == saturation.den as i64 || self.chroma == 0 {
            return self;
        }
        proof {
            assert(self.luminance <= LUMINANCE_ONE) by (nonlinear_arith)
                requires self.luminance == 2126 * self.r + 7152 * self.g + 722 * self.b,
                    self.r <= 255, self.g <= 255, self.b <= 255;
        }
        let r = clamped_channel(self.r, self.luminance, saturation);
        let g = clamped_channel(self.g, self.luminance, saturation);
        let b = clamped_channel(self.b, self.luminance, saturation);
        Color::from_channels(r, g, b)
    }
}

/// A factor of one leaves every color as it is.
pub proof fn lemma_saturation_one_is_identity(c: Color, f: Saturation)
    requires
        c.wf(),
        f.wf(),
        f.is_one(),
    ensures
        saturated_rgb(c, f) == c.rgb(),
{
}

/// A factor of zero sends every channel to the color's gray point, the
/// truncated `luminance * 255`, so the chroma becomes zero.
pub proof fn lemma_saturation_zero_is_gray(c: Color, f: Saturation)
    requires
        c.wf(),
        f.wf(),
        f.num == 0,
    ensures
        saturated_rgb(c, f).0 as int == c.luminance / 10000,
        saturated_rgb(c, f).1 as int == c.luminance / 10000,
        saturated_rgb(c, f).2 as int == c.luminance / 10000,
        chroma_of(saturated_rgb(c, f).0, saturated_rgb(c, f).1, saturated_rgb(c, f).2) == 0,
{
    let lum = c.luminance as int;
    let d = f.den as int;
    assert(lum <= 2_550_000) by (nonlinear_arith)
        requires lum == 2126 * c.r + 7152 * c.g + 722 * c.b, c.r <= 255, c.g <= 255, c.b <= 255;
    if c.chroma == 0 {
        assert(c.r == c.g && c.g == c.b);
        assert(lum == 10000 * c.r);
    } else {
        assert(scaled_channel_numerator(c.r, lum, f) == lum * d);
        assert(scaled_channel_numerator(c.g, lum, f) == lum * d);
        assert(scaled_channel_numerator(c.b, lum, f) == lum * d);
        lemma_div_denominator(lum * d, d, 10000);
        lemma_div_multiples_vanish(lum, d);
        assert(lum * d == d * lum) by (nonlinear_arith);
        assert(d * 10000 == 10000 * d);
        assert((lum * d) / (10000 * d) == lum / 10000);
        if lum == 0 {
            assert(lum * d == 0);
        } else {
            assert(lum * d > 0) by (nonlinear_arith)
                requires lum > 0, d > 0;
        }
    }
}

} // verus!

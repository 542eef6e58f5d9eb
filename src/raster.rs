use vstd::prelude::*;

use vstd::arithmetic::div_mod::{lemma_fundamental_div_mod, lemma_mod_pos_bound};
use vstd::arithmetic::mul::lemma_mul_inequality;

use crate::color::Color;

verus! {

/// One RGBA pixel.
#[derive(Debug, Clone, Copy, PartialEq, Eq, Structural)]
pub struct Pixel {
    pub r: u8,
    pub g: u8,
    pub b: u8,
    pub a: u8,
}

/// A decoded image: `width * height` pixels in row-major order.
pub struct Image {
    pub width: usize,
    pub height: usize,
    pub pixels: Vec<Pixel>,
}

/// The grid divisor: about this many grid points per row and per column.
pub const GRID_DIVISOR: usize = 32;

/// The most samples one scan collects.
pub const SAMPLE_COUNT: usize = 1024;

/// Luminance bounds, exclusive, for the darkest and lightest samples (0.05 and 0.95).
pub const EXTREMUM_LOW: u32 = 127_500;

pub const EXTREMUM_HIGH: u32 = 2_422_500;

/// How a grid point becomes a sample.
#[derive(Debug, Clone, Copy, PartialEq, Eq, Structural)]
pub enum SampleMode {
    /// The average of the 4x4 block at the grid point, transparent pixels left out.
    Block,
    /// The pixel at the grid point, alpha ignored.
    Point,
}

/// What one scan of an image yields.
pub struct Samples {
    pub colors: Vec<Color>,
    pub darkest: Color,
    pub lightest: Color,
}

impl Image {
    pub open spec fn wf(&self) -> bool {
        self.pixels@.len() == self.width * self.height
    }

    pub open spec fn pixel_at(&self, x: int, y: int) -> Pixel {
        self.pixels@[y * self.width + x]
    }
}

impl Samples {
    pub open spec fn wf(&self) -> bool {
        &&& forall|i: int| 0 <= i < self.colors@.len() ==> (#[trigger] self.colors@[i]).wf()
        &&& self.colors@.len() <= SAMPLE_COUNT
        &&& self.darkest.wf()
        &&& self.lightest.wf()
    }
}

/// Channel sums and the count of the opaque pixels among the first `k`
/// of the 4x4 block at `(x, y)`, taken row by row.
pub open spec fn block_acc(img: Image, x: int, y: int, k: nat) -> (int, int, int, int)
    decreases k,
{
    if k == 0 {
        (0, 0, 0, 0)
    } else {
        let prev = block_acc(img, x, y, (k - 1) as nat);
        let p = img.pixel_at(x + (k - 1) % 4, y + (k - 1) / 4);
        if p.a == 0 {
            prev
        } else {
            (prev.0 + p.r, prev.1 + p.g, prev.2 + p.b, prev.3 + 1)
        }
    }
}

/// The block sample at `(x, y)` within the bounds `w` by `h`.
pub open spec fn block_sample(img: Image, x: int, y: int, w: int, h: int) -> Option<Color> {
    if x + 3 >= w || y + 3 >= h {
        None
    } else {
        let s = block_acc(img, x, y, 16);
        if s.3 == 0 {
            None
        } else {
            Some(Color::of_rgb((s.0 / s.3) as u8, (s.1 / s.3) as u8, (s.2 / s.3) as u8))
        }
    }
}

pub open spec fn point_sample(img: Image, x: int, y: int) -> Color {
    let p = img.pixel_at(x, y);
    Color::of_rgb(p.r, p.g, p.b)
}

pub open spec fn grid_step(n: int) -> int {
    if n / GRID_DIVISOR as int >= 1 { n / GRID_DIVISOR as int } else { 1 }
}

/// How many grid points lie in `[0, n)` at step `grid_step(n)`.
pub open spec fn grid_count(n: int) -> int {
    if n <= 0 { 0 } else { (n - 1) / grid_step(n) + 1 }
}

pub open spec fn sample_at(img: Image, mode: SampleMode, x: int, y: int) -> Option<Color> {
    match mode {
        SampleMode::Block => block_sample(img, x, y, img.width as int, img.height as int),
        SampleMode::Point => Some(point_sample(img, x, y)),
    }
}

/// The samples collected through column `i` (exclusive) of grid row `j`:
/// a scan stops taking samples once it holds `SAMPLE_COUNT` of them.
pub open spec fn scan_upto(img: Image, mode: SampleMode, j: nat, i: nat) -> Seq<Color>
    decreases j, i + 1,
{
    if i == 0 {
        scan_rows(img, mode, j)
    } else {
        let s = scan_upto(img, mode, j, (i - 1) as nat);
        if s.len() >= SAMPLE_COUNT {
            s
        } else {
            match sample_at(
                img,
                mode,
                (i - 1) * grid_step(img.width as int),
                j * grid_step(img.height as int),
            ) {
                Some(c) => s.push(c),
                None => s,
            }
        }
    }
}

/// The samples collected from the first `j` grid rows.
pub open spec fn scan_rows(img: Image, mode: SampleMode, j: nat) -> Seq<Color>
    decreases j, 0nat,
{
    if j == 0 {
        Seq::empty()
    } else {
        scan_upto(img, mode, (j - 1) as nat, grid_count(img.width as int) as nat)
    }
}

/// All samples of a scan, in row-major order of the grid.
pub open spec fn scan(img: Image, mode: SampleMode) -> Seq<Color> {
    scan_rows(img, mode, grid_count(img.height as int) as nat)
}

/// The luminance lies strictly between `EXTREMUM_LOW` and `EXTREMUM_HIGH`.
pub open spec fn within_extremum_bounds(c: Color) -> bool {
    EXTREMUM_LOW < c.luminance && c.luminance < EXTREMUM_HIGH
}

/// The first darkest sample with luminance strictly inside the bounds; white if none.
pub open spec fn darkest_of(s: Seq<Color>) -> Color
    decreases s.len(),
{
    if s.len() == 0 {
        Color::of_rgb(255, 255, 255)
    } else {
        let d = darkest_of(s.drop_last());
        let c = s.last();
        if c.luminance < d.luminance && within_extremum_bounds(c) { c } else { d }
    }
}

/// The first lightest sample with luminance strictly inside the bounds; black if none.
pub open spec fn lightest_of(s: Seq<Color>) -> Color
    decreases s.len(),
{
    if s.len() == 0 {
        Color::of_rgb(0, 0, 0)
    } else {
        let l = lightest_of(s.drop_last());
        let c = s.last();
        if c.luminance > l.luminance && within_extremum_bounds(c) { c } else { l }
    }
}

proof fn lemma_pixel_index(x: int, y: int, width: int, height: int)
    requires
        0 <= x < width,
        0 <= y < height,
    ensures
        0 <= y * width + x < width * height,
{
    assert(y * width + x < width * height) by (nonlinear_arith)
        requires 0 <= x < width, 0 <= y < height;
    assert(0 <= y * width) by (nonlinear_arith)
        requires 0 <= y, 0 <= width;
}

/// Averages the 4x4 block whose top-left corner is `(x, y)`, leaving out
/// transparent pixels. `None` where the block reaches past `w` or `h`, or
/// where all of its pixels are transparent.
pub fn sample_4by4_area(img: &Image, x: usize, y: usize, w: usize, h: usize) -> (r: Option<Color>)
    requires
        img.wf(),
        w <= img.width,
        h <= img.height,
    ensures
        r == block_sample(*img, x as int, y as int, w as int, h as int),
        r matches Some(c) ==> c.wf(),
{
    if x >= w || w - x <= 3 || y >= h || h - y <= 3 {
        return None;
    }
    let mut r_sum: u32 = 0;
    let mut g_sum: u32 = 0;
    let mut b_sum: u32 = 0;
    let mut count: u32 = 0;
    let mut k: usize = 0;
    while k < 16
        invariant
            img.wf(),
            x + 3 < w <= img.width,
            y + 3 < h <= img.height,
            k <= 16,
            (r_sum as int, g_sum as int, b_sum as int, count as int) == block_acc(*img, x as int, y as int, k as nat),
            r_sum <= 255 * count,
            g_sum <= 255 * count,
            b_sum <= 255 * count,
            count <= k,
        decreases 16 - k,
    {
        let px = x + k % 4;
        let py = y + k / 4;
        let n = img.pixels.len();
        proof {
            lemma_pixel_index(px as int, py as int, img.width as int, img.height as int);
            assert(0 <= py * img.width <= py * img.width + px < n);
        }
        let p = img.pixels[py * img.width + px];
        if p.a != 0 {
            r_sum = r_sum + p.r as u32;
            g_sum = g_sum + p.g as u32;
            b_sum = b_sum + p.b as u32;
            count = count + 1;
        }
        k = k + 1;
    }
    if count == 0 {
        return None;
    }
    proof {
        assert(r_sum / count <= 255 && g_sum / count <= 255 && b_sum / count <= 255) by (nonlinear_arith)
            requires r_sum <= 255 * count, g_sum <= 255 * count, b_sum <= 255 * count, count >= 1;
    }
    Some(Color::from_channels((r_sum / count) as u8, (g_sum / count) as u8, (b_sum / count) as u8))
}

/// Every pixel of `img` is `p`.
pub open spec fn is_uniform(img: Image, p: Pixel) -> bool {
    forall|k: int| 0 <= k < img.pixels@.len() ==> #[trigger] img.pixels@[k] == p
}

proof fn lemma_uniform_block_acc(img: Image, p: Pixel, x: int, y: int, k: nat)
    requires
        img.wf(),
        is_uniform(img, p),
        p.a != 0,
        0 <= x,
        x + 3 < img.width,
        0 <= y,
        y + 3 < img.height,
        k <= 16,
    ensures
        block_acc(img, x, y, k) == (k * p.r, k * p.g, k * p.b, k as int),
    decreases k,
{
    if k > 0 {
        lemma_uniform_block_acc(img, p, x, y, (k - 1) as nat);
        let kx = (k - 1) % 4;
        let ky = (k - 1) / 4;
        assert(0 <= kx < 4 && 0 <= ky < 4);
        lemma_pixel_index(x + kx, y + ky, img.width as int, img.height as int);
        assert(img.pixels@[(y + ky) * img.width + (x + kx)] == p);
        assert(img.pixel_at(x + kx, y + ky) == p);
        let prev = block_acc(img, x, y, (k - 1) as nat);
        assert(block_acc(img, x, y, k) == (prev.0 + p.r, prev.1 + p.g, prev.2 + p.b, prev.3 + 1));
        assert(k * p.r == (k - 1) * p.r + p.r) by (nonlinear_arith);
        assert(k * p.g == (k - 1) * p.g + p.g) by (nonlinear_arith);
        assert(k * p.b == (k - 1) * p.b + p.b) by (nonlinear_arith);
    } else {
        assert(k * p.r == 0 && k * p.g == 0 && k * p.b == 0);
    }
}

proof fn lemma_uniform_sample(img: Image, p: Pixel, mode: SampleMode, x: int, y: int)
    requires
        img.wf(),
        is_uniform(img, p),
        p.a != 0,
        0 <= x < img.width,
        0 <= y < img.height,
    ensures
        sample_at(img, mode, x, y) matches Some(c) ==> c == Color::of_rgb(p.r, p.g, p.b),
{
    lemma_pixel_index(x, y, img.width as int, img.height as int);
    if mode == SampleMode::Block && !(x + 3 >= img.width || y + 3 >= img.height) {
        lemma_uniform_block_acc(img, p, x, y, 16);
        assert((16 * p.r) / 16 == p.r && (16 * p.g) / 16 == p.g && (16 * p.b) / 16 == p.b);
    }
}

proof fn lemma_uniform_scan_upto(img: Image, p: Pixel, mode: SampleMode, j: nat, i: nat)
    requires
        img.wf(),
        is_uniform(img, p),
        p.a != 0,
        j < grid_count(img.height as int),
        i <= grid_count(img.width as int),
    ensures
        forall|k: int| 0 <= k < scan_upto(img, mode, j, i).len() ==>
            #[trigger] scan_upto(img, mode, j, i)[k] == Color::of_rgb(p.r, p.g, p.b),
    decreases j, i + 1,
{
    if i == 0 {
        lemma_uniform_scan_rows(img, p, mode, j);
        assert(scan_upto(img, mode, j, i) == scan_rows(img, mode, j));
    } else {
        lemma_uniform_scan_upto(img, p, mode, j, (i - 1) as nat);
        let sx = grid_step(img.width as int);
        let sy = grid_step(img.height as int);
        lemma_grid_point((i - 1) as int, img.width as int, sx);
        lemma_grid_point(j as int, img.height as int, sy);
        lemma_uniform_sample(img, p, mode, (i - 1) * sx, j * sy);
        let s = scan_upto(img, mode, j, (i - 1) as nat);
        if s.len() < SAMPLE_COUNT {
            match sample_at(img, mode, (i - 1) * sx, j * sy) {
                Some(c) => {
                    assert(scan_upto(img, mode, j, i) == s.push(c));
                    assert forall|k: int| 0 <= k < s.len() + 1 implies #[trigger] s.push(c)[k] == Color::of_rgb(p.r, p.g, p.b) by {
                        if k < s.len() {
                            assert(s.push(c)[k] == s[k]);
                        }
                    }
                },
                None => {},
            }
        }
    }
}

proof fn lemma_uniform_scan_rows(img: Image, p: Pixel, mode: SampleMode, j: nat)
    requires
        img.wf(),
        is_uniform(img, p),
        p.a != 0,
        j <= grid_count(img.height as int),
    ensures
        forall|k: int| 0 <= k < scan_rows(img, mode, j).len() ==>
            #[trigger] scan_rows(img, mode, j)[k] == Color::of_rgb(p.r, p.g, p.b),
    decreases j, 0nat,
{
    if j > 0 {
        lemma_uniform_scan_upto(img, p, mode, (j - 1) as nat, grid_count(img.width as int) as nat);
        assert(scan_rows(img, mode, j) == scan_upto(img, mode, (j - 1) as nat, grid_count(img.width as int) as nat));
    }
}

proof fn lemma_scan_upto_nonempty(img: Image, p: Pixel, mode: SampleMode, j: nat, i: nat)
    requires
        img.wf(),
        is_uniform(img, p),
        p.a != 0,
        img.width >= 4,
        img.height >= 4,
        j < grid_count(img.height as int),
        1 <= i <= grid_count(img.width as int) || (j > 0 && i <= grid_count(img.width as int)),
    ensures
        scan_upto(img, mode, j, i).len() >= 1,
    decreases j, i,
{
    if i == 0 {
        lemma_scan_upto_nonempty(img, p, mode, (j - 1) as nat, grid_count(img.width as int) as nat);
        assert(scan_upto(img, mode, j, i) == scan_rows(img, mode, j));
    } else if j == 0 && i == 1 {
        lemma_uniform_block_acc(img, p, 0, 0, 16);
        assert(scan_upto(img, mode, 0, 0) == scan_rows(img, mode, 0));
    } else {
        lemma_scan_upto_nonempty(img, p, mode, j, (i - 1) as nat);
    }
}

/// In an image of one opaque color, at least 4 by 4 pixels, the scan finds
/// at least one sample.
pub proof fn lemma_uniform_image_has_samples(img: Image, p: Pixel, mode: SampleMode)
    requires
        img.wf(),
        is_uniform(img, p),
        p.a != 0,
        img.width >= 4,
        img.height >= 4,
    ensures
        scan(img, mode).len() >= 1,
{
    let nrows = grid_count(img.height as int);
    assert(nrows >= 1);
    assert(grid_count(img.width as int) >= 1);
    lemma_scan_upto_nonempty(img, p, mode, (nrows - 1) as nat, grid_count(img.width as int) as nat);
}

/// In an image of one opaque color, every sample is that color.
pub proof fn lemma_uniform_image_samples(img: Image, p: Pixel, mode: SampleMode)
    requires
        img.wf(),
        is_uniform(img, p),
        p.a != 0,
    ensures
        forall|k: int| 0 <= k < scan(img, mode).len() ==>
            (#[trigger] scan(img, mode)[k]).rgb() == (p.r, p.g, p.b),
{
    lemma_uniform_scan_rows(img, p, mode, grid_count(img.height as int) as nat);
}

/// `img1` and `img2` agree on what a sample at `(x, y)` reads: the pixels of
/// the 4x4 block that lie in the image, or the channels of the one pixel.
pub open spec fn reads_agree(img1: Image, img2: Image, mode: SampleMode, x: int, y: int) -> bool {
    match mode {
        SampleMode::Block => forall|dx: int, dy: int|
            0 <= dx < 4 && 0 <= dy < 4 && x + dx < img1.width && y + dy < img1.height
                ==> #[trigger] img1.pixel_at(x + dx, y + dy) == #[trigger] img2.pixel_at(x + dx, y + dy),
        SampleMode::Point => {
            let p1 = img1.pixel_at(x, y);
            let p2 = img2.pixel_at(x, y);
            p1.r == p2.r && p1.g == p2.g && p1.b == p2.b
        },
    }
}

/// The grid point in column `i` of grid row `j`, on `img`'s grid.
pub open spec fn grid_x(img: Image, i: int) -> int {
    i * grid_step(img.width as int)
}

pub open spec fn grid_y(img: Image, j: int) -> int {
    j * grid_step(img.height as int)
}

proof fn lemma_block_acc_agree(img1: Image, img2: Image, x: int, y: int, k: nat)
    requires
        img1.width == img2.width,
        img1.height == img2.height,
        reads_agree(img1, img2, SampleMode::Block, x, y),
        0 <= x,
        x + 3 < img1.width,
        0 <= y,
        y + 3 < img1.height,
        k <= 16,
    ensures
        block_acc(img1, x, y, k) == block_acc(img2, x, y, k),
    decreases k,
{
    if k > 0 {
        lemma_block_acc_agree(img1, img2, x, y, (k - 1) as nat);
        let dx = (k - 1) % 4;
        let dy = (k - 1) / 4;
        assert(0 <= dx < 4 && 0 <= dy < 4);
        assert(img1.pixel_at(x + dx, y + dy) == img2.pixel_at(x + dx, y + dy));
    }
}

proof fn lemma_sample_agree(img1: Image, img2: Image, mode: SampleMode, x: int, y: int)
    requires
        img1.width == img2.width,
        img1.height == img2.height,
        reads_agree(img1, img2, mode, x, y),
        0 <= x,
        0 <= y,
    ensures
        sample_at(img1, mode, x, y) == sample_at(img2, mode, x, y),
{
    if mode == SampleMode::Block && !(x + 3 >= img1.width || y + 3 >= img1.height) {
        lemma_block_acc_agree(img1, img2, x, y, 16);
    }
}

/// The two images agree at every grid point that a scan of `img1` visits
/// while it holds fewer than `SAMPLE_COUNT` samples.
pub open spec fn scan_reads_agree(img1: Image, img2: Image, mode: SampleMode) -> bool {
    forall|j: nat, i: nat|
        j < grid_count(img1.height as int) && i < grid_count(img1.width as int)
            && #[trigger] scan_upto(img1, mode, j, i).len() < SAMPLE_COUNT ==> reads_agree(
            img1,
            img2,
            mode,
            grid_x(img1, i as int),
            grid_y(img1, j as int),
        )
}

proof fn lemma_scan_upto_agree(img1: Image, img2: Image, mode: SampleMode, j: nat, i: nat)
    requires
        img1.width == img2.width,
        img1.height == img2.height,
        scan_reads_agree(img1, img2, mode),
        j < grid_count(img1.height as int),
        i <= grid_count(img1.width as int),
    ensures
        scan_upto(img1, mode, j, i) == scan_upto(img2, mode, j, i),
    decreases j, i + 1,
{
    if i == 0 {
        lemma_scan_rows_agree(img1, img2, mode, j);
    } else {
        lemma_scan_upto_agree(img1, img2, mode, j, (i - 1) as nat);
        let s = scan_upto(img1, mode, j, (i - 1) as nat);
        if s.len() < SAMPLE_COUNT {
            let sx = grid_step(img1.width as int);
            let sy = grid_step(img1.height as int);
            assert(0 <= (i - 1) * sx) by (nonlinear_arith)
                requires i >= 1, sx >= 1;
            assert(0 <= j * sy) by (nonlinear_arith)
                requires j >= 0, sy >= 1;
            lemma_sample_agree(img1, img2, mode, (i - 1) * sx, j * sy);
        }
    }
}

proof fn lemma_scan_rows_agree(img1: Image, img2: Image, mode: SampleMode, j: nat)
    requires
        img1.width == img2.width,
        img1.height == img2.height,
        scan_reads_agree(img1, img2, mode),
        j <= grid_count(img1.height as int),
    ensures
        scan_rows(img1, mode, j) == scan_rows(img2, mode, j),
    decreases j, 0nat,
{
    if j > 0 {
        lemma_scan_upto_agree(img1, img2, mode, (j - 1) as nat, grid_count(img1.width as int) as nat);
    }
}

/// A scan reads nothing but the grid points it visits before it holds
/// `SAMPLE_COUNT` samples: two images of one size that agree there give the
/// same samples, darkest and lightest.
pub proof fn lemma_scan_reads_only_grid(img1: Image, img2: Image, mode: SampleMode)
    requires
        img1.width == img2.width,
        img1.height == img2.height,
        scan_reads_agree(img1, img2, mode),
    ensures
        scan(img1, mode) == scan(img2, mode),
        darkest_of(scan(img1, mode)) == darkest_of(scan(img2, mode)),
        lightest_of(scan(img1, mode)) == lightest_of(scan(img2, mode)),
{
    lemma_scan_rows_agree(img1, img2, mode, grid_count(img1.height as int) as nat);
}

proof fn lemma_grid_point(i: int, n: int, s: int)
    requires
        n >= 1,
        s >= 1,
        0 <= i <= (n - 1) / s,
    ensures
        0 <= i * s <= n - 1,
{
    lemma_fundamental_div_mod(n - 1, s);
    lemma_mod_pos_bound(n - 1, s);
    lemma_mul_inequality(i, (n - 1) / s, s);
    assert(0 <= i * s) by (nonlinear_arith)
        requires 0 <= i, 1 <= s;
}

fn grid_step_of(n: usize) -> (r: usize)
    ensures
        r as int == grid_step(n as int),
        r >= 1,
{
    if n / GRID_DIVISOR >= 1 { n / GRID_DIVISOR } else { 1 }
}

fn grid_count_of(n: usize) -> (r: usize)
    ensures
        r as int == grid_count(n as int),
{
    if n == 0 {
        0
    } else {
        (n - 1) / grid_step_of(n) + 1
    }
}

/// Scans the image on the sampling grid in row-major order, keeping the
/// first `SAMPLE_COUNT` samples, and tracks the darkest and lightest of them.
pub fn sample_image(img: &Image, mode: SampleMode) -> (s: Samples)
    requires
        img.wf(),
    ensures
        s.wf(),
        s.colors@ == scan(*img, mode),
        s.colors@.len() <= SAMPLE_COUNT,
        s.darkest == darkest_of(s.colors@),
        s.lightest == lightest_of(s.colors@),
{
    let w = img.width;
    let h = img.height;
    let step_x = grid_step_of(w);
    let step_y = grid_step_of(h);
    let ncols = grid_count_of(w);
    let nrows = grid_count_of(h);
    let mut colors: Vec<Color> = Vec::new();
    let mut darkest = Color::from_channels(255, 255, 255);
    let mut lightest = Color::from_channels(0, 0, 0);
    let mut j: usize = 0;
    while j < nrows
        invariant
            img.wf(),
            w == img.width,
            h == img.height,
            step_x as int == grid_step(w as int),
            step_y as int == grid_step(h as int),
            ncols as int == grid_count(w as int),
            nrows as int == grid_count(h as int),
            j <= nrows,
            colors@ == scan_rows(*img, mode, j as nat),
            colors@.len() <= SAMPLE_COUNT,
            forall|k: int| 0 <= k < colors@.len() ==> (#[trigger] colors@[k]).wf(),
            darkest == darkest_of(colors@),
            lightest == lightest_of(colors@),
            darkest.wf(),
            lightest.wf(),
        decreases nrows - j,
    {
        proof {
            lemma_grid_point(j as int, h as int, step_y as int);
        }
        let y = j * step_y;
        let mut i: usize = 0;
        while i < ncols
            invariant
                img.wf(),
                w == img.width,
                h == img.height,
                step_x as int == grid_step(w as int),
                ncols as int == grid_count(w as int),
                y == j * step_y,
                step_y as int == grid_step(h as int),
                y < h,
                i <= ncols,
                colors@ == scan_upto(*img, mode, j as nat, i as nat),
                colors@.len() <= SAMPLE_COUNT,
                forall|k: int| 0 <= k < colors@.len() ==> (#[trigger] colors@[k]).wf(),
                darkest == darkest_of(colors@),
                lightest == lightest_of(colors@),
                darkest.wf(),
                lightest.wf(),
            decreases ncols - i,
        {
            if colors.len() < SAMPLE_COUNT {
                proof {
                    lemma_grid_point(i as int, w as int, step_x as int);
                }
                let x = i * step_x;
                let sample = match mode {
                    SampleMode::Block => sample_4by4_area(img, x, y, w, h),
                    SampleMode::Point => {
                        let n = img.pixels.len();
                        proof {
                            lemma_pixel_index(x as int, y as int, w as int, h as int);
                            assert(0 <= y * w <= y * w + x < n);
                        }
                        Some(Color::from_rgba(img.pixels[y * w + x]))
                    },
                };
                if let Some(c) = sample {
                    let inside = EXTREMUM_LOW < c.luminance && c.luminance < EXTREMUM_HIGH;
                    if c.luminance < darkest.luminance && inside {
                        darkest = c;
                    }
                    if c.luminance > lightest.luminance && inside {
                        lightest = c;
                    }
                    proof {
                        let t = colors@.push(c);
                        assert(t.drop_last() == colors@);
                    }
                    colors.push(c);
                }
            }
            i = i + 1;
        }
        j = j + 1;
    }
    Samples { colors, darkest, lightest }
}

} // verus!

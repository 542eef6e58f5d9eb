use vstd::prelude::*;

use crate::color::{abs, manhattan_distance, squared_distance, Color, Saturation, saturated_rgb};
use crate::options::Method;
use crate::raster::{lemma_scan_reads_only_grid, scan_reads_agree, sample_image, scan, darkest_of, lightest_of, Image, SampleMode, Samples, SAMPLE_COUNT};

verus! {

/// A palette with its background and foreground colors.
pub struct Colorscheme {
    pub palette: Vec<Color>,
    pub background: Color,
    pub foreground: Color,
}

/// The most colors a palette holds.
pub const PALETTE_COUNT: usize = 16;

/// Samples this close in luminance to the darkest or lightest (0.08) are
/// kept for background and foreground.
pub const RESERVE_MARGIN: u32 = 204_000;

/// The least Manhattan distance between two area-average palette colors.
pub const MIN_MANHATTAN: u32 = 50;

pub open spec fn all_wf(s: Seq<Color>) -> bool {
    forall|i: int| 0 <= i < s.len() ==> (#[trigger] s[i]).wf()
}

impl Colorscheme {
    pub open spec fn wf(&self) -> bool {
        &&& all_wf(self.palette@)
        &&& self.background.wf()
        &&& self.foreground.wf()
    }

    /// Applies the saturation transform to every palette entry, to the
    /// background and to the foreground.
    pub fn with_saturation(self, saturation: Saturation) -> (r: Colorscheme)
        requires
            self.wf(),
            saturation.wf(),
        ensures
            r.wf(),
            r.palette@.len() == self.palette@.len(),
            forall|i: int|
                0 <= i < r.palette@.len() ==> (#[trigger] r.palette@[i]).rgb() == saturated_rgb(
                    self.palette@[i],
                    saturation,
                ),
            r.background.rgb() == saturated_rgb(self.background, saturation),
            r.foreground.rgb() == saturated_rgb(self.foreground, saturation),
    {
        let mut palette: Vec<Color> = Vec::new();
        let mut i: usize = 0;
        while i < self.palette.len()
            invariant
                all_wf(self.palette@),
                saturation.wf(),
                i <= self.palette@.len(),
                palette@.len() == i,
                all_wf(palette@),
                forall|k: int|
                    0 <= k < i ==> (#[trigger] palette@[k]).rgb() == saturated_rgb(
                        self.palette@[k],
                        saturation,
                    ),
            decreases self.palette@.len() - i,
        {
            palette.push(self.palette[i].with_saturation(saturation));
            i = i + 1;
        }
        Colorscheme {
            palette,
            background: self.background.with_saturation(saturation),
            foreground: self.foreground.with_saturation(saturation),
        }
    }
}

/// The index of the first element of `t` whose chroma is below `k`.
pub open spec fn first_below(t: Seq<Color>, k: u8) -> nat
    decreases t.len(),
{
    if t.len() == 0 {
        0
    } else if t[0].chroma < k {
        0
    } else {
        1 + first_below(t.drop_first(), k)
    }
}

/// `c` placed after every element of `t` whose chroma is at least its own.
pub open spec fn insert_by_chroma(t: Seq<Color>, c: Color) -> Seq<Color> {
    t.insert(first_below(t, c.chroma) as int, c)
}

/// `s` sorted by descending chroma; equal chromas keep their order.
pub open spec fn sort_by_chroma(s: Seq<Color>) -> Seq<Color>
    decreases s.len(),
{
    if s.len() == 0 {
        s
    } else {
        insert_by_chroma(sort_by_chroma(s.drop_last()), s.last())
    }
}

proof fn lemma_first_below(t: Seq<Color>, k: u8, j: int)
    requires
        0 <= j <= t.len(),
        forall|i: int| 0 <= i < j ==> (#[trigger] t[i]).chroma >= k,
        j == t.len() || t[j].chroma < k,
    ensures
        first_below(t, k) == j,
    decreases j,
{
    if j > 0 {
        lemma_first_below(t.drop_first(), k, j - 1);
    }
}

proof fn lemma_first_below_bound(t: Seq<Color>, k: u8)
    ensures
        first_below(t, k) <= t.len(),
    decreases t.len(),
{
    if t.len() > 0 {
        lemma_first_below_bound(t.drop_first(), k);
    }
}

/// Sorting keeps the length and takes every element from the input.
pub proof fn lemma_sort_elements(s: Seq<Color>)
    ensures
        sort_by_chroma(s).len() == s.len(),
        forall|i: int|
            0 <= i < s.len() ==> exists|j: int|
                0 <= j < s.len() && #[trigger] sort_by_chroma(s)[i] == s[j],
    decreases s.len(),
{
    if s.len() > 0 {
        let t = sort_by_chroma(s.drop_last());
        lemma_sort_elements(s.drop_last());
        lemma_first_below_bound(t, s.last().chroma);
        let p = first_below(t, s.last().chroma) as int;
        assert forall|i: int| 0 <= i < s.len() implies exists|j: int|
            0 <= j < s.len() && #[trigger] sort_by_chroma(s)[i] == s[j] by {
            if i < p {
                assert(sort_by_chroma(s)[i] == t[i]);
                let j = choose|j: int| 0 <= j < s.len() - 1 && t[i] == s.drop_last()[j];
                assert(s[j] == s.drop_last()[j]);
            } else if i == p {
                assert(sort_by_chroma(s)[i] == s[s.len() - 1]);
            } else {
                assert(sort_by_chroma(s)[i] == t[i - 1]);
                let j = choose|j: int| 0 <= j < s.len() - 1 && t[i - 1] == s.drop_last()[j];
                assert(s[j] == s.drop_last()[j]);
            }
        }
    }
}

/// Sorting by chroma keeps every color well formed.
pub proof fn lemma_sort_keeps_wf(s: Seq<Color>)
    requires
        all_wf(s),
    ensures
        all_wf(sort_by_chroma(s)),
{
    lemma_sort_elements(s);
    assert forall|i: int| 0 <= i < sort_by_chroma(s).len() implies (#[trigger] sort_by_chroma(s)[i]).wf() by {
        let j = choose|j: int| 0 <= j < s.len() && sort_by_chroma(s)[i] == s[j];
    }
}

fn sort_colors(v: &Vec<Color>) -> (r: Vec<Color>)
    ensures
        r@ == sort_by_chroma(v@),
{
    let mut out: Vec<Color> = Vec::new();
    let mut i: usize = 0;
    while i < v.len()
        invariant
            i <= v@.len(),
            out@ == sort_by_chroma(v@.subrange(0, i as int)),
        decreases v@.len() - i,
    {
        proof {
            let s = v@.subrange(0, i as int + 1);
            assert(s.drop_last() == v@.subrange(0, i as int));
            assert(s.last() == v@[i as int]);
            lemma_sort_elements(v@.subrange(0, i as int));
        }
        let c = v[i];
        let mut j: usize = 0;
        while j < out.len() && out[j].chroma >= c.chroma
            invariant
                j <= out@.len(),
                forall|m: int| 0 <= m < j ==> (#[trigger] out@[m]).chroma >= c.chroma,
            decreases out@.len() - j,
        {
            j = j + 1;
        }
        proof {
            lemma_first_below(out@, c.chroma, j as int);
        }
        out.insert(j, c);
        i = i + 1;
    }
    proof {
        assert(v@.subrange(0, v@.len() as int) == v@);
    }
    out
}

/// `c` lies within the luminance margin of the darkest or the lightest sample.
pub open spec fn is_reserved(c: Color, darkest: Color, lightest: Color) -> bool {
    abs(c.luminance - darkest.luminance) < RESERVE_MARGIN
        || abs(c.luminance - lightest.luminance) < RESERVE_MARGIN
}

pub open spec fn far_from_all(c: Color, p: Seq<Color>) -> bool {
    forall|i: int| 0 <= i < p.len() ==> manhattan_distance(c.rgb(), (#[trigger] p[i]).rgb()) >= MIN_MANHATTAN
}

/// No two entries at different positions lie closer than `MIN_MANHATTAN`.
pub open spec fn pairwise_distinct(p: Seq<Color>) -> bool {
    forall|i: int, j: int|
        0 <= i < p.len() && 0 <= j < p.len() && i != j ==> manhattan_distance(
            (#[trigger] p[i]).rgb(),
            (#[trigger] p[j]).rgb(),
        ) >= MIN_MANHATTAN
}

/// The greedy choice over `s` in order: a sample joins the palette when the
/// palette is not full, it is not reserved, and it is far from every entry.
pub open spec fn greedy_distinct(s: Seq<Color>, darkest: Color, lightest: Color) -> Seq<Color>
    decreases s.len(),
{
    if s.len() == 0 {
        s
    } else {
        let p = greedy_distinct(s.drop_last(), darkest, lightest);
        let c = s.last();
        if p.len() >= PALETTE_COUNT || is_reserved(c, darkest, lightest) || !far_from_all(c, p) {
            p
        } else {
            p.push(c)
        }
    }
}

/// The area-average palette of a set of samples.
pub open spec fn area_average_palette(s: Seq<Color>, darkest: Color, lightest: Color) -> Seq<Color> {
    sort_by_chroma(greedy_distinct(sort_by_chroma(s), darkest, lightest))
}

proof fn lemma_greedy(s: Seq<Color>, darkest: Color, lightest: Color)
    ensures
        greedy_distinct(s, darkest, lightest).len() <= PALETTE_COUNT,
        pairwise_distinct(greedy_distinct(s, darkest, lightest)),
        all_wf(s) ==> all_wf(greedy_distinct(s, darkest, lightest)),
    decreases s.len(),
{
    if s.len() > 0 {
        lemma_greedy(s.drop_last(), darkest, lightest);
        if all_wf(s) {
            assert forall|i: int| 0 <= i < s.len() - 1 implies (#[trigger] s.drop_last()[i]).wf() by {
                assert(s.drop_last()[i] == s[i]);
            }
        }
        let p = greedy_distinct(s.drop_last(), darkest, lightest);
        let c = s.last();
        let q = p.push(c);
        if !(p.len() >= PALETTE_COUNT || is_reserved(c, darkest, lightest) || !far_from_all(c, p)) {
            assert forall|i: int, j: int|
                0 <= i < q.len() && 0 <= j < q.len() && i != j implies manhattan_distance(
                (#[trigger] q[i]).rgb(),
                (#[trigger] q[j]).rgb(),
            ) >= MIN_MANHATTAN by {
                if i == p.len() {
                    assert(manhattan_distance(c.rgb(), p[j].rgb()) >= MIN_MANHATTAN);
                } else if j == p.len() {
                    assert(manhattan_distance(c.rgb(), p[i].rgb()) >= MIN_MANHATTAN);
                } else {
                    assert(q[i] == p[i] && q[j] == p[j]);
                }
            }
        }
    }
}

/// Sorting by chroma keeps a palette pairwise distinct.
pub proof fn lemma_sort_keeps_distinct(s: Seq<Color>)
    requires
        pairwise_distinct(s),
    ensures
        pairwise_distinct(sort_by_chroma(s)),
    decreases s.len(),
{
    if s.len() > 0 {
        let s0 = s.drop_last();
        assert forall|i: int, j: int|
            0 <= i < s0.len() && 0 <= j < s0.len() && i != j implies manhattan_distance(
            (#[trigger] s0[i]).rgb(),
            (#[trigger] s0[j]).rgb(),
        ) >= MIN_MANHATTAN by {
            assert(s0[i] == s[i] && s0[j] == s[j]);
        }
        lemma_sort_keeps_distinct(s0);
        lemma_sort_elements(s0);
        let t = sort_by_chroma(s0);
        let c = s.last();
        lemma_first_below_bound(t, c.chroma);
        let p = first_below(t, c.chroma) as int;
        let q = t.insert(p, c);
        assert(q == sort_by_chroma(s));
        assert forall|k: int| 0 <= k < t.len() implies manhattan_distance(
            c.rgb(),
            (#[trigger] t[k]).rgb(),
        ) >= MIN_MANHATTAN by {
            let j = choose|j: int| 0 <= j < s0.len() && t[k] == s0[j];
            assert(s0[j] == s[j]);
            assert(manhattan_distance(s[s.len() - 1].rgb(), s[j].rgb()) >= MIN_MANHATTAN);
        }
        lemma_insert_keeps_distinct(t, p, c);
    }
}

proof fn lemma_insert_keeps_distinct(t: Seq<Color>, p: int, c: Color)
    requires
        pairwise_distinct(t),
        0 <= p <= t.len(),
        forall|k: int| 0 <= k < t.len() ==> manhattan_distance(c.rgb(), (#[trigger] t[k]).rgb()) >= MIN_MANHATTAN,
    ensures
        pairwise_distinct(t.insert(p, c)),
{
    let q = t.insert(p, c);
    assert forall|i: int, j: int|
        0 <= i < q.len() && 0 <= j < q.len() && i != j implies manhattan_distance(
        (#[trigger] q[i]).rgb(),
        (#[trigger] q[j]).rgb(),
    ) >= MIN_MANHATTAN by {
        let ti = if i < p { i } else { i - 1 };
        let tj = if j < p { j } else { j - 1 };
        if i == p {
            assert(q[j] == t[tj]);
            assert(manhattan_distance(c.rgb(), t[tj].rgb()) >= MIN_MANHATTAN);
        } else if j == p {
            assert(q[i] == t[ti]);
            assert(manhattan_distance(c.rgb(), t[ti].rgb()) >= MIN_MANHATTAN);
        } else {
            assert(q[i] == t[ti] && q[j] == t[tj]);
        }
    }
}

fn manhattan(a: &Color, b: &Color) -> (d: u32)
    ensures
        d as int == manhattan_distance(a.rgb(), b.rgb()),
{
    let dr = if a.r >= b.r { a.r - b.r } else { b.r - a.r };
    let dg = if a.g >= b.g { a.g - b.g } else { b.g - a.g };
    let db = if a.b >= b.b { a.b - b.b } else { b.b - a.b };
    dr as u32 + dg as u32 + db as u32
}

fn is_far_from_all(c: &Color, p: &Vec<Color>) -> (r: bool)
    ensures
        r == far_from_all(*c, p@),
{
    let mut k: usize = 0;
    while k < p.len()
        invariant
            k <= p@.len(),
            forall|m: int| 0 <= m < k ==> manhattan_distance(c.rgb(), (#[trigger] p@[m]).rgb()) >= MIN_MANHATTAN,
        decreases p@.len() - k,
    {
        if manhattan(c, &p[k]) < MIN_MANHATTAN {
            return false;
        }
        k = k + 1;
    }
    true
}

fn luminance_gap(a: &Color, b: &Color) -> (d: u32)
    ensures
        d as int == abs(a.luminance - b.luminance),
{
    if a.luminance >= b.luminance { a.luminance - b.luminance } else { b.luminance - a.luminance }
}

fn reserved(c: &Color, darkest: &Color, lightest: &Color) -> (r: bool)
    ensures
        r == is_reserved(*c, *darkest, *lightest),
{
    luminance_gap(c, darkest) < RESERVE_MARGIN || luminance_gap(c, lightest) < RESERVE_MARGIN
}

/// Builds the area-average palette from a scan: samples by descending chroma,
/// greedily kept when far from the kept ones, then sorted by chroma again.
pub fn area_average_from_samples(samples: &Samples) -> (cs: Colorscheme)
    requires
        samples.wf(),
    ensures
        cs.wf(),
        cs.palette@ == area_average_palette(samples.colors@, samples.darkest, samples.lightest),
        cs.background == samples.darkest,
        cs.foreground == samples.lightest,
        cs.palette@.len() <= PALETTE_COUNT,
        pairwise_distinct(cs.palette@),
{
    let sorted = sort_colors(&samples.colors);
    proof {
        lemma_sort_elements(samples.colors@);
    }
    let mut palette: Vec<Color> = Vec::new();
    let mut i: usize = 0;
    while i < sorted.len()
        invariant
            i <= sorted@.len(),
            sorted@ == sort_by_chroma(samples.colors@),
            palette@ == greedy_distinct(sorted@.subrange(0, i as int), samples.darkest, samples.lightest),
        decreases sorted@.len() - i,
    {
        proof {
            let s = sorted@.subrange(0, i as int + 1);
            assert(s.drop_last() == sorted@.subrange(0, i as int));
            lemma_greedy(sorted@.subrange(0, i as int), samples.darkest, samples.lightest);
        }
        let c = sorted[i];
        if palette.len() < PALETTE_COUNT && !reserved(&c, &samples.darkest, &samples.lightest)
            && is_far_from_all(&c, &palette) {
            palette.push(c);
        }
        i = i + 1;
    }
    proof {
        assert(sorted@.subrange(0, sorted@.len() as int) == sorted@);
        lemma_greedy(sorted@, samples.darkest, samples.lightest);
        lemma_sort_keeps_distinct(palette@);
        lemma_sort_elements(palette@);
    }
    let result = sort_colors(&palette);
    proof {
        lemma_sort_keeps_wf(samples.colors@);
        lemma_sort_keeps_wf(palette@);
    }
    Colorscheme { palette: result, background: samples.darkest, foreground: samples.lightest }
}

/// Builds the area-average colorscheme of an image from its block samples.
pub fn aaverage_generate_colorscheme(img: &Image) -> (cs: Colorscheme)
    requires
        img.wf(),
    ensures
        cs.wf(),
        cs.palette@ == area_average_palette(
            scan(*img, SampleMode::Block),
            darkest_of(scan(*img, SampleMode::Block)),
            lightest_of(scan(*img, SampleMode::Block)),
        ),
        cs.background == darkest_of(scan(*img, SampleMode::Block)),
        cs.foreground == lightest_of(scan(*img, SampleMode::Block)),
        cs.palette@.len() <= PALETTE_COUNT,
        pairwise_distinct(cs.palette@),
{
    let samples = sample_image(img, SampleMode::Block);
    area_average_from_samples(&samples)
}

/// The index of the first candidate among the first `n` that lies nearest
/// to `target`.
pub open spec fn nearest_upto(target: (u8, u8, u8), cands: Seq<Color>, n: nat) -> int
    decreases n,
{
    if n <= 1 {
        0
    } else {
        let b = nearest_upto(target, cands, (n - 1) as nat);
        if squared_distance(target, cands[n - 1].rgb()) < squared_distance(target, cands[b].rgb()) {
            n - 1
        } else {
            b
        }
    }
}

/// The index of the first candidate nearest to `target` in Euclidean RGB distance.
pub open spec fn nearest(target: (u8, u8, u8), cands: Seq<Color>) -> int {
    nearest_upto(target, cands, cands.len())
}

fn nearest_index(target: &Color, cands: &Vec<Color>) -> (r: usize)
    requires
        cands@.len() >= 1,
    ensures
        r as int == nearest(target.rgb(), cands@),
        r < cands@.len(),
{
    let mut best: usize = 0;
    let mut best_dist = target.distance_to(&cands[0]);
    let mut k: usize = 1;
    while k < cands.len()
        invariant
            1 <= k <= cands@.len(),
            best as int == nearest_upto(target.rgb(), cands@, k as nat),
            best < k,
            best_dist as int == squared_distance(target.rgb(), cands@[best as int].rgb()),
        decreases cands@.len() - k,
    {
        let d = target.distance_to(&cands[k]);
        if d < best_dist {
            best = k;
            best_dist = d;
        }
        k = k + 1;
    }
    best
}

/// Channel sums and count of the first `n` samples that are not reserved
/// and whose nearest center is `k`.
pub open spec fn cluster_acc(
    samples: Seq<Color>,
    centers: Seq<Color>,
    darkest: Color,
    lightest: Color,
    k: int,
    n: nat,
) -> (int, int, int, int)
    decreases n,
{
    if n == 0 {
        (0, 0, 0, 0)
    } else {
        let prev = cluster_acc(samples, centers, darkest, lightest, k, (n - 1) as nat);
        let c = samples[n - 1];
        if !is_reserved(c, darkest, lightest) && nearest(c.rgb(), centers) == k {
            (prev.0 + c.r, prev.1 + c.g, prev.2 + c.b, prev.3 + 1)
        } else {
            prev
        }
    }
}

/// Each center moved to the truncated mean of its samples; a center with no
/// samples stays where it was.
pub open spec fn next_centers(samples: Seq<Color>, centers: Seq<Color>, darkest: Color, lightest: Color) -> Seq<Color> {
    Seq::new(
        centers.len(),
        |k: int|
            {
                let a = cluster_acc(samples, centers, darkest, lightest, k, samples.len());
                if a.3 > 0 {
                    Color::of_rgb((a.0 / a.3) as u8, (a.1 / a.3) as u8, (a.2 / a.3) as u8)
                } else {
                    centers[k]
                }
            },
    )
}

pub open spec fn kmeans_iterate(
    samples: Seq<Color>,
    centers: Seq<Color>,
    darkest: Color,
    lightest: Color,
    n: nat,
) -> Seq<Color>
    decreases n,
{
    if n == 0 {
        centers
    } else {
        next_centers(samples, kmeans_iterate(samples, centers, darkest, lightest, (n - 1) as nat), darkest, lightest)
    }
}

/// The number of refinement rounds.
pub const KMEANS_ROUNDS: usize = 10;

/// The distance between seeds in the chroma order (`SAMPLE_COUNT / PALETTE_COUNT`).
pub const SEED_STRIDE: usize = 64;

/// Every `SEED_STRIDE`-th sample of `sorted`; past its end, its last sample;
/// black when there is no sample at all.
pub open spec fn kmeans_seeds(sorted: Seq<Color>) -> Seq<Color> {
    Seq::new(
        PALETTE_COUNT as nat,
        |i: int|
            if sorted.len() == 0 {
                Color::of_rgb(0, 0, 0)
            } else if i * SEED_STRIDE < sorted.len() {
                sorted[i * SEED_STRIDE]
            } else {
                sorted.last()
            },
    )
}

/// The k-means palette of a set of samples.
pub open spec fn kmeans_palette(s: Seq<Color>, darkest: Color, lightest: Color) -> Seq<Color> {
    let sorted = sort_by_chroma(s);
    sort_by_chroma(kmeans_iterate(sorted, kmeans_seeds(sorted), darkest, lightest, KMEANS_ROUNDS as nat))
}

proof fn lemma_cluster_acc_bounds(
    samples: Seq<Color>,
    centers: Seq<Color>,
    darkest: Color,
    lightest: Color,
    k: int,
    n: nat,
)
    ensures
        ({
            let a = cluster_acc(samples, centers, darkest, lightest, k, n);
            &&& 0 <= a.0 <= 255 * a.3
            &&& 0 <= a.1 <= 255 * a.3
            &&& 0 <= a.2 <= 255 * a.3
            &&& 0 <= a.3 <= n
        }),
    decreases n,
{
    if n > 0 {
        lemma_cluster_acc_bounds(samples, centers, darkest, lightest, k, (n - 1) as nat);
    }
}

fn zeros(n: usize) -> (v: Vec<u32>)
    ensures
        v@.len() == n,
        forall|i: int| 0 <= i < n ==> v@[i] == 0,
{
    let mut v: Vec<u32> = Vec::new();
    let mut i: usize = 0;
    while i < n
        invariant
            i <= n,
            v@.len() == i,
            forall|k: int| 0 <= k < i ==> v@[k] == 0,
        decreases n - i,
    {
        v.push(0);
        i = i + 1;
    }
    v
}

fn kmeans_step(samples: &Vec<Color>, centers: &Vec<Color>, darkest: &Color, lightest: &Color) -> (r: Vec<Color>)
    requires
        centers@.len() == PALETTE_COUNT,
        samples@.len() <= SAMPLE_COUNT,
        all_wf(centers@),
    ensures
        r@ == next_centers(samples@, centers@, *darkest, *lightest),
        all_wf(r@),
{
    let ghost cs = centers@;
    let ghost ss = samples@;
    let mut r_sum = zeros(PALETTE_COUNT);
    let mut g_sum = zeros(PALETTE_COUNT);
    let mut b_sum = zeros(PALETTE_COUNT);
    let mut counts = zeros(PALETTE_COUNT);
    let mut i: usize = 0;
    while i < samples.len()
        invariant
            i <= ss.len(),
            ss.len() <= SAMPLE_COUNT,
            cs.len() == PALETTE_COUNT,
            ss == samples@,
            cs == centers@,
            r_sum@.len() == PALETTE_COUNT,
            g_sum@.len() == PALETTE_COUNT,
            b_sum@.len() == PALETTE_COUNT,
            counts@.len() == PALETTE_COUNT,
            forall|k: int|
                0 <= k < PALETTE_COUNT ==> {
                    let a = #[trigger] cluster_acc(ss, cs, *darkest, *lightest, k, i as nat);
                    &&& r_sum@[k] == a.0
                    &&& g_sum@[k] == a.1
                    &&& b_sum@[k] == a.2
                    &&& counts@[k] == a.3
                },
        decreases ss.len() - i,
    {
        let c = samples[i];
        if !reserved(&c, darkest, lightest) {
            let k = nearest_index(&c, centers);
            proof {
                lemma_cluster_acc_bounds(ss, cs, *darkest, *lightest, k as int, i as nat);
            }
            r_sum.set(k, r_sum[k] + c.r as u32);
            g_sum.set(k, g_sum[k] + c.g as u32);
            b_sum.set(k, b_sum[k] + c.b as u32);
            counts.set(k, counts[k] + 1);
        }
        let ghost old_i = i;
        i = i + 1;
        proof {
            assert forall|k: int| 0 <= k < PALETTE_COUNT implies {
                let a = #[trigger] cluster_acc(ss, cs, *darkest, *lightest, k, i as nat);
                &&& r_sum@[k] == a.0
                &&& g_sum@[k] == a.1
                &&& b_sum@[k] == a.2
                &&& counts@[k] == a.3
            } by {
                let prev = cluster_acc(ss, cs, *darkest, *lightest, k, old_i as nat);
                assert(ss[i - 1] == c);
            }
        }
    }
    proof {
        assert(ss.subrange(0, ss.len() as int) == ss);
    }
    let mut next: Vec<Color> = Vec::new();
    let mut k: usize = 0;
    while k < PALETTE_COUNT
        invariant
            k <= PALETTE_COUNT,
            cs.len() == PALETTE_COUNT,
            cs == centers@,
            ss == samples@,
            i == ss.len(),
            all_wf(cs),
            r_sum@.len() == PALETTE_COUNT,
            g_sum@.len() == PALETTE_COUNT,
            b_sum@.len() == PALETTE_COUNT,
            counts@.len() == PALETTE_COUNT,
            forall|m: int|
                0 <= m < PALETTE_COUNT ==> {
                    let a = #[trigger] cluster_acc(ss, cs, *darkest, *lightest, m, i as nat);
                    &&& r_sum@[m] == a.0
                    &&& g_sum@[m] == a.1
                    &&& b_sum@[m] == a.2
                    &&& counts@[m] == a.3
                },
            next@.len() == k,
            all_wf(next@),
            forall|m: int| 0 <= m < k ==> next@[m] == #[trigger] next_centers(ss, cs, *darkest, *lightest)[m],
        decreases PALETTE_COUNT - k,
    {
        let ghost a = cluster_acc(ss, cs, *darkest, *lightest, k as int, i as nat);
        proof {
            lemma_cluster_acc_bounds(ss, cs, *darkest, *lightest, k as int, i as nat);
        }
        if counts[k] > 0 {
            let n = counts[k];
            proof {
                assert(a.0 / a.3 <= 255 && a.1 / a.3 <= 255 && a.2 / a.3 <= 255) by (nonlinear_arith)
                    requires 0 <= a.0 <= 255 * a.3, 0 <= a.1 <= 255 * a.3, 0 <= a.2 <= 255 * a.3, a.3 >= 1;
            }
            next.push(Color::from_channels((r_sum[k] / n) as u8, (g_sum[k] / n) as u8, (b_sum[k] / n) as u8));
        } else {
            next.push(centers[k]);
        }
        k = k + 1;
    }
    proof {
        assert(next@ == next_centers(ss, cs, *darkest, *lightest));
    }
    next
}

/// Builds the k-means palette from a point scan: seeds taken along the
/// chroma order, `KMEANS_ROUNDS` rounds of refinement, then sorted by chroma.
pub fn kmeans_from_samples(samples: &Samples) -> (cs: Colorscheme)
    requires
        samples.wf(),
    ensures
        cs.wf(),
        cs.palette@ == kmeans_palette(samples.colors@, samples.darkest, samples.lightest),
        cs.palette@.len() == PALETTE_COUNT,
        cs.background == samples.darkest,
        cs.foreground == samples.lightest,
{
    let sorted = sort_colors(&samples.colors);
    proof {
        lemma_sort_elements(samples.colors@);
        lemma_sort_keeps_wf(samples.colors@);
    }
    let mut centers: Vec<Color> = Vec::new();
    let mut i: usize = 0;
    while i < PALETTE_COUNT
        invariant
            i <= PALETTE_COUNT,
            sorted@ == sort_by_chroma(samples.colors@),
            sorted@.len() <= SAMPLE_COUNT,
            all_wf(sorted@),
            centers@.len() == i,
            forall|m: int| 0 <= m < i ==> centers@[m] == #[trigger] kmeans_seeds(sorted@)[m],
            all_wf(centers@),
        decreases PALETTE_COUNT - i,
    {
        if sorted.len() == 0 {
            centers.push(Color::from_channels(0, 0, 0));
        } else if i * SEED_STRIDE < sorted.len() {
            centers.push(sorted[i * SEED_STRIDE]);
        } else {
            centers.push(sorted[sorted.len() - 1]);
        }
        i = i + 1;
    }
    proof {
        assert(centers@ == kmeans_seeds(sorted@));
    }
    let mut round: usize = 0;
    while round < KMEANS_ROUNDS
        invariant
            round <= KMEANS_ROUNDS,
            sorted@.len() <= SAMPLE_COUNT,
            centers@ == kmeans_iterate(sorted@, kmeans_seeds(sorted@), samples.darkest, samples.lightest, round as nat),
            centers@.len() == PALETTE_COUNT,
            all_wf(centers@),
        decreases KMEANS_ROUNDS - round,
    {
        centers = kmeans_step(&sorted, &centers, &samples.darkest, &samples.lightest);
        round = round + 1;
    }
    proof {
        lemma_sort_elements(centers@);
        lemma_sort_keeps_wf(centers@);
    }
    let palette = sort_colors(&centers);
    Colorscheme { palette, background: samples.darkest, foreground: samples.lightest }
}

/// Builds the k-means colorscheme of an image from its point samples.
pub fn kmeans_generate_colorscheme(img: &Image) -> (cs: Colorscheme)
    requires
        img.wf(),
    ensures
        cs.wf(),
        cs.palette@ == kmeans_palette(
            scan(*img, SampleMode::Point),
            darkest_of(scan(*img, SampleMode::Point)),
            lightest_of(scan(*img, SampleMode::Point)),
        ),
        cs.palette@.len() == PALETTE_COUNT,
        cs.background == darkest_of(scan(*img, SampleMode::Point)),
        cs.foreground == lightest_of(scan(*img, SampleMode::Point)),
{
    let samples = sample_image(img, SampleMode::Point);
    kmeans_from_samples(&samples)
}

/// The standard 16-color ANSI reference table.
pub open spec fn ansi_reference(i: int) -> (u8, u8, u8) {
    if i == 0 { (0x00, 0x00, 0x00) }
    else if i == 1 { (0xcd, 0x00, 0x00) }
    else if i == 2 { (0x00, 0xcd, 0x00) }
    else if i == 3 { (0xcd, 0xcd, 0x00) }
    else if i == 4 { (0x00, 0x00, 0xee) }
    else if i == 5 { (0xcd, 0x00, 0xcd) }
    else if i == 6 { (0x00, 0xcd, 0xcd) }
    else if i == 7 { (0xe5, 0xe5, 0xe5) }
    else if i == 8 { (0x7f, 0x7f, 0x7f) }
    else if i == 9 { (0xff, 0x00, 0x00) }
    else if i == 10 { (0x00, 0xff, 0x00) }
    else if i == 11 { (0xff, 0xff, 0x00) }
    else if i == 12 { (0x5c, 0x5c, 0xff) }
    else if i == 13 { (0xff, 0x00, 0xff) }
    else if i == 14 { (0x00, 0xff, 0xff) }
    else { (0xff, 0xff, 0xff) }
}

fn ansi_reference_color(i: usize) -> (c: Color)
    ensures
        c.wf(),
        c.rgb() == ansi_reference(i as int),
{
    let (r, g, b): (u8, u8, u8) = if i == 0 { (0x00, 0x00, 0x00) }
    else if i == 1 { (0xcd, 0x00, 0x00) }
    else if i == 2 { (0x00, 0xcd, 0x00) }
    else if i == 3 { (0xcd, 0xcd, 0x00) }
    else if i == 4 { (0x00, 0x00, 0xee) }
    else if i == 5 { (0xcd, 0x00, 0xcd) }
    else if i == 6 { (0x00, 0xcd, 0xcd) }
    else if i == 7 { (0xe5, 0xe5, 0xe5) }
    else if i == 8 { (0x7f, 0x7f, 0x7f) }
    else if i == 9 { (0xff, 0x00, 0x00) }
    else if i == 10 { (0x00, 0xff, 0x00) }
    else if i == 11 { (0xff, 0xff, 0x00) }
    else if i == 12 { (0x5c, 0x5c, 0xff) }
    else if i == 13 { (0xff, 0x00, 0xff) }
    else if i == 14 { (0x00, 0xff, 0xff) }
    else { (0xff, 0xff, 0xff) };
    Color::from_channels(r, g, b)
}

/// The ANSI-match palette: for each reference color the first nearest
/// sample, then the darkest at index 0 and the lightest at index 15. With no
/// sample at all the darkest fills the unmatched entries.
pub open spec fn ansi_palette(s: Seq<Color>, darkest: Color, lightest: Color) -> Seq<Color> {
    Seq::new(
        PALETTE_COUNT as nat,
        |i: int|
            if i == 0 {
                darkest
            } else if i == PALETTE_COUNT - 1 {
                lightest
            } else if s.len() == 0 {
                darkest
            } else {
                s[nearest(ansi_reference(i), s)]
            },
    )
}

/// Matches each ANSI reference color to its nearest sample.
pub fn ansi_from_samples(samples: &Samples) -> (cs: Colorscheme)
    requires
        samples.wf(),
    ensures
        cs.wf(),
        cs.palette@ == ansi_palette(samples.colors@, samples.darkest, samples.lightest),
        cs.palette@.len() == PALETTE_COUNT,
        cs.palette@[0] == samples.darkest,
        cs.palette@[PALETTE_COUNT - 1] == samples.lightest,
        cs.background == samples.darkest,
        cs.foreground == samples.lightest,
{
    let ghost ss = samples.colors@;
    let mut palette: Vec<Color> = Vec::new();
    let mut i: usize = 0;
    while i < PALETTE_COUNT
        invariant
            i <= PALETTE_COUNT,
            ss == samples.colors@,
            samples.wf(),
            palette@.len() == i,
            all_wf(palette@),
            forall|m: int|
                0 < m < i && m != PALETTE_COUNT - 1 ==> palette@[m] == #[trigger] ansi_palette(
                    ss,
                    samples.darkest,
                    samples.lightest,
                )[m],
        decreases PALETTE_COUNT - i,
    {
        if samples.colors.len() == 0 {
            palette.push(samples.darkest);
        } else {
            let reference = ansi_reference_color(i);
            let k = nearest_index(&reference, &samples.colors);
            palette.push(samples.colors[k]);
        }
        i = i + 1;
    }
    palette.set(0, samples.darkest);
    palette.set(PALETTE_COUNT - 1, samples.lightest);
    proof {
        assert(palette@ == ansi_palette(ss, samples.darkest, samples.lightest));
    }
    Colorscheme { palette, background: samples.darkest, foreground: samples.lightest }
}

/// Builds the ANSI-match colorscheme of an image from its block samples.
pub fn ansi_generate_colorscheme(img: &Image) -> (cs: Colorscheme)
    requires
        img.wf(),
    ensures
        cs.wf(),
        cs.palette@ == ansi_palette(
            scan(*img, SampleMode::Block),
            darkest_of(scan(*img, SampleMode::Block)),
            lightest_of(scan(*img, SampleMode::Block)),
        ),
        cs.palette@.len() == PALETTE_COUNT,
        cs.palette@[0] == darkest_of(scan(*img, SampleMode::Block)),
        cs.palette@[PALETTE_COUNT - 1] == lightest_of(scan(*img, SampleMode::Block)),
        cs.background == darkest_of(scan(*img, SampleMode::Block)),
        cs.foreground == lightest_of(scan(*img, SampleMode::Block)),
{
    let samples = sample_image(img, SampleMode::Block);
    ansi_from_samples(&samples)
}

/// The colorscheme that `method` builds from `img`, before saturation.
pub open spec fn built_scheme_palette(img: Image, method: Method) -> Seq<Color> {
    match method {
        Method::AreaAverage => {
            let s = scan(img, SampleMode::Block);
            area_average_palette(s, darkest_of(s), lightest_of(s))
        },
        Method::KMeans => {
            let s = scan(img, SampleMode::Point);
            kmeans_palette(s, darkest_of(s), lightest_of(s))
        },
        Method::ANSI => {
            let s = scan(img, SampleMode::Block);
            ansi_palette(s, darkest_of(s), lightest_of(s))
        },
    }
}

pub open spec fn method_mode(method: Method) -> SampleMode {
    match method {
        Method::KMeans => SampleMode::Point,
        _ => SampleMode::Block,
    }
}

/// The colorscheme that a method builds depends on nothing but the grid
/// points its scan visits before it holds `SAMPLE_COUNT` samples.
pub proof fn lemma_scheme_reads_only_grid(img1: Image, img2: Image, method: Method)
    requires
        img1.width == img2.width,
        img1.height == img2.height,
        scan_reads_agree(img1, img2, method_mode(method)),
    ensures
        built_scheme_palette(img1, method) == built_scheme_palette(img2, method),
        darkest_of(scan(img1, method_mode(method))) == darkest_of(scan(img2, method_mode(method))),
        lightest_of(scan(img1, method_mode(method))) == lightest_of(scan(img2, method_mode(method))),
{
    lemma_scan_reads_only_grid(img1, img2, method_mode(method));
}

/// Builds the colorscheme of `img` with `method`, then applies `saturation`
/// to every color of it.
pub fn generate_colorscheme(img: &Image, method: Method, saturation: Saturation) -> (cs: Colorscheme)
    requires
        img.wf(),
        saturation.wf(),
    ensures
        cs.wf(),
        cs.palette@.len() == built_scheme_palette(*img, method).len(),
        forall|i: int|
            0 <= i < cs.palette@.len() ==> (#[trigger] cs.palette@[i]).rgb() == saturated_rgb(
                built_scheme_palette(*img, method)[i],
                saturation,
            ),
        cs.background.rgb() == saturated_rgb(darkest_of(scan(*img, method_mode(method))), saturation),
        cs.foreground.rgb() == saturated_rgb(lightest_of(scan(*img, method_mode(method))), saturation),
{
    let built = match method {
        Method::AreaAverage => aaverage_generate_colorscheme(img),
        Method::KMeans => kmeans_generate_colorscheme(img),
        Method::ANSI => ansi_generate_colorscheme(img),
    };
    built.with_saturation(saturation)
}

} // verus!

//! LCD sub-pixel pixel format with colorimetric (linear-light) blending.

use vstd::prelude::*;
use crate::color::{CoverType, Rgba8};
use crate::distribution::LcdDistributionLut;
use crate::lcd::{blend_stripe_into, copy_hline_row, distribute_covers, solid_cover, FULL_WEIGHT, SPAN_SCRATCH};
use crate::rendering_buffer::{RowAccessor, BPP};
use crate::srgb::{lemma_standard_round_trip, SrgbLuts, LINEAR_MAX};
use crate::stripes::{blend_run, color_vals, const_alpha, pixel_at, run_count, write_pixel};

verus! {

/// Tuning parameters for [`PixfmtRgba32LcdLinear`].
#[derive(Debug, Clone, Copy)]
pub struct LcdBlendParams {
    /// Contrast enhancement applied to per-stripe coverage before
    /// compositing: `c' = c + contrast * c * (1 - c)`, as fixed point
    /// 0..=255 over 1.0.
    pub contrast: u8,
    /// 0 = full per-stripe freedom; 255 = stripes fully clamped to the
    /// pixel's mean-coverage composite. Values between limit how far a
    /// stripe may deviate from that composite.
    pub chroma_limit: u8,
    /// Coverage tone curve exponent, fixed point x100 (100 = linear
    /// coverage, 220 = c^(1/2.2)), applied before `contrast`.
    pub coverage_gamma: u8,
}

impl Default for LcdBlendParams {
    /// No contrast boost, no chroma limit, a 2.2 coverage tone curve.
    fn default() -> (p: Self)
        ensures
            p.contrast == 0,
            p.chroma_limit == 0,
            p.coverage_gamma == 220,
    {
        LcdBlendParams { contrast: 0, chroma_limit: 0, coverage_gamma: 220 }
    }
}

/// Coverage `c` through the tone curve `tone`, then the contrast boost
/// `t + contrast * t * (255 - t) / 255^2`, at most 255.
pub open spec fn boost_spec(tone: Seq<u8>, contrast: int, c: int) -> int {
    let t = tone[c] as int;
    let b = t + (contrast * t * (255 - t)) / 65025int;
    if b < 255 {
        b
    } else {
        255
    }
}

/// The weight of one stripe: its boosted coverage times the run's alpha.
pub open spec fn stripe_weight(tone: Seq<u8>, contrast: int, cov: int, a_fg: int) -> int {
    boost_spec(tone, contrast, cov) * a_fg / 255
}

/// Linear-light source-over: `fg` with weight `c` out of 255 over `bg`.
pub open spec fn mix(fg: int, bg: int, c: int) -> int {
    (fg * c + bg * (255 - c)) / 255
}

/// Integer division rounding towards zero.
pub open spec fn trunc_div(a: int, d: int) -> int {
    if a >= 0 {
        a / d
    } else {
        -((-a) / d)
    }
}

/// `out` moved `clamp / 255` of the way towards `gray`, rounding towards
/// `out`.
pub open spec fn limit_chroma(out: int, gray: int, clamp: int) -> int {
    out + trunc_div(clamp * (gray - out), 255)
}

/// The linear level of one stripe: the mix of the linear levels `fl` (of
/// the colour) and `bl` (of the background) with the stripe's weight `c`,
/// moved towards their mix with the mean weight `c_mean` by the chroma
/// limit `clamp` when it is not zero.
pub open spec fn channel_level(fl: int, bl: int, c: int, c_mean: int, clamp: int) -> int {
    if clamp > 0 {
        limit_chroma(mix(fl, bl, c), mix(fl, bl, c_mean), clamp)
    } else {
        mix(fl, bl, c)
    }
}

/// The code of linear level `l` in the table `enc`, levels above
/// `LINEAR_MAX` taken as `LINEAR_MAX`.
pub open spec fn encode_level(enc: Seq<u8>, l: int) -> u8 {
    enc[if l < LINEAR_MAX {
        l
    } else {
        LINEAR_MAX as int
    }]
}

/// Pixel `p` of `row` after compositing colour `fg` with run alpha `a_fg`
/// and channel coverages `cov0`, `cov1`, `cov2`: unchanged when every
/// stripe weight is zero; otherwise each channel becomes the code of its
/// linear-light stripe level against the pixel's old value, and the alpha
/// becomes opaque.
pub open spec fn composite_row(
    luts: SrgbLuts,
    tone: Seq<u8>,
    params: LcdBlendParams,
    row: Seq<u8>,
    p: int,
    fg: Rgba8,
    a_fg: int,
    cov0: int,
    cov1: int,
    cov2: int,
) -> Seq<u8> {
    let c0 = stripe_weight(tone, params.contrast as int, cov0, a_fg);
    let c1 = stripe_weight(tone, params.contrast as int, cov1, a_fg);
    let c2 = stripe_weight(tone, params.contrast as int, cov2, a_fg);
    if c0 == 0 && c1 == 0 && c2 == 0 {
        row
    } else {
        let off = p * 4;
        let c_mean = (c0 + c1 + c2) / 3;
        let clamp = params.chroma_limit as int;
        let lin = luts.linear_table();
        let enc = luts.srgb_table();
        row.update(
            off,
            encode_level(enc, channel_level(lin[fg.r as int] as int, lin[row[off] as int] as int, c0, c_mean, clamp)),
        ).update(
            off + 1,
            encode_level(enc, channel_level(lin[fg.g as int] as int, lin[row[off + 1] as int] as int, c1, c_mean, clamp)),
        ).update(
            off + 2,
            encode_level(enc, channel_level(lin[fg.b as int] as int, lin[row[off + 2] as int] as int, c2, c_mean, clamp)),
        ).update(off + 3, 255)
    }
}

/// A mix of two levels lies between them.
proof fn lemma_mix_between(fg: int, bg: int, c: int)
    requires
        0 <= fg <= 65535,
        0 <= bg <= 65535,
        0 <= c <= 255,
    ensures
        0 <= mix(fg, bg, c) <= 65535,
        fg <= bg ==> fg <= mix(fg, bg, c) <= bg,
        bg <= fg ==> bg <= mix(fg, bg, c) <= fg,
{
    let n = fg * c + bg * (255 - c);
    if fg <= bg {
        assert(fg * 255 <= n <= bg * 255) by (nonlinear_arith)
            requires n == fg * c + bg * (255 - c), fg <= bg, 0 <= c <= 255;
    } else {
        assert(bg * 255 <= n <= fg * 255) by (nonlinear_arith)
            requires n == fg * c + bg * (255 - c), bg <= fg, 0 <= c <= 255;
    }
}

/// A chroma-limited level lies between the stripe level and the mean level.
proof fn lemma_limit_chroma_between(out: int, gray: int, clamp: int)
    requires
        0 <= clamp <= 255,
    ensures
        out <= gray ==> out <= limit_chroma(out, gray, clamp) <= gray,
        gray <= out ==> gray <= limit_chroma(out, gray, clamp) <= out,
{
    if out <= gray {
        assert(0 <= clamp * (gray - out) <= 255 * (gray - out)) by (nonlinear_arith)
            requires out <= gray, 0 <= clamp <= 255;
    } else {
        assert(0 <= clamp * (out - gray) <= 255 * (out - gray)) by (nonlinear_arith)
            requires gray <= out, 0 <= clamp <= 255;
        assert(-(clamp * (gray - out)) == clamp * (out - gray)) by (nonlinear_arith);
    }
}

/// Coverage `cover` on channel `channel` only, for channel `ch`.
pub open spec fn single_cov(channel: int, ch: int, cover: int) -> int {
    if ch == channel {
        cover
    } else {
        0
    }
}

/// Pixels of a horizontal line: the `k`-th pixel from the one holding
/// sub-pixel `x`.
pub open spec fn line_pixels(x: int) -> spec_fn(int) -> int {
    |k: int| x / 3 + k
}

/// The same colour for every step.
pub open spec fn const_color(c: Rgba8) -> spec_fn(int) -> Rgba8 {
    |k: int| c
}

/// Coverages of a horizontal line of `len` sub-pixels from `x`: `cover` on
/// the channels of the `k`-th pixel that lie in the line, 0 elsewhere.
pub open spec fn line_covs(x: int, len: int, cover: int) -> spec_fn(int, int) -> int {
    |k: int, ch: int|
        if x <= 3 * (x / 3 + k) + ch < x + len {
            cover
        } else {
            0
        }
}

/// How many pixels a horizontal line of `len` sub-pixels from `x` touches
/// in a row `w` pixels wide.
pub open spec fn line_pixel_count(x: int, len: int, w: int) -> nat {
    if x < 0 || len <= 0 || x / 3 >= w {
        0
    } else if (x + len - 1) / 3 < w {
        ((x + len - 1) / 3 - x / 3 + 1) as nat
    } else {
        (w - x / 3) as nat
    }
}

/// Pixels met by a run of own colours: the one holding sub-pixel `x + k`.
pub open spec fn stripe_pixels(x: int) -> spec_fn(int) -> int {
    |k: int| (x + k) / 3
}

/// Colours of a run of own colours.
pub open spec fn run_colors(colors: Seq<Rgba8>) -> spec_fn(int) -> Rgba8 {
    |k: int| colors[k]
}

/// Coverages of a run of own colours: `covers[k]` (or `cover` when `covers`
/// is empty) on the channel of sub-pixel `x + k` only.
pub open spec fn run_covs(x: int, covers: Seq<u8>, cover: u8) -> spec_fn(int, int) -> int {
    |k: int, ch: int|
        single_cov(
            (x + k) % 3,
            ch,
            if covers.len() > 0 {
                covers[k] as int
            } else {
                cover as int
            },
        )
}

/// First pixel of a distributed span whose sub-pixels run from `first`
/// (inclusive) to `last` (exclusive).
pub open spec fn span_first_pixel(first: int) -> int {
    (if first < 0 {
        0
    } else {
        first
    }) / 3
}

/// Last pixel of a distributed span whose sub-pixels end before `last`.
pub open spec fn span_last_pixel(last: int) -> int {
    (if last - 1 < 0 {
        0
    } else {
        last - 1
    }) / 3
}

/// How many pixels of a distributed span from `first` to `last` are
/// visited in a row `w` pixels wide.
pub open spec fn span_pixel_count(first: int, last: int, w: int) -> nat {
    let p0 = span_first_pixel(first);
    let p1 = span_last_pixel(last);
    if p0 >= w || p1 < p0 {
        0
    } else if p1 < w {
        (p1 - p0 + 1) as nat
    } else {
        (w - p0) as nat
    }
}

/// Pixels of a distributed span: the `k`-th from its first pixel.
pub open spec fn span_pixels(first: int) -> spec_fn(int) -> int {
    |k: int| span_first_pixel(first) + k
}

/// Coverages of a distributed span: channel `ch` of the `k`-th pixel takes
/// the distributed value of its sub-pixel when that lies in the span, else
/// 0.
pub open spec fn span_covs(lut: LcdDistributionLut, covers: Seq<u8>, len: int, first: int) -> spec_fn(int, int) -> int {
    |k: int, ch: int|
        {
            let sp = 3 * (span_first_pixel(first) + k) + ch;
            if first <= sp < first + len + 4 {
                solid_cover(lut, covers, len, sp - first)
            } else {
                0
            }
        }
}

/// A coverage tone curve: one entry per coverage, no coverage stays none,
/// full coverage stays full, and the curve never decreases.
pub open spec fn tone_curve_ok(tone: Seq<u8>) -> bool {
    &&& tone.len() == 256
    &&& tone[0] == 0
    &&& tone[255] == 255
    &&& forall|u: int, v: int| 0 <= u <= v < 256 ==> #[trigger] tone[u] <= #[trigger] tone[v]
}

/// The contrast boost without the tone curve never decreases.
proof fn lemma_contrast_monotone(contrast: int, a: int, b: int)
    requires
        0 <= contrast <= 255,
        0 <= a <= b <= 255,
    ensures
        a + (contrast * a * (255 - a)) / 65025int <= b + (contrast * b * (255 - b)) / 65025int,
{
    // 65025 * a + contrast * a * (255 - a) never decreases in a
    assert(65025 * a + contrast * a * (255 - a) <= 65025 * b + contrast * b * (255 - b)) by (nonlinear_arith)
        requires
            0 <= contrast <= 255,
            0 <= a <= b <= 255,
    {
        assert(contrast * a * (255 - a) - contrast * b * (255 - b) == contrast * (b - a) * (a + b - 255));
        assert(contrast * (b - a) * (a + b - 255) <= 255 * (b - a) * 255);
    }
    let ga = contrast * a * (255 - a);
    let gb = contrast * b * (255 - b);
    assert(0 <= ga && 0 <= gb) by (nonlinear_arith)
        requires
            ga == contrast * a * (255 - a),
            gb == contrast * b * (255 - b),
            0 <= contrast,
            0 <= a <= 255,
            0 <= b <= 255;
    vstd::arithmetic::div_mod::lemma_div_is_ordered(65025 * a + ga, 65025 * b + gb, 65025);
    vstd::arithmetic::div_mod::lemma_fundamental_div_mod(ga, 65025);
    vstd::arithmetic::div_mod::lemma_fundamental_div_mod(gb, 65025);
    let qa = ga / 65025;
    let qb = gb / 65025;
    assert(65025 * a + ga == 65025 * (a + qa) + ga % 65025);
    assert(65025 * b + gb == 65025 * (b + qb) + gb % 65025);
    vstd::arithmetic::div_mod::lemma_div_multiples_vanish_fancy(a + qa, ga % 65025, 65025);
    vstd::arithmetic::div_mod::lemma_div_multiples_vanish_fancy(b + qb, gb % 65025, 65025);
}

/// With a tone curve, the boost keeps no coverage at none and full
/// coverage at full, and never decreases, whatever the contrast.
pub proof fn lemma_boost_endpoints_monotone(tone: Seq<u8>, contrast: int, u: int, v: int)
    requires
        tone_curve_ok(tone),
        0 <= contrast <= 255,
        0 <= u <= v < 256,
    ensures
        boost_spec(tone, contrast, 0) == 0,
        boost_spec(tone, contrast, 255) == 255,
        boost_spec(tone, contrast, u) <= boost_spec(tone, contrast, v),
        0 <= boost_spec(tone, contrast, u),
{
    assert(tone[u] <= tone[v]);
    lemma_contrast_monotone(contrast, tone[u] as int, tone[v] as int);
    lemma_contrast_monotone(contrast, 0, tone[u] as int);
}

/// Fully covering a pixel with an opaque colour gives exactly that colour,
/// made opaque, whatever the contrast and chroma limit, with any tone curve
/// and the sRGB tables.
pub proof fn lemma_full_coverage_reaches_color(
    luts: SrgbLuts,
    tone: Seq<u8>,
    params: LcdBlendParams,
    row: Seq<u8>,
    p: int,
    fg: Rgba8,
)
    requires
        luts.is_standard(),
        tone_curve_ok(tone),
        0 <= p,
        p * 4 + 3 < row.len(),
    ensures
        composite_row(luts, tone, params, row, p, fg, 255, 255, 255, 255) == write_pixel(
            row,
            p,
            Rgba8 { r: fg.r, g: fg.g, b: fg.b, a: 255 },
        ),
{
    let k = params.contrast as int;
    assert(tone[255] == 255);
    assert(boost_spec(tone, k, 255) == 255);
    assert(stripe_weight(tone, k, 255, 255) == 255);
    let lin = luts.linear_table();
    lemma_standard_round_trip(luts, fg.r);
    lemma_standard_round_trip(luts, fg.g);
    lemma_standard_round_trip(luts, fg.b);
    let off = p * 4;
    assert(mix(lin[fg.r as int] as int, lin[row[off] as int] as int, 255) == lin[fg.r as int]);
    assert(mix(lin[fg.g as int] as int, lin[row[off + 1] as int] as int, 255) == lin[fg.g as int]);
    assert(mix(lin[fg.b as int] as int, lin[row[off + 2] as int] as int, 255) == lin[fg.b as int]);
    assert(composite_row(luts, tone, params, row, p, fg, 255, 255, 255, 255) =~= write_pixel(
        row,
        p,
        Rgba8 { r: fg.r, g: fg.g, b: fg.b, a: 255 },
    ));
}

/// With the chroma limit at 255 every stripe level is the mean-weight
/// level: the stripe's own weight no longer matters.
pub proof fn lemma_full_chroma_limit(fl: int, bl: int, c: int, c_mean: int)
    requires
        0 <= fl <= 65535,
        0 <= bl <= 65535,
        0 <= c <= 255,
        0 <= c_mean <= 255,
    ensures
        channel_level(fl, bl, c, c_mean, 255) == mix(fl, bl, c_mean),
{
    let o = mix(fl, bl, c);
    let g = mix(fl, bl, c_mean);
    if g < o {
        assert(255 * (g - o) == -(255 * (o - g))) by (nonlinear_arith);
    }
}

/// With the chroma limit at 255, two channels whose colour codes and
/// background codes agree come out equal, however different their
/// coverages.
pub proof fn lemma_full_chroma_limit_equalizes(
    luts: SrgbLuts,
    tone: Seq<u8>,
    params: LcdBlendParams,
    row: Seq<u8>,
    p: int,
    fg: Rgba8,
    a_fg: int,
    cov0: int,
    cov1: int,
    cov2: int,
)
    requires
        luts.wf(),
        tone.len() == 256,
        params.chroma_limit == 255,
        0 <= p,
        p * 4 + 3 < row.len(),
        0 <= a_fg <= 255,
        0 <= cov0 <= 255,
        0 <= cov1 <= 255,
        0 <= cov2 <= 255,
        fg.r == fg.b,
        row[p * 4] == row[p * 4 + 2],
    ensures
        composite_row(luts, tone, params, row, p, fg, a_fg, cov0, cov1, cov2)[p * 4]
            == composite_row(luts, tone, params, row, p, fg, a_fg, cov0, cov1, cov2)[p * 4 + 2],
{
    let k = params.contrast as int;
    let c0 = stripe_weight(tone, k, cov0, a_fg);
    let c1 = stripe_weight(tone, k, cov1, a_fg);
    let c2 = stripe_weight(tone, k, cov2, a_fg);
    assert(0 <= boost_spec(tone, k, cov0) <= 255 && 0 <= boost_spec(tone, k, cov1) <= 255 && 0 <= boost_spec(tone, k, cov2) <= 255) by {
        assert(0 <= k * (tone[cov0] as int) * (255 - tone[cov0] as int)) by (nonlinear_arith)
            requires 0 <= k, 0 <= tone[cov0] as int <= 255;
        assert(0 <= k * (tone[cov1] as int) * (255 - tone[cov1] as int)) by (nonlinear_arith)
            requires 0 <= k, 0 <= tone[cov1] as int <= 255;
        assert(0 <= k * (tone[cov2] as int) * (255 - tone[cov2] as int)) by (nonlinear_arith)
            requires 0 <= k, 0 <= tone[cov2] as int <= 255;
    }
    assert(0 <= c0 <= 255 && 0 <= c1 <= 255 && 0 <= c2 <= 255) by {
        let b0 = boost_spec(tone, k, cov0);
        let b1 = boost_spec(tone, k, cov1);
        let b2 = boost_spec(tone, k, cov2);
        assert(0 <= b0 * a_fg <= 255 * 255 && 0 <= b1 * a_fg <= 255 * 255 && 0 <= b2 * a_fg <= 255 * 255) by (nonlinear_arith)
            requires 0 <= b0 <= 255, 0 <= b1 <= 255, 0 <= b2 <= 255, 0 <= a_fg <= 255;
    }
    let c_mean = (c0 + c1 + c2) / 3;
    let lin = luts.linear_table();
    let off = p * 4;
    lemma_full_chroma_limit(lin[fg.r as int] as int, lin[row[off] as int] as int, c0, c_mean);
    lemma_full_chroma_limit(lin[fg.b as int] as int, lin[row[off + 2] as int] as int, c2, c_mean);
}

/// Without a chroma limit, a stripe that gets no weight keeps its code
/// through the sRGB tables; with a tone curve, an uncovered stripe gets no
/// weight.
pub proof fn lemma_unweighted_stripe_keeps_value(
    luts: SrgbLuts,
    tone: Seq<u8>,
    params: LcdBlendParams,
    row: Seq<u8>,
    p: int,
    fg: Rgba8,
    a_fg: int,
    cov0: int,
    cov1: int,
    cov2: int,
)
    requires
        luts.is_standard(),
        params.chroma_limit == 0,
        0 <= p,
        p * 4 + 3 < row.len(),
        stripe_weight(tone, params.contrast as int, cov0, a_fg) == 0 || (tone_curve_ok(tone) && cov0 == 0),
    ensures
        composite_row(luts, tone, params, row, p, fg, a_fg, cov0, cov1, cov2)[p * 4] == row[p * 4],
{
    if tone_curve_ok(tone) && cov0 == 0 {
        lemma_boost_endpoints_monotone(tone, params.contrast as int, 0, 0);
        assert(boost_spec(tone, params.contrast as int, cov0) == 0);
        assert(0 * a_fg == 0);
        assert(stripe_weight(tone, params.contrast as int, cov0, a_fg) == 0);
    }
    let off = p * 4;
    let lin = luts.linear_table();
    lemma_standard_round_trip(luts, row[off]);
    assert(mix(lin[fg.r as int] as int, lin[row[off] as int] as int, 0) == lin[row[off] as int]);
}

/// LCD sub-pixel pixel format with colorimetric (linear-light) blending.
///
/// Same three-times-resolution stripe model and five-tap distribution as
/// [`crate::lcd::PixfmtRgba32Lcd`], but compositing happens in linear
/// light through [`SrgbLuts`], per stripe, against the actual destination
/// pixel: `out = to_srgb(lin(fg) * cover + lin(bg) * (1 - cover))`.
pub struct PixfmtRgba32LcdLinear<'a> {
    rbuf: RowAccessor,
    lut: &'a LcdDistributionLut,
    params: LcdBlendParams,
    luts: &'a SrgbLuts,
    /// Coverage tone table for `params.coverage_gamma`.
    cover_lut: [u8; 256],
    c3: Vec<u8>,
}

impl<'a> PixfmtRgba32LcdLinear<'a> {
    /// The rendering buffer drawn into.
    pub closed spec fn buffer(&self) -> RowAccessor {
        self.rbuf
    }

    /// The coverage distribution table used by spans.
    pub closed spec fn distribution(&self) -> LcdDistributionLut {
        *self.lut
    }

    /// The tuning parameters.
    pub closed spec fn blend_params(&self) -> LcdBlendParams {
        self.params
    }

    /// The transfer tables.
    pub closed spec fn srgb_luts(&self) -> SrgbLuts {
        *self.luts
    }

    /// The coverage tone table.
    pub closed spec fn tone_table(&self) -> Seq<u8> {
        self.cover_lut@
    }

    /// Buffer and tables are well formed.
    pub open spec fn wf(&self) -> bool {
        &&& self.buffer().wf()
        &&& self.distribution().wf()
        &&& self.srgb_luts().wf()
        &&& tone_curve_ok(self.tone_table())
    }

    /// `self` has the tables, parameters and buffer size of `other`, and is
    /// well formed.
    pub open spec fn keeps_setup(&self, other: Self) -> bool {
        &&& self.wf()
        &&& self.buffer().w() == other.buffer().w()
        &&& self.buffer().h() == other.buffer().h()
        &&& self.distribution() == other.distribution()
        &&& self.blend_params() == other.blend_params()
        &&& self.srgb_luts() == other.srgb_luts()
        &&& self.tone_table() == other.tone_table()
    }

    /// Pixel `p` of `row` composited with this format's tables and
    /// parameters.
    pub open spec fn composite_spec(&self, row: Seq<u8>, p: int, fg: Rgba8, a_fg: int, cov0: int, cov1: int, cov2: int) -> Seq<u8> {
        composite_row(self.srgb_luts(), self.tone_table(), self.blend_params(), row, p, fg, a_fg, cov0, cov1, cov2)
    }

    /// The rows a span of `len` covers of colour `c` at sub-pixel `x` of
    /// row `y` leaves: a function of the buffer, tables, parameters and
    /// arguments alone.
    pub open spec fn span_rows(&self, x: int, y: int, len: int, covers: Seq<u8>, c: Rgba8) -> Seq<Seq<u8>> {
        self.buffer()@.update(
            y,
            self.composite_steps(
                self.buffer()@[y],
                span_pixel_count(x - 2, x - 2 + len + 4, self.buffer().w() as int),
                span_pixels(x - 2),
                const_color(c),
                span_covs(self.distribution(), covers, len, x - 2),
                true,
            ),
        )
    }

    /// Whatever spans a format has drawn before, the next span leaves the
    /// rows a fresh format over the same buffer, tables and parameters
    /// would: the reused scratch buffer carries no state between spans.
    pub proof fn lemma_span_ignores_history(
        a: Self,
        b: Self,
        x: int,
        y: int,
        len: int,
        covers: Seq<u8>,
        c: Rgba8,
    )
        requires
            a.buffer()@ == b.buffer()@,
            a.buffer().w() == b.buffer().w(),
            a.distribution() == b.distribution(),
            a.blend_params() == b.blend_params(),
            a.srgb_luts() == b.srgb_luts(),
            a.tone_table() == b.tone_table(),
        ensures
            a.span_rows(x, y, len, covers, c) == b.span_rows(x, y, len, covers, c),
    {
        Self::lemma_steps_same_setup(
            a,
            b,
            a.buffer()@[y],
            span_pixel_count(x - 2, x - 2 + len + 4, a.buffer().w() as int),
            span_pixels(x - 2),
            const_color(c),
            span_covs(a.distribution(), covers, len, x - 2),
            true,
        );
    }

    /// Composites depend on a format only through its tables and
    /// parameters.
    proof fn lemma_steps_same_setup(
        a: Self,
        b: Self,
        row: Seq<u8>,
        count: nat,
        pixels: spec_fn(int) -> int,
        fgs: spec_fn(int) -> Rgba8,
        covs: spec_fn(int, int) -> int,
        gate: bool,
    )
        requires
            a.blend_params() == b.blend_params(),
            a.srgb_luts() == b.srgb_luts(),
            a.tone_table() == b.tone_table(),
        ensures
            a.composite_steps(row, count, pixels, fgs, covs, gate) == b.composite_steps(row, count, pixels, fgs, covs, gate),
        decreases count,
    {
        if count > 0 {
            Self::lemma_steps_same_setup(a, b, row, (count - 1) as nat, pixels, fgs, covs, gate);
        }
    }

    /// `row` after blending colour `c` with coverage `cover` into sub-pixel
    /// `x`: a composite of its pixel with that one stripe covered.
    pub open spec fn blend_pixel_row(&self, row: Seq<u8>, x: int, c: Rgba8, cover: int) -> Seq<u8> {
        self.composite_spec(
            row,
            x / 3,
            c,
            c.a as int,
            single_cov(x % 3, 0, cover),
            single_cov(x % 3, 1, cover),
            single_cov(x % 3, 2, cover),
        )
    }

    /// `row` after `count` single-sub-pixel blends in turn: the `k`-th at
    /// sub-pixel `x + k` with colour `colors[k]` and coverage `covers[k]`, or
    /// `cover` when `covers` is empty.
    pub open spec fn pixel_blends(
        &self,
        row: Seq<u8>,
        x: int,
        count: nat,
        colors: Seq<Rgba8>,
        covers: Seq<u8>,
        cover: u8,
    ) -> Seq<u8>
        decreases count,
    {
        if count == 0 {
            row
        } else {
            let k = count - 1;
            self.blend_pixel_row(
                self.pixel_blends(row, x, k as nat, colors, covers, cover),
                x + k,
                colors[k],
                if covers.len() > 0 {
                    covers[k] as int
                } else {
                    cover as int
                },
            )
        }
    }

    /// A run of own colours composites exactly as that many single
    /// sub-pixel blends in turn: `blend_color_hspan` is a sequence of
    /// `blend_pixel` calls.
    pub proof fn lemma_color_hspan_is_pixel_blends(
        &self,
        row: Seq<u8>,
        x: int,
        count: nat,
        colors: Seq<Rgba8>,
        covers: Seq<u8>,
        cover: u8,
    )
        ensures
            self.composite_steps(row, count, stripe_pixels(x), run_colors(colors), run_covs(x, covers, cover), false)
                == self.pixel_blends(row, x, count, colors, covers, cover),
        decreases count,
    {
        if count > 0 {
            self.lemma_color_hspan_is_pixel_blends(row, x, (count - 1) as nat, colors, covers, cover);
        }
    }

    /// The row a linear-light run of own colours leaves is the one the same
    /// number of `blend_pixel` calls leave, at sub-pixels `x`, `x + 1`, ...
    pub proof fn lemma_color_hspan_row_is_pixel_blends(
        &self,
        row: Seq<u8>,
        w: int,
        x: int,
        len: int,
        colors: Seq<Rgba8>,
        covers: Seq<u8>,
        cover: u8,
    )
        ensures
            self.color_hspan_row(row, w, x, len, colors, covers, cover) == self.pixel_blends(
                row,
                x,
                run_count(x, len, w),
                colors,
                covers,
                cover,
            ),
    {
        self.lemma_color_hspan_is_pixel_blends(row, x, run_count(x, len, w), colors, covers, cover);
    }

    /// `row` (of a buffer `w` pixels wide) after a linear-light line of
    /// `len` sub-pixels of colour `c` with coverage `cover` from `x`: one
    /// composite per touched pixel, stopping at the end of the row.
    pub open spec fn hline_row(&self, row: Seq<u8>, w: int, x: int, len: int, c: Rgba8, cover: int) -> Seq<u8> {
        self.composite_steps(row, line_pixel_count(x, len, w), line_pixels(x), const_color(c), line_covs(x, len, cover), false)
    }

    /// `row` (of a buffer `w` pixels wide) after a linear-light run of `len`
    /// sub-pixels from `x` with their own colours and covers: one composite
    /// per sub-pixel, stopping at the end of the row.
    pub open spec fn color_hspan_row(
        &self,
        row: Seq<u8>,
        w: int,
        x: int,
        len: int,
        colors: Seq<Rgba8>,
        covers: Seq<u8>,
        cover: u8,
    ) -> Seq<u8> {
        self.composite_steps(row, run_count(x, len, w), stripe_pixels(x), run_colors(colors), run_covs(x, covers, cover), false)
    }

    /// `count` pixel composites in turn: the `k`-th on pixel `pixels(k)`
    /// with colour `fgs(k)`, its alpha, and channel coverages `covs(k, ch)`;
    /// with `gate`, a step whose coverages are all zero is skipped.
    pub open spec fn composite_steps(
        &self,
        row: Seq<u8>,
        count: nat,
        pixels: spec_fn(int) -> int,
        fgs: spec_fn(int) -> Rgba8,
        covs: spec_fn(int, int) -> int,
        gate: bool,
    ) -> Seq<u8>
        decreases count,
    {
        if count == 0 {
            row
        } else {
            let k = count - 1;
            let prev = self.composite_steps(row, k as nat, pixels, fgs, covs, gate);
            if gate && covs(k, 0) == 0 && covs(k, 1) == 0 && covs(k, 2) == 0 {
                prev
            } else {
                self.composite_spec(prev, pixels(k), fgs(k), fgs(k).a as int, covs(k, 0), covs(k, 1), covs(k, 2))
            }
        }
    }

    /// Creates a linear-light LCD pixel format drawing into `rbuf` with the
    /// distribution table `lut`, the parameters `params`, the transfer tables
    /// `luts` (shared, usually [`SrgbLuts::get`]) and `cover_lut`, the
    /// coverage tone table for `params.coverage_gamma`.
    pub fn new(
        rbuf: RowAccessor,
        lut: &'a LcdDistributionLut,
        params: LcdBlendParams,
        luts: &'a SrgbLuts,
        cover_lut: [u8; 256],
    ) -> (pf: Self)
        requires
            tone_curve_ok(cover_lut@),
        ensures
            pf.buffer() == rbuf,
            pf.distribution() == *lut,
            pf.blend_params() == params,
            pf.srgb_luts() == *luts,
            pf.tone_table() == cover_lut@,
    {
        PixfmtRgba32LcdLinear { rbuf, lut, params, luts, cover_lut, c3: Vec::with_capacity(SPAN_SCRATCH) }
    }

    /// The rendering buffer drawn into.
    pub fn rbuf(&self) -> (r: &RowAccessor)
        ensures
            *r == self.buffer(),
    {
        &self.rbuf
    }

    /// Gives back the rendering buffer.
    pub fn into_rbuf(self) -> (r: RowAccessor)
        ensures
            r == self.buffer(),
    {
        self.rbuf
    }

    /// The actual (whole-pixel) width.
    fn actual_width(&self) -> (w: u32)
        ensures
            w == self.buffer().w(),
    {
        self.rbuf.width()
    }

    /// Coverage tone curve, then contrast enhancement (0..=255).
    fn boost(&self, c: u32) -> (r: u32)
        requires
            self.wf(),
            c <= 255,
        ensures
            r == boost_spec(self.tone_table(), self.blend_params().contrast as int, c as int),
            r <= 255,
    {
        let c = self.cover_lut[c as usize] as u32;
        let k = self.params.contrast as u32;
        proof {
            assert(k * c <= 255 * 255) by (nonlinear_arith)
                requires k <= 255, c <= 255;
            assert(k * c * (255 - c) <= 255 * 255 * 255) by (nonlinear_arith)
                requires k <= 255, c <= 255;
            assert((k * c * (255 - c)) / 65025 <= 255) by (nonlinear_arith)
                requires k * c * (255 - c) <= 255 * 255 * 255;
        }
        let e = (k * c * (255 - c)) / (255 * 255);
        (c + e).min(255)
    }

    /// The linear level of one stripe from the linear levels of colour and
    /// background, its weight and the pixel's mean weight.
    fn channel_out(&self, fg_l: u32, bg_l: u32, c: u32, c_mean: u32) -> (r: u32)
        requires
            fg_l <= 65535,
            bg_l <= 65535,
            c <= 255,
            c_mean <= 255,
        ensures
            r == channel_level(fg_l as int, bg_l as int, c as int, c_mean as int, self.blend_params().chroma_limit as int),
    {
        proof {
            lemma_mix_between(fg_l as int, bg_l as int, c as int);
            lemma_mix_between(fg_l as int, bg_l as int, c_mean as int);
            assert(fg_l * c + bg_l * (255 - c) <= 65535 * 255) by (nonlinear_arith)
                requires fg_l <= 65535, bg_l <= 65535, c <= 255;
            assert(fg_l * c_mean + bg_l * (255 - c_mean) <= 65535 * 255) by (nonlinear_arith)
                requires fg_l <= 65535, bg_l <= 65535, c_mean <= 255;
        }
        let out = (fg_l * c + bg_l * (255 - c)) / 255;
        let clamp = self.params.chroma_limit as u32;
        if clamp > 0 {
            let gray = (fg_l * c_mean + bg_l * (255 - c_mean)) / 255;
            let o = out as i64;
            let g = gray as i64;
            proof {
                lemma_limit_chroma_between(o as int, g as int, clamp as int);
                assert(-255 * 65535 <= clamp * (g - o) <= 255 * 65535) by (nonlinear_arith)
                    requires 0 <= o <= 65535, 0 <= g <= 65535, clamp <= 255;
            }
            let d = (clamp as i64 * (g - o)) / 255;
            proof {
                assert(d == trunc_div(clamp * (g - o), 255));
            }
            (o + d) as u32
        } else {
            out
        }
    }

    /// Composites pixel `pixel` of row `y`: per-stripe linear blend of `fg`
    /// over the destination with channel coverages `cov`, modulated by the
    /// run alpha `a_fg`, with the optional chroma limit.
    fn composite_pixel(&mut self, y: u32, pixel: usize, fg: &Rgba8, a_fg: u32, cov: [u32; 3])
        requires
            old(self).wf(),
            y < old(self).buffer().h(),
            pixel < old(self).buffer().w(),
            a_fg <= 255,
            cov[0] <= 255,
            cov[1] <= 255,
            cov[2] <= 255,
        ensures
            final(self).wf(),
            final(self).buffer().w() == old(self).buffer().w(),
            final(self).buffer().h() == old(self).buffer().h(),
            final(self).distribution() == old(self).distribution(),
            final(self).blend_params() == old(self).blend_params(),
            final(self).srgb_luts() == old(self).srgb_luts(),
            final(self).tone_table() == old(self).tone_table(),
            final(self).buffer()@ == old(self).buffer()@.update(
                y as int,
                old(self).composite_spec(old(self).buffer()@[y as int], pixel as int, *fg, a_fg as int, cov[0] as int, cov[1] as int, cov[2] as int),
            ),
    {
        proof { self.rbuf.lemma_rows(); }
        let ghost row0 = self.rbuf@[y as int];
        let off = pixel * BPP;
        let b0 = self.rbuf.get(y, off);
        let b1 = self.rbuf.get(y, off + 1);
        let b2 = self.rbuf.get(y, off + 2);

        // Per-stripe coverage with contrast, modulated by run alpha.
        let k0 = self.boost(cov[0]);
        let k1 = self.boost(cov[1]);
        let k2 = self.boost(cov[2]);
        proof {
            assert(k0 * a_fg <= 255 * 255 && k1 * a_fg <= 255 * 255 && k2 * a_fg <= 255 * 255) by (nonlinear_arith)
                requires k0 <= 255, k1 <= 255, k2 <= 255, a_fg <= 255;
        }
        let c0 = k0 * a_fg / 255;
        let c1 = k1 * a_fg / 255;
        let c2 = k2 * a_fg / 255;
        if c0 == 0 && c1 == 0 && c2 == 0 {
            proof {
                assert(self.rbuf@ =~= old(self).buffer()@.update(y as int, row0));
            }
            return;
        }

        // Linear src-over per stripe, with the chroma budget against the
        // mean-coverage composite.
        let c_mean = (c0 + c1 + c2) / 3;
        let o0 = self.channel_out(self.luts.lin(fg.r), self.luts.lin(b0), c0, c_mean);
        let o1 = self.channel_out(self.luts.lin(fg.g), self.luts.lin(b1), c1, c_mean);
        let o2 = self.channel_out(self.luts.lin(fg.b), self.luts.lin(b2), c2, c_mean);
        let e0 = self.luts.srgb(o0);
        let e1 = self.luts.srgb(o1);
        let e2 = self.luts.srgb(o2);
        self.rbuf.set(y, off, e0);
        self.rbuf.set(y, off + 1, e1);
        self.rbuf.set(y, off + 2, e2);
        self.rbuf.set(y, off + 3, 255);
        proof {
            assert(self.rbuf@ =~= old(self).buffer()@.update(
                y as int,
                old(self).composite_spec(row0, pixel as int, *fg, a_fg as int, cov[0] as int, cov[1] as int, cov[2] as int),
            ));
        }
    }

    /// The width in sub-pixels: three per pixel.
    pub fn width(&self) -> (w: u32)
        requires
            self.buffer().w() * 3 <= u32::MAX,
        ensures
            w == self.buffer().w() * 3,
    {
        self.rbuf.width() * 3
    }

    /// The height in rows.
    pub fn height(&self) -> (h: u32)
        ensures
            h == self.buffer().h(),
    {
        self.rbuf.height()
    }

    /// The colour of the pixel that holds sub-pixel `x` of row `y`;
    /// transparent black when `x` is outside the row.
    pub fn pixel(&self, x: i32, y: i32) -> (c: Rgba8)
        requires
            self.wf(),
            0 <= x && x / 3 < self.buffer().w() ==> 0 <= y < self.buffer().h(),
        ensures
            0 <= x && x / 3 < self.buffer().w() ==> c == pixel_at(self.buffer()@[y as int], self.buffer().w() as int, x as int),
            !(0 <= x && x / 3 < self.buffer().w()) ==> c == (Rgba8 { r: 0, g: 0, b: 0, a: 0 }),
    {
        let actual_w = self.actual_width() as usize;
        if x < 0 || x as usize / 3 >= actual_w {
            return Rgba8::new(0, 0, 0, 0);
        }
        let pixel = x as usize / 3;
        let off = pixel * BPP;
        let yy = y as u32;
        Rgba8::new(
            self.rbuf.get(yy, off) as u32,
            self.rbuf.get(yy, off + 1) as u32,
            self.rbuf.get(yy, off + 2) as u32,
            self.rbuf.get(yy, off + 3) as u32,
        )
    }

    /// Sets the pixel that holds sub-pixel `x` of row `y` to `c`, all four
    /// channels; nothing when `x` is outside the row.
    pub fn copy_pixel(&mut self, x: i32, y: i32, c: &Rgba8)
        requires
            old(self).wf(),
            0 <= x && x / 3 < old(self).buffer().w() ==> 0 <= y < old(self).buffer().h(),
        ensures
            final(self).keeps_setup(*old(self)),
            0 <= x && x / 3 < old(self).buffer().w() ==> final(self).buffer()@ == old(self).buffer()@.update(
                y as int,
                write_pixel(old(self).buffer()@[y as int], x / 3, *c),
            ),
            !(0 <= x && x / 3 < old(self).buffer().w()) ==> final(self).buffer()@ == old(self).buffer()@,
    {
        proof { self.rbuf.lemma_rows(); }
        let actual_w = self.actual_width() as usize;
        if x < 0 || x as usize / 3 >= actual_w {
            return;
        }
        let pixel = x as usize / 3;
        let off = pixel * BPP;
        let yy = y as u32;
        let ghost row0 = self.rbuf@[y as int];
        self.rbuf.set(yy, off, c.r);
        self.rbuf.set(yy, off + 1, c.g);
        self.rbuf.set(yy, off + 2, c.b);
        self.rbuf.set(yy, off + 3, c.a);
        proof {
            assert(self.rbuf@ =~= old(self).buffer()@.update(y as int, write_pixel(row0, x / 3, *c)));
        }
    }

    /// Sets `len` sub-pixels of row `y` from sub-pixel `x` to the matching
    /// channel of `c`, making each touched pixel opaque; stops at the end of
    /// the row.
    pub fn copy_hline(&mut self, x: i32, y: i32, len: u32, c: &Rgba8)
        requires
            old(self).wf(),
            0 <= y < old(self).buffer().h(),
        ensures
            final(self).keeps_setup(*old(self)),
            final(self).buffer()@ == old(self).buffer()@.update(
                y as int,
                copy_hline_row(old(self).buffer()@[y as int], old(self).buffer().w() as int, x as int, len as int, *c),
            ),
    {
        proof { self.rbuf.lemma_rows(); }
        let ghost rows0 = self.rbuf@;
        let ghost w = self.rbuf.w() as int;
        let actual_w = self.actual_width() as usize;
        let yy = y as u32;
        if x < 0 {
            return;
        }
        let xs = x as usize;
        let mut k: usize = 0;
        while k < len as usize
            invariant
                self.keeps_setup(*old(self)),
                self.rbuf.h() == rows0.len(),
                actual_w == w,
                w == old(self).buffer().w(),
                xs == x,
                0 <= yy < rows0.len(),
                rows0 == old(self).buffer()@,
                k <= run_count(x as int, len as int, w),
                self.rbuf@ == rows0.update(
                    yy as int,
                    blend_run(rows0[yy as int], x as int, k as nat, color_vals(*c, x as int), const_alpha(FULL_WEIGHT as int)),
                ),
            ensures
                k == run_count(x as int, len as int, w),
                self.rbuf@ == rows0.update(
                    yy as int,
                    blend_run(rows0[yy as int], x as int, k as nat, color_vals(*c, x as int), const_alpha(FULL_WEIGHT as int)),
                ),
            decreases len - k,
        {
            let sp = xs + k;
            let pixel = sp / 3;
            let channel = sp % 3;
            if pixel >= actual_w {
                break;
            }
            let v = if channel == 0 {
                c.r
            } else if channel == 1 {
                c.g
            } else {
                c.b
            };
            blend_stripe_into(&mut self.rbuf, yy, sp, v, FULL_WEIGHT);
            proof {
                assert(self.rbuf@ =~= rows0.update(
                    yy as int,
                    blend_run(rows0[yy as int], x as int, (k + 1) as nat, color_vals(*c, x as int), const_alpha(FULL_WEIGHT as int)),
                ));
            }
            k += 1;
        }
    }

    /// Blends colour `c` with coverage `cover` into sub-pixel `x` of row
    /// `y` by a linear-light composite of its pixel with that one stripe
    /// covered; nothing when `x` is outside the row.
    pub fn blend_pixel(&mut self, x: i32, y: i32, c: &Rgba8, cover: CoverType)
        requires
            old(self).wf(),
            0 <= x && x / 3 < old(self).buffer().w() ==> 0 <= y < old(self).buffer().h(),
        ensures
            final(self).keeps_setup(*old(self)),
            0 <= x && x / 3 < old(self).buffer().w() ==> final(self).buffer()@ == old(self).buffer()@.update(
                y as int,
                old(self).blend_pixel_row(old(self).buffer()@[y as int], x as int, *c, cover as int),
            ),
            !(0 <= x && x / 3 < old(self).buffer().w()) ==> final(self).buffer()@ == old(self).buffer()@,
    {
        if x < 0 {
            return;
        }
        let sp = x as usize;
        let pixel = sp / 3;
        let channel = sp % 3;
        let actual_w = self.actual_width() as usize;
        if pixel >= actual_w {
            return;
        }
        let mut cov = [0u32; 3];
        cov[channel] = cover as u32;
        self.composite_pixel(y as u32, pixel, c, c.a as u32, cov);
    }

    /// Blends colour `c` with coverage `cover` into `len` sub-pixels of row
    /// `y` from sub-pixel `x`, one linear-light composite per touched pixel
    /// with the stripes of the line covered; stops at the end of the row.
    pub fn blend_hline(&mut self, x: i32, y: i32, len: u32, c: &Rgba8, cover: CoverType)
        requires
            old(self).wf(),
            0 <= y < old(self).buffer().h(),
            x < 0 ==> len < -x,
            x >= 0 ==> x + len <= usize::MAX,
        ensures
            final(self).keeps_setup(*old(self)),
            final(self).buffer()@ == old(self).buffer()@.update(
                y as int,
                old(self).hline_row(old(self).buffer()@[y as int], old(self).buffer().w() as int, x as int, len as int, *c, cover as int),
            ),
    {
        proof { self.rbuf.lemma_rows(); }
        let ghost rows0 = self.rbuf@;
        let ghost w = self.rbuf.w() as int;
        let actual_w = self.actual_width() as usize;
        let yy = y as u32;
        if x < 0 {
            proof {
                assert(rows0.update(y as int, rows0[y as int]) =~= rows0);
            }
            return;
        }
        let xs = x as usize;
        let sp_end = xs + len as usize;
        let mut sp = xs;
        let mut k: usize = 0;
        let ghost steps = line_pixel_count(x as int, len as int, w);
        while sp < sp_end
            invariant
                self.keeps_setup(*old(self)),
                self.rbuf.h() == rows0.len(),
                self.rbuf.wf(),
                actual_w == w,
                w == old(self).buffer().w(),
                xs == x,
                sp_end == x + len,
                0 <= yy < rows0.len(),
                rows0 == old(self).buffer()@,
                steps == line_pixel_count(x as int, len as int, w),
                k <= steps,
                k == 0 ==> sp == xs,
                k > 0 ==> sp == 3 * (x / 3 + k),
                k > 0 ==> x / 3 + k <= w,
                self.rbuf@ == rows0.update(
                    yy as int,
                    old(self).composite_steps(rows0[yy as int], k as nat, line_pixels(x as int), const_color(*c), line_covs(x as int, len as int, cover as int), false),
                ),
            ensures
                k == steps,
                self.rbuf@ == rows0.update(
                    yy as int,
                    old(self).composite_steps(rows0[yy as int], k as nat, line_pixels(x as int), const_color(*c), line_covs(x as int, len as int, cover as int), false),
                ),
            decreases steps - k,
        {
            let pixel = sp / 3;
            if pixel >= actual_w {
                break;
            }
            proof {
                assert(pixel == x / 3 + k);
                assert(pixel <= (x + len - 1) / 3);
                assert(k < steps);
            }
            let mut cov = [0u32; 3];
            let mut ch: usize = 0;
            while ch < 3
                invariant
                    ch <= 3,
                    xs == x,
                    sp_end == x + len,
                    forall|j: int| 0 <= j < 3 ==> #[trigger] cov[j] == (if j < ch { line_covs(x as int, len as int, cover as int)(pixel - x / 3, j) } else { 0 }),
                    pixel == x / 3 + k,
                    pixel < w,
                    w * 4 <= usize::MAX,
                decreases 3 - ch,
            {
                let s = pixel * 3 + ch;
                if s >= xs && s < sp_end {
                    cov[ch] = cover as u32;
                }
                ch += 1;
            }
            self.composite_pixel(yy, pixel, c, c.a as u32, cov);
            proof {
                assert(self.rbuf@ =~= rows0.update(
                    yy as int,
                    old(self).composite_steps(rows0[yy as int], (k + 1) as nat, line_pixels(x as int), const_color(*c), line_covs(x as int, len as int, cover as int), false),
                ));
            }
            sp = (pixel + 1) * 3;
            k += 1;
        }
    }

    /// Blends `len` sub-pixels of row `y` from sub-pixel `x`, each by a
    /// linear-light composite of its pixel with its own colour `colors[k]`
    /// and coverage `covers[k]` (or `cover` when `covers` is empty) on its
    /// stripe only; stops at the end of the row.
    pub fn blend_color_hspan(
        &mut self,
        x: i32,
        y: i32,
        len: u32,
        colors: &[Rgba8],
        covers: &[CoverType],
        cover: CoverType,
    )
        requires
            old(self).wf(),
            0 <= y < old(self).buffer().h(),
            colors@.len() >= run_count(x as int, len as int, old(self).buffer().w() as int),
            covers@.len() == 0 || covers@.len() >= run_count(x as int, len as int, old(self).buffer().w() as int),
        ensures
            final(self).keeps_setup(*old(self)),
            final(self).buffer()@ == old(self).buffer()@.update(
                y as int,
                old(self).color_hspan_row(old(self).buffer()@[y as int], old(self).buffer().w() as int, x as int, len as int, colors@, covers@, cover),
            ),
    {
        proof { self.rbuf.lemma_rows(); }
        let ghost rows0 = self.rbuf@;
        let ghost w = self.rbuf.w() as int;
        let actual_w = self.actual_width() as usize;
        let yy = y as u32;
        if x < 0 {
            proof {
                assert(rows0.update(y as int, rows0[y as int]) =~= rows0);
            }
            return;
        }
        let xs = x as usize;
        let mut k: usize = 0;
        while k < len as usize
            invariant
                self.keeps_setup(*old(self)),
                self.rbuf.h() == rows0.len(),
                actual_w == w,
                w == old(self).buffer().w(),
                xs == x,
                0 <= yy < rows0.len(),
                rows0 == old(self).buffer()@,
                colors@.len() >= run_count(x as int, len as int, w),
                covers@.len() == 0 || covers@.len() >= run_count(x as int, len as int, w),
                k <= run_count(x as int, len as int, w),
                self.rbuf@ == rows0.update(
                    yy as int,
                    old(self).composite_steps(rows0[yy as int], k as nat, stripe_pixels(x as int), run_colors(colors@), run_covs(x as int, covers@, cover), false),
                ),
            ensures
                k == run_count(x as int, len as int, w),
                self.rbuf@ == rows0.update(
                    yy as int,
                    old(self).composite_steps(rows0[yy as int], k as nat, stripe_pixels(x as int), run_colors(colors@), run_covs(x as int, covers@, cover), false),
                ),
            decreases len - k,
        {
            let sp = xs + k;
            let pixel = sp / 3;
            let channel = sp % 3;
            if pixel >= actual_w {
                break;
            }
            let col = &colors[k];
            let cov = if covers.len() == 0 {
                cover
            } else {
                covers[k]
            };
            let mut c3 = [0u32; 3];
            c3[channel] = cov as u32;
            self.composite_pixel(yy, pixel, col, col.a as u32, c3);
            proof {
                assert(self.rbuf@ =~= rows0.update(
                    yy as int,
                    old(self).composite_steps(rows0[yy as int], (k + 1) as nat, stripe_pixels(x as int), run_colors(colors@), run_covs(x as int, covers@, cover), false),
                ));
            }
            k += 1;
        }
    }

    /// Blends a span of `len` covers of colour `c` at sub-pixel `x` of row
    /// `y`: the five-tap distribution of the covers over the `len + 4`
    /// sub-pixels from `x - 2`, as for [`crate::lcd::PixfmtRgba32Lcd`], then
    /// one linear-light composite per pixel of the span that lies in the row,
    /// with the distributed values of its stripes as coverages; pixels whose
    /// stripes all got nothing are left alone.
    pub fn blend_solid_hspan(&mut self, x: i32, y: i32, len: u32, c: &Rgba8, covers: &[CoverType])
        requires
            old(self).wf(),
            0 <= y < old(self).buffer().h(),
            covers@.len() >= len,
            len + 4 <= usize::MAX,
        ensures
            final(self).keeps_setup(*old(self)),
            final(self).buffer()@ == old(self).buffer()@.update(
                y as int,
                old(self).composite_steps(
                    old(self).buffer()@[y as int],
                    span_pixel_count(x - 2, x - 2 + len + 4, old(self).buffer().w() as int),
                    span_pixels(x - 2),
                    const_color(*c),
                    span_covs(old(self).distribution(), covers@, len as int, x - 2),
                    true,
                ),
            ),
            final(self).buffer()@ == old(self).span_rows(x as int, y as int, len as int, covers@, *c),
    {
        proof { self.rbuf.lemma_rows(); }
        let ghost rows0 = self.rbuf@;
        let ghost w = self.rbuf.w() as int;
        let ghost lut = *self.lut;
        let len = len as usize;
        let dist_len = len + 4;
        // The scratch buffer is moved out so the body can borrow the rest of
        // `self`, and handed back before returning.
        let mut c3: Vec<u8> = Vec::new();
        std::mem::swap(&mut c3, &mut self.c3);
        distribute_covers(self.lut, covers, len, &mut c3);

        let sp_first: i64 = x as i64 - 2;
        let sp_last: i64 = sp_first + dist_len as i64;
        let actual_w = self.actual_width() as usize;
        let yy = y as u32;
        let first_pixel = ((if sp_first < 0 { 0 } else { sp_first }) / 3) as usize;
        let last_pixel = ((if sp_last - 1 < 0 { 0 } else { sp_last - 1 }) / 3) as usize;
        let a_fg = c.a as u32;
        let ghost steps = span_pixel_count(sp_first as int, sp_last as int, w);
        let ghost covs = span_covs(lut, covers@, len as int, sp_first as int);
        let mut pixel = first_pixel;
        let mut k: usize = 0;
        while pixel <= last_pixel
            invariant
                self.keeps_setup(*old(self)),
                self.rbuf.h() == rows0.len(),
                *self.lut == lut,
                lut == old(self).distribution(),
                actual_w == w,
                w == old(self).buffer().w(),
                0 <= yy < rows0.len(),
                rows0 == old(self).buffer()@,
                sp_first == x - 2,
                sp_last == sp_first + len + 4,
                first_pixel == span_first_pixel(sp_first as int),
                last_pixel == span_last_pixel(sp_last as int),
                dist_len == len + 4,
                c3@.len() == dist_len,
                forall|j: int| 0 <= j < dist_len ==> #[trigger] c3@[j] == solid_cover(lut, covers@, len as int, j),
                a_fg == c.a,
                steps == span_pixel_count(sp_first as int, sp_last as int, w),
                covs == span_covs(lut, covers@, len as int, sp_first as int),
                pixel == first_pixel + k,
                k <= steps,
                self.rbuf@ == rows0.update(
                    yy as int,
                    old(self).composite_steps(rows0[yy as int], k as nat, span_pixels(sp_first as int), const_color(*c), covs, true),
                ),
            ensures
                k == steps,
                self.rbuf@ == rows0.update(
                    yy as int,
                    old(self).composite_steps(rows0[yy as int], k as nat, span_pixels(sp_first as int), const_color(*c), covs, true),
                ),
            decreases steps - k,
        {
            if pixel >= actual_w {
                break;
            }
            let mut cov = [0u32; 3];
            let mut any = false;
            let mut ch: usize = 0;
            while ch < 3
                invariant
                    ch <= 3,
                    pixel < w,
                    w * 4 <= usize::MAX,
                    w <= u32::MAX,
                    pixel == first_pixel + k,
                    first_pixel == span_first_pixel(sp_first as int),
                    sp_first == x - 2,
                    sp_last == sp_first + len + 4,
                    dist_len == len + 4,
                    c3@.len() == dist_len,
                    forall|j: int| 0 <= j < dist_len ==> #[trigger] c3@[j] == solid_cover(lut, covers@, len as int, j),
                    covs == span_covs(lut, covers@, len as int, sp_first as int),
                    forall|j: int| 0 <= j < 3 ==> #[trigger] cov[j] == (if j < ch { covs(k as int, j) } else { 0 }),
                    forall|j: int| 0 <= j < 3 ==> #[trigger] cov[j] <= 255,
                    any == ((ch > 0 && covs(k as int, 0) != 0) || (ch > 1 && covs(k as int, 1) != 0) || (ch > 2 && covs(k as int, 2) != 0)),
                decreases 3 - ch,
            {
                let sp = (pixel * 3 + ch) as i64;
                if sp >= sp_first && sp < sp_last {
                    let v = c3[(sp - sp_first) as usize];
                    cov[ch] = v as u32;
                    any = any || v != 0;
                }
                proof {
                    assert(covs(k as int, ch as int) == cov[ch as int]);
                }
                ch += 1;
            }
            if any {
                self.composite_pixel(yy, pixel, c, a_fg, cov);
            }
            proof {
                if !any {
                    assert(covs(k as int, 0) == 0 && covs(k as int, 1) == 0 && covs(k as int, 2) == 0);
                } else {
                    assert(!(covs(k as int, 0) == 0 && covs(k as int, 1) == 0 && covs(k as int, 2) == 0));
                }
                assert(self.rbuf@ =~= rows0.update(
                    yy as int,
                    old(self).composite_steps(rows0[yy as int], (k + 1) as nat, span_pixels(sp_first as int), const_color(*c), covs, true),
                ));
            }
            pixel += 1;
            k += 1;
        }
        self.c3 = c3;
    }
}

} // verus!

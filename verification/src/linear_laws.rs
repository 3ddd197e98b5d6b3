//! What a linear-light composite does, in terms of its inputs: the weight
//! of each stripe, the level it mixes to, how the chroma limit pulls it,
//! and which bytes it leaves alone.

use vstd::prelude::*;
use crate::color::Rgba8;
use crate::lcd_linear::{
    boost_spec, composite_row, const_color, lemma_boost_endpoints_monotone, line_covs, line_pixel_count, line_pixels,
    run_covs, run_colors, span_covs, span_pixel_count, span_pixels, stripe_pixels, tone_curve_ok, LcdBlendParams, PixfmtRgba32LcdLinear,
};
use crate::stripes::run_count;
use vstd::arithmetic::div_mod::lemma_fundamental_div_mod;
use crate::srgb::{lemma_standard_round_trip, SrgbLuts, LINEAR_MAX};

verus! {

/// The level a stripe of weight `w` (out of 255) mixes to between the
/// linear levels `fl` of the colour and `bl` of the background, pulled by
/// the chroma limit `k` towards the level at the mean weight `m`.
proof fn lemma_level_bounds(fl: int, bl: int, w: int, m: int, k: int)
    requires
        0 <= fl <= 65535,
        0 <= bl <= 65535,
        0 <= w <= 255,
        0 <= m <= 255,
        0 <= k <= 255,
    ensures
        0 <= (fl * w + bl * (255 - w)) / 255 <= 65535,
        0 <= (fl * m + bl * (255 - m)) / 255 <= 65535,
{
    assert(0 <= fl * w + bl * (255 - w) <= 65535 * 255) by (nonlinear_arith)
        requires 0 <= fl <= 65535, 0 <= bl <= 65535, 0 <= w <= 255;
    assert(0 <= fl * m + bl * (255 - m) <= 65535 * 255) by (nonlinear_arith)
        requires 0 <= fl <= 65535, 0 <= bl <= 65535, 0 <= m <= 255;
}

/// One channel of a linear-light composite of colour `fg` with run alpha
/// `a_fg` over pixel `p` of `row`, the channel coverages `cov0..cov2`:
/// - each stripe weighs its boosted coverage times `a_fg / 255`;
/// - when no stripe weighs anything, the row is unchanged;
/// - otherwise channel `ch` becomes the code of the level
///   `out = (lin(fg) * w + lin(bg) * (255 - w)) / 255` of its own weight `w`,
///   moved by `chroma_limit / 255` of the way (rounding towards `out`) to the
///   level `gray` of the mean weight, levels above `LINEAR_MAX` taken as
///   `LINEAR_MAX`; the alpha becomes opaque and no other byte changes.
pub proof fn lemma_composite_channel(
    luts: SrgbLuts,
    tone: Seq<u8>,
    params: LcdBlendParams,
    row: Seq<u8>,
    p: int,
    fg: Rgba8,
    a_fg: int,
    cov0: int,
    cov1: int,
    cov2: int,
    ch: int,
)
    requires
        luts.wf(),
        tone.len() == 256,
        0 <= a_fg <= 255,
        0 <= cov0 <= 255,
        0 <= cov1 <= 255,
        0 <= cov2 <= 255,
        0 <= p,
        p * 4 + 3 < row.len(),
        0 <= ch < 3,
    ensures
        ({
            let res = composite_row(luts, tone, params, row, p, fg, a_fg, cov0, cov1, cov2);
            let k = params.contrast as int;
            let w0 = boost_spec(tone, k, cov0) * a_fg / 255;
            let w1 = boost_spec(tone, k, cov1) * a_fg / 255;
            let w2 = boost_spec(tone, k, cov2) * a_fg / 255;
            let w = if ch == 0 { w0 } else if ch == 1 { w1 } else { w2 };
            let m = (w0 + w1 + w2) / 3;
            let fl = luts.linear_table()[fg.channel_spec(ch) as int] as int;
            let bl = luts.linear_table()[row[p * 4 + ch] as int] as int;
            let out = (fl * w + bl * (255 - w)) / 255;
            let gray = (fl * m + bl * (255 - m)) / 255;
            let lim = params.chroma_limit as int;
            let level = if lim == 0 {
                out
            } else if out <= gray {
                out + (lim * (gray - out)) / 255
            } else {
                out - (lim * (out - gray)) / 255
            };
            &&& res.len() == row.len()
            &&& (w0 == 0 && w1 == 0 && w2 == 0) ==> res == row
            &&& !(w0 == 0 && w1 == 0 && w2 == 0) ==> {
                &&& res[p * 4 + ch] == luts.srgb_table()[if level < LINEAR_MAX { level } else { LINEAR_MAX as int }]
                &&& res[p * 4 + 3] == 255
            }
            &&& forall|o: int| 0 <= o < row.len() && o / 4 != p ==> #[trigger] res[o] == row[o]
        }),
{
    let k = params.contrast as int;
    let off = p * 4;
    assert forall|c: int| 0 <= c <= 255 implies 0 <= #[trigger] boost_spec(tone, k, c) <= 255 by {
        let t = tone[c] as int;
        assert(0 <= k * t * (255 - t)) by (nonlinear_arith)
            requires 0 <= k, 0 <= t <= 255;
    }
    let b0 = boost_spec(tone, k, cov0);
    let b1 = boost_spec(tone, k, cov1);
    let b2 = boost_spec(tone, k, cov2);
    assert(0 <= b0 * a_fg <= 255 * 255 && 0 <= b1 * a_fg <= 255 * 255 && 0 <= b2 * a_fg <= 255 * 255) by (nonlinear_arith)
        requires 0 <= b0 <= 255, 0 <= b1 <= 255, 0 <= b2 <= 255, 0 <= a_fg <= 255;
    let lin = luts.linear_table();
    let w0 = b0 * a_fg / 255;
    let w1 = b1 * a_fg / 255;
    let w2 = b2 * a_fg / 255;
    let m = (w0 + w1 + w2) / 3;
    lemma_level_bounds(lin[fg.r as int] as int, lin[row[off] as int] as int, w0, m, params.chroma_limit as int);
    lemma_level_bounds(lin[fg.g as int] as int, lin[row[off + 1] as int] as int, w1, m, params.chroma_limit as int);
    lemma_level_bounds(lin[fg.b as int] as int, lin[row[off + 2] as int] as int, w2, m, params.chroma_limit as int);
    let lim = params.chroma_limit as int;
    assert forall|o: int, g: int| 0 <= o && 0 <= g && g < o implies #[trigger] (lim * (g - o)) == -(lim * (o - g)) by {
        assert(lim * (g - o) == -(lim * (o - g))) by (nonlinear_arith);
    }
}

/// A colour with alpha 0 leaves the row unchanged, whatever its coverage.
pub proof fn lemma_zero_alpha_unchanged(
    luts: SrgbLuts,
    tone: Seq<u8>,
    params: LcdBlendParams,
    row: Seq<u8>,
    p: int,
    fg: Rgba8,
    cov0: int,
    cov1: int,
    cov2: int,
)
    requires
        luts.wf(),
        tone.len() == 256,
        0 <= cov0 <= 255,
        0 <= cov1 <= 255,
        0 <= cov2 <= 255,
        0 <= p,
        p * 4 + 3 < row.len(),
    ensures
        composite_row(luts, tone, params, row, p, fg, 0, cov0, cov1, cov2) == row,
{
    lemma_composite_channel(luts, tone, params, row, p, fg, 0, cov0, cov1, cov2, 0);
}

/// Without a chroma limit, a fully covered stripe of a colour with alpha
/// `a` (not 0) weighs exactly `a`: it becomes the code of
/// `(lin(fg) * a + lin(bg) * (255 - a)) / 255`. In particular full cover of
/// white at alpha `a` over black gives the linear level `8160 * a / 255`.
pub proof fn lemma_full_cover_weighs_alpha(
    luts: SrgbLuts,
    tone: Seq<u8>,
    params: LcdBlendParams,
    row: Seq<u8>,
    p: int,
    fg: Rgba8,
    a: int,
    cov0: int,
    cov1: int,
    cov2: int,
    ch: int,
)
    requires
        luts.is_standard(),
        tone_curve_ok(tone),
        params.chroma_limit == 0,
        0 < a <= 255,
        0 <= cov0 <= 255,
        0 <= cov1 <= 255,
        0 <= cov2 <= 255,
        0 <= ch < 3,
        (if ch == 0 { cov0 } else if ch == 1 { cov1 } else { cov2 }) == 255,
        0 <= p,
        p * 4 + 3 < row.len(),
    ensures
        ({
            let fl = luts.linear_table()[fg.channel_spec(ch) as int] as int;
            let bl = luts.linear_table()[row[p * 4 + ch] as int] as int;
            composite_row(luts, tone, params, row, p, fg, a, cov0, cov1, cov2)[p * 4 + ch]
                == luts.srgb_table()[(fl * a + bl * (255 - a)) / 255]
        }),
        fg.channel_spec(ch) == 255 && row[p * 4 + ch] == 0 ==> composite_row(luts, tone, params, row, p, fg, a, cov0, cov1, cov2)[p * 4 + ch]
            == luts.srgb_table()[8160 * a / 255],
{
    let k = params.contrast as int;
    lemma_boost_endpoints_monotone(tone, k, 0, 255);
    assert(255 * a / 255 == a);
    lemma_composite_channel(luts, tone, params, row, p, fg, a, cov0, cov1, cov2, ch);
    let fl = luts.linear_table()[fg.channel_spec(ch) as int] as int;
    let bl = luts.linear_table()[row[p * 4 + ch] as int] as int;
    lemma_standard_round_trip(luts, fg.channel_spec(ch));
    lemma_standard_round_trip(luts, row[p * 4 + ch]);
    crate::srgb::lemma_linear_levels();
    lemma_level_bounds(fl, bl, a, 0, 0);
    if fg.channel_spec(ch) == 255 && row[p * 4 + ch] == 0 {
        assert(fl == 8160);
        assert(bl == 0);
        assert(fl * a + bl * (255 - a) == 8160 * a) by (nonlinear_arith)
            requires fl == 8160, bl == 0;
    }
    assert((fl * a + bl * (255 - a)) / 255 <= LINEAR_MAX) by {
        assert(fl * a + bl * (255 - a) <= 8160 * 255) by (nonlinear_arith)
            requires 0 <= fl <= 8160, 0 <= bl <= 8160, 0 < a <= 255;
    }
}

/// A non-zero chroma limit `lim` moves a stripe's level from its own mix
/// `out` towards the mean-weight mix `gray` by `lim / 255` of the gap,
/// rounding towards `out`: the level stays between them, and it moves
/// whenever `lim` times the gap reaches 255.
pub proof fn lemma_chroma_pull(out: int, gray: int, lim: int)
    requires
        1 <= lim <= 255,
    ensures
        ({
            let level = if out <= gray {
                out + (lim * (gray - out)) / 255
            } else {
                out - (lim * (out - gray)) / 255
            };
            let gap = if out <= gray { gray - out } else { out - gray };
            let moved = if out <= gray { level - out } else { out - level };
            &&& (out <= gray ==> out <= level <= gray)
            &&& (gray <= out ==> gray <= level <= out)
            &&& moved * 255 <= lim * gap < (moved + 1) * 255
            &&& lim * gap >= 255 ==> level != out
            &&& lim == 255 ==> level == gray
        }),
{
    let gap = if out <= gray { gray - out } else { out - gray };
    assert(0 <= lim * gap <= 255 * gap) by (nonlinear_arith)
        requires 1 <= lim <= 255, 0 <= gap;
}

/// Without a chroma limit, a composite leaves a colour byte alone when its
/// stripe has no coverage: mixing at weight 0 gives the background's own
/// level, which the sRGB tables encode back to the same code.
proof fn lemma_composite_keeps_uncovered(
    luts: SrgbLuts,
    tone: Seq<u8>,
    params: LcdBlendParams,
    row: Seq<u8>,
    p: int,
    fg: Rgba8,
    a_fg: int,
    cov0: int,
    cov1: int,
    cov2: int,
    o: int,
)
    requires
        luts.is_standard(),
        tone_curve_ok(tone),
        params.chroma_limit == 0,
        0 <= a_fg <= 255,
        0 <= cov0 <= 255,
        0 <= cov1 <= 255,
        0 <= cov2 <= 255,
        0 <= p,
        p * 4 + 3 < row.len(),
        0 <= o < row.len(),
        o % 4 < 3,
        o / 4 == p ==> (if o % 4 == 0 { cov0 } else if o % 4 == 1 { cov1 } else { cov2 }) == 0,
    ensures
        composite_row(luts, tone, params, row, p, fg, a_fg, cov0, cov1, cov2).len() == row.len(),
        composite_row(luts, tone, params, row, p, fg, a_fg, cov0, cov1, cov2)[o] == row[o],
{
    lemma_composite_channel(luts, tone, params, row, p, fg, a_fg, cov0, cov1, cov2, 0);
    if o / 4 == p {
        let ch = o % 4;
        lemma_composite_channel(luts, tone, params, row, p, fg, a_fg, cov0, cov1, cov2, ch);
        lemma_boost_endpoints_monotone(tone, params.contrast as int, 0, 0);
        assert(0 * a_fg == 0);
        let bl = luts.linear_table()[row[p * 4 + ch] as int] as int;
        lemma_standard_round_trip(luts, row[p * 4 + ch]);
        assert(o == p * 4 + ch);
        assert((0 * 0 + bl * 255) / 255 == bl) by (nonlinear_arith);
    }
}

/// Without a chroma limit, a series of composites leaves a colour byte
/// alone when no composite on its pixel covers its stripe.
pub proof fn lemma_steps_keep_uncovered(
    pf: PixfmtRgba32LcdLinear,
    row: Seq<u8>,
    count: nat,
    pixels: spec_fn(int) -> int,
    fgs: spec_fn(int) -> Rgba8,
    covs: spec_fn(int, int) -> int,
    gate: bool,
    o: int,
)
    requires
        pf.srgb_luts().is_standard(),
        tone_curve_ok(pf.tone_table()),
        pf.blend_params().chroma_limit == 0,
        0 <= o < row.len(),
        o % 4 < 3,
        forall|k: int| 0 <= k < count ==> 0 <= #[trigger] pixels(k) && pixels(k) * 4 + 3 < row.len(),
        forall|k: int, ch: int| 0 <= k < count && 0 <= ch < 3 ==> 0 <= #[trigger] covs(k, ch) <= 255,
        forall|k: int| 0 <= k < count && #[trigger] pixels(k) == o / 4 ==> covs(k, o % 4) == 0,
    ensures
        pf.composite_steps(row, count, pixels, fgs, covs, gate).len() == row.len(),
        pf.composite_steps(row, count, pixels, fgs, covs, gate)[o] == row[o],
    decreases count,
{
    if count > 0 {
        let k = count - 1;
        lemma_steps_keep_uncovered(pf, row, k as nat, pixels, fgs, covs, gate, o);
        let prev = pf.composite_steps(row, k as nat, pixels, fgs, covs, gate);
        assert(0 <= pixels(k) && pixels(k) * 4 + 3 < row.len());
        assert(0 <= covs(k, 0) <= 255 && 0 <= covs(k, 1) <= 255 && 0 <= covs(k, 2) <= 255);
        if pixels(k) == o / 4 {
            assert(covs(k, o % 4) == 0);
        }
        lemma_composite_keeps_uncovered(
            pf.srgb_luts(),
            pf.tone_table(),
            pf.blend_params(),
            prev,
            pixels(k),
            fgs(k),
            fgs(k).a as int,
            covs(k, 0),
            covs(k, 1),
            covs(k, 2),
            o,
        );
    }
}

/// Without a chroma limit, a linear-light line of `len` sub-pixels from `x`
/// leaves every colour byte of a sub-pixel outside `x .. x + len` with its
/// old code: only stripes inside the line get the cover.
pub proof fn lemma_hline_keeps_outside(
    pf: PixfmtRgba32LcdLinear,
    row: Seq<u8>,
    w: int,
    x: int,
    len: int,
    cover: int,
    c: Rgba8,
    o: int,
)
    requires
        pf.srgb_luts().is_standard(),
        tone_curve_ok(pf.tone_table()),
        pf.blend_params().chroma_limit == 0,
        row.len() == 4 * w,
        0 <= x,
        0 <= cover <= 255,
        0 <= o < row.len(),
        o % 4 < 3,
        !(x <= 3 * (o / 4) + o % 4 < x + len),
    ensures
        pf.hline_row(row, w, x, len, c, cover)[o] == row[o],
{
    let n = line_pixel_count(x, len, w);
    assert forall|k: int| 0 <= k < n implies 0 <= #[trigger] line_pixels(x)(k) && line_pixels(x)(k) * 4 + 3 < row.len() by {}
    assert forall|k: int, ch: int| 0 <= k < n && 0 <= ch < 3 implies 0 <= #[trigger] line_covs(x, len, cover)(k, ch) <= 255 by {}
    assert forall|k: int| 0 <= k < n && #[trigger] line_pixels(x)(k) == o / 4 implies line_covs(x, len, cover)(k, o % 4) == 0 by {}
    lemma_steps_keep_uncovered(pf, row, n, line_pixels(x), const_color(c), line_covs(x, len, cover), false, o);
}

/// Without a chroma limit, a linear-light run of own colours leaves the
/// colour bytes of every sub-pixel outside the run with their old codes:
/// each composite covers only its own stripe.
pub proof fn lemma_color_hspan_keeps_outside(
    pf: PixfmtRgba32LcdLinear,
    row: Seq<u8>,
    w: int,
    x: int,
    len: int,
    colors: Seq<Rgba8>,
    covers: Seq<u8>,
    cover: u8,
    o: int,
)
    requires
        pf.srgb_luts().is_standard(),
        tone_curve_ok(pf.tone_table()),
        pf.blend_params().chroma_limit == 0,
        row.len() == 4 * w,
        0 <= x,
        0 <= o < row.len(),
        o % 4 < 3,
        !(x <= 3 * (o / 4) + o % 4 < x + len),
    ensures
        pf.color_hspan_row(row, w, x, len, colors, covers, cover)[o] == row[o],
{
    let n = run_count(x, len, w);
    assert forall|k: int| 0 <= k < n implies 0 <= #[trigger] stripe_pixels(x)(k) && stripe_pixels(x)(k) * 4 + 3 < row.len() by {}
    assert forall|k: int, ch: int| 0 <= k < n && 0 <= ch < 3 implies 0 <= #[trigger] run_covs(x, covers, cover)(k, ch) <= 255 by {}
    assert forall|k: int| 0 <= k < n && #[trigger] stripe_pixels(x)(k) == o / 4 implies run_covs(x, covers, cover)(k, o % 4) == 0 by {}
    lemma_steps_keep_uncovered(pf, row, n, stripe_pixels(x), run_colors(colors), run_covs(x, covers, cover), false, o);
}

/// Without a chroma limit, a linear-light span of `len` covers at
/// sub-pixel `x` leaves the colour bytes of every sub-pixel outside
/// `x - 2 .. x + len + 2` with their old codes.
pub proof fn lemma_span_keeps_outside(
    pf: PixfmtRgba32LcdLinear,
    x: int,
    y: int,
    len: int,
    covers: Seq<u8>,
    c: Rgba8,
    o: int,
)
    requires
        pf.wf(),
        pf.srgb_luts().is_standard(),
        pf.blend_params().chroma_limit == 0,
        0 <= y < pf.buffer().h(),
        0 <= len,
        0 <= o < pf.buffer().w() * 4,
        o % 4 < 3,
        !(x - 2 <= 3 * (o / 4) + o % 4 < x + len + 2),
    ensures
        pf.span_rows(x, y, len, covers, c)[y][o] == pf.buffer()@[y][o],
{
    pf.buffer().lemma_rows();
    let row = pf.buffer()@[y];
    let w = pf.buffer().w() as int;
    let lut = pf.distribution();
    let first = x - 2;
    let n = span_pixel_count(first, first + len + 4, w);
    let covs = span_covs(lut, covers, len, first);
    assert forall|k: int| 0 <= k < n implies 0 <= #[trigger] span_pixels(first)(k) && span_pixels(first)(k) * 4 + 3 < row.len() by {}
    assert forall|k: int, ch: int| 0 <= k < n && 0 <= ch < 3 implies 0 <= #[trigger] covs(k, ch) <= 255 by {}
    assert forall|k: int| 0 <= k < n && #[trigger] span_pixels(first)(k) == o / 4 implies covs(k, o % 4) == 0 by {}
    lemma_steps_keep_uncovered(pf, row, n, span_pixels(first), const_color(c), covs, true, o);
}

/// A linear-light blend of colour `c` with coverage `cover` into sub-pixel
/// `x`: with alpha 0 it changes nothing; without a chroma limit it leaves
/// the other two colour bytes of the pixel alone, and at full cover the
/// stripe becomes the code of `(lin(c) * c.a + lin(bg) * (255 - c.a)) / 255`.
pub proof fn lemma_blend_pixel_effect(pf: PixfmtRgba32LcdLinear, row: Seq<u8>, x: int, c: Rgba8, cover: int, o: int)
    requires
        pf.wf(),
        0 <= x,
        x / 3 * 4 + 3 < row.len(),
        0 <= cover <= 255,
        0 <= o < row.len(),
    ensures
        c.a == 0 ==> pf.blend_pixel_row(row, x, c, cover) == row,
        pf.srgb_luts().is_standard() && pf.blend_params().chroma_limit == 0 && o % 4 < 3 && o != x / 3 * 4 + x % 3
            ==> pf.blend_pixel_row(row, x, c, cover)[o] == row[o],
        pf.srgb_luts().is_standard() && pf.blend_params().chroma_limit == 0 && cover == 255 && c.a > 0 ==> ({
            let fl = pf.srgb_luts().linear_table()[c.channel_spec(x % 3) as int] as int;
            let bl = pf.srgb_luts().linear_table()[row[x / 3 * 4 + x % 3] as int] as int;
            pf.blend_pixel_row(row, x, c, cover)[x / 3 * 4 + x % 3] == pf.srgb_luts().srgb_table()[(fl * c.a + bl * (255
                - c.a)) / 255]
        }),
{
    let p = x / 3;
    let ch = x % 3;
    let cv0 = if ch == 0 { cover } else { 0 };
    let cv1 = if ch == 1 { cover } else { 0 };
    let cv2 = if ch == 2 { cover } else { 0 };
    assert(pf.blend_pixel_row(row, x, c, cover) == composite_row(
        pf.srgb_luts(),
        pf.tone_table(),
        pf.blend_params(),
        row,
        p,
        c,
        c.a as int,
        cv0,
        cv1,
        cv2,
    ));
    if c.a == 0 {
        lemma_zero_alpha_unchanged(pf.srgb_luts(), pf.tone_table(), pf.blend_params(), row, p, c, cv0, cv1, cv2);
    }
    if pf.srgb_luts().is_standard() && pf.blend_params().chroma_limit == 0 {
        if o % 4 < 3 && o != p * 4 + ch {
            lemma_composite_keeps_uncovered(
                pf.srgb_luts(),
                pf.tone_table(),
                pf.blend_params(),
                row,
                p,
                c,
                c.a as int,
                cv0,
                cv1,
                cv2,
                o,
            );
        }
        if cover == 255 && c.a > 0 {
            lemma_full_cover_weighs_alpha(
                pf.srgb_luts(),
                pf.tone_table(),
                pf.blend_params(),
                row,
                p,
                c,
                c.a as int,
                cv0,
                cv1,
                cv2,
                ch,
            );
        }
    }
}

/// A series of composites on distinct pixels composites each visited pixel
/// once, from the bytes it had before the series.
pub proof fn lemma_steps_distinct_pixels(
    pf: PixfmtRgba32LcdLinear,
    row: Seq<u8>,
    count: nat,
    pixels: spec_fn(int) -> int,
    fgs: spec_fn(int) -> Rgba8,
    covs: spec_fn(int, int) -> int,
    gate: bool,
    k: int,
    o: int,
)
    requires
        pf.srgb_luts().wf(),
        pf.tone_table().len() == 256,
        forall|j: int| 0 <= j < count ==> 0 <= #[trigger] pixels(j) && pixels(j) * 4 + 3 < row.len(),
        forall|j: int, ch: int| 0 <= j < count && 0 <= ch < 3 ==> 0 <= #[trigger] covs(j, ch) <= 255,
        forall|i: int, j: int| 0 <= i < j < count ==> #[trigger] pixels(i) != #[trigger] pixels(j),
        0 <= k < count,
        0 <= o < row.len(),
        o / 4 == pixels(k),
    ensures
        pf.composite_steps(row, count, pixels, fgs, covs, gate)[o] == (if gate && covs(k, 0) == 0 && covs(k, 1) == 0
            && covs(k, 2) == 0 {
            row[o]
        } else {
            pf.composite_spec(row, pixels(k), fgs(k), fgs(k).a as int, covs(k, 0), covs(k, 1), covs(k, 2))[o]
        }),
    decreases count,
{
    let j = count - 1;
    let prev = pf.composite_steps(row, j as nat, pixels, fgs, covs, gate);
    lemma_steps_len(pf, row, j as nat, pixels, fgs, covs, gate);
    if k < j {
        lemma_steps_distinct_pixels(pf, row, j as nat, pixels, fgs, covs, gate, k, o);
        assert(pixels(k) != pixels(j));
        lemma_composite_channel(pf.srgb_luts(), pf.tone_table(), pf.blend_params(), prev, pixels(j), fgs(j), fgs(j).a as int, covs(j, 0), covs(j, 1), covs(j, 2), 0);
    } else {
        let p = pixels(k);
        assert forall|i: int| p * 4 <= i < p * 4 + 4 implies prev[i] == row[i] by {
            assert forall|jj: int| 0 <= jj < j implies #[trigger] pixels(jj) != i / 4 by {
                assert(pixels(jj) != pixels(j));
            }
            lemma_steps_frame(pf, row, j as nat, pixels, fgs, covs, gate, i);
        }
        lemma_composite_channel(pf.srgb_luts(), pf.tone_table(), pf.blend_params(), prev, pixels(k), fgs(k), fgs(k).a as int, covs(k, 0), covs(k, 1), covs(k, 2), 0);
        lemma_composite_channel(pf.srgb_luts(), pf.tone_table(), pf.blend_params(), row, pixels(k), fgs(k), fgs(k).a as int, covs(k, 0), covs(k, 1), covs(k, 2), 0);
        lemma_composite_same_pixel(pf, prev, row, pixels(k), fgs(k), covs(k, 0), covs(k, 1), covs(k, 2), o);
    }
}

/// A series of composites keeps the row's length.
proof fn lemma_steps_len(
    pf: PixfmtRgba32LcdLinear,
    row: Seq<u8>,
    count: nat,
    pixels: spec_fn(int) -> int,
    fgs: spec_fn(int) -> Rgba8,
    covs: spec_fn(int, int) -> int,
    gate: bool,
)
    requires
        pf.srgb_luts().wf(),
        pf.tone_table().len() == 256,
        forall|j: int| 0 <= j < count ==> 0 <= #[trigger] pixels(j) && pixels(j) * 4 + 3 < row.len(),
        forall|j: int, ch: int| 0 <= j < count && 0 <= ch < 3 ==> 0 <= #[trigger] covs(j, ch) <= 255,
    ensures
        pf.composite_steps(row, count, pixels, fgs, covs, gate).len() == row.len(),
    decreases count,
{
    if count > 0 {
        let j = count - 1;
        lemma_steps_len(pf, row, j as nat, pixels, fgs, covs, gate);
        let prev = pf.composite_steps(row, j as nat, pixels, fgs, covs, gate);
        assert(0 <= pixels(j) && pixels(j) * 4 + 3 < row.len());
        assert(0 <= covs(j, 0) <= 255 && 0 <= covs(j, 1) <= 255 && 0 <= covs(j, 2) <= 255);
        lemma_composite_channel(pf.srgb_luts(), pf.tone_table(), pf.blend_params(), prev, pixels(j), fgs(j), fgs(j).a as int, covs(j, 0), covs(j, 1), covs(j, 2), 0);
    }
}

/// Bytes of a pixel that no composite of a series visits keep their value.
proof fn lemma_steps_frame(
    pf: PixfmtRgba32LcdLinear,
    row: Seq<u8>,
    count: nat,
    pixels: spec_fn(int) -> int,
    fgs: spec_fn(int) -> Rgba8,
    covs: spec_fn(int, int) -> int,
    gate: bool,
    o: int,
)
    requires
        pf.srgb_luts().wf(),
        pf.tone_table().len() == 256,
        forall|j: int| 0 <= j < count ==> 0 <= #[trigger] pixels(j) && pixels(j) * 4 + 3 < row.len(),
        forall|j: int, ch: int| 0 <= j < count && 0 <= ch < 3 ==> 0 <= #[trigger] covs(j, ch) <= 255,
        forall|j: int| 0 <= j < count ==> #[trigger] pixels(j) != o / 4,
        0 <= o < row.len(),
    ensures
        pf.composite_steps(row, count, pixels, fgs, covs, gate)[o] == row[o],
    decreases count,
{
    if count > 0 {
        let j = count - 1;
        lemma_steps_frame(pf, row, j as nat, pixels, fgs, covs, gate, o);
        lemma_steps_len(pf, row, j as nat, pixels, fgs, covs, gate);
        let prev = pf.composite_steps(row, j as nat, pixels, fgs, covs, gate);
        assert(0 <= pixels(j) && pixels(j) * 4 + 3 < row.len());
        assert(pixels(j) != o / 4);
        assert(0 <= covs(j, 0) <= 255 && 0 <= covs(j, 1) <= 255 && 0 <= covs(j, 2) <= 255);
        lemma_composite_channel(pf.srgb_luts(), pf.tone_table(), pf.blend_params(), prev, pixels(j), fgs(j), fgs(j).a as int, covs(j, 0), covs(j, 1), covs(j, 2), 0);
    }
}

/// A composite of pixel `p` reads only that pixel's bytes: two rows that
/// agree on pixel `p` give the same bytes there.
proof fn lemma_composite_same_pixel(
    pf: PixfmtRgba32LcdLinear,
    a: Seq<u8>,
    b: Seq<u8>,
    p: int,
    fg: Rgba8,
    cov0: int,
    cov1: int,
    cov2: int,
    o: int,
)
    requires
        a.len() == b.len(),
        0 <= p,
        p * 4 + 3 < a.len(),
        o / 4 == p,
        0 <= o,
        forall|i: int| p * 4 <= i < p * 4 + 4 ==> a[i] == b[i],
    ensures
        pf.composite_spec(a, p, fg, fg.a as int, cov0, cov1, cov2)[o] == pf.composite_spec(b, p, fg, fg.a as int, cov0, cov1, cov2)[o],
{
    assert(a[p * 4] == b[p * 4] && a[p * 4 + 1] == b[p * 4 + 1] && a[p * 4 + 2] == b[p * 4 + 2] && a[p * 4 + 3] == b[p * 4 + 3]);
}

/// Every pixel a linear-light line touches inside the row is composited
/// once, from its own old bytes, with `cover` on exactly its stripes that
/// lie in `x .. x + len` and colour `c` at its own alpha.
pub proof fn lemma_hline_composites_each_pixel(
    pf: PixfmtRgba32LcdLinear,
    row: Seq<u8>,
    w: int,
    x: int,
    len: int,
    cover: int,
    c: Rgba8,
    sp: int,
    o: int,
)
    requires
        pf.wf(),
        row.len() == 4 * w,
        0 <= x,
        0 <= cover <= 255,
        x <= sp < x + len,
        sp < 3 * w,
        0 <= o < row.len(),
        o / 4 == sp / 3,
    ensures
        ({
            let p = sp / 3;
            let cv0 = if x <= 3 * p < x + len { cover } else { 0 };
            let cv1 = if x <= 3 * p + 1 < x + len { cover } else { 0 };
            let cv2 = if x <= 3 * p + 2 < x + len { cover } else { 0 };
            pf.hline_row(row, w, x, len, c, cover)[o] == composite_row(pf.srgb_luts(), pf.tone_table(), pf.blend_params(), row, p, c, c.a as int, cv0, cv1, cv2)[o]
        }),
{
    let n = line_pixel_count(x, len, w);
    let k = sp / 3 - x / 3;
    assert(0 <= k < n);
    assert forall|j: int| 0 <= j < n implies 0 <= #[trigger] line_pixels(x)(j) && line_pixels(x)(j) * 4 + 3 < row.len() by {}
    assert forall|j: int, ch: int| 0 <= j < n && 0 <= ch < 3 implies 0 <= #[trigger] line_covs(x, len, cover)(j, ch) <= 255 by {}
    assert forall|i: int, j: int| 0 <= i < j < n implies #[trigger] line_pixels(x)(i) != #[trigger] line_pixels(x)(j) by {}
    lemma_steps_distinct_pixels(pf, row, n, line_pixels(x), const_color(c), line_covs(x, len, cover), false, k, o);
}

/// Every pixel of a linear-light span that lies in the row is composited
/// once, from its own old bytes, with colour `c` at its own alpha; channel
/// `ch` gets the 8-bit sum of the taps landing on its sub-pixel `3p + ch`
/// when that lies in `x - 2 .. x + len + 2`, else nothing; a pixel whose
/// channels all get nothing is left alone.
pub proof fn lemma_span_composites_each_pixel(
    pf: PixfmtRgba32LcdLinear,
    x: int,
    y: int,
    len: int,
    covers: Seq<u8>,
    c: Rgba8,
    p: int,
    o: int,
)
    requires
        pf.wf(),
        0 <= y < pf.buffer().h(),
        0 <= len,
        (if x - 2 < 0 { 0 } else { x - 2 }) / 3 <= p <= (if x + len + 1 < 0 { 0 } else { x + len + 1 }) / 3,
        p < pf.buffer().w(),
        0 <= o < pf.buffer().w() * 4,
        o / 4 == p,
    ensures
        ({
            let row = pf.buffer()@[y];
            let lut = pf.distribution();
            let first = x - 2;
            let cv0 = if first <= 3 * p < first + len + 4 { lut.distributed(covers, len, 3 * p - first) % 256 } else { 0 };
            let cv1 = if first <= 3 * p + 1 < first + len + 4 { lut.distributed(covers, len, 3 * p + 1 - first) % 256 } else { 0 };
            let cv2 = if first <= 3 * p + 2 < first + len + 4 { lut.distributed(covers, len, 3 * p + 2 - first) % 256 } else { 0 };
            pf.span_rows(x, y, len, covers, c)[y][o] == (if cv0 == 0 && cv1 == 0 && cv2 == 0 {
                row[o]
            } else {
                composite_row(pf.srgb_luts(), pf.tone_table(), pf.blend_params(), row, p, c, c.a as int, cv0, cv1, cv2)[o]
            })
        }),
{
    pf.buffer().lemma_rows();
    let row = pf.buffer()@[y];
    let w = pf.buffer().w() as int;
    let lut = pf.distribution();
    let first = x - 2;
    let n = span_pixel_count(first, first + len + 4, w);
    let covs = span_covs(lut, covers, len, first);
    let p0 = (if first < 0 { 0 } else { first }) / 3;
    let k = p - p0;
    assert(0 <= k < n);
    assert forall|j: int| 0 <= j < n implies 0 <= #[trigger] span_pixels(first)(j) && span_pixels(first)(j) * 4 + 3 < row.len() by {}
    assert forall|j: int, ch: int| 0 <= j < n && 0 <= ch < 3 implies 0 <= #[trigger] covs(j, ch) <= 255 by {}
    assert forall|i: int, j: int| 0 <= i < j < n implies #[trigger] span_pixels(first)(i) != #[trigger] span_pixels(first)(j) by {}
    lemma_steps_distinct_pixels(pf, row, n, span_pixels(first), const_color(c), covs, true, k, o);
}

/// The contrast boost of coverage `c` through the tone table: at least the
/// tone value `t`, at most 255, exactly `t` without contrast, and otherwise
/// the whole part of `t + contrast * t * (255 - t) / 255^2`, capped at 255.
pub proof fn lemma_boost_contrast(tone: Seq<u8>, contrast: int, c: int)
    requires
        tone.len() == 256,
        0 <= contrast <= 255,
        0 <= c <= 255,
    ensures
        ({
            let t = tone[c] as int;
            let b = boost_spec(tone, contrast, c);
            let raise = contrast * t * (255 - t);
            &&& t <= b <= 255
            &&& contrast == 0 ==> b == t
            &&& b < 255 ==> b * 65025 <= 65025 * t + raise < (b + 1) * 65025
            &&& b == 255 ==> 65025 * 255 <= 65025 * t + raise + 65024
        }),
{
    let t = tone[c] as int;
    let raise = contrast * t * (255 - t);
    assert(0 <= raise) by (nonlinear_arith)
        requires raise == contrast * t * (255 - t), 0 <= contrast, 0 <= t <= 255;
    if contrast == 0 {
        assert(raise == 0) by (nonlinear_arith)
            requires raise == contrast * t * (255 - t), contrast == 0;
    }
    lemma_fundamental_div_mod(raise, 65025);
}

/// Composites `m .. n` of a series that do not cover the stripe of colour
/// byte `o` leave it as composite `m` found it (without a chroma limit).
proof fn lemma_steps_suffix_keep(
    pf: PixfmtRgba32LcdLinear,
    row: Seq<u8>,
    m: nat,
    n: nat,
    pixels: spec_fn(int) -> int,
    fgs: spec_fn(int) -> Rgba8,
    covs: spec_fn(int, int) -> int,
    gate: bool,
    o: int,
)
    requires
        pf.srgb_luts().is_standard(),
        tone_curve_ok(pf.tone_table()),
        pf.blend_params().chroma_limit == 0,
        m <= n,
        0 <= o < row.len(),
        o % 4 < 3,
        forall|j: int| 0 <= j < n ==> 0 <= #[trigger] pixels(j) && pixels(j) * 4 + 3 < row.len(),
        forall|j: int, ch: int| 0 <= j < n && 0 <= ch < 3 ==> 0 <= #[trigger] covs(j, ch) <= 255,
        forall|j: int| m <= j < n && #[trigger] pixels(j) == o / 4 ==> covs(j, o % 4) == 0,
    ensures
        pf.composite_steps(row, n, pixels, fgs, covs, gate)[o] == pf.composite_steps(row, m, pixels, fgs, covs, gate)[o],
    decreases n - m,
{
    if m < n {
        let j = n - 1;
        lemma_steps_suffix_keep(pf, row, m, j as nat, pixels, fgs, covs, gate, o);
        lemma_steps_len(pf, row, j as nat, pixels, fgs, covs, gate);
        let prev = pf.composite_steps(row, j as nat, pixels, fgs, covs, gate);
        assert(0 <= pixels(j) && pixels(j) * 4 + 3 < row.len());
        assert(0 <= covs(j, 0) <= 255 && 0 <= covs(j, 1) <= 255 && 0 <= covs(j, 2) <= 255);
        if pixels(j) == o / 4 {
            assert(covs(j, o % 4) == 0);
        }
        lemma_composite_keeps_uncovered(
            pf.srgb_luts(),
            pf.tone_table(),
            pf.blend_params(),
            prev,
            pixels(j),
            fgs(j),
            fgs(j).a as int,
            covs(j, 0),
            covs(j, 1),
            covs(j, 2),
            o,
        );
    }
}

/// Without a chroma limit, in a linear-light run of own colours sub-pixel
/// `x + k` ends as its own blend, from its old byte alone: with weight
/// `w = boost(covers[k]) * colors[k].a / 255` (or `cover` for all when
/// `covers` is empty) it becomes the code of
/// `(lin(colour) * w + lin(old) * (255 - w)) / 255`; at weight 0 it keeps
/// its byte.
pub proof fn lemma_color_hspan_stripe_linear(
    pf: PixfmtRgba32LcdLinear,
    row: Seq<u8>,
    w: int,
    x: int,
    len: int,
    colors: Seq<Rgba8>,
    covers: Seq<u8>,
    cover: u8,
    k: int,
)
    requires
        pf.wf(),
        pf.srgb_luts().is_standard(),
        pf.blend_params().chroma_limit == 0,
        row.len() == 4 * w,
        0 <= x,
        0 <= k < run_count(x, len, w),
    ensures
        ({
            let o = (x + k) / 3 * 4 + (x + k) % 3;
            let cv = if covers.len() > 0 { covers[k] as int } else { cover as int };
            let col = colors[k];
            let wt = boost_spec(pf.tone_table(), pf.blend_params().contrast as int, cv) * col.a / 255;
            let fl = pf.srgb_luts().linear_table()[col.channel_spec((x + k) % 3) as int] as int;
            let bl = pf.srgb_luts().linear_table()[row[o] as int] as int;
            pf.color_hspan_row(row, w, x, len, colors, covers, cover)[o] == (if wt == 0 {
                row[o]
            } else {
                pf.srgb_luts().srgb_table()[(fl * wt + bl * (255 - wt)) / 255]
            })
        }),
{
    let n = run_count(x, len, w);
    let pixels = stripe_pixels(x);
    let fgs = run_colors(colors);
    let covs = run_covs(x, covers, cover);
    let o = (x + k) / 3 * 4 + (x + k) % 3;
    let p = (x + k) / 3;
    let ch = (x + k) % 3;
    assert(o / 4 == p && o % 4 == ch);
    assert forall|j: int| 0 <= j < n implies 0 <= #[trigger] pixels(j) && pixels(j) * 4 + 3 < row.len() by {}
    assert forall|j: int, c: int| 0 <= j < n && 0 <= c < 3 implies 0 <= #[trigger] covs(j, c) <= 255 by {}
    assert forall|j: int| 0 <= j < n && j != k && #[trigger] pixels(j) == o / 4 implies covs(j, o % 4) == 0 by {
        assert((x + j) % 3 != (x + k) % 3);
    }
    // later composites leave the byte as composite k made it
    lemma_steps_suffix_keep(pf, row, (k + 1) as nat, n, pixels, fgs, covs, false, o);
    // earlier ones leave it as it was
    lemma_steps_keep_uncovered(pf, row, k as nat, pixels, fgs, covs, false, o);
    lemma_steps_len(pf, row, k as nat, pixels, fgs, covs, false);
    let prev = pf.composite_steps(row, k as nat, pixels, fgs, covs, false);
    let cv = if covers.len() > 0 { covers[k] as int } else { cover as int };
    let col = colors[k];
    assert(0 <= covs(k, 0) <= 255 && 0 <= covs(k, 1) <= 255 && 0 <= covs(k, 2) <= 255);
    lemma_composite_channel(pf.srgb_luts(), pf.tone_table(), pf.blend_params(), prev, p, col, col.a as int, covs(k, 0), covs(k, 1), covs(k, 2), ch);
    lemma_boost_endpoints_monotone(pf.tone_table(), pf.blend_params().contrast as int, 0, cv);
    assert(0 * (col.a as int) == 0);
    let wt = boost_spec(pf.tone_table(), pf.blend_params().contrast as int, cv) * col.a / 255;
    let fl = pf.srgb_luts().linear_table()[col.channel_spec(ch) as int] as int;
    let bl = pf.srgb_luts().linear_table()[row[o] as int] as int;
    lemma_standard_round_trip(pf.srgb_luts(), col.channel_spec(ch));
    lemma_standard_round_trip(pf.srgb_luts(), row[o]);
    assert(0 <= boost_spec(pf.tone_table(), pf.blend_params().contrast as int, cv) <= 255) by {
        lemma_boost_contrast(pf.tone_table(), pf.blend_params().contrast as int, cv);
    }
    assert(0 <= wt <= 255) by (nonlinear_arith)
        requires
            wt == boost_spec(pf.tone_table(), pf.blend_params().contrast as int, cv) * col.a / 255,
            0 <= boost_spec(pf.tone_table(), pf.blend_params().contrast as int, cv) <= 255,
            0 <= col.a <= 255;
    assert(fl * wt + bl * (255 - wt) <= 8160 * 255) by (nonlinear_arith)
        requires 0 <= fl <= 8160, 0 <= bl <= 8160, 0 <= wt <= 255;
    assert(0 <= fl * wt + bl * (255 - wt)) by (nonlinear_arith)
        requires 0 <= fl, 0 <= bl, 0 <= wt <= 255;
}

} // verus!

//! Where the two LCD formats agree: with an identity distribution, an
//! opaque colour, no chroma limit and coverages that are all none or full,
//! the linear-light format leaves the same rows as the sRGB-space one.

use vstd::prelude::*;
use crate::color::Rgba8;
use crate::distribution::LcdDistributionLut;
use crate::lcd::{solid_alphas, solid_cover, span_reaches_row, PixfmtRgba32Lcd};
use crate::lcd_linear::{
    composite_row, const_color, lemma_boost_endpoints_monotone, mix, span_covs, span_first_pixel,
    span_pixel_count, span_pixels, stripe_weight, tone_curve_ok, LcdBlendParams,
    PixfmtRgba32LcdLinear,
};
use crate::distribution::share;
use crate::srgb::{lemma_standard_round_trip, SrgbLuts};
use crate::stripes::{alpha_offset, blend_run, blend_stripe, color_vals, run_count, stripe_offset};

verus! {

/// `row` with every sub-pixel below `s` for which `hit` holds set to its
/// channel of `c`, and the alpha of every pixel holding such a sub-pixel
/// made opaque.
pub open spec fn painted(row: Seq<u8>, hit: spec_fn(int) -> bool, c: Rgba8, s: int) -> Seq<u8> {
    Seq::new(
        row.len(),
        |o: int|
            {
                let p = o / 4;
                let ch = o % 4;
                if ch < 3 {
                    if 3 * p + ch < s && hit(3 * p + ch) {
                        c.channel_spec(ch)
                    } else {
                        row[o]
                    }
                } else if (3 * p < s && hit(3 * p)) || (3 * p + 1 < s && hit(3 * p + 1)) || (3 * p + 2 < s
                    && hit(3 * p + 2)) {
                    255u8
                } else {
                    row[o]
                }
            },
    )
}

/// Sub-pixel `sp` of a row `w` pixels wide lies in the span from `first` of
/// `len` distributed covers and gets a non-zero value.
pub open spec fn span_hit(lut: LcdDistributionLut, covers: Seq<u8>, len: int, first: int, w: int) -> spec_fn(int) -> bool {
    |sp: int| 0 <= sp < 3 * w && first <= sp < first + len + 4 && solid_cover(lut, covers, len, sp - first) != 0
}

/// Painting up to `s1` or up to `s2` is the same when nothing is hit
/// between them.
proof fn lemma_painted_same(row: Seq<u8>, hit: spec_fn(int) -> bool, c: Rgba8, s1: int, s2: int)
    requires
        s1 <= s2,
        forall|sp: int| s1 <= sp < s2 ==> !#[trigger] hit(sp),
    ensures
        painted(row, hit, c, s1) == painted(row, hit, c, s2),
{
    assert(painted(row, hit, c, s1) =~= painted(row, hit, c, s2));
}

/// One more stripe of the sRGB-space span: at full weight it paints the
/// stripe, at none it changes nothing.
proof fn lemma_paint_stripe(row: Seq<u8>, hit: spec_fn(int) -> bool, c: Rgba8, s: int, cov: int)
    requires
        row.len() % 4 == 0,
        0 <= s < 3 * (row.len() / 4),
        cov == 0 || cov == 255,
        hit(s) <==> cov != 0,
    ensures
        blend_stripe(painted(row, hit, c, s), s, c.channel_spec(s % 3), cov * 255) == painted(row, hit, c, s + 1),
{
    let a = painted(row, hit, c, s);
    let b = painted(row, hit, c, s + 1);
    if cov == 0 {
        assert(a =~= b);
    } else {
        let lhs = blend_stripe(a, s, c.channel_spec(s % 3), cov * 255);
        assert(stripe_offset(s) / 4 == s / 3 && stripe_offset(s) % 4 == s % 3);
        assert(alpha_offset(s) / 4 == s / 3 && alpha_offset(s) % 4 == 3);
        assert forall|o: int| 0 <= o < b.len() implies #[trigger] lhs[o] == b[o] by {
            let p = o / 4;
            let ch = o % 4;
            if p == s / 3 {
                if ch < 3 && 3 * p + ch == s {
                    assert(o == stripe_offset(s));
                } else if ch == 3 {
                    assert(o == alpha_offset(s));
                }
            }
        }
        assert(lhs =~= b);
    }
}

/// The sRGB-space span, stripe by stripe, paints the stripes it hits.
proof fn lemma_lcd_run_paints(
    row: Seq<u8>,
    lut: LcdDistributionLut,
    covers: Seq<u8>,
    len: int,
    first: int,
    w: int,
    c: Rgba8,
    count: nat,
)
    requires
        row.len() == 4 * w,
        0 <= len,
        -2 <= first,
        c.a == 255,
        forall|j: int| #![trigger solid_cover(lut, covers, len, j)] solid_cover(lut, covers, len, j) == 0 || solid_cover(lut, covers, len, j) == 255,
        ({
            let start = if first < 0 { 0 } else { first };
            count <= run_count(start, len + 4 - (start - first), w)
        }),
    ensures
        ({
            let start = if first < 0 { 0 } else { first };
            blend_run(row, start, count, color_vals(c, start), solid_alphas(lut, covers, len, start - first, 255))
                == painted(row, span_hit(lut, covers, len, first, w), c, start + count)
        }),
    decreases count,
{
    let start = if first < 0 { 0 } else { first };
    let hit = span_hit(lut, covers, len, first, w);
    if count == 0 {
        lemma_painted_same(row, hit, c, -3, start);
        assert(painted(row, hit, c, -3) =~= row);
    } else {
        let k = (count - 1) as nat;
        lemma_lcd_run_paints(row, lut, covers, len, first, w, c, k);
        let s = start + k;
        let cov = solid_cover(lut, covers, len, s - first);
        assert(solid_alphas(lut, covers, len, start - first, 255)(k as int) == cov * 255);
        assert(color_vals(c, start)(k as int) == c.channel_spec(s % 3));
        lemma_paint_stripe(row, hit, c, s, cov);
    }
}

/// With an identity distribution and covers that are all none or full, every
/// distributed value is none or full too.
proof fn lemma_identity_covers(lut: LcdDistributionLut, covers: Seq<u8>, len: int, j: int)
    requires
        lut.built_from(1, 0, 0),
        0 <= len <= covers.len(),
        forall|i: int| 0 <= i < len ==> #[trigger] covers[i] == 0 || covers[i] == 255,
    ensures
        solid_cover(lut, covers, len, j) == 0 || solid_cover(lut, covers, len, j) == 255,
{
    assert forall|t: int, v: u8| 0 <= t < 5 implies #[trigger] lut.tap(t, v) == (if t == 2 { v as int } else { 0 }) by {
        assert(lut.primary_table()[v as int] == share(1, 1, v as int));
        assert(share(1, 1, v as int) == v);
        assert(share(0, 1, v as int) == 0);
    }
    assert(lut.tap_at(covers, len, j, 0) == 0);
    assert(lut.tap_at(covers, len, j, 1) == 0);
    assert(lut.tap_at(covers, len, j, 3) == 0);
    assert(lut.tap_at(covers, len, j, 4) == 0);
    if 0 <= j - 2 < len {
        assert(covers[j - 2] == 0 || covers[j - 2] == 255);
    }
}

/// A linear-light composite of an opaque colour with coverages that are
/// all none or full, not all none, and no chroma limit: fully covered
/// stripes take the colour, the others keep their value, and the pixel
/// becomes opaque.
proof fn lemma_composite_full_or_none(
    luts: SrgbLuts,
    tone: Seq<u8>,
    params: LcdBlendParams,
    row: Seq<u8>,
    p: int,
    c: Rgba8,
    cv0: int,
    cv1: int,
    cv2: int,
)
    requires
        luts.is_standard(),
        tone_curve_ok(tone),
        params.chroma_limit == 0,
        c.a == 255,
        cv0 == 0 || cv0 == 255,
        cv1 == 0 || cv1 == 255,
        cv2 == 0 || cv2 == 255,
        !(cv0 == 0 && cv1 == 0 && cv2 == 0),
        0 <= p,
        p * 4 + 3 < row.len(),
    ensures
        composite_row(luts, tone, params, row, p, c, 255, cv0, cv1, cv2) == row.update(
            p * 4,
            if cv0 != 0 { c.r } else { row[p * 4] },
        ).update(p * 4 + 1, if cv1 != 0 { c.g } else { row[p * 4 + 1] }).update(
            p * 4 + 2,
            if cv2 != 0 { c.b } else { row[p * 4 + 2] },
        ).update(p * 4 + 3, 255),
{
    let k = params.contrast as int;
    lemma_boost_endpoints_monotone(tone, k, 0, 255);
    assert(stripe_weight(tone, k, 0, 255) == 0);
    assert(stripe_weight(tone, k, 255, 255) == 255);
    let lin = luts.linear_table();
    let off = p * 4;
    lemma_standard_round_trip(luts, c.r);
    lemma_standard_round_trip(luts, c.g);
    lemma_standard_round_trip(luts, c.b);
    lemma_standard_round_trip(luts, row[off]);
    lemma_standard_round_trip(luts, row[off + 1]);
    lemma_standard_round_trip(luts, row[off + 2]);
    assert forall|f: int, b: int| #![trigger mix(f, b, 255)] mix(f, b, 255) == f && mix(f, b, 0) == b by {}
    assert(composite_row(luts, tone, params, row, p, c, 255, cv0, cv1, cv2) =~= row.update(
        p * 4,
        if cv0 != 0 { c.r } else { row[p * 4] },
    ).update(p * 4 + 1, if cv1 != 0 { c.g } else { row[p * 4 + 1] }).update(
        p * 4 + 2,
        if cv2 != 0 { c.b } else { row[p * 4 + 2] },
    ).update(p * 4 + 3, 255));
}

/// The linear-light span, pixel by pixel, paints the stripes it hits.
proof fn lemma_linear_steps_paint(
    pf: PixfmtRgba32LcdLinear,
    row: Seq<u8>,
    lut: LcdDistributionLut,
    covers: Seq<u8>,
    len: int,
    first: int,
    w: int,
    c: Rgba8,
    count: nat,
)
    requires
        pf.srgb_luts().is_standard(),
        tone_curve_ok(pf.tone_table()),
        pf.blend_params().chroma_limit == 0,
        c.a == 255,
        row.len() == 4 * w,
        0 <= len,
        -2 <= first,
        forall|j: int| #![trigger solid_cover(lut, covers, len, j)] solid_cover(lut, covers, len, j) == 0 || solid_cover(lut, covers, len, j) == 255,
        count <= span_pixel_count(first, first + len + 4, w),
    ensures
        pf.composite_steps(row, count, span_pixels(first), const_color(c), span_covs(lut, covers, len, first), true)
            == painted(row, span_hit(lut, covers, len, first, w), c, 3 * (span_first_pixel(first) + count)),
    decreases count,
{
    let hit = span_hit(lut, covers, len, first, w);
    let p0 = span_first_pixel(first);
    let covs = span_covs(lut, covers, len, first);
    if count == 0 {
        lemma_painted_same(row, hit, c, -3, 3 * p0);
        assert(painted(row, hit, c, -3) =~= row);
    } else {
        let k = (count - 1) as nat;
        lemma_linear_steps_paint(pf, row, lut, covers, len, first, w, c, k);
        let p = p0 + k;
        let prev = painted(row, hit, c, 3 * p);
        let next = painted(row, hit, c, 3 * p + 3);
        assert(0 <= p < w);
        assert forall|ch: int| 0 <= ch < 3 implies (#[trigger] covs(k as int, ch) != 0 <==> hit(3 * p + ch))
            && (covs(k as int, ch) == 0 || covs(k as int, ch) == 255) by {
            let sp = 3 * p + ch;
            if first <= sp < first + len + 4 {
                assert(solid_cover(lut, covers, len, sp - first) == 0 || solid_cover(lut, covers, len, sp - first) == 255);
            }
        }
        if covs(k as int, 0) == 0 && covs(k as int, 1) == 0 && covs(k as int, 2) == 0 {
            lemma_painted_same(row, hit, c, 3 * p, 3 * p + 3);
        } else {
            lemma_composite_full_or_none(
                pf.srgb_luts(),
                pf.tone_table(),
                pf.blend_params(),
                prev,
                p,
                c,
                covs(k as int, 0),
                covs(k as int, 1),
                covs(k as int, 2),
            );
            let lhs = pf.composite_spec(prev, p, c, 255, covs(k as int, 0), covs(k as int, 1), covs(k as int, 2));
            assert forall|o: int| 0 <= o < next.len() implies #[trigger] lhs[o] == next[o] by {
                if o / 4 == p {
                    assert(o == p * 4 + o % 4);
                }
            }
            assert(lhs =~= next);
        }
    }
}

/// With an identity distribution, an opaque colour, no chroma limit, the
/// sRGB tables and coverages that are all none or full, a span leaves the
/// same rows in the linear-light format as in the sRGB-space one.
pub proof fn lemma_linear_agrees_with_srgb(
    lin_pf: PixfmtRgba32LcdLinear,
    pf: PixfmtRgba32Lcd,
    x: int,
    y: int,
    len: int,
    covers: Seq<u8>,
    c: Rgba8,
)
    requires
        lin_pf.wf(),
        pf.wf(),
        lin_pf.buffer()@ == pf.buffer()@,
        lin_pf.buffer().w() == pf.buffer().w(),
        lin_pf.buffer().h() == pf.buffer().h(),
        lin_pf.distribution() == pf.distribution(),
        pf.distribution().built_from(1, 0, 0),
        lin_pf.srgb_luts().is_standard(),
        lin_pf.blend_params().chroma_limit == 0,
        c.a == 255,
        0 <= x,
        0 <= y < pf.buffer().h(),
        0 <= len <= covers.len(),
        forall|i: int| 0 <= i < len ==> #[trigger] covers[i] == 0 || covers[i] == 255,
    ensures
        lin_pf.span_rows(x, y, len, covers, c) == pf.span_rows(x, y, len, covers, c),
{
    let lut = pf.distribution();
    let w = pf.buffer().w() as int;
    let first = x - 2;
    pf.buffer().lemma_rows();
    let row = pf.buffer()@[y];
    assert forall|j: int| #![trigger solid_cover(lut, covers, len, j)] solid_cover(lut, covers, len, j) == 0 || solid_cover(lut, covers, len, j) == 255 by {
        lemma_identity_covers(lut, covers, len, j);
    }
    assert(span_reaches_row(x, len));
    let hit = span_hit(lut, covers, len, first, w);
    let start = if first < 0 { 0 } else { first };
    let n1 = run_count(start, len + 4 - (start - first), w);
    lemma_lcd_run_paints(row, lut, covers, len, first, w, c, n1);
    let n2 = span_pixel_count(first, first + len + 4, w);
    lemma_linear_steps_paint(lin_pf, row, lut, covers, len, first, w, c, n2);
    let e1 = start + n1;
    let e2 = 3 * (span_first_pixel(first) + n2);
    let big = if e1 < e2 { e2 } else { e1 };
    assert forall|sp: int| e1 <= sp < big implies !#[trigger] hit(sp) by {}
    assert forall|sp: int| e2 <= sp < big implies !#[trigger] hit(sp) by {}
    lemma_painted_same(row, hit, c, e1, big);
    lemma_painted_same(row, hit, c, e2, big);
}

} // verus!

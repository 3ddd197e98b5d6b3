//! The sub-pixel ("stripe") model shared by the LCD pixel formats.
//!
//! A row `width` pixels wide is seen as `3 * width` sub-pixels: sub-pixel
//! `sp` is channel `sp % 3` (red, green, blue) of pixel `sp / 3`, at byte
//! `(sp / 3) * 4 + sp % 3` of the RGBA32 row; byte `(sp / 3) * 4 + 3` is
//! that pixel's alpha.

use vstd::prelude::*;
use crate::color::Rgba8;

verus! {

/// `dst` moved towards `src` by `alpha / 65536`:
/// `((src - dst) * alpha + (dst << 16)) >> 16`.
pub open spec fn blend_value(dst: int, src: int, alpha: int) -> int {
    ((src - dst) * alpha + dst * 65536) / 65536
}

/// A blend weight between 0 and 1 (out of 65536) lands between the two
/// values, on `dst` at weight 0 and on `src` at full weight.
pub proof fn lemma_blend_value_between(dst: int, src: int, alpha: int)
    requires
        0 <= alpha <= 65536,
    ensures
        dst <= src ==> dst <= blend_value(dst, src, alpha) <= src,
        src <= dst ==> src <= blend_value(dst, src, alpha) <= dst,
        alpha == 0 ==> blend_value(dst, src, alpha) == dst,
        alpha == 65536 ==> blend_value(dst, src, alpha) == src,
{
    let n = (src - dst) * alpha + dst * 65536;
    assert(n == dst * (65536 - alpha) + src * alpha) by (nonlinear_arith)
        requires n == (src - dst) * alpha + dst * 65536;
    if dst <= src {
        assert(dst * 65536 <= n <= src * 65536) by (nonlinear_arith)
            requires n == dst * (65536 - alpha) + src * alpha, dst <= src, 0 <= alpha <= 65536;
    } else {
        assert(src * 65536 <= n <= dst * 65536) by (nonlinear_arith)
            requires n == dst * (65536 - alpha) + src * alpha, src <= dst, 0 <= alpha <= 65536;
    }
}

/// Byte offset of sub-pixel `sp` in its row.
pub open spec fn stripe_offset(sp: int) -> int {
    (sp / 3) * 4 + sp % 3
}

/// Byte offset of the alpha of the pixel that holds sub-pixel `sp`.
pub open spec fn alpha_offset(sp: int) -> int {
    (sp / 3) * 4 + 3
}

/// Colour value `v` blended into sub-pixel `sp` of `row` with the combined
/// weight `alpha` (coverage times colour alpha, at most `255 * 255`): no
/// change at weight 0; otherwise the sub-pixel takes `v` at full weight and
/// the blend of its old value towards `v` below it, and the pixel's alpha
/// becomes opaque.
pub open spec fn blend_stripe(row: Seq<u8>, sp: int, v: u8, alpha: int) -> Seq<u8> {
    if alpha == 0 {
        row
    } else {
        let o = stripe_offset(sp);
        let nv: u8 = if alpha == 255 * 255 {
            v
        } else {
            blend_value(row[o] as int, v as int, alpha) as u8
        };
        row.update(o, nv).update(alpha_offset(sp), 255)
    }
}

/// The `count` sub-pixels from `start` blended in turn: the `k`-th gets the
/// value `vals(k)` with the weight `alphas(k)`.
pub open spec fn blend_run(
    row: Seq<u8>,
    start: int,
    count: nat,
    vals: spec_fn(int) -> u8,
    alphas: spec_fn(int) -> int,
) -> Seq<u8>
    decreases count,
{
    if count == 0 {
        row
    } else {
        let k = count - 1;
        blend_stripe(blend_run(row, start, k as nat, vals, alphas), start + k, vals(k), alphas(k))
    }
}

/// How many sub-pixels of a run of `len` from `start` are handled before
/// the run leaves a row `width` pixels wide; none when `start` is negative.
pub open spec fn run_count(start: int, len: int, width: int) -> nat {
    if start < 0 || len <= 0 || start >= 3 * width {
        0
    } else if len < 3 * width - start {
        len as nat
    } else {
        (3 * width - start) as nat
    }
}

/// The colour of the pixel that holds sub-pixel `x`, or transparent black
/// when `x` is outside a row `width` pixels wide.
pub open spec fn pixel_at(row: Seq<u8>, width: int, x: int) -> Rgba8 {
    if x < 0 || x / 3 >= width {
        Rgba8 { r: 0, g: 0, b: 0, a: 0 }
    } else {
        let o = (x / 3) * 4;
        Rgba8 { r: row[o], g: row[o + 1], b: row[o + 2], a: row[o + 3] }
    }
}

/// `row` with pixel `p` set to the four channels of `c`.
pub open spec fn write_pixel(row: Seq<u8>, p: int, c: Rgba8) -> Seq<u8> {
    row.update(p * 4, c.r).update(p * 4 + 1, c.g).update(p * 4 + 2, c.b).update(p * 4 + 3, c.a)
}

/// A run over sub-pixels that all lie in the row keeps the row's length.
pub proof fn lemma_blend_run_len(
    row: Seq<u8>,
    start: int,
    count: nat,
    vals: spec_fn(int) -> u8,
    alphas: spec_fn(int) -> int,
)
    requires
        0 <= start,
        start + count <= 3 * (row.len() / 4),
    ensures
        blend_run(row, start, count, vals, alphas).len() == row.len(),
    decreases count,
{
    if count > 0 {
        let k = (count - 1) as nat;
        lemma_blend_run_len(row, start, k, vals, alphas);
    }
}

/// Bytes of pixels that hold none of the sub-pixels `start .. start + count`
/// keep their value through a run.
pub proof fn lemma_blend_run_frame(
    row: Seq<u8>,
    start: int,
    count: nat,
    vals: spec_fn(int) -> u8,
    alphas: spec_fn(int) -> int,
    o: int,
)
    requires
        0 <= start,
        start + count <= 3 * (row.len() / 4),
        0 <= o < row.len(),
        forall|sp: int| start <= sp < start + count ==> #[trigger] (sp / 3) != o / 4,
    ensures
        blend_run(row, start, count, vals, alphas)[o] == row[o],
    decreases count,
{
    if count > 0 {
        let k = (count - 1) as nat;
        lemma_blend_run_frame(row, start, k, vals, alphas, o);
        lemma_blend_run_len(row, start, k, vals, alphas);
        let sp = start + k;
        assert(sp / 3 != o / 4);
    }
}

/// The colour channels met by a run from sub-pixel `start`: the `k`-th
/// sub-pixel takes channel `(start + k) % 3` of `c`.
pub open spec fn color_vals(c: Rgba8, start: int) -> spec_fn(int) -> u8 {
    |k: int| c.channel_spec((start + k) % 3)
}

/// The same weight `alpha` for every sub-pixel of a run.
pub open spec fn const_alpha(alpha: int) -> spec_fn(int) -> int {
    |k: int| alpha
}

/// A run whose weights are all zero leaves the row as it was.
pub proof fn lemma_blend_run_zero(row: Seq<u8>, start: int, count: nat, vals: spec_fn(int) -> u8)
    ensures
        blend_run(row, start, count, vals, const_alpha(0)) == row,
    decreases count,
{
    if count > 0 {
        lemma_blend_run_zero(row, start, (count - 1) as nat, vals);
    }
}

/// Reading back a pixel just written gives the colour written.
pub proof fn lemma_pixel_after_write(row: Seq<u8>, width: int, x: int, c: Rgba8)
    requires
        0 <= x,
        x / 3 < width,
        row.len() == width * 4,
    ensures
        pixel_at(write_pixel(row, x / 3, c), width, x) == c,
{
}

/// A colour byte that no sub-pixel of a run lands on keeps its value.
pub proof fn lemma_blend_run_untouched(
    row: Seq<u8>,
    start: int,
    count: nat,
    vals: spec_fn(int) -> u8,
    alphas: spec_fn(int) -> int,
    o: int,
)
    requires
        0 <= start,
        start + count <= 3 * (row.len() / 4),
        0 <= o < row.len(),
        o % 4 < 3,
        forall|j: int| 0 <= j < count ==> #[trigger] stripe_offset(start + j) != o,
    ensures
        blend_run(row, start, count, vals, alphas)[o] == row[o],
    decreases count,
{
    if count > 0 {
        let j = count - 1;
        lemma_blend_run_untouched(row, start, j as nat, vals, alphas, o);
        lemma_blend_run_len(row, start, j as nat, vals, alphas);
        assert(stripe_offset(start + j) != o);
        assert(alpha_offset(start + j) % 4 == 3);
    }
}

/// Each sub-pixel of a run ends up as its own blend: the byte of the `k`-th
/// sub-pixel depends only on its old value, its colour value `vals(k)` and
/// its weight `alphas(k)`: unchanged at weight 0, the colour value at full
/// weight, `((v - d) * alpha + d * 65536) / 65536` between.
pub proof fn lemma_blend_run_stripe(
    row: Seq<u8>,
    start: int,
    count: nat,
    vals: spec_fn(int) -> u8,
    alphas: spec_fn(int) -> int,
    k: int,
)
    requires
        0 <= start,
        start + count <= 3 * (row.len() / 4),
        0 <= k < count,
    ensures
        ({
            let o = (start + k) / 3 * 4 + (start + k) % 3;
            let d = row[o] as int;
            let v = vals(k) as int;
            let a = alphas(k);
            blend_run(row, start, count, vals, alphas)[o] == (if a == 0 {
                d as u8
            } else if a == 255 * 255 {
                v as u8
            } else {
                (((v - d) * a + d * 65536) / 65536) as u8
            })
        }),
    decreases count,
{
    let o = stripe_offset(start + k);
    let j = count - 1;
    lemma_blend_run_len(row, start, j as nat, vals, alphas);
    if k < j {
        lemma_blend_run_stripe(row, start, j as nat, vals, alphas, k);
        assert(stripe_offset(start + j) != o);
        assert(alpha_offset(start + j) != o);
    } else {
        assert forall|i: int| 0 <= i < j implies #[trigger] stripe_offset(start + i) != o by {}
        lemma_blend_run_untouched(row, start, j as nat, vals, alphas, o);
    }
}

/// Writing pixel `p` puts red, green, blue and alpha at bytes `4p` to
/// `4p + 3` and leaves every other byte; reading the pixel of sub-pixel `x`
/// gives the four bytes of pixel `x / 3` in that order.
pub proof fn lemma_pixel_layout(row: Seq<u8>, p: int, c: Rgba8, width: int, x: int, o: int)
    requires
        0 <= p,
        p * 4 + 3 < row.len(),
        0 <= o < row.len(),
    ensures
        write_pixel(row, p, c).len() == row.len(),
        write_pixel(row, p, c)[o] == (if o == p * 4 {
            c.r
        } else if o == p * 4 + 1 {
            c.g
        } else if o == p * 4 + 2 {
            c.b
        } else if o == p * 4 + 3 {
            c.a
        } else {
            row[o]
        }),
        0 <= x && x / 3 < width ==> pixel_at(row, width, x).r == row[x / 3 * 4] && pixel_at(row, width, x).g == row[x
            / 3 * 4 + 1] && pixel_at(row, width, x).b == row[x / 3 * 4 + 2] && pixel_at(row, width, x).a == row[x / 3 * 4
            + 3],
        !(0 <= x && x / 3 < width) ==> pixel_at(row, width, x) == (Rgba8 { r: 0, g: 0, b: 0, a: 0 }),
{
}

} // verus!

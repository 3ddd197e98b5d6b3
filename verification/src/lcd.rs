//! LCD sub-pixel pixel format blending in sRGB code space.

use vstd::prelude::*;
use crate::color::{CoverType, Rgba8};
use crate::distribution::LcdDistributionLut;
use crate::rendering_buffer::{RowAccessor, BPP};
use crate::stripes::{blend_run, lemma_blend_run_untouched, stripe_offset, blend_stripe, blend_value, color_vals, const_alpha, lemma_blend_run_stripe, lemma_blend_run_zero, pixel_at, run_count, write_pixel};
use vstd::arithmetic::div_mod::lemma_add_mod_noop;

verus! {

/// Capacity the per-span five-tap distribution scratch buffer starts at.
///
/// Spans of covered sub-pixels are short and very many, so the buffer is
/// allocated once per pixel format rather than once per span.
pub const SPAN_SCRATCH: usize = 256;

/// Combined weight at which a blend writes the colour outright.
pub const FULL_WEIGHT: i32 = 65025;

/// LCD sub-pixel pixel format for RGBA32 rendering buffers.
///
/// Reports a width of three times the buffer's, so that a rasterizer works
/// at three times the horizontal resolution: sub-pixel `sp` is channel
/// `sp % 3` (0 red, 1 green, 2 blue) of pixel `sp / 3`, at byte
/// `(sp / 3) * 4 + sp % 3` of its row.
pub struct PixfmtRgba32Lcd<'a> {
    rbuf: RowAccessor,
    lut: &'a LcdDistributionLut,
    c3: Vec<u8>,
}

/// The stripe value a colour gives to each sub-pixel of a run of its own
/// colours: the `k`-th sub-pixel from `x` takes channel `(x + k) % 3` of
/// `colors[k]`.
pub open spec fn colors_vals(colors: Seq<Rgba8>, x: int) -> spec_fn(int) -> u8 {
    |k: int| colors[k].channel_spec((x + k) % 3)
}

/// Weights of a run of own colours: `covers[k]`, or `cover` when `covers`
/// is empty, times the alpha of `colors[k]`.
pub open spec fn colors_alphas(colors: Seq<Rgba8>, covers: Seq<u8>, cover: u8) -> spec_fn(int) -> int {
    |k: int|
        (if covers.len() > 0 {
            covers[k] as int
        } else {
            cover as int
        }) * colors[k].a
}

/// `row` after blending colour `c` with coverage `cover` into sub-pixel
/// `x`: channel `x % 3` of `c` with weight `cover * c.a`.
pub open spec fn lcd_pixel_row(row: Seq<u8>, x: int, c: Rgba8, cover: int) -> Seq<u8> {
    blend_stripe(row, x, c.channel_spec(x % 3), cover * c.a)
}

/// `row` (of a buffer `w` pixels wide) after blending colour `c` with
/// coverage `cover` into `len` sub-pixels from `x`, stopping at the end of
/// the row.
pub open spec fn lcd_hline_row(row: Seq<u8>, w: int, x: int, len: int, c: Rgba8, cover: int) -> Seq<u8> {
    blend_run(row, x, run_count(x, len, w), color_vals(c, x), const_alpha(cover * c.a))
}

/// `row` (of a buffer `w` pixels wide) after copying the channels of `c`
/// into `len` sub-pixels from `x`, stopping at the end of the row.
pub open spec fn copy_hline_row(row: Seq<u8>, w: int, x: int, len: int, c: Rgba8) -> Seq<u8> {
    blend_run(row, x, run_count(x, len, w), color_vals(c, x), const_alpha(FULL_WEIGHT as int))
}

/// `row` (of a buffer `w` pixels wide) after blending `len` sub-pixels from
/// `x` each with its own colour and cover, stopping at the end of the row.
pub open spec fn lcd_color_hspan_row(
    row: Seq<u8>,
    w: int,
    x: int,
    len: int,
    colors: Seq<Rgba8>,
    covers: Seq<u8>,
    cover: u8,
) -> Seq<u8> {
    blend_run(row, x, run_count(x, len, w), colors_vals(colors, x), colors_alphas(colors, covers, cover))
}

/// The 8-bit accumulated distribution at position `j` of a span of `len`
/// covers.
pub open spec fn solid_cover(lut: LcdDistributionLut, covers: Seq<u8>, len: int, j: int) -> int {
    lut.distributed(covers, len, j) % 256
}

/// Weights of the sub-pixels of a distributed span, starting at position
/// `offset` of the distribution: its value times the colour alpha `a`.
pub open spec fn solid_alphas(
    lut: LcdDistributionLut,
    covers: Seq<u8>,
    len: int,
    offset: int,
    a: int,
) -> spec_fn(int) -> int {
    |k: int| solid_cover(lut, covers, len, offset + k) * a
}

/// Row `row` (of a buffer `w` pixels wide) after a span of `len` covers of
/// colour `c` at sub-pixel `x`: the covers spread over `len + 4` sub-pixels
/// from `x - 2` by the five-tap distribution, the part before sub-pixel 0
/// dropped, each then blended with the distributed value times `c.a`.
pub open spec fn solid_span_row(
    lut: LcdDistributionLut,
    row: Seq<u8>,
    w: int,
    x: int,
    len: int,
    covers: Seq<u8>,
    c: Rgba8,
) -> Seq<u8> {
    let first = x - 2;
    let dist_len = len + 4;
    if first < 0 && -first >= dist_len {
        row
    } else {
        let start = if first < 0 { 0 } else { first };
        let offset = start - first;
        blend_run(
            row,
            start,
            run_count(start, dist_len - offset, w),
            color_vals(c, start),
            solid_alphas(lut, covers, len, offset, c.a as int),
        )
    }
}

/// Whether a distributed span of `len` covers at `x` reaches sub-pixel 0
/// or beyond, so that its row is touched.
pub open spec fn span_reaches_row(x: int, len: int) -> bool {
    !(x - 2 < 0 && 2 - x >= len + 4)
}

/// With a table built by [`LcdDistributionLut::new`] the 8-bit accumulated
/// distribution never wraps: it is the exact sum of the taps.
pub proof fn lemma_solid_cover_exact(lut: LcdDistributionLut, covers: Seq<u8>, len: int, j: int)
    requires
        lut.wf(),
        lut.conserves(),
        lut.monotone(),
        0 <= len <= covers.len(),
    ensures
        solid_cover(lut, covers, len, j) == lut.distributed(covers, len, j),
{
    lut.lemma_distribution_fits(covers, len, j);
}

/// Blending a line of an opaque colour at full coverage has exactly the
/// effect of copying it: the row `blend_hline` leaves is the one
/// `copy_hline` leaves.
pub proof fn lemma_opaque_full_cover_hline_is_copy(row: Seq<u8>, x: int, len: int, w: int, c: Rgba8)
    requires
        c.a == 255,
    ensures
        lcd_hline_row(row, w, x, len, c, 255) == copy_hline_row(row, w, x, len, c),
{
}

/// Blending one sub-pixel inside the row is blending a line of length one
/// there.
pub proof fn lemma_blend_pixel_is_unit_hline(row: Seq<u8>, x: int, w: int, c: Rgba8, cover: int)
    requires
        0 <= x,
        x / 3 < w,
    ensures
        lcd_pixel_row(row, x, c, cover) == lcd_hline_row(row, w, x, 1, c, cover),
{
    assert(run_count(x, 1, w) == 1);
    assert(blend_run(row, x, 0, color_vals(c, x), const_alpha(cover * c.a)) == row);
}

/// In a run of own colours, sub-pixel `x + k` is blended with its own
/// colour `colors[k]` and its own cover `covers[k]` (or `cover` for all when
/// `covers` is empty), with weight cover times the colour's alpha, and from
/// its own old byte alone: a sub-pixel whose cover is 0 keeps its value.
pub proof fn lemma_color_hspan_stripe(
    row: Seq<u8>,
    x: int,
    len: int,
    w: int,
    colors: Seq<Rgba8>,
    covers: Seq<u8>,
    cover: u8,
    k: int,
)
    requires
        row.len() == 4 * w,
        0 <= x,
        0 <= k < run_count(x, len, w),
        colors.len() >= run_count(x, len, w),
        covers.len() == 0 || covers.len() >= run_count(x, len, w),
    ensures
        ({
            let n = run_count(x, len, w);
            let res = lcd_color_hspan_row(row, w, x, len, colors, covers, cover);
            let o = (x + k) / 3 * 4 + (x + k) % 3;
            let d = row[o] as int;
            let v = colors[k].channel_spec((x + k) % 3) as int;
            let cv = if covers.len() > 0 { covers[k] as int } else { cover as int };
            let a = cv * colors[k].a;
            &&& res[o] == (if a == 0 {
                d as u8
            } else if a == 255 * 255 {
                v as u8
            } else {
                (((v - d) * a + d * 65536) / 65536) as u8
            })
            &&& cv == 0 ==> res[o] == row[o]
        }),
{
    let n = run_count(x, len, w);
    lemma_blend_run_stripe(row, x, n, colors_vals(colors, x), colors_alphas(colors, covers, cover), k);
    let cv = if covers.len() > 0 { covers[k] as int } else { cover as int };
    assert(0 * colors[k].a == 0);
    if cv == 0 {
        assert(cv * colors[k].a == 0);
    }
}

/// In a line of colour `c`, sub-pixel `x + k` takes channel `(x + k) % 3`
/// of `c` with weight `cover * c.a`, from its own old byte alone; copying
/// the line writes that channel outright.
pub proof fn lemma_hline_stripe(row: Seq<u8>, x: int, len: int, w: int, c: Rgba8, cover: int, k: int)
    requires
        row.len() == 4 * w,
        0 <= x,
        0 <= k < run_count(x, len, w),
    ensures
        ({
            let n = run_count(x, len, w);
            let o = (x + k) / 3 * 4 + (x + k) % 3;
            let d = row[o] as int;
            let v = c.channel_spec((x + k) % 3) as int;
            let a = cover * c.a;
            &&& lcd_hline_row(row, w, x, len, c, cover)[o] == (if a == 0 {
                d as u8
            } else if a == 255 * 255 {
                v as u8
            } else {
                (((v - d) * a + d * 65536) / 65536) as u8
            })
            &&& copy_hline_row(row, w, x, len, c)[o] == v
        }),
{
    let n = run_count(x, len, w);
    lemma_blend_run_stripe(row, x, n, color_vals(c, x), const_alpha(cover * c.a), k);
    lemma_blend_run_stripe(row, x, n, color_vals(c, x), const_alpha(FULL_WEIGHT as int), k);
}

/// In a span of `len` covers at sub-pixel `x`, each sub-pixel `sp` of the
/// row from `x - 2` up to `x + len + 2` takes channel `sp % 3` of `c` with
/// weight (the 8-bit sum of the taps landing on position `sp - (x - 2)`)
/// times `c.a`, from its own old byte alone; colour bytes of sub-pixels
/// outside that range keep their value.
pub proof fn lemma_solid_span_stripe(
    lut: LcdDistributionLut,
    row: Seq<u8>,
    w: int,
    x: int,
    len: int,
    covers: Seq<u8>,
    c: Rgba8,
    sp: int,
)
    requires
        row.len() == 4 * w,
        -2 <= x,
        0 <= len,
        0 <= sp < 3 * w,
    ensures
        ({
            let res = solid_span_row(lut, row, w, x, len, covers, c);
            let o = sp / 3 * 4 + sp % 3;
            let d = row[o] as int;
            let v = c.channel_spec(sp % 3) as int;
            let a = (lut.distributed(covers, len, sp - (x - 2)) % 256) * c.a;
            &&& x - 2 <= sp < x + len + 2 ==> res[o] == (if a == 0 {
                d as u8
            } else if a == 255 * 255 {
                v as u8
            } else {
                (((v - d) * a + d * 65536) / 65536) as u8
            })
            &&& !(x - 2 <= sp < x + len + 2) ==> res[o] == row[o]
        }),
{
    let first = x - 2;
    let start = if first < 0 { 0 } else { first };
    let offset = start - first;
    let n = run_count(start, len + 4 - offset, w);
    let vals = color_vals(c, start);
    let alphas = solid_alphas(lut, covers, len, offset, c.a as int);
    let o = sp / 3 * 4 + sp % 3;
    if start <= sp < start + n {
        lemma_blend_run_stripe(row, start, n, vals, alphas, sp - start);
    } else if n > 0 {
        assert forall|j: int| 0 <= j < n implies #[trigger] stripe_offset(start + j) != o by {}
        lemma_blend_run_untouched(row, start, n, vals, alphas, o);
    }
}

/// Sub-pixel `sp` of row `y` of `rbuf` blended towards `v` with the
/// combined weight `alpha`; a zero weight changes nothing.
pub(crate) fn blend_stripe_into(rbuf: &mut RowAccessor, y: u32, sp: usize, v: u8, alpha: i32)
    requires
        old(rbuf).wf(),
        y < old(rbuf).h(),
        sp < 3 * old(rbuf).w(),
        0 <= alpha <= FULL_WEIGHT,
    ensures
        final(rbuf).wf(),
        final(rbuf).w() == old(rbuf).w(),
        final(rbuf).h() == old(rbuf).h(),
        final(rbuf)@ == old(rbuf)@.update(y as int, blend_stripe(old(rbuf)@[y as int], sp as int, v, alpha as int)),
{
    proof { rbuf.lemma_rows(); }
    if alpha != 0 {
        let pixel = sp / 3;
        let channel = sp % 3;
        let byte_off = pixel * BPP + channel;
        let ghost row0 = old(rbuf)@[y as int];
        let ghost nv: u8 = if alpha == FULL_WEIGHT { v } else { blend_value(row0[byte_off as int] as int, v as int, alpha as int) as u8 };
        if alpha == FULL_WEIGHT {
            rbuf.set(y, byte_off, v);
        } else {
            let d = rbuf.get(y, byte_off);
            rbuf.set(y, byte_off, PixfmtRgba32Lcd::blend_byte(d, v, alpha));
        }
        rbuf.set(y, pixel * BPP + 3, 255);
        proof {
            assert(rbuf@[y as int] =~= row0.update(byte_off as int, nv).update(pixel * 4 + 3, 255));
            assert(rbuf@ =~= old(rbuf)@.update(y as int, blend_stripe(row0, sp as int, v, alpha as int)));
        }
    }
}

/// Distributing one more cover adds its tap to the five positions it
/// reaches and nothing elsewhere.
pub proof fn lemma_distributed_step(lut: LcdDistributionLut, covers: Seq<u8>, n: int, j: int)
    requires
        0 <= n < covers.len(),
    ensures
        lut.distributed(covers, n + 1, j) == lut.distributed(covers, n, j) + (if n <= j < n + 5 {
            lut.tap(j - n, covers[n])
        } else {
            0
        }),
{
}

/// One more tap added to an 8-bit accumulator of a distribution, with
/// wrap-around, is the accumulator of the larger sum.
proof fn lemma_wrapping_step(acc: u8, d: int, tap: u8)
    requires
        acc == d % 256,
    ensures
        vstd::wrapping::u8_specs::wrapping_add(acc, tap) == (d + tap) % 256,
{
    lemma_add_mod_noop(d, tap as int, 256);
}

/// Fills `c3` with the five-tap distribution of the first `len` covers:
/// `len + 4` positions, position `i + t` accumulating tap `t` of cover `i`
/// (tertiary, secondary, primary, secondary, tertiary) in 8 bits.
pub(crate) fn distribute_covers(lut: &LcdDistributionLut, covers: &[CoverType], len: usize, c3: &mut Vec<u8>)
    requires
        lut.wf(),
        covers@.len() >= len,
        len + 4 <= usize::MAX,
    ensures
        final(c3)@.len() == len + 4,
        forall|j: int| 0 <= j < len + 4 ==> #[trigger] final(c3)@[j] == solid_cover(*lut, covers@, len as int, j),
{
    let dist_len = len + 4;
    c3.clear();
    c3.resize(dist_len, 0);
    proof {
        assert forall|j: int| 0 <= j < dist_len implies #[trigger] c3@[j] == solid_cover(*lut, covers@, 0, j) by {
            assert(c3@[j] == 0);
        }
    }
    let mut i: usize = 0;
    while i < len
        invariant
            lut.wf(),
            i <= len,
            len <= covers@.len(),
            dist_len == len + 4,
            c3@.len() == dist_len,
            forall|j: int| 0 <= j < dist_len ==> #[trigger] c3@[j] == solid_cover(*lut, covers@, i as int, j),
        decreases len - i,
    {
        let cv = covers[i];
        let t = lut.tertiary(cv);
        let s = lut.secondary(cv);
        let p = lut.primary(cv);
        let ghost before = c3@;
        c3.set(i, c3[i].wrapping_add(t));
        c3.set(i + 1, c3[i + 1].wrapping_add(s));
        c3.set(i + 2, c3[i + 2].wrapping_add(p));
        c3.set(i + 3, c3[i + 3].wrapping_add(s));
        c3.set(i + 4, c3[i + 4].wrapping_add(t));
        proof {
            assert forall|j: int| 0 <= j < dist_len implies #[trigger] c3@[j] == solid_cover(*lut, covers@, i + 1, j) by {
                lemma_distributed_step(*lut, covers@, i as int, j);
                let d = lut.distributed(covers@, i as int, j);
                if i <= j < i + 5 {
                    let tp: u8 = if j - i == 2 {
                        p
                    } else if j - i == 1 || j - i == 3 {
                        s
                    } else {
                        t
                    };
                    assert(lut.tap(j - i, cv) == tp);
                    lemma_wrapping_step(before[j], d, tp);
                }
            }
        }
        i += 1;
    }
}

impl<'a> PixfmtRgba32Lcd<'a> {
    /// The rendering buffer drawn into.
    pub closed spec fn buffer(&self) -> RowAccessor {
        self.rbuf
    }

    /// The coverage distribution table used by spans.
    pub closed spec fn distribution(&self) -> LcdDistributionLut {
        *self.lut
    }

    /// The buffer and the table are well formed.
    pub open spec fn wf(&self) -> bool {
        &&& self.buffer().wf()
        &&& self.distribution().wf()
    }

    /// The rows a span of `len` covers of colour `c` at sub-pixel `x` of
    /// row `y` leaves: a function of the buffer, the table and the
    /// arguments alone.
    pub open spec fn span_rows(&self, x: int, y: int, len: int, covers: Seq<u8>, c: Rgba8) -> Seq<Seq<u8>> {
        if span_reaches_row(x, len) {
            self.buffer()@.update(
                y,
                solid_span_row(self.distribution(), self.buffer()@[y], self.buffer().w() as int, x, len, covers, c),
            )
        } else {
            self.buffer()@
        }
    }

    /// Whatever spans a format has drawn before, the next span leaves the
    /// rows a fresh format over the same buffer and table would: the reused
    /// scratch buffer carries no state between spans.
    pub proof fn lemma_span_ignores_history(
        a: Self,
        b: Self,
        x: int,
        y: int,
        len: int,
        covers: Seq<u8>,
        c: Rgba8,
    )
        requires
            a.buffer()@ == b.buffer()@,
            a.buffer().w() == b.buffer().w(),
            a.distribution() == b.distribution(),
        ensures
            a.span_rows(x, y, len, covers, c) == b.span_rows(x, y, len, covers, c),
    {
    }

    /// Creates an LCD pixel format drawing into `rbuf` with the distribution
    /// table `lut`.
    pub fn new(rbuf: RowAccessor, lut: &'a LcdDistributionLut) -> (pf: Self)
        ensures
            pf.buffer() == rbuf,
            pf.distribution() == *lut,
    {
        PixfmtRgba32Lcd { rbuf, lut, c3: Vec::with_capacity(SPAN_SCRATCH) }
    }

    /// The rendering buffer drawn into.
    pub fn rbuf(&self) -> (r: &RowAccessor)
        ensures
            *r == self.buffer(),
    {
        &self.rbuf
    }

    /// Gives back the rendering buffer.
    pub fn into_rbuf(self) -> (r: RowAccessor)
        ensures
            r == self.buffer(),
    {
        self.rbuf
    }

    /// The actual (whole-pixel) width.
    fn actual_width(&self) -> (w: u32)
        ensures
            w == self.buffer().w(),
    {
        self.rbuf.width()
    }

    /// Blends byte `dst` towards `src` by `alpha / 65536`:
    /// `(((src - dst) * alpha) + (dst << 16)) >> 16`.
    fn blend_byte(dst: u8, src: u8, alpha: i32) -> (r: u8)
        requires
            0 <= alpha <= 65536,
        ensures
            r == blend_value(dst as int, src as int, alpha as int),
    {
        let d = dst as i32;
        let s = src as i32;
        proof {
            assert(d << 16 == d * 65536) by (bit_vector)
                requires 0 <= d <= 255;
            let n = (s - d) * alpha + d * 65536;
            assert(n == d * (65536 - alpha) + s * alpha) by (nonlinear_arith)
                requires n == (s - d) * alpha + d * 65536;
            assert(0 <= n <= 255 * 65536) by (nonlinear_arith)
                requires n == d * (65536 - alpha) + s * alpha, 0 <= d <= 255, 0 <= s <= 255, 0 <= alpha <= 65536;
        }
        let n: i32 = (s - d) * alpha + (d << 16);
        proof {
            assert(n >> 16 == n / 65536) by (bit_vector)
                requires 0 <= n;
            assert(n / 65536 <= 255) by (nonlinear_arith)
                requires 0 <= n <= 255 * 65536;
        }
        (n >> 16) as u8
    }

    /// The width in sub-pixels: three per pixel.
    pub fn width(&self) -> (w: u32)
        requires
            self.buffer().w() * 3 <= u32::MAX,
        ensures
            w == self.buffer().w() * 3,
    {
        self.rbuf.width() * 3
    }

    /// The height in rows.
    pub fn height(&self) -> (h: u32)
        ensures
            h == self.buffer().h(),
    {
        self.rbuf.height()
    }

    /// The colour of the pixel that holds sub-pixel `x` of row `y`;
    /// transparent black when `x` is outside the row.
    pub fn pixel(&self, x: i32, y: i32) -> (c: Rgba8)
        requires
            self.wf(),
            0 <= x && x / 3 < self.buffer().w() ==> 0 <= y < self.buffer().h(),
        ensures
            0 <= x && x / 3 < self.buffer().w() ==> c == pixel_at(self.buffer()@[y as int], self.buffer().w() as int, x as int),
            !(0 <= x && x / 3 < self.buffer().w()) ==> c == (Rgba8 { r: 0, g: 0, b: 0, a: 0 }),
    {
        let actual_w = self.actual_width() as usize;
        if x < 0 || x as usize / 3 >= actual_w {
            return Rgba8::new(0, 0, 0, 0);
        }
        let pixel = x as usize / 3;
        let off = pixel * BPP;
        let yy = y as u32;
        Rgba8::new(
            self.rbuf.get(yy, off) as u32,
            self.rbuf.get(yy, off + 1) as u32,
            self.rbuf.get(yy, off + 2) as u32,
            self.rbuf.get(yy, off + 3) as u32,
        )
    }

    /// Sets the pixel that holds sub-pixel `x` of row `y` to `c`, all four
    /// channels; nothing when `x` is outside the row.
    pub fn copy_pixel(&mut self, x: i32, y: i32, c: &Rgba8)
        requires
            old(self).wf(),
            0 <= x && x / 3 < old(self).buffer().w() ==> 0 <= y < old(self).buffer().h(),
        ensures
            final(self).wf(),
            final(self).distribution() == old(self).distribution(),
            final(self).buffer().w() == old(self).buffer().w(),
            final(self).buffer().h() == old(self).buffer().h(),
            0 <= x && x / 3 < old(self).buffer().w() ==> final(self).buffer()@ == old(self).buffer()@.update(
                y as int,
                write_pixel(old(self).buffer()@[y as int], x / 3, *c),
            ),
            !(0 <= x && x / 3 < old(self).buffer().w()) ==> final(self).buffer()@ == old(self).buffer()@,
    {
        proof { self.rbuf.lemma_rows(); }
        let actual_w = self.actual_width() as usize;
        if x < 0 || x as usize / 3 >= actual_w {
            return;
        }
        let pixel = x as usize / 3;
        let off = pixel * BPP;
        let yy = y as u32;
        let ghost row0 = self.rbuf@[y as int];
        self.rbuf.set(yy, off, c.r);
        self.rbuf.set(yy, off + 1, c.g);
        self.rbuf.set(yy, off + 2, c.b);
        self.rbuf.set(yy, off + 3, c.a);
        proof {
            assert(self.rbuf@ =~= old(self).buffer()@.update(y as int, write_pixel(row0, x / 3, *c)));
        }
    }

    /// Sets `len` sub-pixels of row `y` from sub-pixel `x` to the matching
    /// channel of `c`, making each touched pixel opaque; stops at the end of
    /// the row.
    pub fn copy_hline(&mut self, x: i32, y: i32, len: u32, c: &Rgba8)
        requires
            old(self).wf(),
            0 <= y < old(self).buffer().h(),
        ensures
            final(self).wf(),
            final(self).distribution() == old(self).distribution(),
            final(self).buffer().w() == old(self).buffer().w(),
            final(self).buffer().h() == old(self).buffer().h(),
            final(self).buffer()@ == old(self).buffer()@.update(
                y as int,
                copy_hline_row(old(self).buffer()@[y as int], old(self).buffer().w() as int, x as int, len as int, *c),
            ),
    {
        proof { self.rbuf.lemma_rows(); }
        let ghost rows0 = self.rbuf@;
        let ghost w = self.rbuf.w() as int;
        let actual_w = self.actual_width() as usize;
        let yy = y as u32;
        if x < 0 {
            return;
        }
        let xs = x as usize;
        let mut k: usize = 0;
        while k < len as usize
            invariant
                self.wf(),
                self.distribution() == old(self).distribution(),
                self.rbuf.w() == w,
                self.rbuf.h() == rows0.len(),
                actual_w == w,
                xs == x,
                0 <= yy < rows0.len(),
                rows0 == old(self).buffer()@,
                k <= run_count(x as int, len as int, w),
                self.rbuf@ == rows0.update(
                    yy as int,
                    blend_run(rows0[yy as int], x as int, k as nat, color_vals(*c, x as int), const_alpha(FULL_WEIGHT as int)),
                ),
            ensures
                k == run_count(x as int, len as int, w),
                self.rbuf@ == rows0.update(
                    yy as int,
                    blend_run(rows0[yy as int], x as int, k as nat, color_vals(*c, x as int), const_alpha(FULL_WEIGHT as int)),
                ),
            decreases len - k,
        {
            let sp = xs + k;
            let pixel = sp / 3;
            let channel = sp % 3;
            if pixel >= actual_w {
                break;
            }
            let v = if channel == 0 {
                c.r
            } else if channel == 1 {
                c.g
            } else {
                c.b
            };
            blend_stripe_into(&mut self.rbuf, yy, sp, v, FULL_WEIGHT);
            proof {
                assert(self.rbuf@ =~= rows0.update(
                    yy as int,
                    blend_run(rows0[yy as int], x as int, (k + 1) as nat, color_vals(*c, x as int), const_alpha(FULL_WEIGHT as int)),
                ));
            }
            k += 1;
        }
    }

    /// Blends colour `c` with coverage `cover` into sub-pixel `x` of row
    /// `y`; nothing when `x` is outside the row.
    pub fn blend_pixel(&mut self, x: i32, y: i32, c: &Rgba8, cover: CoverType)
        requires
            old(self).wf(),
            0 <= x && x / 3 < old(self).buffer().w() ==> 0 <= y < old(self).buffer().h(),
        ensures
            final(self).wf(),
            final(self).distribution() == old(self).distribution(),
            final(self).buffer().w() == old(self).buffer().w(),
            final(self).buffer().h() == old(self).buffer().h(),
            0 <= x && x / 3 < old(self).buffer().w() ==> final(self).buffer()@ == old(self).buffer()@.update(
                y as int,
                lcd_pixel_row(old(self).buffer()@[y as int], x as int, *c, cover as int),
            ),
            !(0 <= x && x / 3 < old(self).buffer().w()) ==> final(self).buffer()@ == old(self).buffer()@,
    {
        proof { self.rbuf.lemma_rows(); }
        if x < 0 {
            return;
        }
        let sp = x as usize;
        let pixel = sp / 3;
        let channel = sp % 3;
        let actual_w = self.actual_width() as usize;
        if pixel >= actual_w {
            return;
        }
        let v = if channel == 0 {
            c.r
        } else if channel == 1 {
            c.g
        } else {
            c.b
        };
        proof {
            assert(cover * c.a <= 255 * 255) by (nonlinear_arith)
                requires cover <= 255, c.a <= 255;
        }
        let alpha = cover as i32 * c.a as i32;
        blend_stripe_into(&mut self.rbuf, y as u32, sp, v, alpha);
    }

    /// Blends colour `c` with coverage `cover` into `len` sub-pixels of row
    /// `y` from sub-pixel `x`; stops at the end of the row.
    pub fn blend_hline(&mut self, x: i32, y: i32, len: u32, c: &Rgba8, cover: CoverType)
        requires
            old(self).wf(),
            0 <= y < old(self).buffer().h(),
        ensures
            final(self).wf(),
            final(self).distribution() == old(self).distribution(),
            final(self).buffer().w() == old(self).buffer().w(),
            final(self).buffer().h() == old(self).buffer().h(),
            final(self).buffer()@ == old(self).buffer()@.update(
                y as int,
                lcd_hline_row(old(self).buffer()@[y as int], old(self).buffer().w() as int, x as int, len as int, *c, cover as int),
            ),
    {
        proof { self.rbuf.lemma_rows(); }
        let ghost rows0 = self.rbuf@;
        let ghost w = self.rbuf.w() as int;
        let actual_w = self.actual_width() as usize;
        let yy = y as u32;
        proof {
            assert(cover * c.a <= 255 * 255) by (nonlinear_arith)
                requires cover <= 255, c.a <= 255;
        }
        let alpha = cover as i32 * c.a as i32;
        if alpha == 0 {
            proof {
                lemma_blend_run_zero(rows0[y as int], x as int, run_count(x as int, len as int, w), color_vals(*c, x as int));
                assert(rows0.update(y as int, rows0[y as int]) =~= rows0);
            }
            return;
        }
        if x < 0 {
            proof {
                assert(rows0.update(y as int, rows0[y as int]) =~= rows0);
            }
            return;
        }
        let xs = x as usize;
        let mut k: usize = 0;
        while k < len as usize
            invariant
                self.wf(),
                self.distribution() == old(self).distribution(),
                self.rbuf.w() == w,
                self.rbuf.h() == rows0.len(),
                actual_w == w,
                xs == x,
                0 <= yy < rows0.len(),
                rows0 == old(self).buffer()@,
                0 <= alpha <= FULL_WEIGHT,
                alpha == cover * c.a,
                k <= run_count(x as int, len as int, w),
                self.rbuf@ == rows0.update(
                    yy as int,
                    blend_run(rows0[yy as int], x as int, k as nat, color_vals(*c, x as int), const_alpha(alpha as int)),
                ),
            ensures
                k == run_count(x as int, len as int, w),
                self.rbuf@ == rows0.update(
                    yy as int,
                    blend_run(rows0[yy as int], x as int, k as nat, color_vals(*c, x as int), const_alpha(alpha as int)),
                ),
            decreases len - k,
        {
            let sp = xs + k;
            let pixel = sp / 3;
            let channel = sp % 3;
            if pixel >= actual_w {
                break;
            }
            let v = if channel == 0 {
                c.r
            } else if channel == 1 {
                c.g
            } else {
                c.b
            };
            blend_stripe_into(&mut self.rbuf, yy, sp, v, alpha);
            proof {
                assert(self.rbuf@ =~= rows0.update(
                    yy as int,
                    blend_run(rows0[yy as int], x as int, (k + 1) as nat, color_vals(*c, x as int), const_alpha(alpha as int)),
                ));
            }
            k += 1;
        }
    }

    /// Blends `len` sub-pixels of row `y` from sub-pixel `x`, each towards
    /// its own colour `colors[k]` with coverage `covers[k]`, or `cover` for
    /// all when `covers` is empty; stops at the end of the row.
    pub fn blend_color_hspan(
        &mut self,
        x: i32,
        y: i32,
        len: u32,
        colors: &[Rgba8],
        covers: &[CoverType],
        cover: CoverType,
    )
        requires
            old(self).wf(),
            0 <= y < old(self).buffer().h(),
            colors@.len() >= run_count(x as int, len as int, old(self).buffer().w() as int),
            covers@.len() == 0 || covers@.len() >= run_count(x as int, len as int, old(self).buffer().w() as int),
        ensures
            final(self).wf(),
            final(self).distribution() == old(self).distribution(),
            final(self).buffer().w() == old(self).buffer().w(),
            final(self).buffer().h() == old(self).buffer().h(),
            final(self).buffer()@ == old(self).buffer()@.update(
                y as int,
                lcd_color_hspan_row(old(self).buffer()@[y as int], old(self).buffer().w() as int, x as int, len as int, colors@, covers@, cover),
            ),
    {
        proof { self.rbuf.lemma_rows(); }
        let ghost rows0 = self.rbuf@;
        let ghost w = self.rbuf.w() as int;
        let actual_w = self.actual_width() as usize;
        let yy = y as u32;
        if x < 0 {
            proof {
                assert(rows0.update(y as int, rows0[y as int]) =~= rows0);
            }
            return;
        }
        let xs = x as usize;
        let mut k: usize = 0;
        while k < len as usize
            invariant
                self.wf(),
                self.distribution() == old(self).distribution(),
                self.rbuf.w() == w,
                self.rbuf.h() == rows0.len(),
                actual_w == w,
                xs == x,
                0 <= yy < rows0.len(),
                rows0 == old(self).buffer()@,
                colors@.len() >= run_count(x as int, len as int, w),
                covers@.len() == 0 || covers@.len() >= run_count(x as int, len as int, w),
                k <= run_count(x as int, len as int, w),
                self.rbuf@ == rows0.update(
                    yy as int,
                    blend_run(rows0[yy as int], x as int, k as nat, colors_vals(colors@, x as int), colors_alphas(colors@, covers@, cover)),
                ),
            ensures
                k == run_count(x as int, len as int, w),
                self.rbuf@ == rows0.update(
                    yy as int,
                    blend_run(rows0[yy as int], x as int, k as nat, colors_vals(colors@, x as int), colors_alphas(colors@, covers@, cover)),
                ),
            decreases len - k,
        {
            let sp = xs + k;
            let pixel = sp / 3;
            let channel = sp % 3;
            if pixel >= actual_w {
                break;
            }
            let c = &colors[k];
            let cov = if covers.len() != 0 {
                covers[k]
            } else {
                cover
            };
            let v = if channel == 0 {
                c.r
            } else if channel == 1 {
                c.g
            } else {
                c.b
            };
            proof {
                assert(cov * c.a <= 255 * 255) by (nonlinear_arith)
                    requires cov <= 255, c.a <= 255;
            }
            let alpha = cov as i32 * c.a as i32;
            blend_stripe_into(&mut self.rbuf, yy, sp, v, alpha);
            proof {
                assert(self.rbuf@ =~= rows0.update(
                    yy as int,
                    blend_run(rows0[yy as int], x as int, (k + 1) as nat, colors_vals(colors@, x as int), colors_alphas(colors@, covers@, cover)),
                ));
            }
            k += 1;
        }
    }

    /// Blends a span of `len` covers of colour `c` at sub-pixel `x` of row
    /// `y`: each cover is spread over five neighbouring sub-pixels (tertiary,
    /// secondary, primary, secondary, tertiary) by the distribution table,
    /// the sums accumulated in 8 bits, and each of the `len + 4` sub-pixels
    /// from `x - 2` that lie in the row blended with its sum times `c.a`.
    pub fn blend_solid_hspan(&mut self, x: i32, y: i32, len: u32, c: &Rgba8, covers: &[CoverType])
        requires
            old(self).wf(),
            covers@.len() >= len,
            len + 4 <= usize::MAX,
            x > i32::MIN + 2,
            span_reaches_row(x as int, len as int) ==> 0 <= y < old(self).buffer().h(),
        ensures
            final(self).wf(),
            final(self).distribution() == old(self).distribution(),
            final(self).buffer().w() == old(self).buffer().w(),
            final(self).buffer().h() == old(self).buffer().h(),
            span_reaches_row(x as int, len as int) ==> final(self).buffer()@ == old(self).buffer()@.update(
                y as int,
                solid_span_row(
                    old(self).distribution(),
                    old(self).buffer()@[y as int],
                    old(self).buffer().w() as int,
                    x as int,
                    len as int,
                    covers@,
                    *c,
                ),
            ),
            !span_reaches_row(x as int, len as int) ==> final(self).buffer()@ == old(self).buffer()@,
            final(self).buffer()@ == old(self).span_rows(x as int, y as int, len as int, covers@, *c),
    {
        proof { self.rbuf.lemma_rows(); }
        let ghost lut = *self.lut;
        let ghost rows0 = self.rbuf@;
        let ghost w = self.rbuf.w() as int;
        let len = len as usize;

        // Step 1: distribute the coverage over the five-tap kernel, reusing
        // the scratch buffer (handed back before returning).
        let dist_len = len + 4;
        let mut c3: Vec<u8> = Vec::new();
        std::mem::swap(&mut c3, &mut self.c3);
        distribute_covers(self.lut, covers, len, &mut c3);

        // Step 2: the distribution starts two sub-pixels before `x`.
        let mut sp_start: i32 = x - 2;
        let mut c3_offset: usize = 0;
        let mut remaining: usize = dist_len;
        if sp_start < 0 {
            let skip = (-sp_start) as usize;
            c3_offset = skip;
            if skip >= remaining {
                self.c3 = c3;
                return;
            }
            remaining -= skip;
            sp_start = 0;
        }

        // Step 3: blend the distributed coverage into the row.
        let actual_w = self.actual_width() as usize;
        let yy = y as u32;
        let start = sp_start as usize;
        let ghost vals = color_vals(*c, start as int);
        let ghost alphas = solid_alphas(lut, covers@, len as int, c3_offset as int, c.a as int);
        let mut k: usize = 0;
        while k < remaining
            invariant
                self.wf(),
                *self.lut == lut,
                self.rbuf.w() == w,
                self.rbuf.h() == rows0.len(),
                rows0 == old(self).buffer()@,
                actual_w == w,
                0 <= yy < rows0.len(),
                yy == y,
                c3@.len() == dist_len,
                dist_len == len + 4,
                c3_offset + remaining == dist_len,
                forall|j: int| 0 <= j < dist_len ==> #[trigger] c3@[j] == solid_cover(lut, covers@, len as int, j),
                vals == color_vals(*c, start as int),
                alphas == solid_alphas(lut, covers@, len as int, c3_offset as int, c.a as int),
                k <= run_count(start as int, remaining as int, w),
                self.rbuf@ == rows0.update(yy as int, blend_run(rows0[yy as int], start as int, k as nat, vals, alphas)),
            ensures
                k == run_count(start as int, remaining as int, w),
                self.rbuf@ == rows0.update(yy as int, blend_run(rows0[yy as int], start as int, k as nat, vals, alphas)),
            decreases remaining - k,
        {
            let sp = start + k;
            let pixel = sp / 3;
            let channel = sp % 3;
            if pixel >= actual_w {
                break;
            }
            let cover = c3[c3_offset + k];
            proof {
                assert(cover * c.a <= 255 * 255) by (nonlinear_arith)
                    requires cover <= 255, c.a <= 255;
            }
            let alpha = cover as i32 * c.a as i32;
            let v = if channel == 0 {
                c.r
            } else if channel == 1 {
                c.g
            } else {
                c.b
            };
            blend_stripe_into(&mut self.rbuf, yy, sp, v, alpha);
            proof {
                assert(self.rbuf@ =~= rows0.update(
                    yy as int,
                    blend_run(rows0[yy as int], start as int, (k + 1) as nat, vals, alphas),
                ));
            }
            k += 1;
        }
        self.c3 = c3;
    }
}

} // verus!

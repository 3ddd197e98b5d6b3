use lcd_subpixel::color::Rgba8;
use lcd_subpixel::distribution::LcdDistributionLut;
use lcd_subpixel::lcd::PixfmtRgba32Lcd;
use lcd_subpixel::lcd_linear::{LcdBlendParams, PixfmtRgba32LcdLinear};
use lcd_subpixel::rendering_buffer::RowAccessor;
use lcd_subpixel::srgb::SrgbLuts;

const BPP: u32 = 4;

fn make_buffer(w: u32, h: u32) -> RowAccessor {
    let buf = vec![255u8; (h * w * BPP) as usize];
    RowAccessor::attach(buf, w, h).unwrap()
}

fn make_buffer_colored(w: u32, h: u32, rgba: [u8; 4]) -> RowAccessor {
    let mut buf = Vec::with_capacity((h * w * BPP) as usize);
    for _ in 0..(h * w) {
        buf.extend_from_slice(&rgba);
    }
    RowAccessor::attach(buf, w, h).unwrap()
}

/// The coverage tone table for `coverage_gamma`, computed directly.
fn reference_tone(coverage_gamma: u8) -> [u8; 256] {
    let g = f64::from(coverage_gamma.max(1)) / 100.0;
    let inv = 1.0 / g;
    let mut lut = [0u8; 256];
    for (i, e) in lut.iter_mut().enumerate() {
        *e = ((i as f64 / 255.0).powf(inv) * 255.0).round() as u8;
    }
    lut
}

// ---------------------------------------------------------------------------
// Distribution table
// ---------------------------------------------------------------------------

#[test]
fn test_lcd_distribution_lut_construction() {
    // Default weights from the demo: primary=1/3, secondary=2/9, tertiary=1/9,
    // that is 3 : 2 : 1.
    let lut = LcdDistributionLut::new(3, 2, 1);

    // Coverage 0 should distribute to 0
    assert_eq!(lut.primary(0), 0);
    assert_eq!(lut.secondary(0), 0);
    assert_eq!(lut.tertiary(0), 0);

    // Coverage 255 should distribute fully
    let total = lut.primary(255) as u32 + 2 * lut.secondary(255) as u32 + 2 * lut.tertiary(255) as u32;
    // Due to flooring, total may be slightly less than 255
    assert!(total <= 255);
    assert!(total >= 250, "total distribution = {}", total);
}

#[test]
fn test_lcd_distribution_lut_normalization() {
    // Custom weights that don't sum to 1
    let lut = LcdDistributionLut::new(3, 2, 1);
    // After normalization: prim=3/9, sec=2/9, tert=1/9
    // primary(255) = floor(3/9 * 255) = floor(85) = 85
    assert_eq!(lut.primary(255), 85);
}

#[test]
fn distribution_entries_are_floored_shares() {
    let lut = LcdDistributionLut::new(3, 2, 1);
    assert_eq!(lut.secondary(255), 56); // floor(2 * 255 / 9)
    assert_eq!(lut.tertiary(255), 28); // floor(255 / 9)
    assert_eq!(lut.primary(100), 33); // floor(300 / 9)
    assert_eq!(lut.secondary(100), 22); // floor(200 / 9)
    assert_eq!(lut.tertiary(100), 11); // floor(100 / 9)
}

#[test]
fn distribution_never_exceeds_coverage_and_loses_under_five() {
    for (p, s, t) in [(3u32, 2u32, 1u32), (1, 0, 0), (7, 5, 3), (1, 1, 1), (4_000_000_000, 1, 4_000_000_000)] {
        let lut = LcdDistributionLut::new(p, s, t);
        for v in 0..=255u8 {
            let total = lut.primary(v) as u32 + 2 * lut.secondary(v) as u32 + 2 * lut.tertiary(v) as u32;
            assert!(total <= v as u32, "weights {p}:{s}:{t} coverage {v}");
            assert!(total + 5 > v as u32, "weights {p}:{s}:{t} coverage {v}");
        }
    }
}

#[test]
fn distribution_tables_are_monotone() {
    let lut = LcdDistributionLut::new(7, 5, 3);
    for v in 1..=255u8 {
        assert!(lut.primary(v - 1) <= lut.primary(v));
        assert!(lut.secondary(v - 1) <= lut.secondary(v));
        assert!(lut.tertiary(v - 1) <= lut.tertiary(v));
    }
}

#[test]
fn zero_weights_distribute_nothing() {
    let lut = LcdDistributionLut::new(0, 0, 0);
    for v in 0..=255u8 {
        assert_eq!(lut.primary(v), 0);
        assert_eq!(lut.secondary(v), 0);
        assert_eq!(lut.tertiary(v), 0);
    }
}

#[test]
fn identity_distribution_keeps_coverage_on_the_primary() {
    let lut = LcdDistributionLut::new(1, 0, 0);
    for v in 0..=255u8 {
        assert_eq!(lut.primary(v), v);
        assert_eq!(lut.secondary(v), 0);
        assert_eq!(lut.tertiary(v), 0);
    }
}

// ---------------------------------------------------------------------------
// Rendering buffer
// ---------------------------------------------------------------------------

#[test]
fn attach_checks_the_buffer_length() {
    assert!(RowAccessor::attach(vec![0u8; 4 * 3 * 2], 3, 2).is_some());
    assert!(RowAccessor::attach(vec![0u8; 4 * 3 * 2 - 1], 3, 2).is_none());
    assert!(RowAccessor::attach(vec![0u8; 4 * 3 * 2 + 4], 3, 2).is_none());
    assert!(RowAccessor::attach(Vec::new(), 0, 5).is_some());
}

#[test]
fn rows_are_laid_out_one_after_another() {
    let mut ra = make_buffer(2, 3);
    assert_eq!((ra.width(), ra.height()), (2, 3));
    ra.set(1, 5, 7);
    assert_eq!(ra.get(1, 5), 7);
    assert_eq!(ra.get(0, 5), 255);
    let bytes = ra.into_vec();
    assert_eq!(bytes.len(), 24);
    assert_eq!(bytes[8 + 5], 7);
}

// ---------------------------------------------------------------------------
// sRGB-space LCD format
// ---------------------------------------------------------------------------

#[test]
fn test_pixfmt_lcd_width_height() {
    let ra = make_buffer(100, 50);
    let lut = LcdDistributionLut::new(3, 2, 1);
    let pf = PixfmtRgba32Lcd::new(ra, &lut);
    assert_eq!(pf.width(), 300); // 100 * 3
    assert_eq!(pf.height(), 50);
}

#[test]
fn test_lcd_blend_solid_hspan_black_on_white() {
    // Blend black text on white background — should darken the pixels
    let ra = make_buffer(100, 10);
    let lut = LcdDistributionLut::new(3, 2, 1);
    let mut pf = PixfmtRgba32Lcd::new(ra, &lut);

    // Full-coverage span of 6 subpixels at position 30 (pixel 10)
    let covers = [255u8; 6];
    let black = Rgba8::new(0, 0, 0, 255);
    pf.blend_solid_hspan(30, 5, 6, &black, &covers);

    // The affected pixels should be darker than 255 (white)
    let p = pf.pixel(30, 5); // pixel 10
    assert!(p.r < 255 || p.g < 255 || p.b < 255, "Expected darkened pixel, got {:?}", (p.r, p.g, p.b));
}

#[test]
fn solid_span_exact_values() {
    // Identity distribution: each cover lands on its own sub-pixel only.
    let ra = make_buffer(4, 1);
    let lut = LcdDistributionLut::new(1, 0, 0);
    let mut pf = PixfmtRgba32Lcd::new(ra, &lut);
    let covers = [255u8, 128, 0];
    pf.blend_solid_hspan(3, 0, 3, &Rgba8::new(0, 0, 0, 255), &covers);
    let p = pf.pixel(3, 0);
    // 255 * 255 writes the colour; 128 * 255 = 32640 blends 255 towards 0:
    // (-255 * 32640 + 255 * 65536) >> 16 = 127; 0 leaves the stripe.
    assert_eq!((p.r, p.g, p.b, p.a), (0, 127, 255, 255));
    // neighbours untouched
    assert_eq!(pf.pixel(0, 0), Rgba8::new(255, 255, 255, 255));
    assert_eq!(pf.pixel(6, 0), Rgba8::new(255, 255, 255, 255));
}

#[test]
fn solid_span_spreads_over_five_taps() {
    // 3 : 2 : 1 weights; one full cover at sub-pixel 6 reaches 4..=8.
    let ra = make_buffer(4, 1);
    let lut = LcdDistributionLut::new(3, 2, 1);
    let mut pf = PixfmtRgba32Lcd::new(ra, &lut);
    pf.blend_solid_hspan(6, 0, 1, &Rgba8::new(0, 0, 0, 255), &[255u8]);
    // taps: tertiary 28, secondary 56, primary 85, secondary 56, tertiary 28
    let blend = |cover: u32| -> u8 { ((255i64 * 65536 - 255 * (cover as i64) * 255) >> 16) as u8 };
    let p1 = pf.pixel(3, 0); // sub-pixels 3, 4, 5
    assert_eq!((p1.r, p1.g, p1.b), (255, blend(28), blend(56)));
    let p2 = pf.pixel(6, 0); // sub-pixels 6, 7, 8
    assert_eq!((p2.r, p2.g, p2.b), (blend(85), blend(56), blend(28)));
    assert_eq!(pf.pixel(0, 0), Rgba8::new(255, 255, 255, 255));
    assert_eq!(pf.pixel(9, 0), Rgba8::new(255, 255, 255, 255));
}

#[test]
fn solid_span_clips_at_both_ends() {
    let ra = make_buffer(2, 1);
    let lut = LcdDistributionLut::new(1, 0, 0);
    let mut pf = PixfmtRgba32Lcd::new(ra, &lut);
    // Starts left of the row: the first two sub-pixels fall off.
    pf.blend_solid_hspan(-2, 0, 3, &Rgba8::new(0, 0, 0, 255), &[255u8, 255, 255]);
    assert_eq!(pf.pixel(0, 0), Rgba8::new(0, 255, 255, 255));
    // Entirely left of the row: nothing happens.
    pf.blend_solid_hspan(-20, 0, 3, &Rgba8::new(0, 0, 0, 255), &[255u8, 255, 255]);
    assert_eq!(pf.pixel(0, 0), Rgba8::new(0, 255, 255, 255));
    // Runs past the right end: sub-pixel 5 is the last one.
    pf.blend_solid_hspan(5, 0, 3, &Rgba8::new(0, 0, 0, 255), &[255u8, 255, 255]);
    assert_eq!(pf.pixel(3, 0), Rgba8::new(255, 255, 0, 255));
    let bytes = pf.into_rbuf().into_vec();
    assert_eq!(bytes.len(), 8);
}

#[test]
fn copy_pixel_reads_back() {
    let ra = make_buffer(3, 2);
    let lut = LcdDistributionLut::new(3, 2, 1);
    let mut pf = PixfmtRgba32Lcd::new(ra, &lut);
    let c = Rgba8::new(10, 20, 30, 40);
    pf.copy_pixel(4, 1, &c);
    assert_eq!(pf.pixel(3, 1), c);
    assert_eq!(pf.pixel(5, 1), c);
    assert_eq!(pf.pixel(4, 0), Rgba8::new(255, 255, 255, 255));
    // outside the row: transparent black, and nothing written
    assert_eq!(pf.pixel(9, 1), Rgba8::new(0, 0, 0, 0));
    assert_eq!(pf.pixel(-1, 1), Rgba8::new(0, 0, 0, 0));
    pf.copy_pixel(9, 1, &c);
    pf.copy_pixel(-3, 1, &c);
    assert_eq!(pf.pixel(6, 1), Rgba8::new(255, 255, 255, 255));
}

#[test]
fn rgba8_new_truncates() {
    let c = Rgba8::new(256 + 7, 255, 511, 0);
    assert_eq!((c.r, c.g, c.b, c.a), (7, 255, 255, 0));
}

#[test]
fn copy_hline_sets_channels_and_alpha() {
    let ra = make_buffer_colored(3, 1, [9, 9, 9, 0]);
    let lut = LcdDistributionLut::new(3, 2, 1);
    let mut pf = PixfmtRgba32Lcd::new(ra, &lut);
    pf.copy_hline(2, 0, 100, &Rgba8::new(1, 2, 3, 4));
    // sub-pixel 2 is blue of pixel 0, then pixels 1 and 2 whole; clipped.
    assert_eq!(pf.pixel(0, 0), Rgba8::new(9, 9, 3, 255));
    assert_eq!(pf.pixel(3, 0), Rgba8::new(1, 2, 3, 255));
    assert_eq!(pf.pixel(6, 0), Rgba8::new(1, 2, 3, 255));
}

#[test]
fn blend_pixel_exact_value() {
    let ra = make_buffer(2, 1);
    let lut = LcdDistributionLut::new(3, 2, 1);
    let mut pf = PixfmtRgba32Lcd::new(ra, &lut);
    pf.blend_pixel(4, 0, &Rgba8::new(0, 0, 0, 255), 128);
    assert_eq!(pf.pixel(4, 0), Rgba8::new(255, 127, 255, 255));
    // zero coverage changes nothing
    pf.blend_pixel(3, 0, &Rgba8::new(0, 0, 0, 255), 0);
    assert_eq!(pf.pixel(3, 0), Rgba8::new(255, 127, 255, 255));
}

#[test]
fn full_cover_opaque_blend_hline_equals_copy_hline() {
    let lut = LcdDistributionLut::new(3, 2, 1);
    let c = Rgba8::new(12, 34, 56, 255);
    let mut a = PixfmtRgba32Lcd::new(make_buffer_colored(4, 1, [200, 100, 50, 7]), &lut);
    let mut b = PixfmtRgba32Lcd::new(make_buffer_colored(4, 1, [200, 100, 50, 7]), &lut);
    a.blend_hline(1, 0, 7, &c, 255);
    b.copy_hline(1, 0, 7, &c);
    assert_eq!(a.into_rbuf().into_vec(), b.into_rbuf().into_vec());
}

#[test]
fn blend_hline_keeps_other_rows_and_pixels() {
    let lut = LcdDistributionLut::new(3, 2, 1);
    let mut pf = PixfmtRgba32Lcd::new(make_buffer(5, 3), &lut);
    pf.blend_hline(3, 1, 3, &Rgba8::new(0, 0, 0, 255), 200);
    let bytes = pf.into_rbuf().into_vec();
    for (i, b) in bytes.iter().enumerate() {
        let row = i / 20;
        let pixel = (i % 20) / 4;
        if row != 1 || pixel != 1 {
            assert_eq!(*b, 255, "byte {i}");
        }
    }
    // 200 * 255 = 51000: (255 * 65536 - 255 * 51000) >> 16 = 56
    assert_eq!(&bytes[24..28], &[56, 56, 56, 255]);
}

#[test]
fn blend_color_hspan_uses_each_colour_and_cover() {
    let lut = LcdDistributionLut::new(3, 2, 1);
    let mut pf = PixfmtRgba32Lcd::new(make_buffer(2, 1), &lut);
    let colors = [Rgba8::new(0, 0, 0, 255), Rgba8::new(0, 10, 0, 255), Rgba8::new(0, 0, 20, 0)];
    pf.blend_color_hspan(0, 0, 3, &colors, &[255, 255, 255], 0);
    // the third colour is fully transparent: no change there
    assert_eq!(pf.pixel(0, 0), Rgba8::new(0, 10, 255, 255));
    // empty covers: the single cover applies to all
    pf.blend_color_hspan(3, 0, 3, &colors, &[], 255);
    assert_eq!(pf.pixel(3, 0), Rgba8::new(0, 10, 255, 255));
}

// ---------------------------------------------------------------------------
// sRGB tables
// ---------------------------------------------------------------------------

#[test]
fn srgb_luts_round_trip_exactly() {
    let luts = SrgbLuts::get();
    for v in 0..=255u8 {
        assert_eq!(luts.srgb(luts.lin(v)), v, "sRGB LUT round trip failed at {v}");
    }
}

#[test]
fn srgb_tables_follow_the_transfer_curve() {
    let luts = SrgbLuts::get();
    for i in 0..256u32 {
        let c = i as f64 / 255.0;
        let lin = if c <= 0.04045 { c / 12.92 } else { ((c + 0.055) / 1.055).powf(2.4) };
        let want = (lin * 8160.0).round() as u16;
        assert_eq!(luts.lin(i as u8), u32::from(want), "to_linear[{i}]");
    }
    for i in 0..=8160u32 {
        let lin = i as f64 / 8160.0;
        let c = if lin <= 0.003_130_8 { lin * 12.92 } else { 1.055 * lin.powf(1.0 / 2.4) - 0.055 };
        let want = (c * 255.0).round() as u8;
        assert_eq!(luts.srgb(i), want, "to_srgb[{i}]");
    }
    // levels above full linear light encode as full linear light
    assert_eq!(luts.srgb(100_000), 255);
    assert_eq!(luts.lin(0), 0);
    assert_eq!(luts.lin(255), 8160);
}

#[test]
fn from_tables_checks_the_inverse_length() {
    assert!(SrgbLuts::from_tables([0u16; 256], vec![0u8; 8161]).is_some());
    assert!(SrgbLuts::from_tables([0u16; 256], vec![0u8; 8160]).is_none());
    let luts = SrgbLuts::from_tables([7u16; 256], vec![3u8; 8161]).unwrap();
    assert_eq!(luts.lin(200), 7);
    assert_eq!(luts.srgb(9000), 3);
}

// ---------------------------------------------------------------------------
// Linear-light LCD format
// ---------------------------------------------------------------------------

/// The core gamma assertion: 50% coverage of white over black must land
/// at the LINEAR midpoint (sRGB ~188), not the sRGB code midpoint (128).
#[test]
fn half_coverage_white_on_black_is_the_linear_midpoint() {
    let luts = SrgbLuts::get();
    let ra = make_buffer_colored(4, 1, [0, 0, 0, 255]);
    let lut = LcdDistributionLut::new(1, 0, 0); // identity distribution
    let params = LcdBlendParams { contrast: 0, chroma_limit: 0, coverage_gamma: 100 };
    let mut pf = PixfmtRgba32LcdLinear::new(ra, &lut, params, &luts, reference_tone(params.coverage_gamma));
    let covers = [128u8; 3]; // one full pixel, all three stripes at ~50%
    let white = Rgba8::new(255, 255, 255, 255);
    pf.blend_solid_hspan(3, 0, 3, &white, &covers);
    let p = pf.pixel(3, 0); // pixel 1
    assert!((183..=193).contains(&(p.g as i32)), "50% white over black must encode ~188 (linear midpoint), got {}", p.g);
}

#[test]
fn full_coverage_reaches_exact_fg_color() {
    let luts = SrgbLuts::get();
    let ra = make_buffer_colored(4, 1, [0, 128, 0, 255]);
    let lut = LcdDistributionLut::new(1, 0, 0);
    let params = LcdBlendParams { contrast: 0, chroma_limit: 0, coverage_gamma: 220 };
    let mut pf = PixfmtRgba32LcdLinear::new(ra, &lut, params, &luts, reference_tone(params.coverage_gamma));
    let covers = [255u8; 3];
    let white = Rgba8::new(255, 255, 255, 255);
    pf.blend_solid_hspan(3, 0, 3, &white, &covers);
    let p = pf.pixel(3, 0);
    assert_eq!((p.r, p.g, p.b), (255, 255, 255), "full coverage must hit fg exactly");
}

/// chroma_limit=255 must make all three stripes equal the mean-coverage
/// composite (grayscale-equivalent), regardless of per-stripe covers.
#[test]
fn chroma_limit_full_equalizes_stripes() {
    let luts = SrgbLuts::get();
    let ra = make_buffer_colored(4, 1, [0, 128, 0, 255]);
    let lut = LcdDistributionLut::new(1, 0, 0);
    let params = LcdBlendParams { contrast: 0, chroma_limit: 255, coverage_gamma: 100 };
    let mut pf = PixfmtRgba32LcdLinear::new(ra, &lut, params, &luts, reference_tone(params.coverage_gamma));
    let covers = [255u8, 128, 0]; // wildly unequal stripes
    let white = Rgba8::new(255, 255, 255, 255);
    pf.blend_solid_hspan(3, 0, 3, &white, &covers);
    let p = pf.pixel(3, 0);
    assert_eq!(p.r, p.b, "full chroma clamp must equalize stripes over equal fg/bg channels");
}

#[test]
fn linear_half_coverage_exact_value() {
    let luts = SrgbLuts::get();
    // lin(255) * 128 / 255 = 4096, which encodes to 188.
    let lut = LcdDistributionLut::new(1, 0, 0);
    let params = LcdBlendParams { contrast: 0, chroma_limit: 0, coverage_gamma: 100 };
    let mut pf = PixfmtRgba32LcdLinear::new(make_buffer_colored(2, 1, [0, 0, 0, 255]), &lut, params, &luts, reference_tone(100));
    pf.blend_hline(0, 0, 3, &Rgba8::new(255, 255, 255, 255), 128);
    assert_eq!(pf.pixel(0, 0), Rgba8::new(188, 188, 188, 255));
    assert_eq!(pf.pixel(3, 0), Rgba8::new(0, 0, 0, 255));
}

#[test]
fn linear_single_stripe_keeps_the_others() {
    let luts = SrgbLuts::get();
    let lut = LcdDistributionLut::new(1, 0, 0);
    let params = LcdBlendParams { contrast: 0, chroma_limit: 0, coverage_gamma: 100 };
    let mut pf = PixfmtRgba32LcdLinear::new(make_buffer_colored(2, 1, [10, 120, 240, 0]), &lut, params, &luts, reference_tone(100));
    pf.blend_pixel(1, 0, &Rgba8::new(0, 0, 0, 255), 255);
    assert_eq!(pf.pixel(0, 0), Rgba8::new(10, 0, 240, 255));
    // zero coverage: nothing composited, alpha left as it was
    pf.blend_pixel(3, 0, &Rgba8::new(0, 0, 0, 255), 0);
    assert_eq!(pf.pixel(3, 0), Rgba8::new(10, 120, 240, 0));
}

#[test]
fn linear_contrast_boosts_partial_coverage() {
    let luts = SrgbLuts::get();
    let lut = LcdDistributionLut::new(1, 0, 0);
    let plain = LcdBlendParams { contrast: 0, chroma_limit: 0, coverage_gamma: 100 };
    let boosted = LcdBlendParams { contrast: 255, chroma_limit: 0, coverage_gamma: 100 };
    let mut a = PixfmtRgba32LcdLinear::new(make_buffer_colored(1, 1, [0, 0, 0, 255]), &lut, plain, &luts, reference_tone(100));
    let mut b = PixfmtRgba32LcdLinear::new(make_buffer_colored(1, 1, [0, 0, 0, 255]), &lut, boosted, &luts, reference_tone(100));
    let white = Rgba8::new(255, 255, 255, 255);
    a.blend_pixel(0, 0, &white, 128);
    b.blend_pixel(0, 0, &white, 128);
    // boost(128) = 128 + 255 * 128 * 127 / 65025 = 191
    assert!(b.pixel(0, 0).r > a.pixel(0, 0).r);
    assert_eq!(a.pixel(0, 0).r, 188);
}

#[test]
fn linear_copy_and_color_span() {
    let luts = SrgbLuts::get();
    let lut = LcdDistributionLut::new(1, 0, 0);
    let params = LcdBlendParams::default();
    assert_eq!((params.contrast, params.chroma_limit, params.coverage_gamma), (0, 0, 220));
    let mut pf = PixfmtRgba32LcdLinear::new(make_buffer_colored(3, 2, [50, 60, 70, 80]), &lut, params, &luts, reference_tone(params.coverage_gamma));
    assert_eq!((pf.width(), pf.height()), (9, 2));
    pf.copy_pixel(3, 1, &Rgba8::new(1, 2, 3, 4));
    assert_eq!(pf.pixel(5, 1), Rgba8::new(1, 2, 3, 4));
    pf.copy_hline(6, 0, 2, &Rgba8::new(7, 8, 9, 0));
    assert_eq!(pf.pixel(6, 0), Rgba8::new(7, 8, 70, 255));
    let colors = [Rgba8::new(255, 255, 255, 255), Rgba8::new(0, 0, 0, 255), Rgba8::new(255, 255, 255, 255)];
    pf.blend_color_hspan(0, 0, 3, &colors, &[255, 255, 255], 0);
    assert_eq!(pf.pixel(0, 0), Rgba8::new(255, 0, 255, 255));
}

#[test]
fn linear_and_srgb_formats_agree_at_none_or_full_coverage() {
    let lut = LcdDistributionLut::new(1, 0, 0);
    let luts = SrgbLuts::get();
    let params = LcdBlendParams { contrast: 90, chroma_limit: 0, coverage_gamma: 220 };
    let bg = [30u8, 140, 220, 100];
    let covers = [255u8, 0, 255, 255, 0, 0, 255];
    let c = Rgba8::new(200, 10, 90, 255);
    let mut a = PixfmtRgba32Lcd::new(make_buffer_colored(4, 2, bg), &lut);
    let mut b = PixfmtRgba32LcdLinear::new(make_buffer_colored(4, 2, bg), &lut, params, &luts, reference_tone(220));
    a.blend_solid_hspan(1, 1, 7, &c, &covers);
    b.blend_solid_hspan(1, 1, 7, &c, &covers);
    assert_eq!(a.into_rbuf().into_vec(), b.into_rbuf().into_vec());
}

#[test]
fn linear_color_hspan_is_a_sequence_of_blend_pixel() {
    let lut = LcdDistributionLut::new(1, 0, 0);
    let luts = SrgbLuts::get();
    let params = LcdBlendParams { contrast: 40, chroma_limit: 100, coverage_gamma: 180 };
    let colors = [Rgba8::new(255, 0, 0, 200), Rgba8::new(0, 255, 0, 255), Rgba8::new(0, 0, 255, 90), Rgba8::new(9, 9, 9, 255)];
    let covers = [200u8, 17, 255, 128];
    let mut a = PixfmtRgba32LcdLinear::new(make_buffer_colored(3, 1, [60, 70, 80, 90]), &lut, params, &luts, reference_tone(180));
    let mut b = PixfmtRgba32LcdLinear::new(make_buffer_colored(3, 1, [60, 70, 80, 90]), &lut, params, &luts, reference_tone(180));
    a.blend_color_hspan(2, 0, 4, &colors, &covers, 0);
    for k in 0..4 {
        b.blend_pixel(2 + k as i32, 0, &colors[k], covers[k]);
    }
    assert_eq!(a.into_rbuf().into_vec(), b.into_rbuf().into_vec());
}

#[test]
fn spans_do_not_depend_on_earlier_spans() {
    let lut = LcdDistributionLut::new(3, 2, 1);
    let c = Rgba8::new(0, 0, 0, 255);
    // A format that has already drawn a longer span...
    let mut used = PixfmtRgba32Lcd::new(make_buffer(8, 2), &lut);
    used.blend_solid_hspan(0, 0, 20, &c, &[200u8; 20]);
    // ...and a fresh one over the same bytes.
    let mut bytes = Vec::new();
    for y in 0..2u32 {
        for o in 0..32usize {
            bytes.push(used.rbuf().get(y, o));
        }
    }
    let mut fresh = PixfmtRgba32Lcd::new(RowAccessor::attach(bytes, 8, 2).unwrap(), &lut);
    used.blend_solid_hspan(4, 1, 3, &c, &[255u8, 128, 60]);
    fresh.blend_solid_hspan(4, 1, 3, &c, &[255u8, 128, 60]);
    assert_eq!(used.into_rbuf().into_vec(), fresh.into_rbuf().into_vec());
}

#[test]
fn distribution_from_tables_keeps_the_entries() {
    let mut p = [0u8; 256];
    let mut s = [0u8; 256];
    let mut t = [0u8; 256];
    for i in 0..256 {
        p[i] = (i / 2) as u8;
        s[i] = (i / 5) as u8;
        t[i] = (i / 11) as u8;
    }
    let lut = LcdDistributionLut::from_tables(p, s, t);
    assert_eq!((lut.primary(200), lut.secondary(200), lut.tertiary(200)), (100, 40, 18));
}

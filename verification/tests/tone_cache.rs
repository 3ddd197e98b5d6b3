use lcd_subpixel::tone_cache::{ToneLutCache, TONE_CACHE_CAPACITY};

/// The coverage tone table for `coverage_gamma`, computed directly.
fn reference(coverage_gamma: u8) -> [u8; 256] {
    let g = f64::from(coverage_gamma.max(1)) / 100.0;
    let inv = 1.0 / g;
    let mut lut = [0u8; 256];
    for (i, e) in lut.iter_mut().enumerate() {
        *e = ((i as f64 / 255.0).powf(inv) * 255.0).round() as u8;
    }
    lut
}

/// A cached tone table: served from `cache` when it has one for the gamma,
/// otherwise computed and kept.
fn coverage_tone_lut(cache: &mut ToneLutCache, coverage_gamma: u8) -> [u8; 256] {
    if let Some(lut) = cache.find(coverage_gamma) {
        return lut;
    }
    let lut = reference(coverage_gamma);
    cache.insert(coverage_gamma, lut);
    lut
}

/// The cache must return exactly what the uncached computation would, on
/// the first call and on every later one.
#[test]
fn cached_lut_matches_the_direct_computation() {
    let mut cache = ToneLutCache::new();
    for g in [1u8, 50, 100, 180, 220, 255] {
        let want = reference(g);
        // Twice: first fills the cache, second is served from it.
        assert_eq!(coverage_tone_lut(&mut cache, g), want, "gamma {g} first call");
        assert_eq!(coverage_tone_lut(&mut cache, g), want, "gamma {g} cached call");
    }
    assert_eq!(cache.len(), 6);
}

/// A cache that ignored the gamma would hand every caller the first table
/// it built.
#[test]
fn different_gammas_get_different_luts() {
    let mut cache = ToneLutCache::new();
    let a = coverage_tone_lut(&mut cache, 60);
    let b = coverage_tone_lut(&mut cache, 220);
    assert_ne!(a, b, "gamma 60 and gamma 220 produced the same coverage table");
    // And neither is the identity, or the comparison above proves little.
    let identity: [u8; 256] = core::array::from_fn(|i| i as u8);
    assert_ne!(a, identity, "gamma 60 must bend the curve");
}

#[test]
fn cache_is_bounded_and_keeps_the_first_entry() {
    let mut cache = ToneLutCache::new();
    for g in 0..40u8 {
        cache.insert(g, [g; 256]);
    }
    assert_eq!(cache.len(), TONE_CACHE_CAPACITY);
    assert_eq!(cache.find(3), Some([3u8; 256]));
    assert_eq!(cache.find(30), None);
    let mut cache = ToneLutCache::new();
    cache.insert(7, [1u8; 256]);
    cache.insert(7, [2u8; 256]);
    assert_eq!(cache.find(7), Some([1u8; 256]));
}

use h2hist::{HeavyTailed, SplitMix64};

/// splitmix64 from seed 0: the reference first outputs.
#[test]
fn splitmix_reference_values() {
    let mut rng = SplitMix64(0);
    assert_eq!(rng.next(), 0xE220_A839_7B1D_CDAF);
    assert_eq!(rng.next(), 0x6E78_9E6A_A1B9_65F4);
    assert_eq!(rng.0, 0x9E37_79B9_7F4A_7C15u64.wrapping_mul(2));
}

/// The stream is seeded, clamped into 1..=max_value, and mostly
/// in its 50..150 body.
#[test]
fn heavy_tailed_seeded_and_clamped() {
    let mut a = HeavyTailed::new(42, 1_000);
    let mut b = HeavyTailed::new(42, 1_000);
    let mut body = 0;
    for _ in 0..10_000 {
        let x = a.next().unwrap();
        assert_eq!(Some(x), b.next());
        assert!((1..=1_000).contains(&x));
        if (50..150).contains(&x) {
            body += 1;
        }
    }
    assert!(body > 9_700, "body={body}");
    let mut tiny = HeavyTailed::new(7, 1);
    assert_eq!(tiny.next(), Some(1));
}

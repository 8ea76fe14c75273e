use h2hist::Counter;

#[test]
fn widen_narrow() {
    assert_eq!(300u64, <u16 as Counter>::from_u64_sat(300).to_u64());
    assert_eq!(u8::MAX, <u8 as Counter>::from_u64_sat(300));
    assert_eq!(u64::MAX, <u64 as Counter>::from_u64_sat(u64::MAX));
}

#[test]
fn saturating_add() {
    assert_eq!(u8::MAX, 250u8.sat_add(10));
    assert_eq!(255u8, u8::MAX.sat_add(1));
    assert_eq!(10u32, 7u32.sat_add(3));
    assert_eq!(u64::MAX, (u64::MAX - 1).sat_add(5));
}

#[test]
fn u16_u32_saturate_at_their_max() {
    assert_eq!(u16::MAX, 65_000u16.sat_add(1_000));
    assert_eq!(u32::MAX, <u32 as Counter>::from_u64_sat(1 << 40));
    assert_eq!(12u16, <u16 as Counter>::from_u64_sat(12));
}

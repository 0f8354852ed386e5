use prime_sieve::natural::Natural;

#[test]
fn one_is_one_in_every_width() {
    assert_eq!(<u8 as Natural>::one(), 1u8);
    assert_eq!(<u32 as Natural>::one(), 1u32);
    assert_eq!(<u64 as Natural>::one(), 1u64);
}

#[test]
fn checked_sum_adds_within_the_limit() {
    assert_eq!(Natural::checked_sum(200u8, 55u8), Some(255u8));
    assert_eq!(Natural::checked_sum(0u8, 0u8), Some(0u8));
    assert_eq!(Natural::checked_sum(7u32, 11u32), Some(18u32));
    assert_eq!(Natural::checked_sum(u32::MAX - 1, 1u32), Some(u32::MAX));
    assert_eq!(Natural::checked_sum(1u64 << 40, 1u64 << 40), Some(1u64 << 41));
}

#[test]
fn checked_sum_reports_what_does_not_fit() {
    assert_eq!(Natural::checked_sum(200u8, 56u8), None);
    assert_eq!(Natural::checked_sum(255u8, 255u8), None);
    assert_eq!(Natural::checked_sum(u32::MAX, 1u32), None);
    assert_eq!(Natural::checked_sum(u64::MAX, u64::MAX), None);
}

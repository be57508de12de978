use collatz_m4m6::u256::U256;
use num_bigint::BigUint;
use num_traits::One;

fn big(u: U256) -> BigUint {
    u.to_biguint()
}

#[test]
fn u256_from_u128_keeps_the_number() {
    assert_eq!(U256::from_u128(0).0, [0, 0, 0, 0]);
    assert_eq!(U256::from_u128(1).0, [1, 0, 0, 0]);
    assert_eq!(U256::from_u128(u128::MAX).0, [u64::MAX, u64::MAX, 0, 0]);
    assert_eq!(U256::from_u128(1u128 << 64).0, [0, 1, 0, 0]);
    assert_eq!(big(U256::from_u128(u128::MAX)), BigUint::from(u128::MAX));
}

#[test]
fn u256_to_biguint_reads_every_limb() {
    let u = U256([0x0123456789abcdef, 0xfedcba9876543210, 7, 0x8000000000000000]);
    let want = BigUint::from(0x0123456789abcdefu64)
        + (BigUint::from(0xfedcba9876543210u64) << 64u32)
        + (BigUint::from(7u64) << 128u32)
        + (BigUint::from(0x8000000000000000u64) << 192u32);
    assert_eq!(big(u), want);
}

#[test]
fn u256_multiplies_by_a_small_number() {
    let u = U256::from_u128(u128::MAX);
    let p = u.mul_small_checked(5).unwrap();
    assert_eq!(big(p), BigUint::from(u128::MAX) * BigUint::from(5u64));
    let top = U256([u64::MAX, u64::MAX, u64::MAX, u64::MAX]);
    assert!(top.mul_small_checked(3).is_none());
    assert_eq!(top.mul_small_checked(1).unwrap().0, top.0);
    // the largest number whose triple fits
    let third = U256([0x5555555555555555; 4]);
    assert_eq!(third.mul_small_checked(3).unwrap().0, top.0);
    let more = third.add_one();
    assert!(more.mul_small_checked(3).is_none());
    let wide = U256([0, 0, 0, 1]).mul_small_checked(u64::MAX).unwrap();
    assert_eq!(wide.0, [0, 0, 0, u64::MAX]);
    assert!(U256([0, 0, 0, 2]).mul_small_checked(1 << 63).is_none());
}

#[test]
fn u256_add_one_carries() {
    assert_eq!(U256([5, 0, 0, 0]).add_one().0, [6, 0, 0, 0]);
    assert_eq!(U256([u64::MAX, 0, 0, 0]).add_one().0, [0, 1, 0, 0]);
    assert_eq!(U256([u64::MAX, u64::MAX, u64::MAX, 3]).add_one().0, [0, 0, 0, 4]);
    assert!(U256([u64::MAX; 4]).is_max());
    assert!(!U256([u64::MAX, u64::MAX, u64::MAX, u64::MAX - 1]).is_max());
}

#[test]
fn u256_counts_trailing_zeros() {
    assert_eq!(U256([0, 0, 0, 0]).trailing_zeros(), 256);
    assert_eq!(U256([1, 0, 0, 0]).trailing_zeros(), 0);
    assert_eq!(U256([8, 0, 0, 0]).trailing_zeros(), 3);
    assert_eq!(U256([0, 2, 0, 0]).trailing_zeros(), 65);
    assert_eq!(U256([0, 0, 0, 1 << 63]).trailing_zeros(), 255);
}

#[test]
fn u256_shifts_right() {
    let u = U256([0x0123456789abcdef, 0xfedcba9876543210, 7, 0x8000000000000000]);
    for d in [0u32, 1, 4, 63, 64, 65, 127, 128, 130, 192, 200, 255, 256, 300] {
        let expected = big(u) >> d;
        assert_eq!(big(u.shr(d)), expected, "d={}", d);
    }
}

#[test]
fn u256_tests_and_lengths() {
    assert!(U256([1, 0, 0, 0]).is_one());
    assert!(!U256([1, 1, 0, 0]).is_one());
    assert!(!U256([0, 0, 0, 0]).is_one());
    assert!(U256([5, 0, 0, 0]).lt_u128(6));
    assert!(!U256([5, 0, 0, 0]).lt_u128(5));
    assert!(U256([0, 1, 0, 0]).lt_u128((1u128 << 64) + 1));
    assert!(!U256([0, 0, 1, 0]).lt_u128(u128::MAX));
    assert!(!U256([0, 0, 0, 1]).lt_u128(u128::MAX));
    assert_eq!(U256([0, 0, 0, 0]).bit_len(), 0);
    assert_eq!(U256([1, 0, 0, 0]).bit_len(), 1);
    assert_eq!(U256([0xff, 0, 0, 0]).bit_len(), 8);
    assert_eq!(U256([0, 1, 0, 0]).bit_len(), 65);
    assert_eq!(U256([0, 0, 0, 1 << 63]).bit_len(), 256);
    assert_eq!(big(U256([0, 0, 0, 1 << 63])), BigUint::one() << 255u32);
}

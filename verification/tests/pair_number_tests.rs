use collatz_m4m6::pair_number::PairNumber;
use num_bigint::BigUint;
use num_traits::One;
use std::cmp::Ordering;

#[test]
fn test_roundtrip_small() {
    for n in 0u64..=200 {
        let big = BigUint::from(n);
        let pair = PairNumber::from_biguint(&big);
        let back = pair.to_biguint();
        assert_eq!(big, back, "Roundtrip failed for n={}", n);
    }
}

#[test]
fn test_27_decomposition() {
    let pair = PairNumber::from_biguint(&BigUint::from(27u64));
    assert_eq!(pair.m4_as_vec_u8(), vec![1, 1, 0]);
    assert_eq!(pair.m6_as_vec_u8(), vec![1, 0, 1]);
    assert_eq!(pair.pair_count(), 3);
}

#[test]
fn test_one() {
    let pair = PairNumber::from_biguint(&BigUint::one());
    assert!(pair.is_one());
    assert_eq!(pair.m4_as_vec_u8(), vec![0]);
    assert_eq!(pair.m6_as_vec_u8(), vec![1]);
}

#[test]
fn test_bits_lsb_roundtrip() {
    for n in 1u64..=200 {
        let big = BigUint::from(n);
        let pair = PairNumber::from_biguint(&big);
        let bits = pair.to_bits_lsb();
        let pair2 = PairNumber::from_bits_lsb(&bits);
        assert_eq!(pair, pair2, "Bits roundtrip failed for n={}", n);
    }
}

#[test]
fn test_get_m4_m6() {
    let pair = PairNumber::from_biguint(&BigUint::from(27u64));
    assert_eq!(pair.get_m4(0), 1);
    assert_eq!(pair.get_m4(1), 1);
    assert_eq!(pair.get_m4(2), 0);
    assert_eq!(pair.get_m4(-1), 0);
    assert_eq!(pair.get_m4(3), 0);
    assert_eq!(pair.get_m6(0), 1);
    assert_eq!(pair.get_m6(1), 0);
    assert_eq!(pair.get_m6(2), 1);
}

#[test]
fn test_from_packed() {
    let pair = PairNumber::from_packed(vec![0b110], vec![0b101], 3);
    assert_eq!(pair.get_m4(0), 0);
    assert_eq!(pair.get_m4(1), 1);
    assert_eq!(pair.get_m4(2), 1);
    assert_eq!(pair.get_m6(0), 1);
    assert_eq!(pair.get_m6(1), 0);
    assert_eq!(pair.get_m6(2), 1);
}

#[test]
fn test_large_roundtrip() {
    let n = (BigUint::one() << 100u32) - BigUint::one();
    let pair = PairNumber::from_biguint(&n);
    let back = pair.to_biguint();
    assert_eq!(n, back, "Large roundtrip failed");
    assert_eq!(pair.pair_count(), 50);
}

#[test]
fn test_ord_exhaustive_small() {
    for a in 0u64..=200 {
        let pa = PairNumber::from_biguint(&BigUint::from(a));
        for b in 0u64..=200 {
            let pb = PairNumber::from_biguint(&BigUint::from(b));
            assert_eq!(pa.compare(&pb), a.cmp(&b), "Ord mismatch: a={}, b={}", a, b);
        }
    }
}

#[test]
fn test_ord_different_pair_count() {
    let p3 = PairNumber::from_biguint(&BigUint::from(3u64));
    let p7 = PairNumber::from_biguint(&BigUint::from(7u64));
    assert!(p3 < p7);
}

#[test]
fn test_ord_large() {
    let a = (BigUint::one() << 100u32) - BigUint::one();
    let b = BigUint::one() << 100u32;
    let pa = PairNumber::from_biguint(&a);
    let pb = PairNumber::from_biguint(&b);
    assert!(pa < pb);
    assert!(pb > pa);
    assert_eq!(pa, pa.clone());
    assert_eq!(pa.compare(&pb), Ordering::Less);
}

#[test]
fn round_trip_of_large_ones() {
    for m in [1u32, 2, 63, 64, 65, 127, 128, 129, 1000, 10000, 100000] {
        let n = (BigUint::one() << m) - BigUint::one();
        let pair = PairNumber::from_biguint(&n);
        assert_eq!(pair.to_biguint(), n, "m={}", m);
        assert_eq!(pair.pair_count(), ((m + 1) / 2) as usize, "m={}", m);
        assert_eq!(pair.word_count(), pair.pair_count().div_ceil(64));
    }
}

#[test]
fn zero_is_one_empty_pair() {
    let zero = PairNumber::from_biguint(&BigUint::from(0u64));
    assert_eq!(zero.pair_count(), 1);
    assert_eq!(zero.m4_words(), &[0]);
    assert_eq!(zero.m6_words(), &[0]);
    assert!(!zero.is_one());
    assert_eq!(zero.to_biguint(), BigUint::from(0u64));
    assert_eq!(zero.to_bits_lsb(), vec![0, 0]);
    assert_eq!(zero, PairNumber::from_bits_lsb(&[]));
    assert_eq!(zero, PairNumber::from_bits_lsb(&[0, 0, 0, 0, 0]));
}

#[test]
fn from_bits_pads_and_trims() {
    // one bit: padded to a pair
    assert!(PairNumber::from_bits_lsb(&[1]).is_one());
    // 5 = 101, with zero pairs above it
    let five = PairNumber::from_bits_lsb(&[1, 0, 1, 0, 0, 0, 0, 0, 0]);
    assert_eq!(five.pair_count(), 2);
    assert_eq!(five.to_biguint(), BigUint::from(5u64));
    // more than one word, trimmed back into one
    let mut bits = vec![0u8; 300];
    bits[100] = 1;
    let p = PairNumber::from_bits_lsb(&bits);
    assert_eq!(p.pair_count(), 51);
    assert_eq!(p.word_count(), 1);
    assert_eq!(p.to_biguint(), BigUint::one() << 100u32);
    bits[299] = 1;
    let q = PairNumber::from_bits_lsb(&bits);
    assert_eq!(q.pair_count(), 150);
    assert_eq!(q.word_count(), 3);
    assert_eq!(q.to_biguint(), (BigUint::one() << 100u32) + (BigUint::one() << 299u32));
}

#[test]
fn try_from_biguint_takes_what_fits() {
    let n = (BigUint::one() << 500u32) + BigUint::from(12345u64);
    let p = PairNumber::try_from_biguint(&n).unwrap();
    assert_eq!(p.to_biguint(), n);
    assert_eq!(p, PairNumber::from_biguint(&n));
}

#[test]
fn order_by_the_highest_difference() {
    let base = BigUint::one() << 200u32;
    let a = PairNumber::from_biguint(&(&base + BigUint::from(1u64)));
    let b = PairNumber::from_biguint(&(&base + BigUint::from(2u64)));
    let c = PairNumber::from_biguint(&(&base + (BigUint::one() << 130u32)));
    assert_eq!(a.compare(&b), Ordering::Less);
    assert_eq!(b.compare(&a), Ordering::Greater);
    assert_eq!(b.compare(&c), Ordering::Less);
    assert_eq!(c.compare(&a), Ordering::Greater);
    assert_eq!(c.compare(&c.clone()), Ordering::Equal);
    assert!(a != b);
    assert!(a <= b && b >= a);
    // m4 decides before m6 within a pair: 2 = (1, 0) is above 1 = (0, 1)
    let two = PairNumber::from_biguint(&BigUint::from(2u64));
    let one = PairNumber::from_biguint(&BigUint::one());
    assert_eq!(two.compare(&one), Ordering::Greater);
}

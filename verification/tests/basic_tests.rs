use collatz_m4m6::{collatz_step, collatz_step_3n1, collatz_step_5n1, PairNumber};
use num_bigint::BigUint;
use num_traits::One;

fn verify_step_arithmetic(n: u64, x: u64) {
    let big_n = BigUint::from(n);
    assert!(n % 2 == 1, "n must be odd");

    let pair = PairNumber::from_biguint(&big_n);
    let result = collatz_step(&pair, x);

    let xn1 = &big_n * BigUint::from(x) + BigUint::one();
    let d_arith = xn1.trailing_zeros().unwrap_or(0);
    let n_next_arith = &xn1 >> d_arith;

    let n_prime = result.next.to_biguint();

    assert_eq!(
        result.d, d_arith,
        "d mismatch for n={}, x={}: got {}, expected {}",
        n, x, result.d, d_arith
    );
    assert_eq!(
        n_prime, n_next_arith,
        "n' mismatch for n={}, x={}: got {}, expected {}",
        n, x, n_prime, n_next_arith
    );
}

fn verify_step_3n1(n: u64) {
    let big_n = BigUint::from(n);
    let pair = PairNumber::from_biguint(&big_n);
    let result = collatz_step_3n1(&pair);

    let xn1 = &big_n * BigUint::from(3u64) + BigUint::one();
    let d_arith = xn1.trailing_zeros().unwrap_or(0);
    let n_next_arith = &xn1 >> d_arith;

    let n_prime = result.next.to_biguint();

    assert_eq!(result.d, d_arith, "d mismatch for 3n+1, n={}", n);
    assert_eq!(n_prime, n_next_arith, "n' mismatch for 3n+1, n={}", n);
}

fn verify_step_5n1(n: u64) {
    let big_n = BigUint::from(n);
    let pair = PairNumber::from_biguint(&big_n);
    let result = collatz_step_5n1(&pair);

    let xn1 = &big_n * BigUint::from(5u64) + BigUint::one();
    let d_arith = xn1.trailing_zeros().unwrap_or(0);
    let n_next_arith = &xn1 >> d_arith;

    let n_prime = result.next.to_biguint();

    assert_eq!(result.d, d_arith, "d mismatch for 5n+1, n={}", n);
    assert_eq!(n_prime, n_next_arith, "n' mismatch for 5n+1, n={}", n);
}

#[test]
fn test_3n1_specific_cases() {
    verify_step_3n1(1);
    verify_step_3n1(3);
    verify_step_3n1(5);
    verify_step_3n1(7);
    verify_step_3n1(27);
}

#[test]
fn test_3n1_d_values() {
    let check = |n: u64, expected_d: u64, expected_next: u64| {
        let pair = PairNumber::from_biguint(&BigUint::from(n));
        let result = collatz_step_3n1(&pair);
        assert_eq!(result.d, expected_d, "d for n={}", n);
        assert_eq!(result.next.to_biguint(), BigUint::from(expected_next), "n' for n={}", n);
    };

    check(1, 2, 1);
    check(3, 1, 5);
    check(5, 4, 1);
    check(7, 1, 11);
    check(27, 1, 41);
}

#[test]
fn test_3n1_all_odd_1_to_99() {
    for n in (1u64..=99).step_by(2) {
        verify_step_3n1(n);
    }
}

#[test]
fn test_3n1_generic_match() {
    for n in (1u64..=99).step_by(2) {
        let big_n = BigUint::from(n);
        let pair = PairNumber::from_biguint(&big_n);

        let r_generic = collatz_step(&pair, 3);
        let r_special = collatz_step_3n1(&pair);

        assert_eq!(r_generic.d, r_special.d, "d mismatch for n={}", n);
        assert_eq!(
            r_generic.next.to_biguint(),
            r_special.next.to_biguint(),
            "n' mismatch for n={}",
            n
        );
    }
}

#[test]
fn test_5n1_specific_cases() {
    verify_step_5n1(1);
    verify_step_5n1(3);
    verify_step_5n1(27);
    verify_step_5n1(13);
}

#[test]
fn test_5n1_d_values() {
    let check = |n: u64, expected_d: u64, expected_next: u64| {
        let pair = PairNumber::from_biguint(&BigUint::from(n));
        let result = collatz_step_5n1(&pair);
        assert_eq!(result.d, expected_d, "d for n={}", n);
        assert_eq!(result.next.to_biguint(), BigUint::from(expected_next), "n' for n={}", n);
    };

    check(1, 1, 3);
    check(3, 4, 1);
    check(27, 3, 17);
    check(13, 1, 33);
}

#[test]
fn test_5n1_all_odd_1_to_99() {
    for n in (1u64..=99).step_by(2) {
        verify_step_5n1(n);
    }
}

#[test]
fn test_5n1_generic_match() {
    for n in (1u64..=99).step_by(2) {
        let big_n = BigUint::from(n);
        let pair = PairNumber::from_biguint(&big_n);

        let r_generic = collatz_step(&pair, 5);
        let r_special = collatz_step_5n1(&pair);

        assert_eq!(r_generic.d, r_special.d, "d mismatch for n={}", n);
        assert_eq!(
            r_generic.next.to_biguint(),
            r_special.next.to_biguint(),
            "n' mismatch for n={}",
            n
        );
    }
}

#[test]
fn test_generic_x9() {
    for n in (1u64..=99).step_by(2) {
        verify_step_arithmetic(n, 9);
    }
}

#[test]
fn test_generic_x17() {
    for n in (1u64..=99).step_by(2) {
        verify_step_arithmetic(n, 17);
    }
}

#[test]
fn test_generic_x33() {
    for n in (1u64..=99).step_by(2) {
        verify_step_arithmetic(n, 33);
    }
}

#[test]
fn test_generic_x65() {
    for n in (1u64..=99).step_by(2) {
        verify_step_arithmetic(n, 65);
    }
}

#[test]
fn test_3n1_1_to_999() {
    for n in (1u64..=999).step_by(2) {
        verify_step_3n1(n);
    }
}

#[test]
fn test_5n1_1_to_999() {
    for n in (1u64..=999).step_by(2) {
        verify_step_5n1(n);
    }
}

/// A single step against big-integer arithmetic, for all odd numbers below
/// 1000 and the six smallest multipliers.
#[test]
fn step_is_arithmetic_for_all_small_multipliers() {
    for x in [3u64, 5, 9, 17, 33, 65] {
        for n in (1u64..=999).step_by(2) {
            verify_step_arithmetic(n, x);
        }
    }
}

/// The step needs no odd number: an even one and zero work as well.
#[test]
fn step_from_even_numbers() {
    for x in [3u64, 5, 9] {
        for n in [0u64, 2, 4, 6, 100, 1024] {
            let pair = PairNumber::from_biguint(&BigUint::from(n));
            let result = collatz_step(&pair, x);
            let xn1 = BigUint::from(n) * BigUint::from(x) + BigUint::one();
            assert_eq!(result.d, 0);
            assert!(!result.exchanged);
            assert_eq!(result.next.to_biguint(), xn1);
        }
    }
}

/// The raw streams are those of `x*n + 1`.
#[test]
fn raw_streams_hold_the_sum() {
    let pair = PairNumber::from_biguint(&BigUint::from(27u64));
    // 3 * 27 + 1 = 82 = 1010010: m4 = 1,0,0,0 and m6 = 0,0,1,1, lowest pair first
    let r = collatz_step_3n1(&pair);
    assert_eq!(r.raw_pair_count, 4);
    assert_eq!(r.raw_m6, vec![0b1100]);
    assert_eq!(r.raw_m4, vec![0b0001]);
    // 5 * 27 + 1 = 136 = 10001000
    let r = collatz_step_5n1(&pair);
    assert_eq!(r.raw_pair_count, 4);
    assert_eq!(r.raw_m6, vec![0]);
    assert_eq!(r.raw_m4, vec![0b1010]);
    let g = collatz_step(&pair, 5);
    assert_eq!(g.raw_pair_count, 4);
    assert_eq!(g.raw_m4, vec![0b1010]);
}

/// The raw streams have room for the pairs of `n`, half of `s + 1` rounded
/// up, and one more.
#[test]
fn raw_streams_have_room_for_the_margin() {
    // 2^123 has 62 pairs
    let n = BigUint::one() << 123u32;
    let pair = PairNumber::from_biguint(&n);
    assert_eq!(pair.pair_count(), 62);
    // s = 1: 62 + 1 + 1 pairs, one word
    assert_eq!(collatz_step_3n1(&pair).raw_m4.len(), 1);
    assert_eq!(collatz_step(&pair, 3).raw_m6.len(), 1);
    // s = 2: 62 + 2 + 1 pairs, two words
    assert_eq!(collatz_step_5n1(&pair).raw_m4.len(), 2);
    assert_eq!(collatz_step(&pair, 5).raw_m6.len(), 2);
    // s = 6: 62 + 4 + 1 pairs
    let r = collatz_step(&pair, 65);
    assert_eq!(r.raw_m4.len(), 2);
    // 65 * 2^123 + 1 has 130 bits: 65 pairs written
    assert_eq!(r.raw_pair_count, 65);
    assert_eq!(r.d, 0);
}

use collatz_m4m6::packed::{
    extract_window, kogge_stone_prefix, packed_scan_word, packed_step_3n1, packed_step_3n1_opt,
    packed_step_5n1, packed_step_5n1_opt, packed_step_generic, packed_step_generic_opt,
};
use collatz_m4m6::pair_number::PairNumber;
use collatz_m4m6::scan::{collatz_step, collatz_step_3n1, collatz_step_5n1};
use num_bigint::BigUint;
use num_traits::One;

#[test]
fn test_kogge_stone_simple() {
    let (g, _p) = kogge_stone_prefix(u64::MAX, 0);
    assert_eq!(g, u64::MAX);

    let (g, p) = kogge_stone_prefix(0, 0);
    assert_eq!(g, 0);
    assert_eq!(p, 0);

    let (g, p) = kogge_stone_prefix(0, u64::MAX);
    assert_eq!(g, 0);
    assert_eq!(p, u64::MAX);

    let (g, _p) = kogge_stone_prefix(1, u64::MAX & !1);
    assert_eq!(g, u64::MAX);
}

#[test]
fn test_extract_window() {
    let words = vec![0xFF00FF00FF00FF00u64, 0x0F0F0F0F0F0F0F0Fu64];
    assert_eq!(extract_window(&words, 128, 0), words[0]);
    assert_eq!(extract_window(&words, 128, 64), words[1]);
    assert_eq!(extract_window(&words, 128, -1), words[0] << 1);
    assert_eq!(extract_window(&words, 128, 128), 0);
}

#[test]
fn test_packed_3n1_vs_sequential() {
    for n_val in (1u64..=999).step_by(2) {
        let n = BigUint::from(n_val);
        let pn = PairNumber::from_biguint(&n);

        let packed = packed_step_3n1(&pn);
        let seq = collatz_step_3n1(&pn);

        let packed_next = PairNumber::from_packed(
            packed.new_m4.clone(),
            packed.new_m6.clone(),
            packed.new_pair_count,
        );
        assert_eq!(
            packed_next.to_biguint(),
            seq.next.to_biguint(),
            "n' mismatch for 3n+1, n={}",
            n_val
        );
        assert_eq!(packed.d, seq.d, "d mismatch for 3n+1, n={}", n_val);
        assert_eq!(packed.exchanged, seq.exchanged, "exchanged mismatch for 3n+1, n={}", n_val);
        assert_eq!(packed.g_count, seq.gpk.g_count, "g_count mismatch for 3n+1, n={}", n_val);
        assert_eq!(packed.p_count, seq.gpk.p_count, "p_count mismatch for 3n+1, n={}", n_val);
        assert_eq!(packed.k_count, seq.gpk.k_count, "k_count mismatch for 3n+1, n={}", n_val);
        assert_eq!(
            packed.max_carry_chain, seq.gpk.max_carry_chain,
            "max_carry_chain mismatch for 3n+1, n={}",
            n_val
        );
    }
}

#[test]
fn test_packed_5n1_vs_sequential() {
    for n_val in (1u64..=999).step_by(2) {
        let n = BigUint::from(n_val);
        let pn = PairNumber::from_biguint(&n);

        let packed = packed_step_5n1(&pn);
        let seq = collatz_step_5n1(&pn);

        let packed_next = PairNumber::from_packed(
            packed.new_m4.clone(),
            packed.new_m6.clone(),
            packed.new_pair_count,
        );
        assert_eq!(
            packed_next.to_biguint(),
            seq.next.to_biguint(),
            "n' mismatch for 5n+1, n={}",
            n_val
        );
        assert_eq!(packed.d, seq.d, "d mismatch for 5n+1, n={}", n_val);
        assert_eq!(packed.g_count, seq.gpk.g_count, "g_count mismatch for 5n+1, n={}", n_val);
        assert_eq!(packed.p_count, seq.gpk.p_count, "p_count mismatch for 5n+1, n={}", n_val);
        assert_eq!(packed.k_count, seq.gpk.k_count, "k_count mismatch for 5n+1, n={}", n_val);
    }
}

#[test]
fn test_packed_generic_vs_sequential() {
    for x in [3u64, 5, 9, 17, 33, 65] {
        for n_val in (1u64..=199).step_by(2) {
            let n = BigUint::from(n_val);
            let pn = PairNumber::from_biguint(&n);

            let packed = packed_step_generic(&pn, x);
            let seq = collatz_step(&pn, x);

            let packed_next = PairNumber::from_packed(
                packed.new_m4.clone(),
                packed.new_m6.clone(),
                packed.new_pair_count,
            );
            assert_eq!(
                packed_next.to_biguint(),
                seq.next.to_biguint(),
                "n' mismatch for {}n+1, n={}",
                x,
                n_val
            );
            assert_eq!(packed.d, seq.d, "d mismatch for {}n+1, n={}", x, n_val);
        }
    }
}

#[test]
fn test_packed_large_3n1() {
    let n = (BigUint::one() << 1000u32) - BigUint::one();
    let pn = PairNumber::from_biguint(&n);

    let packed = packed_step_3n1(&pn);
    let seq = collatz_step_3n1(&pn);

    let packed_next = PairNumber::from_packed(
        packed.new_m4.clone(),
        packed.new_m6.clone(),
        packed.new_pair_count,
    );
    assert_eq!(packed_next.to_biguint(), seq.next.to_biguint(), "large n' mismatch");
    assert_eq!(packed.d, seq.d, "large d mismatch");
    assert_eq!(packed.g_count, seq.gpk.g_count, "large g_count mismatch");
}

#[test]
fn test_packed_multi_step() {
    let mut n = BigUint::from(27u64);
    let mut pn = PairNumber::from_biguint(&n);

    for _step in 0..20 {
        let packed = packed_step_3n1(&pn);

        let xn1 = &n * BigUint::from(3u64) + BigUint::one();
        let d_arith = xn1.trailing_zeros().unwrap_or(0);
        let n_next_arith = &xn1 >> d_arith;

        let packed_next = PairNumber::from_packed(
            packed.new_m4.clone(),
            packed.new_m6.clone(),
            packed.new_pair_count,
        );
        let n_next = packed_next.to_biguint();

        assert_eq!(packed.d, d_arith, "d mismatch");
        assert_eq!(n_next, n_next_arith, "n' mismatch");

        n = n_next;
        pn = packed_next;

        if pn.is_one() {
            break;
        }
    }
}

#[test]
fn test_packed_large_5n1() {
    let n = (BigUint::one() << 10000u32) - BigUint::one();
    let pn = PairNumber::from_biguint(&n);

    let packed = packed_step_5n1(&pn);
    let seq = collatz_step_5n1(&pn);

    let packed_next = PairNumber::from_packed(
        packed.new_m4.clone(),
        packed.new_m6.clone(),
        packed.new_pair_count,
    );
    assert_eq!(packed_next.to_biguint(), seq.next.to_biguint(), "large 5n+1 n' mismatch");
    assert_eq!(packed.d, seq.d, "large 5n+1 d mismatch");
}

/// The packed and the sequential step agree in every field, for all odd
/// numbers below 1000 and the six smallest multipliers.
#[test]
fn packed_equals_sequential_all_fields() {
    for x in [3u64, 5, 9, 17, 33, 65] {
        for n_val in (1u64..=999).step_by(2) {
            let pn = PairNumber::from_biguint(&BigUint::from(n_val));
            let packed = packed_step_generic(&pn, x);
            let seq = collatz_step(&pn, x);
            assert_eq!(packed.new_m4, seq.next.m4_words().to_vec());
            assert_eq!(packed.new_m6, seq.next.m6_words().to_vec());
            assert_eq!(packed.new_pair_count, seq.next.pair_count());
            assert_eq!(packed.d, seq.d);
            assert_eq!(packed.exchanged, seq.exchanged);
            assert_eq!(packed.g_count, seq.gpk.g_count);
            assert_eq!(packed.p_count, seq.gpk.p_count);
            assert_eq!(packed.k_count, seq.gpk.k_count);
            assert_eq!(packed.max_carry_chain, seq.gpk.max_carry_chain);
            assert_eq!(packed.g_masks, seq.gpk.g_masks);
            assert_eq!(packed.p_masks, seq.gpk.p_masks);
        }
    }
}

/// The same for numbers of many words, whose carry chains run through
/// every pair.
#[test]
fn packed_equals_sequential_long_chains() {
    for bits in [1000u32, 10000] {
        let n = (BigUint::one() << bits) - BigUint::one();
        let pn = PairNumber::from_biguint(&n);
        for x in [3u64, 5, 9, 129, 257] {
            let packed = packed_step_generic(&pn, x);
            let seq = collatz_step(&pn, x);
            assert_eq!(packed.new_m4, seq.next.m4_words().to_vec());
            assert_eq!(packed.new_m6, seq.next.m6_words().to_vec());
            assert_eq!(packed.d, seq.d);
            assert_eq!(packed.exchanged, seq.exchanged);
            assert_eq!(packed.g_count, seq.gpk.g_count);
            assert_eq!(packed.p_count, seq.gpk.p_count);
            assert_eq!(packed.k_count, seq.gpk.k_count);
            assert_eq!(packed.max_carry_chain, seq.gpk.max_carry_chain);
        }
    }
}

/// Multipliers with a large exponent, against big-integer arithmetic.
#[test]
fn packed_large_exponents() {
    for s in [7u32, 8, 31, 32, 62, 63] {
        let x: u64 = (1u64 << s) + 1;
        for n_val in (1u64..=301).step_by(2) {
            let n = BigUint::from(n_val);
            let pn = PairNumber::from_biguint(&n);
            let xn1 = &n * BigUint::from(x) + BigUint::one();
            let d = xn1.trailing_zeros().unwrap_or(0);
            let want = &xn1 >> d;
            let packed = packed_step_generic(&pn, x);
            let got = PairNumber::from_packed(packed.new_m4, packed.new_m6, packed.new_pair_count);
            assert_eq!(got.to_biguint(), want, "x={} n={}", x, n_val);
            assert_eq!(packed.d, d);
            let seq = collatz_step(&pn, x);
            assert_eq!(seq.next.to_biguint(), want, "x={} n={}", x, n_val);
            assert_eq!(seq.d, d);
        }
    }
}

#[test]
fn packed_without_classification() {
    let pn = PairNumber::from_biguint(&BigUint::from(27u64));
    let a = packed_step_3n1_opt(&pn, false);
    assert_eq!((a.g_count, a.p_count, a.k_count, a.max_carry_chain), (0, 0, 0, 0));
    assert!(a.g_masks.is_empty() && a.p_masks.is_empty());
    assert_eq!(a.d, 1);
    let b = packed_step_5n1_opt(&pn, false);
    assert_eq!((b.g_count, b.p_count, b.k_count, b.max_carry_chain), (0, 0, 0, 0));
    assert_eq!(b.d, 3);
    let c = packed_step_generic_opt(&pn, 9, false);
    assert!(c.g_masks.is_empty());
    // 9 * 27 + 1 = 244 = 4 * 61
    assert_eq!(c.d, 2);
    assert_eq!(
        PairNumber::from_packed(c.new_m4, c.new_m6, c.new_pair_count).to_biguint(),
        BigUint::from(61u64)
    );
}

#[test]
fn packed_counts_use_the_ones_of_the_masks() {
    // 27 = 011011: pairs (1,1), (1,0), (0,1); for x = 3 the classes are G, P, G
    let pn = PairNumber::from_biguint(&BigUint::from(27u64));
    let r = packed_step_3n1(&pn);
    assert_eq!(r.g_masks, vec![0b101]);
    assert_eq!(r.p_masks, vec![0b010]);
    assert_eq!((r.g_count, r.p_count, r.k_count), (2, 1, 0));
    assert_eq!(r.max_carry_chain, 3);
}

#[test]
fn scan_word_ripples_the_carry() {
    // all pairs propagate: the carry in runs through the word and out
    let (m4, m6, c_out, g, p) = packed_scan_word(u64::MAX, 0, u64::MAX, 0, 1);
    assert_eq!((m4, m6, c_out, g, p), (0, 0, 1, 0, u64::MAX));
    let (m4, m6, c_out, g, p) = packed_scan_word(u64::MAX, 0, u64::MAX, 0, 0);
    assert_eq!((m4, m6, c_out, g, p), (u64::MAX, u64::MAX, 0, 0, u64::MAX));
    // pair 0 generates in its high stage, nothing above it
    let (m4, m6, c_out, g, p) = packed_scan_word(0, 0, 1, 1, 0);
    assert_eq!((m4, m6, c_out, g, p), (0, 2, 0, 1, 0));
}

#[test]
fn window_pads_with_zeros() {
    let words = vec![u64::MAX, u64::MAX];
    // 70 positions only: the upper part of the second word is not there
    assert_eq!(extract_window(&words, 70, 64), 0b111111);
    assert_eq!(extract_window(&words, 70, 60), (1u64 << 10) - 1);
    assert_eq!(extract_window(&words, 70, -3), u64::MAX << 3);
    assert_eq!(extract_window(&words, 70, -64), 0);
    assert_eq!(extract_window(&words, 70, -1000), 0);
    assert_eq!(extract_window(&words, 70, 70), 0);
    assert_eq!(extract_window(&words, 3, -2), 0b11100);
    assert_eq!(extract_window(&[], 0, 0), 0);
}

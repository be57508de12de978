use collatz_m4m6::{
    collatz_step_3n1, collatz_step_5n1, stopping_time, trace_trajectory, Gpk, PairNumber,
};
use num_bigint::BigUint;

#[test]
fn test_paper_example_27_x5() {
    let n = BigUint::from(27u64);
    let pair = PairNumber::from_biguint(&n);

    assert_eq!(pair.m4_as_vec_u8(), vec![1, 1, 0]);
    assert_eq!(pair.m6_as_vec_u8(), vec![1, 0, 1]);
    assert_eq!(pair.pair_count(), 3);

    let result = collatz_step_5n1(&pair);

    assert_eq!(result.d, 3);
    assert!(result.exchanged);
    assert_eq!(result.next.to_biguint(), BigUint::from(17u64));
}

#[test]
fn test_paper_example_27_x3() {
    let n = BigUint::from(27u64);
    let pair = PairNumber::from_biguint(&n);

    let result = collatz_step_3n1(&pair);

    assert_eq!(result.d, 1);
    assert!(result.exchanged);
    assert_eq!(result.next.to_biguint(), BigUint::from(41u64));
}

#[test]
fn test_trajectory_27_3n1() {
    let start = BigUint::from(27u64);
    let result = trace_trajectory(&start, 3, 200);

    assert!(result.reached_one, "27 should reach 1 under 3n+1");
    assert_eq!(result.total_steps, 41, "27 should take 41 odd-to-odd steps to reach 1");

    let sum_d: u64 = result.steps.iter().map(|(_, d)| d).sum();
    assert_eq!(
        result.total_steps + sum_d,
        111,
        "odd-to-odd steps + total divisions should equal 111"
    );
}

#[test]
fn test_5n1_cycle_27() {
    let start = BigUint::from(27u64);
    let pair = PairNumber::from_biguint(&start);

    let r1 = collatz_step_5n1(&pair);
    assert_eq!(r1.next.to_biguint(), BigUint::from(17u64));

    let r2 = collatz_step_5n1(&r1.next);
    assert_eq!(r2.next.to_biguint(), BigUint::from(43u64));

    let r3 = collatz_step_5n1(&r2.next);
    assert_eq!(r3.next.to_biguint(), BigUint::from(27u64));
}

#[test]
fn test_5n1_cycle_13() {
    let start = BigUint::from(13u64);
    let pair = PairNumber::from_biguint(&start);

    let r1 = collatz_step_5n1(&pair);
    assert_eq!(r1.next.to_biguint(), BigUint::from(33u64));

    let r2 = collatz_step_5n1(&r1.next);
    assert_eq!(r2.next.to_biguint(), BigUint::from(83u64));

    let r3 = collatz_step_5n1(&r2.next);
    assert_eq!(r3.next.to_biguint(), BigUint::from(13u64));
}

#[test]
fn test_3n1_fixed_point() {
    let one = BigUint::from(1u64);
    let pair = PairNumber::from_biguint(&one);
    let result = collatz_step_3n1(&pair);
    assert_eq!(result.d, 2);
    assert_eq!(result.next.to_biguint(), one);
}

#[test]
fn test_zipper_structure() {
    let pair = PairNumber::from_biguint(&BigUint::from(27u64));
    let bits = pair.to_bits_lsb();
    assert_eq!(bits, vec![1, 1, 0, 1, 1, 0]);

    let pair136 = PairNumber::from_biguint(&BigUint::from(136u64));
    let bits136 = pair136.to_bits_lsb();
    assert_eq!(bits136, vec![0, 0, 0, 1, 0, 0, 0, 1]);
}

#[test]
fn test_exchange_flag() {
    let pair27 = PairNumber::from_biguint(&BigUint::from(27u64));

    let r3 = collatz_step_3n1(&pair27);
    assert!(r3.exchanged);

    let r5 = collatz_step_5n1(&pair27);
    assert!(r5.exchanged);

    let pair1 = PairNumber::from_biguint(&BigUint::from(1u64));
    let r1 = collatz_step_3n1(&pair1);
    assert!(!r1.exchanged);
}

#[test]
fn test_gpk_27_x5() {
    let pair = PairNumber::from_biguint(&BigUint::from(27u64));
    let result = collatz_step_5n1(&pair);

    assert_eq!(result.gpk.to_seq(), vec![Gpk::Propagate, Gpk::Generate, Gpk::Propagate]);
    assert_eq!(result.gpk.g_count, 1);
    assert_eq!(result.gpk.p_count, 2);
    assert_eq!(result.gpk.k_count, 0);
    assert_eq!(result.gpk.max_carry_chain, 3);
}

#[test]
fn test_gpk_27_x3() {
    let pair = PairNumber::from_biguint(&BigUint::from(27u64));
    let result = collatz_step_3n1(&pair);

    assert_eq!(result.gpk.to_seq(), vec![Gpk::Generate, Gpk::Propagate, Gpk::Generate]);
    assert_eq!(result.gpk.g_count, 2);
    assert_eq!(result.gpk.p_count, 1);
    assert_eq!(result.gpk.k_count, 0);
    assert_eq!(result.gpk.max_carry_chain, 3);
}

#[test]
fn test_theorem_5_1_x3_gpk_matches_predicates() {
    for n_val in (1u64..200).step_by(2) {
        let n = BigUint::from(n_val);
        let pair = PairNumber::from_biguint(&n);
        let _result = collatz_step_3n1(&pair);

        for i in 0..pair.pair_count() {
            let ai = pair.get_m4(i as isize);
            let bi = pair.get_m6(i as isize);

            let g_out = bi & ai;
            let p_out = bi ^ ai;

            let k_out = if g_out == 0 && p_out == 0 { 1u8 } else { 0 };

            assert_eq!(g_out, ai & bi, "n={} i={}: G_out should be m2(AND)", n_val, i);
            assert_eq!(p_out, ai ^ bi, "n={} i={}: P_out should be m7(XOR)", n_val, i);
            assert_eq!(
                k_out,
                if ai == 0 && bi == 0 { 1 } else { 0 },
                "n={} i={}: K_out should be m9(NOR)",
                n_val,
                i
            );
        }
    }
}

#[test]
fn test_stopping_time() {
    let n27 = BigUint::from(27u64);
    let st = stopping_time(&n27, 3, 200);
    assert!(st.is_some(), "27 should have a finite stopping time");

    let n1 = BigUint::from(1u64);
    let st1 = stopping_time(&n1, 3, 200);
    assert_eq!(st1, Some(0));
}

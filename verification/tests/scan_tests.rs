use collatz_m4m6::reference::{is_valid_multiplier, RefPattern};
use collatz_m4m6::scan::{
    collatz_step, collatz_step_3n1, full_add, pair_gpk, sweep_chain, Gpk, GpkStats,
};
use collatz_m4m6::streams::{mask_top, or_packed_bit, packed_bit, word_count_for, zero_words};
use collatz_m4m6::PairNumber;
use num_bigint::BigUint;
use num_traits::One;

#[test]
fn scenario_step_27_x3() {
    let pair = PairNumber::from_biguint(&BigUint::from(27u64));
    let r = collatz_step(&pair, 3);
    assert_eq!(r.d, 1);
    assert!(r.exchanged);
    assert_eq!(r.next.to_biguint(), BigUint::from(41u64));
    assert_eq!(r.gpk.to_seq(), vec![Gpk::Generate, Gpk::Propagate, Gpk::Generate]);
    assert_eq!(r.gpk.gpk_string(3), "GPG");
}

#[test]
fn scenario_step_27_x5() {
    let pair = PairNumber::from_biguint(&BigUint::from(27u64));
    let r = collatz_step(&pair, 5);
    assert_eq!(r.d, 3);
    assert!(r.exchanged);
    assert_eq!(r.next.to_biguint(), BigUint::from(17u64));
    assert_eq!(r.gpk.to_seq(), vec![Gpk::Propagate, Gpk::Generate, Gpk::Propagate]);
    assert_eq!(r.gpk.gpk_string(3), "PGP");
}

#[test]
fn scenario_step_1_x3() {
    let pair = PairNumber::from_biguint(&BigUint::one());
    let r = collatz_step(&pair, 3);
    assert_eq!(r.d, 2);
    assert!(!r.exchanged);
    assert_eq!(r.next.to_biguint(), BigUint::one());
    assert!(r.next.is_one());
}

#[test]
fn classification_as_text() {
    let pair = PairNumber::from_biguint(&BigUint::from(27u64));
    let r = collatz_step_3n1(&pair);
    assert_eq!(r.gpk.gpk_string(10), "GPG");
    assert_eq!(r.gpk.gpk_string(3), "GPG");
    assert_eq!(r.gpk.gpk_string(2), "GP...");
    assert_eq!(r.gpk.gpk_string(0), "...");
    // 1 = (0, 1): for x = 3 the low stage adds 0 + 1 and the high stage 1 + 0
    let one = collatz_step_3n1(&PairNumber::from_biguint(&BigUint::one()));
    assert_eq!(one.gpk.gpk_string(5), "P");
    assert_eq!(one.gpk.to_seq(), vec![Gpk::Propagate]);
    // 4 = (0, 1), (0, 0) read as pairs (m4, m6): pair 0 is (0, 0), a Kill
    let four = collatz_step_3n1(&PairNumber::from_biguint(&BigUint::from(4u64)));
    assert_eq!(four.gpk.to_seq(), vec![Gpk::Kill, Gpk::Propagate]);
    assert_eq!((four.gpk.g_count, four.gpk.p_count, four.gpk.k_count), (0, 1, 1));
    // the carry of the + 1 dies at the Kill; the Propagate behind it has none
    assert_eq!(four.gpk.max_carry_chain, 0);
}

#[test]
fn pair_classification_from_bits() {
    // pair_gpk(p_r, q_r, p_l, q_l)
    assert_eq!(pair_gpk(0, 0, 1, 1), Gpk::Generate);
    assert_eq!(pair_gpk(1, 1, 1, 0), Gpk::Generate);
    assert_eq!(pair_gpk(1, 1, 0, 1), Gpk::Generate);
    assert_eq!(pair_gpk(1, 0, 1, 0), Gpk::Propagate);
    assert_eq!(pair_gpk(0, 1, 0, 1), Gpk::Propagate);
    assert_eq!(pair_gpk(1, 1, 0, 0), Gpk::Kill);
    assert_eq!(pair_gpk(0, 0, 1, 0), Gpk::Kill);
    assert_eq!(pair_gpk(0, 0, 0, 0), Gpk::Kill);
    assert_eq!(full_add(0, 0, 0), (0, 0));
    assert_eq!(full_add(1, 0, 0), (1, 0));
    assert_eq!(full_add(1, 1, 0), (0, 1));
    assert_eq!(full_add(1, 1, 1), (1, 1));
    assert_eq!(full_add(0, 1, 1), (0, 1));
}

#[test]
fn longest_chain_of_masks() {
    // G P P K P G P: the chain of the + 1 runs through 3 pairs; the
    // Propagate behind the Kill has no carry; the second Generate starts a
    // chain of 2
    let g = [0b0100001u64];
    let p = [0b1010110u64];
    assert_eq!(sweep_chain(&g, &p, 7), 3);
    assert_eq!(sweep_chain(&g, &p, 3), 3);
    assert_eq!(sweep_chain(&g, &p, 1), 1);
    assert_eq!(sweep_chain(&g, &p, 0), 0);
    // all Propagate: the + 1 runs through all of them
    assert_eq!(sweep_chain(&[0, 0], &[u64::MAX, u64::MAX], 100), 100);
    // all Kill
    assert_eq!(sweep_chain(&[0], &[0], 50), 0);
}

#[test]
fn totals_add_up() {
    let pair = PairNumber::from_biguint(&BigUint::from(27u64));
    let a = collatz_step(&pair, 3);
    let b = collatz_step(&pair, 5);
    let mut st = GpkStats::new();
    st.accumulate(&a.gpk);
    st.accumulate(&b.gpk);
    assert_eq!((st.total_g, st.total_p, st.total_k), (3, 3, 0));
    assert_eq!(st.total_pairs, 6);
    assert_eq!(st.total_steps, 2);
    assert_eq!(st.carry_chain_hist[3], 2);
    assert_eq!(st.carry_chain_hist.iter().sum::<u64>(), 2);
    let mut long = GpkStats::new();
    long.add_step(200, 0, 0, 200, 200);
    assert_eq!(long.carry_chain_hist[127], 1);
    long.add_step(1, 2, 3, 6, 126);
    assert_eq!(long.carry_chain_hist[126], 1);
    let mut sum = st.clone();
    sum.merge(&long);
    assert_eq!((sum.total_g, sum.total_p, sum.total_k), (204, 5, 3));
    assert_eq!(sum.total_pairs, 212);
    assert_eq!(sum.total_steps, 4);
    assert_eq!(sum.carry_chain_hist[3], 2);
    assert_eq!(sum.carry_chain_hist[126], 1);
    assert_eq!(sum.carry_chain_hist[127], 1);
}

#[test]
fn multipliers() {
    for s in 1u32..64 {
        assert!(is_valid_multiplier((1u64 << s) + 1), "s={}", s);
        let rp = RefPattern::new((1u64 << s) + 1);
        assert_eq!(rp.s, s);
        assert_eq!(rp.t, (s / 2) as isize);
        assert_eq!(rp.s_is_even, s % 2 == 0);
    }
    for x in [0u64, 1, 2, 4, 6, 7, 8, 10, 11, 15, 16, 18, 31, 64, 66, u64::MAX] {
        assert!(!is_valid_multiplier(x), "x={}", x);
    }
}

#[test]
fn reference_bits() {
    // 27: m4 = 1,1,0 and m6 = 1,0,1
    let n = PairNumber::from_biguint(&BigUint::from(27u64));
    let odd = RefPattern::new(3);
    assert_eq!(odd.ref_r(&n, 0, 1), (0, 1));
    assert_eq!(odd.ref_r(&n, 1, 0), (1, 0));
    assert_eq!(odd.ref_r(&n, 3, 0), (0, 0));
    assert_eq!(odd.ref_l(&n, 0, 1), (1, 1));
    assert_eq!(odd.ref_l(&n, 1, 1), (0, 1));
    let even = RefPattern::new(5);
    assert_eq!(even.ref_r(&n, 0, 1), (0, 1));
    assert_eq!(even.ref_r(&n, 1, 0), (1, 0));
    assert_eq!(even.ref_r(&n, 3, 0), (1, 0));
    assert_eq!(even.ref_l(&n, 1, 1), (1, 1));
    assert_eq!(even.ref_l(&n, 3, 0), (0, 0));
    let far = RefPattern::new(17);
    assert_eq!(far.ref_r(&n, 2, 1), (1, 1));
    assert_eq!(far.ref_l(&n, 3, 0), (1, 0));
}

#[test]
fn packed_streams() {
    assert_eq!(word_count_for(0), 0);
    assert_eq!(word_count_for(1), 1);
    assert_eq!(word_count_for(64), 1);
    assert_eq!(word_count_for(65), 2);
    let mut w = zero_words(2);
    assert_eq!(w, vec![0, 0]);
    or_packed_bit(&mut w, 3, 1);
    or_packed_bit(&mut w, 64, 1);
    or_packed_bit(&mut w, 5, 0);
    assert_eq!(w, vec![0b1000, 1]);
    assert_eq!(packed_bit(&w, 3), 1);
    assert_eq!(packed_bit(&w, 4), 0);
    assert_eq!(packed_bit(&w, 64), 1);
    let mut m = vec![u64::MAX, u64::MAX];
    mask_top(&mut m, 70);
    assert_eq!(m, vec![u64::MAX, 0b111111]);
    let mut full = vec![u64::MAX];
    mask_top(&mut full, 64);
    assert_eq!(full, vec![u64::MAX]);
    let mut none: Vec<u64> = Vec::new();
    mask_top(&mut none, 5);
    assert!(none.is_empty());
}

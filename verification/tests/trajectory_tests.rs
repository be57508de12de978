use collatz_m4m6::scan::GpkStats;
use collatz_m4m6::trajectory::{
    predicate_bits_msb, stopping_time, stopping_time_u64_fast, stopping_time_with_gpk,
    trace_has_room, trace_trajectory, trace_trajectory_cancellable,
    trace_trajectory_with_callback, try_stopping_time_with_gpk,
    try_trace_trajectory_with_callback, within_step_limit, words_to_bits_msb, MAX_PAIR_COUNT,
    PREDICATE_NAMES,
};
use collatz_m4m6::PairNumber;
use num_bigint::BigUint;
use num_traits::One;
use std::cell::RefCell;
use std::sync::atomic::AtomicBool;

fn stats_fields(s: &GpkStats) -> (u64, u64, u64, u64, u64, Vec<u64>) {
    (s.total_g, s.total_p, s.total_k, s.total_pairs, s.total_steps, s.carry_chain_hist.to_vec())
}

/// The stopping time by big-integer arithmetic, with the same stopping
/// rule and the same cap on the size.
fn reference_stopping_time(n: u64, x: u64, max_steps: u64, use_stopping_time: bool) -> Option<u64> {
    if n == 1 {
        return Some(0);
    }
    let initial = BigUint::from(n);
    let mut current = initial.clone();
    let mut steps = 0u64;
    while steps < max_steps {
        let xn1 = &current * BigUint::from(x) + BigUint::one();
        let d = xn1.trailing_zeros().unwrap_or(0);
        current = &xn1 >> d;
        steps += 1;
        if current == BigUint::one() || (use_stopping_time && current < initial) {
            return Some(steps);
        }
        if ((current.bits() + 1) / 2) as usize > MAX_PAIR_COUNT {
            return None;
        }
    }
    None
}

#[test]
fn trace_27_is_the_known_trajectory() {
    let start = BigUint::from(27u64);
    let result = trace_trajectory(&start, 3, 200);
    assert!(result.reached_one);
    assert_eq!(result.total_steps, 41);
    assert_eq!(result.start, start);
    assert_eq!(result.max_value, BigUint::from(3077u64));
    assert!(result.max_value.bits() >= 8);
    let odd: Vec<u64> = vec![
        41, 31, 47, 71, 107, 161, 121, 91, 137, 103, 155, 233, 175, 263, 395, 593, 445, 167, 251,
        377, 283, 425, 319, 479, 719, 1079, 1619, 2429, 911, 1367, 2051, 3077, 577, 433, 325, 61,
        23, 35, 53, 5, 1,
    ];
    let got: Vec<BigUint> = result.steps.iter().map(|(n, _)| n.clone()).collect();
    let want: Vec<BigUint> = odd.iter().map(|n| BigUint::from(*n)).collect();
    assert_eq!(got, want);
    let sum_d: u64 = result.steps.iter().map(|(_, d)| d).sum();
    assert_eq!(sum_d, 70);
    assert_eq!(result.pair_steps.len(), 42);
    assert_eq!(result.gpk_per_step.len(), 41);
    // the first record is the start itself
    let first = &result.pair_steps[0];
    assert_eq!((first.d, first.exchanged, first.raw_pair_count), (0, false, 0));
    assert!(first.raw_m4_words.is_empty() && first.raw_m6_words.is_empty());
    assert_eq!(first.m4_words, vec![0b011]);
    assert_eq!(first.m6_words, vec![0b101]);
    // every other record is the step to the number of the same place
    for (i, (n, d)) in result.steps.iter().enumerate() {
        let ps = &result.pair_steps[i + 1];
        let p = PairNumber::from_packed(ps.m4_words.clone(), ps.m6_words.clone(), ps.pair_count);
        assert_eq!(&p.to_biguint(), n);
        assert_eq!(ps.d, *d);
        assert_eq!(ps.exchanged, d % 2 == 1);
    }
    // the totals are those of the steps
    let st = &result.gpk_stats;
    assert_eq!(st.total_steps, 41);
    assert_eq!(st.total_g + st.total_p + st.total_k, st.total_pairs);
    assert_eq!(st.carry_chain_hist.iter().sum::<u64>(), 41);
    let g: u64 = result.gpk_per_step.iter().map(|i| i.g_count as u64).sum();
    let pairs: u64 = result.gpk_per_step.iter().map(|i| i.active_pairs as u64).sum();
    assert_eq!(st.total_g, g);
    assert_eq!(st.total_pairs, pairs);
    // the first step is from 27: G, P, G
    assert_eq!(result.gpk_per_step[0].gpk_string(10), "GPG");
}

#[test]
fn trace_ends_at_the_step_budget() {
    let result = trace_trajectory(&BigUint::from(27u64), 3, 10);
    assert!(!result.reached_one);
    assert_eq!(result.total_steps, 10);
    assert_eq!(result.steps.len(), 10);
    assert_eq!(result.steps[9].0, BigUint::from(103u64));
    assert_eq!(result.max_value, BigUint::from(161u64));
    let none = trace_trajectory(&BigUint::from(27u64), 3, 0);
    assert_eq!(none.total_steps, 0);
    assert!(!none.reached_one);
    assert_eq!(none.max_value, BigUint::from(27u64));
    assert_eq!(none.pair_steps.len(), 1);
}

#[test]
fn trace_from_one_takes_no_step() {
    let result = trace_trajectory(&BigUint::one(), 3, 100);
    assert!(result.reached_one);
    assert_eq!(result.total_steps, 0);
    assert!(result.steps.is_empty());
    assert_eq!(result.gpk_stats.total_steps, 0);
}

#[test]
fn trace_of_a_cycle_runs_to_the_budget() {
    // 27 -> 17 -> 43 -> 27 under 5n + 1
    let result = trace_trajectory(&BigUint::from(27u64), 5, 9);
    assert!(!result.reached_one);
    assert_eq!(result.total_steps, 9);
    let got: Vec<BigUint> = result.steps.iter().map(|(n, _)| n.clone()).collect();
    let want: Vec<BigUint> =
        [17u64, 43, 27, 17, 43, 27, 17, 43, 27].iter().map(|n| BigUint::from(*n)).collect();
    assert_eq!(got, want);
    assert_eq!(result.max_value, BigUint::from(43u64));
}

#[test]
fn trace_gives_up_on_large_numbers() {
    // 2^20001 - 1 has 10001 pairs: the first step leads to a number of more
    // than 10000 pairs, and the trace ends behind it
    let start = (BigUint::one() << 20001u32) - BigUint::one();
    let result = trace_trajectory(&start, 3, 5);
    assert_eq!(result.total_steps, 1);
    assert!(!result.reached_one);
    let xn1 = &start * BigUint::from(3u64) + BigUint::one();
    let d = xn1.trailing_zeros().unwrap_or(0);
    assert_eq!(result.steps[0].0, &xn1 >> d);
    assert_eq!(result.steps[0].1, d);
}

#[test]
fn trace_calls_back_after_every_step() {
    let seen: RefCell<Vec<(u64, usize, u64)>> = RefCell::new(Vec::new());
    let result = trace_trajectory_with_callback(&BigUint::from(27u64), 3, 200, |step, digits, d| {
        seen.borrow_mut().push((step, digits, d));
    });
    let seen = seen.into_inner();
    assert_eq!(seen.len(), 41);
    assert_eq!(seen[0], (1, 6, 1));
    for (i, (step, digits, d)) in seen.iter().enumerate() {
        assert_eq!(*step, i as u64 + 1);
        assert_eq!(*digits, result.pair_steps[i + 1].pair_count * 2);
        assert_eq!(*d, result.steps[i].1);
    }
}

#[test]
fn trace_stops_where_the_flag_is_raised() {
    let raised = AtomicBool::new(true);
    let result = trace_trajectory_cancellable(&BigUint::from(27u64), 3, 200, &raised, |_, _, _| {});
    assert_eq!(result.total_steps, 0);
    assert!(!result.reached_one);
    assert_eq!(result.pair_steps.len(), 1);
    assert_eq!(result.max_value, BigUint::from(27u64));

    let quiet = AtomicBool::new(false);
    let full = trace_trajectory_cancellable(&BigUint::from(27u64), 3, 200, &quiet, |_, _, _| {});
    assert_eq!(full.total_steps, 41);
    assert!(full.reached_one);
    assert_eq!(full.max_value, BigUint::from(3077u64));
}

#[test]
fn stopping_times_of_small_numbers() {
    assert_eq!(stopping_time(&BigUint::from(27u64), 3, 200), Some(37));
    assert_eq!(stopping_time(&BigUint::from(27u64), 3, 36), None);
    assert_eq!(stopping_time(&BigUint::from(27u64), 3, 37), Some(37));
    assert_eq!(stopping_time(&BigUint::from(3u64), 3, 200), Some(2));
    assert_eq!(stopping_time(&BigUint::from(5u64), 3, 200), Some(1));
    assert_eq!(stopping_time(&BigUint::from(1u64), 3, 0), Some(0));
    assert_eq!(stopping_time(&BigUint::from(3u64), 3, 0), None);
    // to 1 instead of below the start
    assert_eq!(stopping_time_with_gpk(&BigUint::from(27u64), 3, 200, None, false), Some(41));
    assert_eq!(stopping_time_u64_fast(27, 3, 200, None, true, false), Some(41));
    assert_eq!(stopping_time_u64_fast(27, 3, 200, None, false, false), Some(41));
    assert_eq!(stopping_time_u64_fast(27, 3, 200, None, true, true), Some(37));
    assert_eq!(stopping_time_u64_fast(1, 5, 200, None, true, true), Some(0));
    // the cycle 27 -> 17 -> 43 -> 27: 17 is below 27, 1 is never reached
    assert_eq!(stopping_time_u64_fast(27, 5, 200, None, true, true), Some(1));
    assert_eq!(stopping_time_u64_fast(27, 5, 200, None, true, false), None);
    assert_eq!(stopping_time_u64_fast(27, 5, 200, None, false, false), None);
}

#[test]
fn stopping_time_gives_up_on_large_numbers() {
    let start = (BigUint::one() << 20001u32) - BigUint::one();
    assert_eq!(stopping_time(&start, 3, 50), None);
    // 2^19999 - 1 has 10000 pairs and its iterates stay within them for a while
    let below = (BigUint::one() << 19990u32) - BigUint::one();
    let mut stats = GpkStats::new();
    assert_eq!(stopping_time_with_gpk(&below, 3, 3, Some(&mut stats), true), None);
    assert_eq!(stats.total_steps, 3);
}

/// The search with the fast start against big-integer arithmetic, for
/// `5n + 1` and all odd numbers below 1000, through all three phases.
#[test]
fn fast_path_equals_reference() {
    for n in (1u64..=999).step_by(2) {
        for use_st in [true, false] {
            let want = reference_stopping_time(n, 5, 400, use_st);
            assert_eq!(stopping_time_u64_fast(n, 5, 400, None, true, use_st), want, "n={}", n);
            assert_eq!(stopping_time_u64_fast(n, 5, 400, None, false, use_st), want, "n={}", n);
        }
    }
    for n in (1u64..=999).step_by(2) {
        let want = reference_stopping_time(n, 3, 1000, true);
        assert_eq!(stopping_time_u64_fast(n, 3, 1000, None, true, true), want);
        assert_eq!(stopping_time(&BigUint::from(n), 3, 1000), want);
    }
}

/// The totals are the same with and without the fast start.
#[test]
fn fast_path_records_the_same_totals() {
    for x in [3u64, 5, 9, 17] {
        for n in (1u64..=299).step_by(2) {
            let mut fast = GpkStats::new();
            let mut slow = GpkStats::new();
            let mut big = GpkStats::new();
            let a = stopping_time_u64_fast(n, x, 300, Some(&mut fast), true, false);
            let b = stopping_time_u64_fast(n, x, 300, Some(&mut slow), false, false);
            let c = stopping_time_with_gpk(&BigUint::from(n), x, 300, Some(&mut big), false);
            assert_eq!(a, b, "x={} n={}", x, n);
            assert_eq!(a, c, "x={} n={}", x, n);
            assert_eq!(stats_fields(&fast), stats_fields(&slow), "x={} n={}", x, n);
            assert_eq!(stats_fields(&fast), stats_fields(&big), "x={} n={}", x, n);
        }
    }
}

#[test]
fn search_records_every_number_stepped_from() {
    let mut stats = GpkStats::new();
    assert_eq!(stopping_time_u64_fast(27, 3, 200, Some(&mut stats), true, false), Some(41));
    let trace = trace_trajectory(&BigUint::from(27u64), 3, 200);
    assert_eq!(stats_fields(&stats), stats_fields(&trace.gpk_stats));
    // 1 is left alone
    let mut none = GpkStats::new();
    assert_eq!(stopping_time_u64_fast(1, 3, 200, Some(&mut none), true, true), Some(0));
    assert_eq!(none.total_steps, 0);
}

#[test]
fn bits_as_text() {
    assert_eq!(words_to_bits_msb(&[0b0110], 4), "0110");
    assert_eq!(words_to_bits_msb(&[0b0110], 2), "10");
    assert_eq!(words_to_bits_msb(&[], 0), "");
    let top = words_to_bits_msb(&[0, 1], 65);
    assert_eq!(top.len(), 65);
    assert!(top.starts_with("10"));
    assert!(top.ends_with("00"));
}

#[test]
fn predicates_as_text() {
    // pairs 3..0: m4 = 1,1,0,0 and m6 = 1,0,1,0
    let m4 = [0b1100u64];
    let m6 = [0b1010u64];
    let want = [
        "0000", "1000", "0100", "1100", "0010", "1010", "0110", "1110", "0001", "1001", "0101",
        "1101", "0011", "1011", "0111", "1111",
    ];
    for pred in 1u8..=16 {
        assert_eq!(predicate_bits_msb(&m4, &m6, 4, pred), want[pred as usize - 1], "pred {}", pred);
    }
    assert_eq!(predicate_bits_msb(&m4, &m6, 4, 0), "0000");
    assert_eq!(predicate_bits_msb(&m4, &m6, 4, 17), "0000");
    assert_eq!(PREDICATE_NAMES.len(), 16);
    assert_eq!(PREDICATE_NAMES[0], "FALSE");
    assert_eq!(PREDICATE_NAMES[1], "AND");
    assert_eq!(PREDICATE_NAMES[6], "XOR");
    assert_eq!(PREDICATE_NAMES[8], "NOR");
    assert_eq!(PREDICATE_NAMES[11], "R\u{2192}L");
    assert_eq!(PREDICATE_NAMES[15], "TRUE");
}

#[test]
fn checked_stopping_time() {
    let n = BigUint::from(27u64);
    assert!(within_step_limit(&n));
    assert!(within_step_limit(&BigUint::from(0u64)));
    assert!(within_step_limit(&((BigUint::one() << 100000u32) - BigUint::one())));
    assert_eq!(try_stopping_time_with_gpk(&n, 3, 200, None, true), Some(Some(37)));
    assert_eq!(try_stopping_time_with_gpk(&n, 3, 10, None, true), Some(None));
    // no multiplier of the form 2^s + 1
    assert_eq!(try_stopping_time_with_gpk(&n, 4, 200, None, true), None);
    assert_eq!(try_stopping_time_with_gpk(&n, 2, 200, None, true), None);
    // totals without room are left as they are
    let mut full = GpkStats::new();
    full.total_pairs = u64::MAX - 5;
    assert!(!full.has_room(1, 10));
    assert!(full.has_room(0, 10));
    assert_eq!(try_stopping_time_with_gpk(&n, 3, 200, Some(&mut full), true), None);
    assert_eq!(full.total_pairs, u64::MAX - 5);
    assert_eq!(full.total_steps, 0);
    let mut hist = GpkStats::new();
    hist.carry_chain_hist[77] = u64::MAX - 199;
    assert!(!hist.has_room(200, 10000));
    assert!(hist.has_room(199, 10000));
    let mut stats = GpkStats::new();
    assert!(stats.has_room(200, 10000));
    assert!(!stats.has_room(u64::MAX, 10000));
    assert_eq!(try_stopping_time_with_gpk(&n, 3, 200, Some(&mut stats), true), Some(Some(37)));
    assert_eq!(stats.total_steps, 37);
}

#[test]
fn checked_trace() {
    let n = BigUint::from(27u64);
    let r = try_trace_trajectory_with_callback(&n, 3, 200, |_, _, _| {}).unwrap();
    assert_eq!(r.total_steps, 41);
    assert!(try_trace_trajectory_with_callback(&n, 6, 200, |_, _, _| {}).is_none());
    assert!(try_trace_trajectory_with_callback(&n, 3, u64::MAX, |_, _, _| {}).is_none());
    assert!(trace_has_room(&n, u64::MAX / 10000));
    assert!(!trace_has_room(&n, u64::MAX / 10000 + 1));
    let wide = (BigUint::one() << 40000u32) - BigUint::one();
    assert!(trace_has_room(&wide, u64::MAX / 20000));
    assert!(!trace_has_room(&wide, u64::MAX / 20000 + 1));
}

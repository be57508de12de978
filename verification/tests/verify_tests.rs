use collatz_m4m6::cancel::{add_done, count_with, is_cancelled};
use collatz_m4m6::scan::GpkStats;
use collatz_m4m6::trajectory::stopping_time_u64_fast;
use collatz_m4m6::verify::{
    range_has_room, try_verify_range_parallel, verify_chunk, verify_range, verify_range_parallel,
    verify_range_parallel_cancellable, VerifyResult, CHUNK_SIZE,
};
use num_bigint::BigUint;
use num_traits::One;
use std::cell::RefCell;
use std::sync::atomic::{AtomicBool, AtomicU64, Ordering};
use std::sync::Mutex;

fn stats_fields(s: &GpkStats) -> (u64, u64, u64, u64, u64, Vec<u64>) {
    (s.total_g, s.total_p, s.total_k, s.total_pairs, s.total_steps, s.carry_chain_hist.to_vec())
}

fn same(a: &VerifyResult, b: &VerifyResult) {
    assert_eq!(a.total_checked, b.total_checked);
    assert_eq!(a.all_converged, b.all_converged);
    assert_eq!(a.max_stopping_time, b.max_stopping_time);
    assert_eq!(a.max_stopping_time_number, b.max_stopping_time_number);
    assert_eq!(a.failures, b.failures);
    assert_eq!(stats_fields(&a.gpk_stats), stats_fields(&b.gpk_stats));
}

#[test]
fn verify_3_to_99() {
    let result = verify_range(&BigUint::from(3u64), &BigUint::from(99u64), 3, 10000, |_, _| {});
    assert!(result.all_converged);
    assert!(result.failures.is_empty());
    assert_eq!(result.total_checked, 49);
    assert_eq!(result.max_stopping_time, 37);
    assert_eq!(result.max_stopping_time_number, BigUint::from(27u64));
    // the totals are those of the single searches
    let mut want = GpkStats::new();
    for n in (3u64..=99).step_by(2) {
        stopping_time_u64_fast(n, 3, 10000, Some(&mut want), true, true);
    }
    assert_eq!(stats_fields(&result.gpk_stats), stats_fields(&want));
}

#[test]
fn verify_starts_at_the_next_odd_number() {
    let even = verify_range(&BigUint::from(2u64), &BigUint::from(100u64), 3, 10000, |_, _| {});
    let odd = verify_range(&BigUint::from(3u64), &BigUint::from(99u64), 3, 10000, |_, _| {});
    same(&even, &odd);
    let zero = verify_range(&BigUint::from(0u64), &BigUint::from(1u64), 3, 10000, |_, _| {});
    assert_eq!(zero.total_checked, 1);
    assert_eq!(zero.max_stopping_time, 0);
    assert_eq!(zero.max_stopping_time_number, BigUint::one());
}

#[test]
fn verify_of_an_empty_range() {
    let seq = verify_range(&BigUint::from(10u64), &BigUint::from(5u64), 3, 100, |_, _| {});
    assert_eq!(seq.total_checked, 0);
    assert!(seq.all_converged);
    assert_eq!(seq.max_stopping_time, 0);
    assert_eq!(seq.max_stopping_time_number, BigUint::from(11u64));
    let par = verify_range_parallel(&BigUint::from(10u64), &BigUint::from(5u64), 3, 100, |_, _| {});
    assert_eq!(par.total_checked, 0);
    assert!(par.all_converged);
    assert_eq!(par.max_stopping_time_number, BigUint::from(0u64));
}

#[test]
fn verify_reports_progress() {
    let seen: RefCell<Vec<(u64, u64)>> = RefCell::new(Vec::new());
    let result = verify_range(&BigUint::from(3u64), &BigUint::from(4001u64), 3, 1000, |d, t| {
        seen.borrow_mut().push((d, t));
    });
    assert_eq!(result.total_checked, 2000);
    assert_eq!(seen.into_inner(), vec![(1000, 2000), (2000, 2000), (2000, 2000)]);

    let last = AtomicU64::new(0);
    let calls = AtomicU64::new(0);
    let totals: Mutex<Vec<u64>> = Mutex::new(Vec::new());
    let par = verify_range_parallel(&BigUint::from(3u64), &BigUint::from(4001u64), 3, 1000, |d, t| {
        last.fetch_max(d, Ordering::Relaxed);
        calls.fetch_add(1, Ordering::Relaxed);
        totals.lock().unwrap().push(t);
    });
    assert_eq!(par.total_checked, 2000);
    assert_eq!(last.load(Ordering::Relaxed), 2000);
    assert_eq!(calls.load(Ordering::Relaxed), 20);
    assert!(totals.into_inner().unwrap().iter().all(|t| *t == 2000));
}

#[test]
fn parallel_equals_sequential() {
    // more than one chunk of 10000 odd numbers
    let start = BigUint::from(3u64);
    let end = BigUint::from(50001u64);
    let seq = verify_range(&start, &end, 3, 1000, |_, _| {});
    let par = verify_range_parallel(&start, &end, 3, 1000, |_, _| {});
    assert_eq!(seq.total_checked, 25000);
    same(&seq, &par);
}

#[test]
fn parallel_equals_sequential_with_failures() {
    // 5n + 1 with few steps: many numbers have no stopping time
    let start = BigUint::from(1u64);
    let end = BigUint::from(999u64);
    let seq = verify_range(&start, &end, 5, 40, |_, _| {});
    let par = verify_range_parallel(&start, &end, 5, 40, |_, _| {});
    assert!(!seq.all_converged);
    assert!(!seq.failures.is_empty());
    same(&seq, &par);
    for f in &seq.failures {
        let n = f.to_u64_digits()[0];
        assert_eq!(stopping_time_u64_fast(n, 5, 40, None, true, true), None);
    }
    let mut sorted = seq.failures.clone();
    sorted.sort();
    assert_eq!(sorted, seq.failures);
}

#[test]
fn verify_beyond_64_bits() {
    let start = BigUint::one() << 70u32;
    let end = &start + BigUint::from(40u64);
    let seq = verify_range(&start, &end, 3, 1000, |_, _| {});
    let par = verify_range_parallel(&start, &end, 3, 1000, |_, _| {});
    assert_eq!(seq.total_checked, 20);
    assert!(seq.all_converged);
    same(&seq, &par);
    assert!(seq.max_stopping_time_number > start);
}

#[test]
fn cancellable_runs_to_the_end_where_nothing_is_raised() {
    let quiet = AtomicBool::new(false);
    let start = BigUint::from(3u64);
    let end = BigUint::from(9999u64);
    let plain = verify_range_parallel(&start, &end, 3, 1000, |_, _| {});
    let r = verify_range_parallel_cancellable(&start, &end, 3, 1000, true, true, true, &quiet, |_, _| {});
    same(&plain, &r);
    let slow = verify_range_parallel_cancellable(&start, &end, 3, 1000, true, false, true, &quiet, |_, _| {});
    same(&plain, &slow);
    let bare = verify_range_parallel_cancellable(&start, &end, 3, 1000, false, true, true, &quiet, |_, _| {});
    assert_eq!(bare.total_checked, plain.total_checked);
    assert_eq!(bare.max_stopping_time, plain.max_stopping_time);
    assert_eq!(bare.gpk_stats.total_steps, 0);
    // to 1 instead of below the start
    let to_one = verify_range_parallel_cancellable(
        &BigUint::from(3u64),
        &BigUint::from(99u64),
        3,
        1000,
        true,
        true,
        false,
        &quiet,
        |_, _| {},
    );
    // 97 takes 43 steps to 1, the most below 100
    assert_eq!(to_one.max_stopping_time, 43);
    assert_eq!(to_one.max_stopping_time_number, BigUint::from(97u64));
}

#[test]
fn cancellable_checks_nothing_where_the_flag_is_raised() {
    let raised = AtomicBool::new(true);
    let r = verify_range_parallel_cancellable(
        &BigUint::from(3u64),
        &BigUint::from(99999u64),
        3,
        1000,
        true,
        true,
        true,
        &raised,
        |_, _| {},
    );
    assert_eq!(r.total_checked, 0);
    assert!(r.all_converged);
    assert_eq!(r.max_stopping_time, 0);
    let big = BigUint::one() << 70u32;
    let r = verify_range_parallel_cancellable(
        &big,
        &(&big + BigUint::from(100u64)),
        3,
        1000,
        true,
        true,
        true,
        &raised,
        |_, _| {},
    );
    assert_eq!(r.total_checked, 0);
}

#[test]
fn checked_verify() {
    let start = BigUint::from(3u64);
    let end = BigUint::from(99u64);
    let r = try_verify_range_parallel(&start, &end, 3, 10000, |_, _| {}).unwrap();
    assert_eq!(r.total_checked, 49);
    assert_eq!(r.max_stopping_time_number, BigUint::from(27u64));
    assert!(try_verify_range_parallel(&start, &end, 12, 10000, |_, _| {}).is_none());
    assert!(try_verify_range_parallel(&start, &end, 3, u64::MAX, |_, _| {}).is_none());
    // 49 numbers of 10000 pairs at most
    assert!(range_has_room(&start, &end, u64::MAX / 490000));
    assert!(!range_has_room(&start, &end, u64::MAX / 490000 + 1));
    // an empty range needs no room
    assert!(range_has_room(&end, &start, u64::MAX));
    // more numbers than a counter holds
    let far = BigUint::one() << 66u32;
    assert!(!range_has_room(&start, &far, 1));
    assert!(!range_has_room(&start, &far, 0));
    assert!(range_has_room(&far, &(&far + BigUint::from(10u64)), 1000));
}

#[test]
fn one_chunk_is_a_run_of_its_own() {
    // 25000 odd numbers from 3: chunk 2 has the last 5000, from 40003 on
    let done = AtomicU64::new(0);
    let calls = AtomicU64::new(0);
    let o = verify_chunk(3, 50001, 2, 3, 1000, true, true, true, None, &done, 25000, &|_, t| {
        assert_eq!(t, 25000);
        calls.fetch_add(1, Ordering::Relaxed);
    });
    assert_eq!(CHUNK_SIZE, 10000);
    assert_eq!(o.checked, 5000);
    assert_eq!(done.load(Ordering::Relaxed), 5000);
    assert_eq!(calls.load(Ordering::Relaxed), 50);
    let first = 3 + 2 * 2 * CHUNK_SIZE;
    let seq = verify_range(&BigUint::from(first), &BigUint::from(50001u64), 3, 1000, |_, _| {});
    assert_eq!(seq.total_checked, 5000);
    assert_eq!(o.max_st, seq.max_stopping_time);
    assert_eq!(BigUint::from(o.max_st_n), seq.max_stopping_time_number);
    assert!(o.failures.is_empty());
    assert_eq!(stats_fields(&o.gpk), stats_fields(&seq.gpk_stats));
    // a full chunk
    let full = verify_chunk(3, 50001, 0, 3, 1000, false, true, true, None, &done, 25000, &|_, _| {});
    assert_eq!(full.checked, 10000);
    assert_eq!(full.gpk.total_steps, 0);
    // the first chunk alone is the range from 3 to 20001
    let low = verify_range(&BigUint::from(3u64), &BigUint::from(20001u64), 3, 1000, |_, _| {});
    assert_eq!(full.max_st, low.max_stopping_time);
    assert_eq!(BigUint::from(full.max_st_n), low.max_stopping_time_number);
    // a chunk that finds the flag raised checks nothing
    let raised = AtomicBool::new(true);
    let none = verify_chunk(3, 50001, 1, 3, 1000, true, true, true, Some(&raised), &done, 25000, &|_, _| {});
    assert_eq!(none.checked, 0);
    assert_eq!(none.max_st, 0);
    assert_eq!(none.max_st_n, 20003);
    assert_eq!(none.gpk.total_steps, 0);
}

#[test]
fn shared_counter_and_flag() {
    let counter = AtomicU64::new(40);
    assert_eq!(add_done(&counter, 2), 42);
    assert_eq!(counter.load(Ordering::Relaxed), 42);
    assert_eq!(add_done(&counter, 0), 42);
    let near = AtomicU64::new(u64::MAX - 1);
    assert_eq!(add_done(&near, 3), 1);
    assert_eq!(count_with(40, 2), 42);
    assert_eq!(count_with(u64::MAX, 1), 0);
    assert_eq!(count_with(u64::MAX, u64::MAX), u64::MAX - 1);
    assert_eq!(count_with(0, 0), 0);
    let flag = AtomicBool::new(false);
    assert!(!is_cancelled(&flag));
    flag.store(true, Ordering::Relaxed);
    assert!(is_cancelled(&flag));
}

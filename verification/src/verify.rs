//! Verification of a range: the stopping time of every odd number in it.

use vstd::prelude::*;

use num_bigint::BigUint;
use rayon::iter::{IntoParallelIterator, ParallelIterator};
use std::sync::atomic::AtomicBool;
use std::sync::atomic::AtomicU64;
use crate::big::{
    biguint_add, biguint_div, biguint_from_u64, biguint_is_zero, biguint_le, biguint_rem,
    biguint_sub, biguint_value, lemma_digits,
};
use crate::bits::{bit_length, lemma_bit_length, lemma_bit_length_bounds};
use crate::cancel::{add_done, is_cancelled};
use crate::model::{MAX_STEP_PAIRS, classes, shift_of, step_next, valid_multiplier, lemma_class_counts};
use crate::pair_number::pair_len;
use crate::scan::{GpkStats, StatsView, stats_fit, stats_record, stats_room, stats_sum};
use crate::trajectory::{
    MAX_PAIR_COUNT, no_stats, search_ends, search_pairs, stop_stats, stopping_stats_of,
    stopping_time_of, stopping_time_u64_fast, stopping_time_with_gpk, lemma_room_less,
    lemma_room_step,
};

verus! {

/// What the verification of a range hands back.
#[derive(Debug, Clone)]
pub struct VerifyResult {
    /// Number of odd numbers checked.
    pub total_checked: u64,
    /// Whether every number checked has a stopping time.
    pub all_converged: bool,
    /// The largest stopping time found.
    pub max_stopping_time: u64,
    /// The first number with that stopping time.
    pub max_stopping_time_number: BigUint,
    /// The numbers without a stopping time, in rising order.
    pub failures: Vec<BigUint>,
    /// The totals of the classifications of every step taken.
    pub gpk_stats: GpkStats,
}

/// The least odd number from `start` on.
pub open spec fn first_odd(start: nat) -> nat {
    if start % 2 == 0 {
        start + 1
    } else {
        start
    }
}

/// Number of the numbers `first`, `first + 2`, .. up to `end`.
pub open spec fn odd_count(first: nat, end: nat) -> nat {
    if first > end {
        0
    } else {
        ((end - first) / 2 + 1) as nat
    }
}

/// The numbers among `first`, `first + 2`, .., the first `m` of them, that
/// have no stopping time, in rising order.
pub open spec fn range_failures(first: nat, x: u64, max_steps: nat, use_st: bool, m: nat) -> Seq<nat>
    decreases m,
{
    if m == 0 {
        Seq::empty()
    } else {
        let n: nat = (first + 2 * (m - 1)) as nat;
        let before = range_failures(first, x, max_steps, use_st, (m - 1) as nat);
        if stopping_time_of(n, x, max_steps, use_st) is None {
            before.push(n)
        } else {
            before
        }
    }
}

/// The largest stopping time among the first `m` numbers; 0 for none.
pub open spec fn range_max(first: nat, x: u64, max_steps: nat, use_st: bool, m: nat) -> nat
    decreases m,
{
    if m == 0 {
        0
    } else {
        let n: nat = (first + 2 * (m - 1)) as nat;
        let before = range_max(first, x, max_steps, use_st, (m - 1) as nat);
        match stopping_time_of(n, x, max_steps, use_st) {
            Some(t) => if t > before {
                t
            } else {
                before
            },
            None => before,
        }
    }
}

/// The first of the first `m` numbers that has the largest stopping time;
/// `first` where none has a stopping time above 0.
pub open spec fn range_argmax(first: nat, x: u64, max_steps: nat, use_st: bool, m: nat) -> nat
    decreases m,
{
    if m == 0 {
        first
    } else {
        let n: nat = (first + 2 * (m - 1)) as nat;
        let before = range_argmax(first, x, max_steps, use_st, (m - 1) as nat);
        match stopping_time_of(n, x, max_steps, use_st) {
            Some(t) => if t > range_max(first, x, max_steps, use_st, (m - 1) as nat) {
                n
            } else {
                before
            },
            None => before,
        }
    }
}

/// The totals `st` with the searches of the first `m` numbers added.
pub open spec fn range_stats(
    st: StatsView,
    first: nat,
    x: u64,
    max_steps: nat,
    use_st: bool,
    m: nat,
) -> StatsView
    decreases m,
{
    if m == 0 {
        st
    } else {
        stopping_stats_of(
            range_stats(st, first, x, max_steps, use_st, (m - 1) as nat),
            (first + 2 * (m - 1)) as nat,
            x,
            max_steps,
            use_st,
        )
    }
}

/// The numbers that a list of failures holds.
pub open spec fn failure_values(f: Seq<BigUint>) -> Seq<nat> {
    Seq::new(f.len(), |i: int| biguint_value(f[i]))
}

/// `r` is what the first `m` of the numbers `first`, `first + 2`, .. give.
/// Of an empty run this leaves `max_stopping_time_number` open.
pub open spec fn is_verified(
    r: VerifyResult,
    first: nat,
    x: u64,
    max_steps: nat,
    use_st: bool,
    collect: bool,
    m: nat,
) -> bool {
    &&& r.total_checked == m
    &&& failure_values(r.failures@) == range_failures(first, x, max_steps, use_st, m)
    &&& r.all_converged == (range_failures(first, x, max_steps, use_st, m).len() == 0)
    &&& r.max_stopping_time == range_max(first, x, max_steps, use_st, m)
    &&& m > 0 ==> biguint_value(r.max_stopping_time_number) == range_argmax(
        first,
        x,
        max_steps,
        use_st,
        m,
    )
    &&& r.gpk_stats@ == if collect {
        range_stats(no_stats(), first, x, max_steps, use_st, m)
    } else {
        no_stats()
    }
}

/// The counters have room for `count` searches of `max_steps` steps of
/// `pairs` pairs each.
pub open spec fn range_fits(count: nat, max_steps: nat, pairs: nat) -> bool {
    count <= u64::MAX && count * max_steps * pairs <= u64::MAX && count * max_steps <= u64::MAX
}

/// A search leaves the room that it did not use.
pub proof fn lemma_search_room(
    st: StatsView,
    start: nat,
    cur: nat,
    x: u64,
    steps: nat,
    max_steps: nat,
    use_st: bool,
    room: nat,
    pairs: nat,
)
    requires
        steps <= max_steps,
        room >= max_steps - steps,
        stats_room(st, room, pairs),
        pair_len(cur) <= pairs,
        pairs >= MAX_PAIR_COUNT,
    ensures
        stats_room(
            stop_stats(st, start, cur, x, steps, max_steps, use_st),
            (room - (max_steps - steps)) as nat,
            pairs,
        ),
    decreases max_steps - steps,
{
    if steps < max_steps {
        let next = step_next(cur, x);
        let st1 = stats_record(st, cur, shift_of(x));
        lemma_room_step(st, room, pairs, cur, shift_of(x));
        if search_ends(start, next, use_st) || pair_len(next) > MAX_PAIR_COUNT {
            lemma_room_less(st1, (room - 1) as nat, (room - (max_steps - steps)) as nat, pairs);
        } else {
            lemma_search_room(
                st1,
                start,
                next,
                x,
                steps + 1,
                max_steps,
                use_st,
                (room - 1) as nat,
                pairs,
            );
        }
    }
}

/// Room for steps of more pairs is room for steps of fewer.
pub proof fn lemma_room_narrow(st: StatsView, steps: nat, pairs: nat, fewer: nat)
    requires
        stats_room(st, steps, pairs),
        fewer <= pairs,
    ensures
        stats_room(st, steps, fewer),
{
    assert(steps * fewer <= steps * pairs) by (nonlinear_arith)
        requires
            fewer <= pairs,
            steps >= 0,
    ;
}

/// A number no larger than another has no more pairs.
pub proof fn lemma_pair_len_le(a: nat, b: nat)
    requires
        a <= b,
    ensures
        pair_len(a) <= pair_len(b),
        search_pairs(a) <= search_pairs(b),
{
    lemma_bit_length(b);
    lemma_bit_length_bounds(a, bit_length(b));
}

/// Totals of no steps have the room that the counters have.
pub proof fn lemma_fresh_room(count: nat, max_steps: nat, pairs: nat)
    requires
        range_fits(count, max_steps, pairs),
    ensures
        stats_room(no_stats(), count * max_steps, pairs),
{
    assert(count * max_steps * pairs == (count * max_steps) * pairs);
}

/// The stopping time of every odd number from `start` to `end`, one after
/// the other, with `progress_callback(done, total)` called after every
/// thousandth number and at the end.
pub fn verify_range<F: Fn(u64, u64)>(
    start: &BigUint,
    end: &BigUint,
    x: u64,
    max_steps: u64,
    progress_callback: F,
) -> (r: VerifyResult)
    requires
        valid_multiplier(x),
        pair_len(biguint_value(*end)) <= MAX_STEP_PAIRS,
        range_fits(
            odd_count(first_odd(biguint_value(*start)), biguint_value(*end)),
            max_steps as nat,
            search_pairs(biguint_value(*end)),
        ),
        forall|done: u64, total: u64| progress_callback.requires((done, total)),
    ensures
        is_verified(
            r,
            first_odd(biguint_value(*start)),
            x,
            max_steps as nat,
            true,
            true,
            odd_count(first_odd(biguint_value(*start)), biguint_value(*end)),
        ),
        biguint_value(r.max_stopping_time_number) == range_argmax(
            first_odd(biguint_value(*start)),
            x,
            max_steps as nat,
            true,
            odd_count(first_odd(biguint_value(*start)), biguint_value(*end)),
        ),
{
    let first = odd_start(start);
    range_run(first, end, x, max_steps, true, true, None, &progress_callback)
}

/// The least odd number from `start` on.
fn odd_start(start: &BigUint) -> (r: BigUint)
    ensures
        biguint_value(r) == first_odd(biguint_value(*start)),
{
    let two = biguint_from_u64(2);
    let one = biguint_from_u64(1);
    let n = start.clone();
    if biguint_is_zero(&biguint_rem(&n, &two)) {
        biguint_add(&n, &one)
    } else {
        n
    }
}

/// The run over the odd numbers from `first` to `end`, one after the other,
/// that ends early where `cancel` is found raised before a number.
#[verifier::loop_isolation(false)]
fn range_run<F: Fn(u64, u64)>(
    first: BigUint,
    end: &BigUint,
    x: u64,
    max_steps: u64,
    collect_gpk: bool,
    use_stopping_time: bool,
    cancel: Option<&AtomicBool>,
    progress_callback: &F,
) -> (r: VerifyResult)
    requires
        valid_multiplier(x),
        pair_len(biguint_value(*end)) <= MAX_STEP_PAIRS,
        range_fits(
            odd_count(biguint_value(first), biguint_value(*end)),
            max_steps as nat,
            search_pairs(biguint_value(*end)),
        ),
        forall|done: u64, total: u64| progress_callback.requires((done, total)),
    ensures
        is_verified(
            r,
            biguint_value(first),
            x,
            max_steps as nat,
            use_stopping_time,
            collect_gpk,
            r.total_checked as nat,
        ),
        biguint_value(r.max_stopping_time_number) == range_argmax(
            biguint_value(first),
            x,
            max_steps as nat,
            use_stopping_time,
            r.total_checked as nat,
        ),
        r.total_checked <= odd_count(biguint_value(first), biguint_value(*end)),
        cancel is None ==> r.total_checked == odd_count(biguint_value(first), biguint_value(*end)),
{
    let ghost fv = biguint_value(first);
    let ghost ev = biguint_value(*end);
    let ghost count = odd_count(fv, ev);
    let ghost pairs = search_pairs(ev);
    let ghost ms: nat = max_steps as nat;
    let two = biguint_from_u64(2);
    let range = if biguint_le(&first, end) {
        biguint_sub(end, &first)
    } else {
        biguint_from_u64(0)
    };
    let half_digits: Vec<u64> = biguint_div(&range, &two).to_u64_digits();
    let low: u64 = if half_digits.len() > 0 {
        half_digits[0]
    } else {
        0
    };
    let total_estimate: u64 = low.wrapping_add(1);
    let mut n: BigUint = first;
    let mut total_checked: u64 = 0;
    let mut max_stopping_time: u64 = 0;
    let mut max_stopping_time_number: BigUint = n.clone();
    let mut failures: Vec<BigUint> = Vec::new();
    let mut gpk_stats = GpkStats::new();
    proof {
        lemma_fresh_room(count, ms, pairs);
        assert(gpk_stats@ =~= no_stats());
        assert(failure_values(failures@) =~= range_failures(fv, x, ms, use_stopping_time, 0));
    }
    while biguint_le(&n, end)
        invariant
            biguint_value(n) == fv + 2 * total_checked,
            total_checked <= count,
            biguint_value(n) <= ev ==> total_checked < count,
            failure_values(failures@) == range_failures(
                fv,
                x,
                ms,
                use_stopping_time,
                total_checked as nat,
            ),
            max_stopping_time == range_max(fv, x, ms, use_stopping_time, total_checked as nat),
            biguint_value(max_stopping_time_number) == range_argmax(
                fv,
                x,
                ms,
                use_stopping_time,
                total_checked as nat,
            ),
            gpk_stats@ == if collect_gpk {
                range_stats(no_stats(), fv, x, ms, use_stopping_time, total_checked as nat)
            } else {
                no_stats()
            },
            stats_room(gpk_stats@, ((count - total_checked) * ms) as nat, pairs),
        decreases count - total_checked,
    {
        let stop: bool = match cancel {
            Some(flag) => is_cancelled(flag),
            None => false,
        };
        if stop {
            break ;
        }
        let ghost nv = biguint_value(n);
        let ghost before = gpk_stats@;
        let ghost old_failures = failures@;
        let ghost left: nat = (count - total_checked) as nat;
        proof {
            lemma_pair_len_le(nv, ev);
            assert(left * ms == ms + (left - 1) * ms) by (nonlinear_arith)
                requires
                    left >= 1,
            ;
            assert((left - 1) * ms >= 0) by (nonlinear_arith)
                requires
                    left >= 1,
                    ms >= 0,
            ;
            lemma_room_less(before, left * ms, ms, pairs);
            lemma_room_narrow(before, ms, pairs, search_pairs(nv));
            if nv != 1 {
                lemma_search_room(before, nv, nv, x, 0, ms, use_stopping_time, left * ms, pairs);
            } else {
                lemma_room_less(before, left * ms, ((left - 1) * ms) as nat, pairs);
            }
        }
        let st: Option<u64> = if collect_gpk {
            stopping_time_with_gpk(&n, x, max_steps, Some(&mut gpk_stats), use_stopping_time)
        } else {
            stopping_time_with_gpk(&n, x, max_steps, None, use_stopping_time)
        };
        match st {
            Some(t) => {
                if t > max_stopping_time {
                    max_stopping_time = t;
                    max_stopping_time_number = n.clone();
                }
            },
            None => {
                failures.push(n.clone());
            },
        }
        total_checked = total_checked + 1;
        proof {
            assert(fv + 2 * (total_checked - 1) == nv);
            assert(failure_values(failures@) =~= range_failures(
                fv,
                x,
                ms,
                use_stopping_time,
                total_checked as nat,
            )) by {
                let target = range_failures(fv, x, ms, use_stopping_time, total_checked as nat);
                assert(failure_values(old_failures) == range_failures(
                    fv,
                    x,
                    ms,
                    use_stopping_time,
                    (total_checked - 1) as nat,
                ));
                assert forall|i: int| 0 <= i < failures@.len() implies failure_values(failures@)[i]
                    == target[i] by {
                    if i < old_failures.len() {
                        assert(failures@[i] == old_failures[i]);
                        assert(failure_values(old_failures)[i] == biguint_value(old_failures[i]));
                    }
                }
            }
        }
        if total_checked % 1000 == 0 {
            progress_callback(total_checked, total_estimate);
        }
        n = biguint_add(&n, &two);
    }
    progress_callback(total_checked, total_estimate);
    VerifyResult {
        total_checked,
        all_converged: failures.len() == 0,
        max_stopping_time,
        max_stopping_time_number,
        failures,
        gpk_stats,
    }
}

/// Number of odd numbers that one worker takes at a time.
pub const CHUNK_SIZE: u64 = 10000;

/// What the run over one chunk hands back.
pub struct ChunkOutcome {
    /// Number of odd numbers checked.
    pub checked: u64,
    /// The largest stopping time found.
    pub max_st: u64,
    /// The first number with that stopping time.
    pub max_st_n: u64,
    /// The numbers without a stopping time, in rising order.
    pub failures: Vec<u64>,
    /// The totals of the classifications of every step taken.
    pub gpk: GpkStats,
}

/// The first number of chunk `c` of the numbers `first`, `first + 2`, ..
pub open spec fn chunk_first(first: nat, c: nat) -> nat {
    (first + 2 * CHUNK_SIZE * c) as nat
}

/// Number of the numbers of chunk `c`, of `count` numbers in all.
pub open spec fn chunk_len(count: nat, c: nat) -> nat {
    if (c + 1) * CHUNK_SIZE <= count {
        CHUNK_SIZE as nat
    } else if c * CHUNK_SIZE < count {
        (count - c * CHUNK_SIZE) as nat
    } else {
        0
    }
}

/// Number of the numbers of the chunks below `c`.
pub open spec fn chunks_before(count: nat, c: nat) -> nat {
    if c * CHUNK_SIZE <= count {
        (c * CHUNK_SIZE) as nat
    } else {
        count
    }
}

/// The 64-bit numbers of a list as natural numbers.
pub open spec fn small_values(f: Seq<u64>) -> Seq<nat> {
    Seq::new(f.len(), |i: int| f[i] as nat)
}

/// `o` is what the first `m` of the numbers `first`, `first + 2`, .. give.
pub open spec fn is_chunk_of(
    o: ChunkOutcome,
    first: nat,
    x: u64,
    max_steps: nat,
    use_st: bool,
    collect: bool,
    m: nat,
) -> bool {
    &&& o.checked == m
    &&& small_values(o.failures@) == range_failures(first, x, max_steps, use_st, m)
    &&& o.max_st == range_max(first, x, max_steps, use_st, m)
    &&& o.max_st_n == range_argmax(first, x, max_steps, use_st, m)
    &&& o.gpk@ == if collect {
        range_stats(no_stats(), first, x, max_steps, use_st, m)
    } else {
        no_stats()
    }
}

/// The totals are those of at most `steps` steps of at most `pairs` pairs.
pub open spec fn stats_used(st: StatsView, steps: nat, pairs: nat) -> bool {
    &&& st.g <= steps * pairs
    &&& st.p <= steps * pairs
    &&& st.k <= steps * pairs
    &&& st.pairs <= steps * pairs
    &&& st.steps <= steps
    &&& st.hist.len() == 128
    &&& forall|i: int| 0 <= i < 128 ==> #[trigger] st.hist[i] <= steps
}

/// The record of a step uses one step.
pub proof fn lemma_record_used(st: StatsView, steps: nat, pairs: nat, v: nat, s: nat)
    requires
        stats_used(st, steps, pairs),
        pair_len(v) <= pairs,
    ensures
        stats_used(stats_record(st, v, s), steps + 1, pairs),
{
    lemma_class_counts(classes(v, s), pair_len(v));
    assert((steps + 1) * pairs == steps * pairs + pairs) by (nonlinear_arith);
    let after = stats_record(st, v, s);
    assert forall|i: int| 0 <= i < 128 implies #[trigger] after.hist[i] <= steps + 1 by {
        assert(st.hist[i] <= steps);
    }
}

/// What is used within fewer steps is used within more.
pub proof fn lemma_used_more(st: StatsView, steps: nat, more: nat, pairs: nat)
    requires
        stats_used(st, steps, pairs),
        steps <= more,
    ensures
        stats_used(st, more, pairs),
{
    assert(steps * pairs <= more * pairs) by (nonlinear_arith)
        requires
            steps <= more,
            pairs >= 0,
    ;
    assert forall|i: int| 0 <= i < 128 implies #[trigger] st.hist[i] <= more by {
        assert(st.hist[i] <= steps);
    }
}

/// A search uses no more than the steps that it may take.
pub proof fn lemma_search_used(
    st: StatsView,
    start: nat,
    cur: nat,
    x: u64,
    steps: nat,
    max_steps: nat,
    use_st: bool,
    used: nat,
    pairs: nat,
)
    requires
        steps <= max_steps,
        stats_used(st, used, pairs),
        pair_len(cur) <= pairs,
        pairs >= MAX_PAIR_COUNT,
    ensures
        stats_used(
            stop_stats(st, start, cur, x, steps, max_steps, use_st),
            (used + (max_steps - steps)) as nat,
            pairs,
        ),
    decreases max_steps - steps,
{
    if steps < max_steps {
        let next = step_next(cur, x);
        let st1 = stats_record(st, cur, shift_of(x));
        lemma_record_used(st, used, pairs, cur, shift_of(x));
        if search_ends(start, next, use_st) || pair_len(next) > MAX_PAIR_COUNT {
            lemma_used_more(st1, used + 1, (used + (max_steps - steps)) as nat, pairs);
        } else {
            lemma_search_used(st1, start, next, x, steps + 1, max_steps, use_st, used + 1, pairs);
        }
    }
}

/// What is used leaves the room that the counters have beyond it.
pub proof fn lemma_used_room(st: StatsView, used: nat, more: nat, pairs: nat)
    requires
        stats_used(st, used, pairs),
        (used + more) * pairs <= u64::MAX,
        used + more <= u64::MAX,
    ensures
        stats_room(st, more, pairs),
        stats_fit(st),
{
    assert((used + more) * pairs == used * pairs + more * pairs) by (nonlinear_arith);
    assert(more * pairs >= 0) by (nonlinear_arith)
        requires
            more >= 0,
            pairs >= 0,
    ;
    assert forall|i: int| 0 <= i < 128 implies #[trigger] st.hist[i] + more <= u64::MAX by {
        assert(st.hist[i] <= used);
    }
    assert forall|i: int| 0 <= i < 128 implies #[trigger] st.hist[i] <= u64::MAX by {
        assert(st.hist[i] <= used);
    }
}

/// The searches of `m` numbers of at most 64 bits use at most `m` times
/// `max_steps` steps.
pub proof fn lemma_range_used(first: nat, x: u64, max_steps: nat, use_st: bool, m: nat)
    requires
        m > 0 ==> first + 2 * (m - 1) < 0x1_0000_0000_0000_0000,
    ensures
        stats_used(
            range_stats(no_stats(), first, x, max_steps, use_st, m),
            m * max_steps,
            MAX_PAIR_COUNT as nat,
        ),
    decreases m,
{
    let pairs: nat = MAX_PAIR_COUNT as nat;
    if m == 0 {
        assert(0 * max_steps == 0);
        assert(0 * pairs == 0);
    } else {
        lemma_range_used(first, x, max_steps, use_st, (m - 1) as nat);
        let n: nat = (first + 2 * (m - 1)) as nat;
        let before = range_stats(no_stats(), first, x, max_steps, use_st, (m - 1) as nat);
        crate::trajectory::lemma_width();
        vstd::arithmetic::power2::lemma_pow2_adds(64, 64);
        crate::trajectory::lemma_pair_len_bound(n, 64);
        assert(m * max_steps == (m - 1) * max_steps + max_steps) by (nonlinear_arith)
            requires
                m >= 1,
        ;
        if n == 1 {
            lemma_used_more(before, ((m - 1) * max_steps) as nat, m * max_steps, pairs);
        } else {
            lemma_search_used(
                before,
                n,
                n,
                x,
                0,
                max_steps,
                use_st,
                ((m - 1) * max_steps) as nat,
                pairs,
            );
        }
    }
}

/// Recording a step in a sum of totals is recording it in one of them.
pub proof fn lemma_record_sum(a: StatsView, b: StatsView, v: nat, s: nat)
    requires
        a.hist.len() == 128,
        b.hist.len() == 128,
    ensures
        stats_record(stats_sum(a, b), v, s) == stats_sum(a, stats_record(b, v, s)),
{
    let l = stats_record(stats_sum(a, b), v, s);
    let r = stats_sum(a, stats_record(b, v, s));
    assert(l.hist =~= r.hist);
}

/// Searching on from a sum of totals is searching on from one of them.
pub proof fn lemma_search_sum(
    a: StatsView,
    b: StatsView,
    start: nat,
    cur: nat,
    x: u64,
    steps: nat,
    max_steps: nat,
    use_st: bool,
)
    requires
        a.hist.len() == 128,
        b.hist.len() == 128,
    ensures
        stop_stats(stats_sum(a, b), start, cur, x, steps, max_steps, use_st) == stats_sum(
            a,
            stop_stats(b, start, cur, x, steps, max_steps, use_st),
        ),
        stop_stats(b, start, cur, x, steps, max_steps, use_st).hist.len() == 128,
    decreases max_steps - steps,
{
    if steps < max_steps {
        let next = step_next(cur, x);
        lemma_record_sum(a, b, cur, shift_of(x));
        if !(search_ends(start, next, use_st) || pair_len(next) > MAX_PAIR_COUNT) {
            lemma_search_sum(
                a,
                stats_record(b, cur, shift_of(x)),
                start,
                next,
                x,
                steps + 1,
                max_steps,
                use_st,
            );
        }
    }
}

/// The totals of a run from given totals are those totals plus the totals
/// of the run from nothing: totals are merged by addition, in any order.
pub proof fn lemma_range_sum(a: StatsView, first: nat, x: u64, max_steps: nat, use_st: bool, m: nat)
    requires
        a.hist.len() == 128,
    ensures
        range_stats(a, first, x, max_steps, use_st, m) == stats_sum(
            a,
            range_stats(no_stats(), first, x, max_steps, use_st, m),
        ),
        range_stats(no_stats(), first, x, max_steps, use_st, m).hist.len() == 128,
    decreases m,
{
    if m == 0 {
        assert(stats_sum(a, no_stats()).hist =~= a.hist);
    } else {
        lemma_range_sum(a, first, x, max_steps, use_st, (m - 1) as nat);
        let n: nat = (first + 2 * (m - 1)) as nat;
        let b = range_stats(no_stats(), first, x, max_steps, use_st, (m - 1) as nat);
        if n != 1 {
            lemma_search_sum(a, b, n, n, x, 0, max_steps, use_st);
        }
    }
}

/// A run of `m1 + m2` numbers is the run of the first `m1` and then the
/// run of `m2` from where that ends.
pub proof fn lemma_range_split(first: nat, x: u64, max_steps: nat, use_st: bool, m1: nat, m2: nat)
    ensures
        range_failures(first, x, max_steps, use_st, m1 + m2) == range_failures(
            first,
            x,
            max_steps,
            use_st,
            m1,
        ) + range_failures(first + 2 * m1, x, max_steps, use_st, m2),
        range_max(first, x, max_steps, use_st, m1 + m2) == if range_max(
            first + 2 * m1,
            x,
            max_steps,
            use_st,
            m2,
        ) > range_max(first, x, max_steps, use_st, m1) {
            range_max(first + 2 * m1, x, max_steps, use_st, m2)
        } else {
            range_max(first, x, max_steps, use_st, m1)
        },
        range_argmax(first, x, max_steps, use_st, m1 + m2) == if range_max(
            first + 2 * m1,
            x,
            max_steps,
            use_st,
            m2,
        ) > range_max(first, x, max_steps, use_st, m1) {
            range_argmax(first + 2 * m1, x, max_steps, use_st, m2)
        } else {
            range_argmax(first, x, max_steps, use_st, m1)
        },
        range_stats(no_stats(), first, x, max_steps, use_st, m1 + m2) == stats_sum(
            range_stats(no_stats(), first, x, max_steps, use_st, m1),
            range_stats(no_stats(), first + 2 * m1, x, max_steps, use_st, m2),
        ),
    decreases m2,
{
    let second: nat = first + 2 * m1;
    lemma_range_sum(no_stats(), first, x, max_steps, use_st, m1);
    let a = range_stats(no_stats(), first, x, max_steps, use_st, m1);
    if m2 == 0 {
        assert(range_failures(first, x, max_steps, use_st, m1) + Seq::<nat>::empty()
            =~= range_failures(first, x, max_steps, use_st, m1));
        assert(stats_sum(a, no_stats()).hist =~= a.hist);
    } else {
        lemma_range_split(first, x, max_steps, use_st, m1, (m2 - 1) as nat);
        let n: nat = (second + 2 * (m2 - 1)) as nat;
        assert(n == first + 2 * (m1 + m2 - 1));
        let f1 = range_failures(first, x, max_steps, use_st, m1);
        let f2 = range_failures(second, x, max_steps, use_st, (m2 - 1) as nat);
        assert((f1 + f2).push(n) =~= f1 + f2.push(n));
        let b = range_stats(no_stats(), second, x, max_steps, use_st, (m2 - 1) as nat);
        lemma_range_sum(no_stats(), second, x, max_steps, use_st, (m2 - 1) as nat);
        if n != 1 {
            lemma_search_sum(a, b, n, n, x, 0, max_steps, use_st);
        }
    }
}

/// The sum of what is used is used within the sum of the steps.
pub proof fn lemma_sum_used(a: StatsView, b: StatsView, s1: nat, s2: nat, pairs: nat)
    requires
        stats_used(a, s1, pairs),
        stats_used(b, s2, pairs),
    ensures
        stats_used(stats_sum(a, b), s1 + s2, pairs),
{
    assert((s1 + s2) * pairs == s1 * pairs + s2 * pairs) by (nonlinear_arith);
    let c = stats_sum(a, b);
    assert forall|i: int| 0 <= i < 128 implies #[trigger] c.hist[i] <= s1 + s2 by {
        assert(a.hist[i] <= s1);
        assert(b.hist[i] <= s2);
    }
}

/// What a chunk may be run on: odd numbers from `start` to `end`,
/// `total_odd` of them, of which chunk `chunk_idx` has some, and counters
/// with room for them.
pub open spec fn chunk_ready(
    start: u64,
    end: u64,
    chunk_idx: u64,
    x: u64,
    max_steps: u64,
    total_odd: u64,
) -> bool {
    &&& valid_multiplier(x)
    &&& start % 2 == 1
    &&& start <= end
    &&& end <= u64::MAX - 2
    &&& total_odd == (end - start) / 2 + 1
    &&& chunk_idx * CHUNK_SIZE < total_odd
    &&& range_fits(total_odd as nat, max_steps as nat, MAX_PAIR_COUNT as nat)
}

/// `o` is what a run over chunk `chunk_idx` hands back: the outcome of the
/// numbers that it checked, which are the first of the chunk.
pub open spec fn chunk_done(
    o: ChunkOutcome,
    start: u64,
    chunk_idx: nat,
    x: u64,
    max_steps: u64,
    use_st: bool,
    collect: bool,
    total_odd: u64,
) -> bool {
    &&& is_chunk_of(
        o,
        chunk_first(start as nat, chunk_idx),
        x,
        max_steps as nat,
        use_st,
        collect,
        o.checked as nat,
    )
    &&& o.checked <= chunk_len(total_odd as nat, chunk_idx)
}

/// The run over one chunk of the odd numbers from `start` to `end`: the
/// numbers `start + 2 * CHUNK_SIZE * chunk_idx` and on, `CHUNK_SIZE` of
/// them or as many as there are up to `end`. It ends early where `cancel`
/// is found raised, and reports the numbers done through `global_done` and
/// `progress_callback` after every hundred numbers.
#[verifier::loop_isolation(false)]
pub fn verify_chunk<F: Fn(u64, u64) + Sync>(
    start: u64,
    end: u64,
    chunk_idx: u64,
    x: u64,
    max_steps: u64,
    collect_gpk: bool,
    use_phase1: bool,
    use_stopping_time: bool,
    cancel: Option<&AtomicBool>,
    global_done: &AtomicU64,
    total_odd: u64,
    progress_callback: &F,
) -> (o: ChunkOutcome)
    requires
        chunk_ready(start, end, chunk_idx, x, max_steps, total_odd),
        forall|done: u64, total: u64| progress_callback.requires((done, total)),
    ensures
        chunk_done(o, start, chunk_idx as nat, x, max_steps, use_stopping_time, collect_gpk, total_odd),
        cancel is None ==> o.checked == chunk_len(total_odd as nat, chunk_idx as nat),
{
    let ghost ms: nat = max_steps as nat;
    let ghost pairs: nat = MAX_PAIR_COUNT as nat;
    let ghost len = chunk_len(total_odd as nat, chunk_idx as nat);
    let chunk_start: u64 = start + chunk_idx * CHUNK_SIZE * 2;
    let ghost first: nat = chunk_start as nat;
    let chunk_end: u64 = if end - chunk_start < (CHUNK_SIZE - 1) * 2 {
        end
    } else {
        chunk_start + (CHUNK_SIZE - 1) * 2
    };
    let mut local_max_st: u64 = 0;
    let mut local_max_st_n: u64 = chunk_start;
    let mut local_failures: Vec<u64> = Vec::new();
    let mut unreported: u64 = 0;
    let mut checked: u64 = 0;
    let mut local_gpk = GpkStats::new();
    proof {
        assert(local_gpk@ =~= no_stats());
        assert(small_values(local_failures@) =~= range_failures(
            first,
            x,
            ms,
            use_stopping_time,
            0,
        ));
        assert(chunk_start + 2 * (len - 1) <= chunk_end < chunk_start + 2 * len);
    }
    let entered: bool = match cancel {
        Some(flag) => !is_cancelled(flag),
        None => true,
    };
    let mut n: u64 = chunk_start;
    while entered && n <= chunk_end
        invariant
            n == chunk_start + 2 * checked,
            checked <= len,
            unreported <= 100,
            unreported <= checked,
            small_values(local_failures@) == range_failures(
                first,
                x,
                ms,
                use_stopping_time,
                checked as nat,
            ),
            local_max_st == range_max(first, x, ms, use_stopping_time, checked as nat),
            local_max_st_n == range_argmax(first, x, ms, use_stopping_time, checked as nat),
            local_gpk@ == if collect_gpk {
                range_stats(no_stats(), first, x, ms, use_stopping_time, checked as nat)
            } else {
                no_stats()
            },
        decreases len - checked,
    {
        let stop: bool = match cancel {
            Some(flag) => is_cancelled(flag),
            None => false,
        };
        if stop {
            break ;
        }
        let ghost old_failures = local_failures@;
        proof {
            lemma_range_used(first, x, ms, use_stopping_time, checked as nat);
            lemma_range_used(first, x, ms, use_stopping_time, 0);
            let left: nat = (checked + 1) as nat;
            let total: nat = total_odd as nat;
            assert(len <= total);
            assert(left * ms <= total * ms) by (nonlinear_arith)
                requires
                    left <= total,
                    ms >= 0,
            ;
            assert((left * ms) * pairs <= (total * ms) * pairs) by (nonlinear_arith)
                requires
                    left * ms <= total * ms,
                    pairs >= 0,
            ;
            assert(left * ms == checked * ms + ms) by (nonlinear_arith)
                requires
                    left == checked + 1,
            ;
            lemma_used_room(local_gpk@, (checked * ms) as nat, ms, pairs);
        }
        let st: Option<u64> = if collect_gpk {
            stopping_time_u64_fast(
                n,
                x,
                max_steps,
                Some(&mut local_gpk),
                use_phase1,
                use_stopping_time,
            )
        } else {
            stopping_time_u64_fast(n, x, max_steps, None, use_phase1, use_stopping_time)
        };
        match st {
            Some(t) => {
                if t > local_max_st {
                    local_max_st = t;
                    local_max_st_n = n;
                }
            },
            None => {
                local_failures.push(n);
            },
        }
        checked = checked + 1;
        unreported = unreported + 1;
        proof {
            assert(first + 2 * (checked - 1) == n);
            let target = range_failures(first, x, ms, use_stopping_time, checked as nat);
            assert(small_values(old_failures) == range_failures(
                first,
                x,
                ms,
                use_stopping_time,
                (checked - 1) as nat,
            ));
            assert forall|i: int| 0 <= i < local_failures@.len() implies small_values(
                local_failures@,
            )[i] == target[i] by {
                if i < old_failures.len() {
                    assert(local_failures@[i] == old_failures[i]);
                    assert(small_values(old_failures)[i] == old_failures[i]);
                }
            }
            assert(small_values(local_failures@) =~= target);
        }
        n = n + 2;
        if unreported >= 100 {
            let done: u64 = add_done(global_done, unreported);
            progress_callback(done, total_odd);
            unreported = 0;
        }
    }
    if unreported > 0 {
        let done: u64 = add_done(global_done, unreported);
        progress_callback(done, total_odd);
    }
    ChunkOutcome {
        checked,
        max_st: local_max_st,
        max_st_n: local_max_st_n,
        failures: local_failures,
        gpk: local_gpk,
    }
}

/// rayon's `into_par_iter().map(..).collect()` over the chunk numbers
/// `0..num_chunks`: the outcome of `verify_chunk` for every chunk, at the
/// place of its number. The workers run that function and nothing else, so
/// every outcome is one that it may hand back.
#[verifier::external_body]
fn run_chunks<F: Fn(u64, u64) + Sync>(
    num_chunks: u64,
    start: u64,
    end: u64,
    x: u64,
    max_steps: u64,
    collect_gpk: bool,
    use_phase1: bool,
    use_stopping_time: bool,
    cancel: Option<&AtomicBool>,
    global_done: &AtomicU64,
    total_odd: u64,
    progress_callback: &F,
) -> (r: Vec<ChunkOutcome>)
    requires
        forall|c: u64| c < num_chunks ==> chunk_ready(start, end, c, x, max_steps, total_odd),
        forall|done: u64, total: u64| progress_callback.requires((done, total)),
    ensures
        r@.len() == num_chunks,
        forall|c: int|
            0 <= c < num_chunks ==> chunk_done(
                #[trigger] r@[c],
                start,
                c as nat,
                x,
                max_steps,
                use_stopping_time,
                collect_gpk,
                total_odd,
            ),
        cancel is None ==> forall|c: int|
            0 <= c < num_chunks ==> (#[trigger] r@[c]).checked == chunk_len(
                total_odd as nat,
                c as nat,
            ),
{
    (0..num_chunks).into_par_iter().map(
        |c| verify_chunk(
            start, end, c, x, max_steps, collect_gpk, use_phase1, use_stopping_time,
            cancel, global_done, total_odd, progress_callback,
        ),
    ).collect()
}

/// What the outcomes of chunks come to when they are put together.
pub struct Merged {
    /// Number of odd numbers checked.
    pub total: nat,
    /// The numbers without a stopping time, chunk by chunk.
    pub failures: Seq<nat>,
    /// The largest stopping time found.
    pub max_st: nat,
    /// The first number with that stopping time, in the lowest chunk that
    /// has it.
    pub max_n: nat,
    /// The sum of the totals.
    pub stats: StatsView,
}

/// The result of the runs over the chunks below `c`, where the run over
/// chunk `j` has checked the first `checked[j]` numbers of its chunk: the
/// counts and totals add up, the lists of failures follow one another, and
/// the largest stopping time is that of the lowest chunk that has it.
pub open spec fn merge_of(
    first: nat,
    x: u64,
    ms: nat,
    us: bool,
    collect: bool,
    checked: Seq<nat>,
    c: nat,
) -> Merged
    decreases c,
{
    if c == 0 {
        Merged { total: 0, failures: Seq::empty(), max_st: 0, max_n: first, stats: no_stats() }
    } else {
        let before = merge_of(first, x, ms, us, collect, checked, (c - 1) as nat);
        let cf = chunk_first(first, (c - 1) as nat);
        let m = checked[c - 1];
        let higher = range_max(cf, x, ms, us, m) > before.max_st;
        Merged {
            total: before.total + m,
            failures: before.failures + range_failures(cf, x, ms, us, m),
            max_st: if higher {
                range_max(cf, x, ms, us, m)
            } else {
                before.max_st
            },
            max_n: if higher {
                range_argmax(cf, x, ms, us, m)
            } else {
                before.max_n
            },
            stats: stats_sum(
                before.stats,
                if collect {
                    range_stats(no_stats(), cf, x, ms, us, m)
                } else {
                    no_stats()
                },
            ),
        }
    }
}

/// `r` holds what `g` says.
pub open spec fn is_merged(r: VerifyResult, g: Merged) -> bool {
    &&& r.total_checked == g.total
    &&& failure_values(r.failures@) == g.failures
    &&& r.all_converged == (g.failures.len() == 0)
    &&& r.max_stopping_time == g.max_st
    &&& biguint_value(r.max_stopping_time_number) == g.max_n
    &&& r.gpk_stats@ == g.stats
}

/// No chunk has more numbers checked than it has.
pub open spec fn checked_within(checked: Seq<nat>, count: nat) -> bool {
    forall|j: int| 0 <= j < checked.len() ==> #[trigger] checked[j] <= chunk_len(count, j as nat)
}

/// Number of chunks of `count` numbers.
pub open spec fn chunk_count(count: nat) -> nat {
    (count + CHUNK_SIZE - 1) as nat / (CHUNK_SIZE as nat)
}

/// The numbers checked of every chunk, as a sequence.
pub open spec fn checked_of(outcomes: Seq<ChunkOutcome>) -> Seq<nat> {
    Seq::new(outcomes.len(), |j: int| outcomes[j].checked as nat)
}

/// No more numbers are checked than the chunks have, and where as many
/// are, every chunk was checked to its end and the merged result is the
/// result of the whole range.
pub proof fn lemma_merge_of(
    first: nat,
    x: u64,
    ms: nat,
    us: bool,
    collect: bool,
    checked: Seq<nat>,
    count: nat,
    c: nat,
)
    requires
        c <= checked.len(),
        checked_within(checked, count),
    ensures
        merge_of(first, x, ms, us, collect, checked, c).total <= chunks_before(count, c),
        merge_of(first, x, ms, us, collect, checked, c).stats.hist.len() == 128,
        merge_of(first, x, ms, us, collect, checked, c).total == chunks_before(count, c) <==> (
        forall|j: int| 0 <= j < c ==> #[trigger] checked[j] == chunk_len(count, j as nat)),
        merge_of(first, x, ms, us, collect, checked, c).total == chunks_before(count, c) ==> {
            let g = merge_of(first, x, ms, us, collect, checked, c);
            &&& g.failures == range_failures(first, x, ms, us, g.total)
            &&& g.max_st == range_max(first, x, ms, us, g.total)
            &&& g.max_n == range_argmax(first, x, ms, us, g.total)
            &&& g.stats == if collect {
                range_stats(no_stats(), first, x, ms, us, g.total)
            } else {
                no_stats()
            }
        },
    decreases c,
{
    if c > 0 {
        let b: nat = (c - 1) as nat;
        lemma_merge_of(first, x, ms, us, collect, checked, count, b);
        let before = merge_of(first, x, ms, us, collect, checked, b);
        let g = merge_of(first, x, ms, us, collect, checked, c);
        let m = checked[b as int];
        let done = chunks_before(count, b);
        let len = chunk_len(count, b);
        assert(m <= len);
        assert(done + len == chunks_before(count, c));
        let cf = chunk_first(first, b);
        lemma_range_sum(no_stats(), cf, x, ms, us, m);
        if g.total == chunks_before(count, c) {
            assert(before.total == done && m == len);
            if m > 0 {
                assert(cf == first + 2 * done);
                lemma_range_split(first, x, ms, us, done, m);
            } else {
                assert(before.failures + Seq::<nat>::empty() =~= before.failures);
            }
            assert(stats_sum(before.stats, no_stats()).hist =~= before.stats.hist);
            assert forall|j: int| 0 <= j < c implies #[trigger] checked[j] == chunk_len(
                count,
                j as nat,
            ) by {}
        } else {
            if before.total == done {
                assert(checked[b as int] != chunk_len(count, b));
            } else {
                let j = choose|j: int| 0 <= j < b && #[trigger] checked[j] != chunk_len(count, j as nat);
                assert(checked[j] != chunk_len(count, j as nat));
            }
        }
    }
}

/// The merged result of the outcomes of the chunks below `c` is used
/// within the steps of their numbers.
pub proof fn lemma_merge_used(
    first: nat,
    x: u64,
    ms: nat,
    us: bool,
    collect: bool,
    checked: Seq<nat>,
    count: nat,
    c: nat,
)
    requires
        c <= checked.len(),
        checked_within(checked, count),
        first + 2 * count <= 0x1_0000_0000_0000_0001,
        checked.len() * CHUNK_SIZE < count + CHUNK_SIZE,
    ensures
        stats_used(
            merge_of(first, x, ms, us, collect, checked, c).stats,
            chunks_before(count, c) * ms,
            MAX_PAIR_COUNT as nat,
        ),
    decreases c,
{
    let pairs: nat = MAX_PAIR_COUNT as nat;
    if c == 0 {
        assert(0 * ms == 0);
        assert(0 * pairs == 0);
    } else {
        let b: nat = (c - 1) as nat;
        lemma_merge_used(first, x, ms, us, collect, checked, count, b);
        let before = merge_of(first, x, ms, us, collect, checked, b);
        let m = checked[b as int];
        let done = chunks_before(count, b);
        let len = chunk_len(count, b);
        assert(m <= len);
        assert(done + len == chunks_before(count, c));
        let cf = chunk_first(first, b);
        assert(cf == first + 2 * done);
        lemma_range_used(cf, x, ms, us, m);
        lemma_range_used(cf, x, ms, us, 0);
        assert(m * ms <= len * ms) by (nonlinear_arith)
            requires
                m <= len,
                ms >= 0,
        ;
        assert(0 <= m * ms) by (nonlinear_arith)
            requires
                m >= 0,
                ms >= 0,
        ;
        assert(0 * ms == 0);
        let part = if collect {
            range_stats(no_stats(), cf, x, ms, us, m)
        } else {
            no_stats()
        };
        let used: nat = if collect {
            m * ms
        } else {
            0
        };
        lemma_used_more(part, used, len * ms, pairs);
        lemma_sum_used(before.stats, part, done * ms, len * ms, pairs);
        assert((done + len) * ms == done * ms + len * ms) by (nonlinear_arith);
    }
}

/// Adds the numbers of `more` to the failures, in their order.
fn append_failures(failures: &mut Vec<BigUint>, more: &Vec<u64>)
    ensures
        failure_values(final(failures)@) == failure_values(old(failures)@) + small_values(more@),
{
    let ghost old_failures = failures@;
    let mut i: usize = 0;
    proof {
        assert(failure_values(failures@) =~= failure_values(old_failures) + small_values(
            more@,
        ).subrange(0, 0));
    }
    while i < more.len()
        invariant
            i <= more@.len(),
            failures@.len() == old_failures.len() + i,
            failure_values(failures@) == failure_values(old_failures) + small_values(
                more@,
            ).subrange(0, i as int),
        decreases more@.len() - i,
    {
        let ghost prev = failures@;
        failures.push(biguint_from_u64(more[i]));
        proof {
            let before = failure_values(old_failures) + small_values(more@).subrange(0, i as int);
            let target = failure_values(old_failures) + small_values(more@).subrange(0, i + 1);
            assert(target.len() == failures@.len());
            assert forall|j: int| 0 <= j < failures@.len() implies failure_values(failures@)[j]
                == target[j] by {
                if j < prev.len() {
                    assert(failures@[j] == prev[j]);
                    assert(failure_values(prev)[j] == biguint_value(prev[j]));
                    assert(before[j] == target[j]);
                } else {
                    assert(j == old_failures.len() + i);
                    assert(target[j] == small_values(more@)[i as int]);
                }
            }
            assert(failure_values(failures@) =~= target);
        }
        i = i + 1;
    }
    proof {
        assert(small_values(more@).subrange(0, more@.len() as int) =~= small_values(more@));
    }
}

/// Puts the outcomes of the chunks together, lowest chunk first: the
/// counts and totals add up, the lists of failures follow one another, and
/// the largest stopping time is that of the first chunk that has it.
fn merge_outcomes(
    outcomes: &Vec<ChunkOutcome>,
    start: u64,
    x: u64,
    max_steps: u64,
    use_stopping_time: bool,
    collect_gpk: bool,
    total_odd: u64,
) -> (r: VerifyResult)
    requires
        total_odd >= 1,
        start + 2 * (total_odd - 1) <= u64::MAX,
        range_fits(total_odd as nat, max_steps as nat, MAX_PAIR_COUNT as nat),
        outcomes@.len() * CHUNK_SIZE < total_odd + CHUNK_SIZE,
        forall|c: int|
            0 <= c < outcomes@.len() ==> chunk_done(
                #[trigger] outcomes@[c],
                start,
                c as nat,
                x,
                max_steps,
                use_stopping_time,
                collect_gpk,
                total_odd,
            ),
    ensures
        is_merged(
            r,
            merge_of(
                start as nat,
                x,
                max_steps as nat,
                use_stopping_time,
                collect_gpk,
                checked_of(outcomes@),
                outcomes@.len(),
            ),
        ),
{
    let ghost first: nat = start as nat;
    let ghost ms: nat = max_steps as nat;
    let ghost count: nat = total_odd as nat;
    let ghost pairs: nat = MAX_PAIR_COUNT as nat;
    let ghost us = use_stopping_time;
    let ghost checked = checked_of(outcomes@);
    let mut total_checked: u64 = 0;
    let mut max_st: u64 = 0;
    let mut max_n: u64 = start;
    let mut failures: Vec<BigUint> = Vec::new();
    let mut gpk_stats = GpkStats::new();
    proof {
        assert(gpk_stats@ =~= no_stats());
        assert(failure_values(failures@) =~= Seq::<nat>::empty());
        assert forall|j: int| 0 <= j < checked.len() implies #[trigger] checked[j] <= chunk_len(
            count,
            j as nat,
        ) by {
            assert(chunk_done(
                outcomes@[j],
                start,
                j as nat,
                x,
                max_steps,
                us,
                collect_gpk,
                total_odd,
            ));
        }
    }
    let mut c: usize = 0;
    while c < outcomes.len()
        invariant
            c <= outcomes@.len(),
            first == start,
            ms == max_steps,
            count == total_odd,
            pairs == MAX_PAIR_COUNT,
            us == use_stopping_time,
            checked == checked_of(outcomes@),
            checked_within(checked, count),
            first + 2 * count <= 0x1_0000_0000_0000_0001,
            range_fits(count, ms, pairs),
            outcomes@.len() * CHUNK_SIZE < count + CHUNK_SIZE,
            forall|j: int|
                0 <= j < outcomes@.len() ==> chunk_done(
                    #[trigger] outcomes@[j],
                    start,
                    j as nat,
                    x,
                    max_steps,
                    use_stopping_time,
                    collect_gpk,
                    total_odd,
                ),
            total_checked == merge_of(first, x, ms, us, collect_gpk, checked, c as nat).total,
            failure_values(failures@) == merge_of(
                first,
                x,
                ms,
                us,
                collect_gpk,
                checked,
                c as nat,
            ).failures,
            max_st == merge_of(first, x, ms, us, collect_gpk, checked, c as nat).max_st,
            max_n == merge_of(first, x, ms, us, collect_gpk, checked, c as nat).max_n,
            gpk_stats@ == merge_of(first, x, ms, us, collect_gpk, checked, c as nat).stats,
        decreases outcomes@.len() - c,
    {
        let o: &ChunkOutcome = &outcomes[c];
        proof {
            let next: nat = (c + 1) as nat;
            assert(chunk_done(
                outcomes@[c as int],
                start,
                c as nat,
                x,
                max_steps,
                us,
                collect_gpk,
                total_odd,
            ));
            assert(checked[c as int] == o.checked);
            lemma_merge_of(first, x, ms, us, collect_gpk, checked, count, next);
            lemma_merge_used(first, x, ms, us, collect_gpk, checked, count, next);
            let done = chunks_before(count, next);
            assert(done * ms <= count * ms) by (nonlinear_arith)
                requires
                    done <= count,
                    ms >= 0,
            ;
            assert((done * ms) * pairs <= (count * ms) * pairs) by (nonlinear_arith)
                requires
                    done * ms <= count * ms,
                    pairs >= 0,
            ;
            lemma_used_room(
                merge_of(first, x, ms, us, collect_gpk, checked, next).stats,
                done * ms,
                0,
                pairs,
            );
        }
        total_checked = total_checked + o.checked;
        if o.max_st > max_st {
            max_st = o.max_st;
            max_n = o.max_st_n;
        }
        append_failures(&mut failures, &o.failures);
        gpk_stats.merge(&o.gpk);
        c = c + 1;
    }
    VerifyResult {
        total_checked,
        all_converged: failures.len() == 0,
        max_stopping_time: max_st,
        max_stopping_time_number: biguint_from_u64(max_n),
        failures,
        gpk_stats,
    }
}

/// `r` is what runs over the chunks of the `count` odd numbers from `first`
/// come to: every run has checked some of the first numbers of its chunk,
/// all of them where nothing cut it short, and the outcomes are merged.
pub open spec fn is_chunked(
    r: VerifyResult,
    first: nat,
    x: u64,
    ms: nat,
    us: bool,
    collect: bool,
    count: nat,
) -> bool {
    exists|checked: Seq<nat>|
        {
            &&& checked.len() == chunk_count(count)
            &&& checked_within(checked, count)
            &&& #[trigger] is_merged(
                r,
                merge_of(first, x, ms, us, collect, checked, checked.len()),
            )
        }
}

/// A chunked result has no more numbers than the range, and one that has
/// them all is the result of the range.
pub proof fn lemma_chunked(
    r: VerifyResult,
    first: nat,
    x: u64,
    ms: nat,
    us: bool,
    collect: bool,
    count: nat,
)
    requires
        count >= 1,
        is_chunked(r, first, x, ms, us, collect, count),
    ensures
        r.total_checked <= count,
        r.all_converged == (r.failures@.len() == 0),
        r.total_checked == count ==> is_verified(r, first, x, ms, us, collect, count),
{
    let checked = choose|checked: Seq<nat>|
        {
            &&& checked.len() == chunk_count(count)
            &&& checked_within(checked, count)
            &&& #[trigger] is_merged(
                r,
                merge_of(first, x, ms, us, collect, checked, checked.len()),
            )
        };
    lemma_merge_of(first, x, ms, us, collect, checked, count, checked.len());
    assert(chunks_before(count, checked.len()) == count);
    assert(failure_values(r.failures@).len() == r.failures@.len());
}

/// The run over the odd numbers from `start` to `end`, chunk by chunk on
/// the workers of rayon, that ends early where `cancel` is found raised.
fn parallel_run<F: Fn(u64, u64) + Sync>(
    start: u64,
    end: u64,
    x: u64,
    max_steps: u64,
    collect_gpk: bool,
    use_phase1: bool,
    use_stopping_time: bool,
    cancel: Option<&AtomicBool>,
    progress_callback: &F,
) -> (r: VerifyResult)
    requires
        valid_multiplier(x),
        end <= u64::MAX - 2,
        range_fits(
            odd_count(first_odd(start as nat), end as nat),
            max_steps as nat,
            MAX_PAIR_COUNT as nat,
        ),
        forall|done: u64, total: u64| progress_callback.requires((done, total)),
    ensures
        odd_count(first_odd(start as nat), end as nat) == 0 ==> is_verified(
            r,
            first_odd(start as nat),
            x,
            max_steps as nat,
            use_stopping_time,
            collect_gpk,
            0,
        ) && biguint_value(r.max_stopping_time_number) == 0,
        odd_count(first_odd(start as nat), end as nat) > 0 ==> is_chunked(
            r,
            first_odd(start as nat),
            x,
            max_steps as nat,
            use_stopping_time,
            collect_gpk,
            odd_count(first_odd(start as nat), end as nat),
        ),
        cancel is None ==> r.total_checked == odd_count(first_odd(start as nat), end as nat),
{
    let start: u64 = if start % 2 == 0 {
        start + 1
    } else {
        start
    };
    if start > end {
        let failures: Vec<BigUint> = Vec::new();
        let gpk_stats = GpkStats::new();
        proof {
            assert(gpk_stats@ =~= no_stats());
            assert(failure_values(failures@) =~= range_failures(
                start as nat,
                x,
                max_steps as nat,
                use_stopping_time,
                0,
            ));
        }
        return VerifyResult {
            total_checked: 0,
            all_converged: true,
            max_stopping_time: 0,
            max_stopping_time_number: biguint_from_u64(0),
            failures,
            gpk_stats,
        };
    }
    let total_odd: u64 = (end - start) / 2 + 1;
    let chunk_size: u64 = CHUNK_SIZE;
    let num_chunks: u64 = (total_odd + chunk_size - 1) / chunk_size;
    let global_done = AtomicU64::new(0);
    let outcomes = run_chunks(
        num_chunks,
        start,
        end,
        x,
        max_steps,
        collect_gpk,
        use_phase1,
        use_stopping_time,
        cancel,
        &global_done,
        total_odd,
        progress_callback,
    );
    let r = merge_outcomes(
        &outcomes,
        start,
        x,
        max_steps,
        use_stopping_time,
        collect_gpk,
        total_odd,
    );
    proof {
        let count: nat = total_odd as nat;
        let checked = checked_of(outcomes@);
        assert forall|j: int| 0 <= j < checked.len() implies #[trigger] checked[j] <= chunk_len(
            count,
            j as nat,
        ) by {
            assert(chunk_done(
                outcomes@[j],
                start,
                j as nat,
                x,
                max_steps,
                use_stopping_time,
                collect_gpk,
                total_odd,
            ));
        }
        assert(is_merged(
            r,
            merge_of(
                start as nat,
                x,
                max_steps as nat,
                use_stopping_time,
                collect_gpk,
                checked,
                checked.len(),
            ),
        ));
        if cancel is None {
            assert forall|j: int| 0 <= j < checked.len() implies #[trigger] checked[j]
                == chunk_len(count, j as nat) by {
                assert(outcomes@[j].checked == chunk_len(count, j as nat));
            }
            lemma_merge_of(
                start as nat,
                x,
                max_steps as nat,
                use_stopping_time,
                collect_gpk,
                checked,
                count,
                checked.len(),
            );
            assert(chunks_before(count, checked.len()) == count);
        }
    }
    r
}

/// The stopping time of every odd number from `start` to `end`, for
/// 64-bit bounds, on the workers of rayon.
fn verify_range_parallel_u64<F: Fn(u64, u64) + Sync>(
    start: u64,
    end: u64,
    x: u64,
    max_steps: u64,
    use_phase1: bool,
    progress_callback: &F,
) -> (r: VerifyResult)
    requires
        valid_multiplier(x),
        end <= u64::MAX - 2,
        range_fits(
            odd_count(first_odd(start as nat), end as nat),
            max_steps as nat,
            MAX_PAIR_COUNT as nat,
        ),
        forall|done: u64, total: u64| progress_callback.requires((done, total)),
    ensures
        is_verified(
            r,
            first_odd(start as nat),
            x,
            max_steps as nat,
            true,
            true,
            odd_count(first_odd(start as nat), end as nat),
        ),
        odd_count(first_odd(start as nat), end as nat) == 0 ==> biguint_value(
            r.max_stopping_time_number,
        ) == 0,
{
    let r = parallel_run(start, end, x, max_steps, true, use_phase1, true, None, progress_callback);
    proof {
        let count = odd_count(first_odd(start as nat), end as nat);
        if count > 0 {
            lemma_chunked(r, first_odd(start as nat), x, max_steps as nat, true, true, count);
        }
    }
    r
}

/// The same, ending early where `cancel` is found raised.
fn verify_range_parallel_u64_cancellable<F: Fn(u64, u64) + Sync>(
    start: u64,
    end: u64,
    x: u64,
    max_steps: u64,
    collect_gpk: bool,
    use_phase1: bool,
    use_stopping_time: bool,
    cancel: &AtomicBool,
    progress_callback: &F,
) -> (r: VerifyResult)
    requires
        valid_multiplier(x),
        end <= u64::MAX - 2,
        range_fits(
            odd_count(first_odd(start as nat), end as nat),
            max_steps as nat,
            MAX_PAIR_COUNT as nat,
        ),
        forall|done: u64, total: u64| progress_callback.requires((done, total)),
    ensures
        odd_count(first_odd(start as nat), end as nat) == 0 ==> is_verified(
            r,
            first_odd(start as nat),
            x,
            max_steps as nat,
            use_stopping_time,
            collect_gpk,
            0,
        ) && biguint_value(r.max_stopping_time_number) == 0,
        odd_count(first_odd(start as nat), end as nat) > 0 ==> is_chunked(
            r,
            first_odd(start as nat),
            x,
            max_steps as nat,
            use_stopping_time,
            collect_gpk,
            odd_count(first_odd(start as nat), end as nat),
        ),
{
    parallel_run(
        start,
        end,
        x,
        max_steps,
        collect_gpk,
        use_phase1,
        use_stopping_time,
        Some(cancel),
        progress_callback,
    )
}

/// Whether a run from `first` to `end` goes to the workers: both bounds
/// are 64-bit numbers, and `end` leaves room for the step past it.
pub open spec fn runs_parallel(first: nat, end: nat) -> bool {
    first < 0x1_0000_0000_0000_0000 && end <= u64::MAX - 2
}

/// The 64-bit value of a number, where it has one.
fn small_bounds(first: &BigUint, end: &BigUint) -> (r: Option<(u64, u64)>)
    requires
        biguint_value(*first) % 2 == 1,
    ensures
        r is Some <==> runs_parallel(biguint_value(*first), biguint_value(*end)),
        r matches Some(b) ==> b.0 == biguint_value(*first) && b.1 == biguint_value(*end),
{
    let start_u64: Vec<u64> = first.to_u64_digits();
    let end_u64: Vec<u64> = end.to_u64_digits();
    proof {
        lemma_digits(start_u64@);
        lemma_digits(end_u64@);
    }
    if start_u64.len() <= 1 && end_u64.len() <= 1 {
        let s: u64 = if start_u64.len() > 0 {
            start_u64[0]
        } else {
            1
        };
        let e: u64 = if end_u64.len() > 0 {
            end_u64[0]
        } else {
            0
        };
        if e <= u64::MAX - 2 {
            return Some((s, e));
        }
    }
    None
}

/// The stopping time of every odd number from `start` to `end`, on the
/// workers of rayon where both bounds are 64-bit numbers and one after the
/// other where they are not. What comes back is the same either way, but
/// for the number named with an empty range.
pub fn verify_range_parallel<F: Fn(u64, u64) + Sync>(
    start: &BigUint,
    end: &BigUint,
    x: u64,
    max_steps: u64,
    progress_callback: F,
) -> (r: VerifyResult)
    requires
        valid_multiplier(x),
        pair_len(biguint_value(*end)) <= MAX_STEP_PAIRS,
        range_fits(
            odd_count(first_odd(biguint_value(*start)), biguint_value(*end)),
            max_steps as nat,
            search_pairs(biguint_value(*end)),
        ),
        forall|done: u64, total: u64| progress_callback.requires((done, total)),
    ensures
        is_verified(
            r,
            first_odd(biguint_value(*start)),
            x,
            max_steps as nat,
            true,
            true,
            odd_count(first_odd(biguint_value(*start)), biguint_value(*end)),
        ),
        odd_count(first_odd(biguint_value(*start)), biguint_value(*end)) == 0 ==> biguint_value(
            r.max_stopping_time_number,
        ) == if runs_parallel(first_odd(biguint_value(*start)), biguint_value(*end)) {
            0
        } else {
            first_odd(biguint_value(*start))
        },
{
    let adj_start = odd_start(start);
    match small_bounds(&adj_start, end) {
        Some((s, e)) => {
            proof {
                crate::trajectory::lemma_width();
                vstd::arithmetic::power2::lemma_pow2_adds(64, 64);
                crate::trajectory::lemma_pair_len_bound(e as nat, 64);
            }
            verify_range_parallel_u64(s, e, x, max_steps, true, &progress_callback)
        },
        None => range_run(adj_start, end, x, max_steps, true, true, None, &progress_callback),
    }
}

/// The stopping time of every odd number from `start` to `end`, ending
/// early where `cancel` is found raised. The classification is collected
/// where `collect_gpk` is set, the 64-bit numbers start in fixed-width
/// arithmetic where `use_phase1` is set, and the search goes on to 1 where
/// `use_stopping_time` is not set.
///
/// Where the run goes to the workers, every chunk has checked some of its
/// first numbers and the outcomes are merged; where it does not, the first
/// numbers of the range are checked. Either way, no more numbers are
/// checked than the range has, and where as many are, what comes back is
/// the result of the whole range.
pub fn verify_range_parallel_cancellable<F: Fn(u64, u64) + Sync>(
    start: &BigUint,
    end: &BigUint,
    x: u64,
    max_steps: u64,
    collect_gpk: bool,
    use_phase1: bool,
    use_stopping_time: bool,
    cancel: &AtomicBool,
    progress_callback: F,
) -> (r: VerifyResult)
    requires
        valid_multiplier(x),
        pair_len(biguint_value(*end)) <= MAX_STEP_PAIRS,
        range_fits(
            odd_count(first_odd(biguint_value(*start)), biguint_value(*end)),
            max_steps as nat,
            search_pairs(biguint_value(*end)),
        ),
        forall|done: u64, total: u64| progress_callback.requires((done, total)),
    ensures
        runs_parallel(first_odd(biguint_value(*start)), biguint_value(*end)) && odd_count(
            first_odd(biguint_value(*start)),
            biguint_value(*end),
        ) > 0 ==> is_chunked(
            r,
            first_odd(biguint_value(*start)),
            x,
            max_steps as nat,
            use_stopping_time,
            collect_gpk,
            odd_count(first_odd(biguint_value(*start)), biguint_value(*end)),
        ),
        !runs_parallel(first_odd(biguint_value(*start)), biguint_value(*end)) ==> is_verified(
            r,
            first_odd(biguint_value(*start)),
            x,
            max_steps as nat,
            use_stopping_time,
            collect_gpk,
            r.total_checked as nat,
        ) && biguint_value(r.max_stopping_time_number) == range_argmax(
            first_odd(biguint_value(*start)),
            x,
            max_steps as nat,
            use_stopping_time,
            r.total_checked as nat,
        ),
        runs_parallel(first_odd(biguint_value(*start)), biguint_value(*end)) && odd_count(
            first_odd(biguint_value(*start)),
            biguint_value(*end),
        ) == 0 ==> biguint_value(r.max_stopping_time_number) == 0,
        r.total_checked <= odd_count(first_odd(biguint_value(*start)), biguint_value(*end)),
        r.all_converged == (r.failures@.len() == 0),
        r.total_checked == odd_count(first_odd(biguint_value(*start)), biguint_value(*end))
            ==> is_verified(
            r,
            first_odd(biguint_value(*start)),
            x,
            max_steps as nat,
            use_stopping_time,
            collect_gpk,
            odd_count(first_odd(biguint_value(*start)), biguint_value(*end)),
        ),
{
    let adj_start = odd_start(start);
    match small_bounds(&adj_start, end) {
        Some((s, e)) => {
            proof {
                crate::trajectory::lemma_width();
                vstd::arithmetic::power2::lemma_pow2_adds(64, 64);
                crate::trajectory::lemma_pair_len_bound(e as nat, 64);
            }
            let r = verify_range_parallel_u64_cancellable(
                s,
                e,
                x,
                max_steps,
                collect_gpk,
                use_phase1,
                use_stopping_time,
                cancel,
                &progress_callback,
            );
            proof {
                let count = odd_count(s as nat, e as nat);
                if count > 0 {
                    lemma_chunked(
                        r,
                        s as nat,
                        x,
                        max_steps as nat,
                        use_stopping_time,
                        collect_gpk,
                        count,
                    );
                } else {
                    assert(failure_values(r.failures@).len() == r.failures@.len());
                }
            }
            r
        },
        None => {
            let r = range_run(
                adj_start,
                end,
                x,
                max_steps,
                collect_gpk,
                use_stopping_time,
                Some(cancel),
                &progress_callback,
            );
            proof {
                assert(failure_values(r.failures@).len() == r.failures@.len());
            }
            r
        },
    }
}

/// Whether the counters hold the searches of the odd numbers from `start`
/// to `end`, of `max_steps` steps each.
pub fn range_has_room(start: &BigUint, end: &BigUint, max_steps: u64) -> (r: bool)
    requires
        pair_len(biguint_value(*end)) <= MAX_STEP_PAIRS,
    ensures
        r == range_fits(
            odd_count(first_odd(biguint_value(*start)), biguint_value(*end)),
            max_steps as nat,
            search_pairs(biguint_value(*end)),
        ),
{
    let ghost count = odd_count(first_odd(biguint_value(*start)), biguint_value(*end));
    let ghost ms: nat = max_steps as nat;
    let pairs: u64 = crate::trajectory::search_pairs_of(end);
    let first = odd_start(start);
    if !biguint_le(&first, end) {
        proof {
            assert(0 * ms == 0);
            assert(0 * ms * (pairs as nat) == 0);
        }
        return true;
    }
    let range = biguint_sub(end, &first);
    let half = biguint_div(&range, &biguint_from_u64(2));
    let digits: Vec<u64> = half.to_u64_digits();
    proof {
        lemma_digits(digits@);
        assert(count == biguint_value(half) + 1);
    }
    if digits.len() > 1 {
        return false;
    }
    let low: u64 = if digits.len() > 0 {
        digits[0]
    } else {
        0
    };
    if low == u64::MAX {
        return false;
    }
    let n: u64 = low + 1;
    assert(n * ms <= u128::MAX) by (nonlinear_arith)
        requires
            n <= u64::MAX,
            ms <= u64::MAX,
    ;
    let searches: u128 = (n as u128) * (max_steps as u128);
    if searches > u64::MAX as u128 {
        return false;
    }
    assert(searches * pairs <= u128::MAX) by (nonlinear_arith)
        requires
            searches <= u64::MAX,
            pairs <= u64::MAX,
    ;
    searches * (pairs as u128) <= u64::MAX as u128
}

/// The verification of the range where the multiplier is valid, `end` is
/// within the step limit and the counters have room; `None` where one of
/// these fails.
pub fn try_verify_range_parallel<F: Fn(u64, u64) + Sync>(
    start: &BigUint,
    end: &BigUint,
    x: u64,
    max_steps: u64,
    progress_callback: F,
) -> (r: Option<VerifyResult>)
    requires
        forall|done: u64, total: u64| progress_callback.requires((done, total)),
    ensures
        r is Some <==> (valid_multiplier(x) && pair_len(biguint_value(*end)) <= MAX_STEP_PAIRS
            && range_fits(
            odd_count(first_odd(biguint_value(*start)), biguint_value(*end)),
            max_steps as nat,
            search_pairs(biguint_value(*end)),
        )),
        r matches Some(v) ==> is_verified(
            v,
            first_odd(biguint_value(*start)),
            x,
            max_steps as nat,
            true,
            true,
            odd_count(first_odd(biguint_value(*start)), biguint_value(*end)),
        ),
{
    if !crate::reference::is_valid_multiplier(x) || !crate::trajectory::within_step_limit(end) {
        return None;
    }
    if !range_has_room(start, end, max_steps) {
        return None;
    }
    Some(verify_range_parallel(start, end, x, max_steps, progress_callback))
}

} // verus!

//! Trajectories: stopping times, with the fast start in fixed-width
//! arithmetic, and full traces.

use vstd::prelude::*;
use vstd::string::StringExecFns;
use vstd::arithmetic::power2::{pow2, lemma_pow2_pos, lemma_pow2_strictly_increases, lemma2_to64};
use num_bigint::BigUint;
use crate::big::{biguint_from_u64, biguint_value, biguint_le};
use crate::bits::{
    bit_length, nat_bit, word_bit, lemma_bit_length_bounds, lemma_nat_bit_above, lemma_wide_bit,
    lemma_word_bitwise, lemma_word_consts,
};
use crate::model::{
    ChainState, MAX_STEP_PAIRS, chain_after, classes, count_in, iterate, pair_class, raw_next,
    shift_of, step_d, step_next, valid_multiplier, lemma_chain_bound, lemma_class_counts,
    lemma_step_odd,
};
use crate::packed::{packed_step_3n1_opt, packed_step_5n1_opt, packed_step_generic_opt};
use crate::pair_number::{PairNumber, pair_len, pairs_of, lemma_canonical_digits};
use crate::reference::{lemma_lowest_bit, lemma_power_shift, lemma_power_word};
use crate::scan::{
    Gpk, GpkInfo, GpkStats, StatsView, StepResult, pair_gpk, stats_fit, stats_record, stats_room,
    lemma_pair_len,
};
use crate::streams::{stream_bit, words_for, packed_bit};
use crate::u256::U256;
use crate::adder::lemma_next_pairs;
use crate::cancel::is_cancelled;
use crate::scan::{collatz_step, collatz_step_3n1, collatz_step_5n1, is_raw_of, raw_len};
use vstd::slice::slice_to_vec;
use std::sync::atomic::AtomicBool;

verus! {

/// Number of pairs beyond which a trajectory is given up as diverging.
pub const MAX_PAIR_COUNT: usize = 10_000;

/// The `pair_count` positions of a packed stream as text, highest first.
pub fn words_to_bits_msb(words: &[u64], pair_count: usize) -> (s: String)
    requires
        words@.len() >= words_for(pair_count as nat),
    ensures
        s@.len() == pair_count,
        forall|i: int|
            0 <= i < pair_count ==> s@[i] == if stream_bit(words@, pair_count - 1 - i) {
                '1'
            } else {
                '0'
            },
{
    let mut s: String = String::new();
    let mut i: usize = pair_count;
    proof {
        reveal_strlit("1");
        reveal_strlit("0");
    }
    while i > 0
        invariant
            i <= pair_count,
            words@.len() >= words_for(pair_count as nat),
            "1"@ == seq!['1'],
            "0"@ == seq!['0'],
            s@.len() == pair_count - i,
            forall|j: int|
                0 <= j < pair_count - i ==> s@[j] == if stream_bit(words@, pair_count - 1 - j) {
                    '1'
                } else {
                    '0'
                },
        decreases i,
    {
        i = i - 1;
        if packed_bit(words, i) != 0 {
            s.append("1");
        } else {
            s.append("0");
        }
    }
    s
}

/// The sixteen predicates of two bits, numbered 1 to 16: FALSE, AND, L>R,
/// LEFT, R>L, RIGHT, XOR, OR, NOR, XNOR, NOT_R, R->L, NOT_L, L->R, NAND,
/// TRUE, with the bit of `m4` on the left and the bit of `m6` on the right.
/// Any other number is FALSE.
pub open spec fn predicate_of(pred: u8, l: bool, r: bool) -> bool {
    if pred == 1 {
        false
    } else if pred == 2 {
        l && r
    } else if pred == 3 {
        l && !r
    } else if pred == 4 {
        l
    } else if pred == 5 {
        !l && r
    } else if pred == 6 {
        r
    } else if pred == 7 {
        l != r
    } else if pred == 8 {
        l || r
    } else if pred == 9 {
        !l && !r
    } else if pred == 10 {
        l == r
    } else if pred == 11 {
        !r
    } else if pred == 12 {
        l || !r
    } else if pred == 13 {
        !l
    } else if pred == 14 {
        !l || r
    } else if pred == 15 {
        !(l && r)
    } else if pred == 16 {
        true
    } else {
        false
    }
}

/// One word of a predicate of two words.
fn predicate_word(m4: u64, m6: u64, pred: u8) -> (r: u64)
    ensures
        forall|t: int|
            0 <= t < 64 ==> #[trigger] word_bit(r, t) == predicate_of(
                pred,
                word_bit(m4, t),
                word_bit(m6, t),
            ),
{
    proof {
        lemma_word_consts();
        lemma_word_bitwise(m4, m6);
        lemma_word_bitwise(m4, !m6);
        lemma_word_bitwise(!m4, m6);
        lemma_word_bitwise(!m4, !m6);
        lemma_word_bitwise(m6, m4);
        lemma_word_bitwise(m4 ^ m6, 0);
        lemma_word_bitwise(m4 & m6, 0);
        lemma_word_bitwise(0, 0);
    }
    match pred {
        1 => 0u64,
        2 => m4 & m6,
        3 => m4 & !m6,
        4 => m4,
        5 => !m4 & m6,
        6 => m6,
        7 => m4 ^ m6,
        8 => m4 | m6,
        9 => !m4 & !m6,
        10 => !(m4 ^ m6),
        11 => !m6,
        12 => m4 | !m6,
        13 => !m4,
        14 => !m4 | m6,
        15 => !(m4 & m6),
        16 => !0u64,
        _ => 0,
    }
}

/// A predicate of the pairs of two streams as text, highest pair first.
pub fn predicate_bits_msb(m4_words: &[u64], m6_words: &[u64], pair_count: usize, pred: u8) -> (s:
    String)
    requires
        m4_words@.len() >= words_for(pair_count as nat),
        m6_words@.len() >= m4_words@.len(),
    ensures
        s@.len() == pair_count,
        forall|i: int|
            0 <= i < pair_count ==> s@[i] == if predicate_of(
                pred,
                stream_bit(m4_words@, pair_count - 1 - i),
                stream_bit(m6_words@, pair_count - 1 - i),
            ) {
                '1'
            } else {
                '0'
            },
{
    let word_count: usize = m4_words.len();
    let mut pred_words: Vec<u64> = Vec::new();
    let mut w: usize = 0;
    while w < word_count
        invariant
            w <= word_count,
            word_count == m4_words@.len(),
            m6_words@.len() >= m4_words@.len(),
            pred_words@.len() == w,
            forall|j: int|
                0 <= j < 64 * w ==> #[trigger] stream_bit(pred_words@, j) == predicate_of(
                    pred,
                    stream_bit(m4_words@, j),
                    stream_bit(m6_words@, j),
                ),
        decreases word_count - w,
    {
        let ghost before = pred_words@;
        let word: u64 = predicate_word(m4_words[w], m6_words[w], pred);
        pred_words.push(word);
        proof {
            assert forall|j: int| 0 <= j < 64 * (w + 1) implies #[trigger] stream_bit(
                pred_words@,
                j,
            ) == predicate_of(pred, stream_bit(m4_words@, j), stream_bit(m6_words@, j)) by {
                if j < 64 * w {
                    assert(pred_words@[j / 64] == before[j / 64]);
                    assert(stream_bit(before, j) == predicate_of(
                        pred,
                        stream_bit(m4_words@, j),
                        stream_bit(m6_words@, j),
                    ));
                } else {
                    assert(j / 64 == w);
                    assert(word_bit(word, j % 64) == predicate_of(
                        pred,
                        word_bit(m4_words@[w as int], j % 64),
                        word_bit(m6_words@[w as int], j % 64),
                    ));
                }
            }
        }
        w = w + 1;
    }
    words_to_bits_msb(pred_words.as_slice(), pair_count)
}

/// The names of the sixteen predicates, predicate 1 first.
pub const PREDICATE_NAMES: [&'static str; 16] = [
    "FALSE",
    "AND",
    "L>R",
    "LEFT",
    "R>L",
    "RIGHT",
    "XOR",
    "OR",
    "NOR",
    "XNOR",
    "NOT_R",
    "R\u{2192}L",
    "NOT_L",
    "L\u{2192}R",
    "NAND",
    "TRUE",
];

/// What ends a search: the iterate is 1, or it is below the start where
/// the stopping time is asked for.
pub open spec fn search_ends(start: nat, next: nat, use_stopping_time: bool) -> bool {
    next == 1 || (use_stopping_time && next < start)
}

/// The search from `cur`, reached from `start` in `steps` steps: the number
/// of the first step, up to `max_steps`, that ends the search, and `None`
/// where an iterate has more than `MAX_PAIR_COUNT` pairs before that or the
/// steps run out.
pub open spec fn stop_search(
    start: nat,
    cur: nat,
    x: u64,
    steps: nat,
    max_steps: nat,
    use_stopping_time: bool,
) -> Option<nat>
    decreases max_steps - steps,
{
    if steps >= max_steps {
        None
    } else if search_ends(start, step_next(cur, x), use_stopping_time) {
        Some(steps + 1)
    } else if pair_len(step_next(cur, x)) > MAX_PAIR_COUNT {
        None
    } else {
        stop_search(start, step_next(cur, x), x, steps + 1, max_steps, use_stopping_time)
    }
}

/// The totals after that search, with every number stepped from recorded.
pub open spec fn stop_stats(
    st: StatsView,
    start: nat,
    cur: nat,
    x: u64,
    steps: nat,
    max_steps: nat,
    use_stopping_time: bool,
) -> StatsView
    decreases max_steps - steps,
{
    if steps >= max_steps {
        st
    } else if search_ends(start, step_next(cur, x), use_stopping_time) || pair_len(
        step_next(cur, x),
    ) > MAX_PAIR_COUNT {
        stats_record(st, cur, shift_of(x))
    } else {
        stop_stats(
            stats_record(st, cur, shift_of(x)),
            start,
            step_next(cur, x),
            x,
            steps + 1,
            max_steps,
            use_stopping_time,
        )
    }
}

/// The stopping time of `n`: 0 for 1, else the number of steps to the
/// first iterate that is 1 or, where `use_stopping_time` is set, below `n`.
pub open spec fn stopping_time_of(n: nat, x: u64, max_steps: nat, use_stopping_time: bool) -> Option<
    nat,
> {
    if n == 1 {
        Some(0)
    } else {
        stop_search(n, n, x, 0, max_steps, use_stopping_time)
    }
}

/// The totals after the search for the stopping time of `n`.
pub open spec fn stopping_stats_of(
    st: StatsView,
    n: nat,
    x: u64,
    max_steps: nat,
    use_stopping_time: bool,
) -> StatsView {
    if n == 1 {
        st
    } else {
        stop_stats(st, n, n, x, 0, max_steps, use_stopping_time)
    }
}

/// A result is that of the search.
pub open spec fn time_is(r: Option<u64>, t: Option<nat>) -> bool {
    match t {
        Some(j) => r == Some(j as u64) && j <= u64::MAX,
        None => r is None,
    }
}

/// The largest number of pairs that a search from `v` records in one step.
pub open spec fn search_pairs(v: nat) -> nat {
    if pair_len(v) > MAX_PAIR_COUNT {
        pair_len(v)
    } else {
        MAX_PAIR_COUNT as nat
    }
}

/// A stopping time that the search reports is the number of an iterate
/// that ends the search, and no iterate before it does.
pub proof fn lemma_stop_search(
    start: nat,
    cur: nat,
    x: u64,
    steps: nat,
    max_steps: nat,
    use_stopping_time: bool,
)
    ensures
        stop_search(start, cur, x, steps, max_steps, use_stopping_time) matches Some(j) ==> {
            &&& steps < j <= max_steps
            &&& search_ends(start, iterate(cur, x, (j - steps) as nat), use_stopping_time)
            &&& forall|i: nat|
                0 < i < j - steps ==> !search_ends(start, #[trigger] iterate(cur, x, i), use_stopping_time)
        },
    decreases max_steps - steps,
{
    if steps < max_steps {
        let next = step_next(cur, x);
        assert(iterate(cur, x, 1) == step_next(iterate(cur, x, 0), x));
        if !search_ends(start, next, use_stopping_time) && pair_len(next) <= MAX_PAIR_COUNT {
            lemma_stop_search(start, next, x, steps + 1, max_steps, use_stopping_time);
            if stop_search(start, cur, x, steps, max_steps, use_stopping_time) is Some {
                let j: nat = stop_search(start, cur, x, steps, max_steps, use_stopping_time)->0;
                lemma_iterate_shift(cur, x, (j - steps - 1) as nat);
                assert forall|i: nat| 0 < i < j - steps implies !search_ends(
                    start,
                    #[trigger] iterate(cur, x, i),
                    use_stopping_time,
                ) by {
                    if i > 1 {
                        lemma_iterate_shift(cur, x, (i - 1) as nat);
                    }
                }
            }
        }
    }
}

/// The fast start changes nothing: two searches for the same number hand
/// back the same stopping time and the same totals, whatever phases they
/// went through.
pub proof fn lemma_fast_path_agrees(
    with_phase1: Option<u64>,
    without: Option<u64>,
    stats_with: StatsView,
    stats_without: StatsView,
    st: StatsView,
    n: nat,
    x: u64,
    max_steps: nat,
    use_stopping_time: bool,
)
    requires
        time_is(with_phase1, stopping_time_of(n, x, max_steps, use_stopping_time)),
        time_is(without, stopping_time_of(n, x, max_steps, use_stopping_time)),
        stats_with == stopping_stats_of(st, n, x, max_steps, use_stopping_time),
        stats_without == stopping_stats_of(st, n, x, max_steps, use_stopping_time),
    ensures
        with_phase1 == without,
        stats_with == stats_without,
{
}

/// `T^(j+1)(v) = T^j(T(v))`.
pub proof fn lemma_iterate_shift(v: nat, x: u64, j: nat)
    ensures
        iterate(v, x, j + 1) == iterate(step_next(v, x), x, j),
    decreases j,
{
    if j > 0 {
        lemma_iterate_shift(v, x, (j - 1) as nat);
    } else {
        assert(iterate(v, x, 1) == step_next(iterate(v, x, 0), x));
    }
}

/// Totals with room for a step have room for its record, and keep the room
/// for the steps after it.
pub proof fn lemma_room_step(st: StatsView, steps: nat, pairs: nat, v: nat, s: nat)
    requires
        stats_room(st, steps, pairs),
        steps >= 1,
        pair_len(v) <= pairs,
    ensures
        stats_fit(stats_record(st, v, s)),
        stats_room(stats_record(st, v, s), (steps - 1) as nat, pairs),
{
    let cls = classes(v, s);
    let k = pair_len(v);
    lemma_class_counts(cls, k);
    let after = stats_record(st, v, s);
    assert(steps * pairs == pairs + (steps - 1) * pairs) by (nonlinear_arith)
        requires
            steps >= 1,
    ;
    assert((steps - 1) * pairs >= 0) by (nonlinear_arith)
        requires
            steps >= 1,
            pairs >= 0,
    ;
    assert forall|i: int| 0 <= i < 128 implies #[trigger] after.hist[i] + (steps - 1) <= u64::MAX by {
        assert(st.hist[i] + steps <= u64::MAX);
    }
    assert forall|i: int| 0 <= i < 128 implies #[trigger] after.hist[i] <= u64::MAX by {
        assert(st.hist[i] + steps <= u64::MAX);
    }
}

/// Room for more steps is room for fewer.
pub proof fn lemma_room_less(st: StatsView, steps: nat, fewer: nat, pairs: nat)
    requires
        stats_room(st, steps, pairs),
        fewer <= steps,
    ensures
        stats_room(st, fewer, pairs),
{
    assert(fewer * pairs <= steps * pairs) by (nonlinear_arith)
        requires
            fewer <= steps,
            pairs >= 0,
    ;
    assert forall|i: int| 0 <= i < 128 implies #[trigger] st.hist[i] + fewer <= u64::MAX by {
        assert(st.hist[i] + steps <= u64::MAX);
    }
}

/// A number below `2^(2k)` has at most `k` pairs.
pub proof fn lemma_pair_len_bound(v: nat, k: nat)
    requires
        v < pow2(2 * k),
        k >= 1,
    ensures
        pair_len(v) <= k,
{
    lemma_bit_length_bounds(v, 2 * k);
}

/// The high bit of pair `i` of a 128-bit number of `pair_count` pairs; 0
/// outside the pairs.
fn wide_high_bit(n: u128, pair_count: usize, i: isize) -> (r: u8)
    requires
        pair_count <= 64,
    ensures
        r == if 0 <= i < pair_count && nat_bit(n as nat, 2 * i + 1) { 1u8 } else { 0u8 },
{
    if i < 0 || (i as usize) >= pair_count {
        return 0;
    }
    let pos: u128 = (2 * (i as usize) + 1) as u128;
    proof {
        lemma_wide_bit(n, pos);
    }
    ((n >> pos) & 1) as u8
}

/// The low bit of pair `i` of a 128-bit number of `pair_count` pairs; 0
/// outside the pairs.
fn wide_low_bit(n: u128, pair_count: usize, i: isize) -> (r: u8)
    requires
        pair_count <= 64,
    ensures
        r == if 0 <= i < pair_count && nat_bit(n as nat, 2 * i) { 1u8 } else { 0u8 },
{
    if i < 0 || (i as usize) >= pair_count {
        return 0;
    }
    let pos: u128 = (2 * (i as usize)) as u128;
    proof {
        lemma_wide_bit(n, pos);
    }
    ((n >> pos) & 1) as u8
}

/// Bit `pos` of a 256-bit number; 0 from position 256 on.
fn limb_bit(n: &U256, pos: usize) -> (r: u8)
    ensures
        r == if nat_bit(n.value(), pos as int) { 1u8 } else { 0u8 },
{
    proof {
        n.lemma_bits();
    }
    if pos >= 256 {
        proof {
            lemma_nat_bit_above(n.value(), 256, pos as int);
        }
        return 0;
    }
    packed_bit(n.0.as_slice(), pos) as u8
}

/// The high bit of pair `i` of a 256-bit number of `pair_count` pairs; 0
/// outside the pairs.
fn limb_high_bit(n: &U256, pair_count: usize, i: isize) -> (r: u8)
    requires
        pair_count <= 128,
    ensures
        r == if 0 <= i < pair_count && nat_bit(n.value(), 2 * i + 1) { 1u8 } else { 0u8 },
{
    if i < 0 || (i as usize) >= pair_count {
        return 0;
    }
    limb_bit(n, 2 * (i as usize) + 1)
}

/// The low bit of pair `i` of a 256-bit number of `pair_count` pairs; 0
/// outside the pairs.
fn limb_low_bit(n: &U256, pair_count: usize, i: isize) -> (r: u8)
    requires
        pair_count <= 128,
    ensures
        r == if 0 <= i < pair_count && nat_bit(n.value(), 2 * i) { 1u8 } else { 0u8 },
{
    if i < 0 || (i as usize) >= pair_count {
        return 0;
    }
    limb_bit(n, 2 * (i as usize))
}

/// The four bits that pair `i` adds, read with zeros outside the pairs of
/// `v`, are the bits of `v` that classify the pair.
pub proof fn lemma_pair_inputs(v: nat, s: nat, k: nat, i: int)
    requires
        k == pair_len(v),
    ensures
        (0 <= i < k && nat_bit(v, 2 * i)) == nat_bit(v, 2 * i),
        (0 <= i < k && nat_bit(v, 2 * i + 1)) == nat_bit(v, 2 * i + 1),
        s % 2 == 0 ==> (0 <= i - s / 2 < k && nat_bit(v, 2 * (i - s / 2))) == nat_bit(v, 2 * i - s),
        s % 2 == 0 ==> (0 <= i - s / 2 < k && nat_bit(v, 2 * (i - s / 2) + 1)) == nat_bit(
            v,
            2 * i + 1 - s,
        ),
        s % 2 == 1 ==> (0 <= i - s / 2 - 1 < k && nat_bit(v, 2 * (i - s / 2 - 1) + 1)) == nat_bit(
            v,
            2 * i - s,
        ),
        s % 2 == 1 ==> (0 <= i - s / 2 < k && nat_bit(v, 2 * (i - s / 2))) == nat_bit(
            v,
            2 * i + 1 - s,
        ),
{
    crate::bits::lemma_bit_length(v);
    let l = bit_length(v);
    if l < 2 * k {
        lemma_pow2_strictly_increases(l, 2 * k);
    }
    let t: int = (s / 2) as int;
    if 2 * i >= 2 * k {
        lemma_nat_bit_above(v, 2 * k, 2 * i);
        lemma_nat_bit_above(v, 2 * k, 2 * i + 1);
    }
    if 2 * (i - t) >= 2 * k {
        lemma_nat_bit_above(v, 2 * k, 2 * (i - t));
        lemma_nat_bit_above(v, 2 * k, 2 * (i - t) + 1);
    }
    if 2 * (i - t - 1) + 1 >= 2 * k {
        lemma_nat_bit_above(v, 2 * k, 2 * (i - t - 1) + 1);
    }
}

/// Records the classification of the pairs of `n`, read from its bits. For
/// `n = 0` nothing is recorded.
fn accumulate_gpk_u128(n: u128, x: u64, stats: &mut GpkStats)
    requires
        valid_multiplier(x),
        n > 0 ==> stats_fit(stats_record(old(stats)@, n as nat, shift_of(x))),
    ensures
        final(stats)@ == if n == 0 {
            old(stats)@
        } else {
            stats_record(old(stats)@, n as nat, shift_of(x))
        },
{
    if n == 0 {
        return ;
    }
    let bit_len: usize = 128 - n.leading_zeros() as usize;
    let pair_count: usize = (bit_len + 1) / 2;
    let xm1: u64 = x - 1;
    let s: u32 = xm1.trailing_zeros();
    proof {
        lemma_power_shift(x, shift_of(x));
        lemma_power_word(shift_of(x) as u64);
        lemma_lowest_bit(xm1, shift_of(x) as u64);
    }
    let t: isize = (s / 2) as isize;
    let s_is_even: bool = s % 2 == 0;
    let ghost v: nat = n as nat;
    let ghost cls = classes(v, s as nat);
    let mut g_count: u32 = 0;
    let mut p_count: u32 = 0;
    let mut k_count: u32 = 0;
    let mut carry: bool = true;
    let mut chain: u32 = 0;
    let mut max_chain: u32 = 0;
    let mut i: usize = 0;
    while i < pair_count
        invariant
            i <= pair_count,
            pair_count == pair_len(v),
            pair_count <= 64,
            v == n,
            1 <= s < 64,
            t == s / 2,
            s_is_even == (s % 2 == 0),
            cls == classes(v, s as nat),
            g_count == count_in(cls, Gpk::Generate, i as nat),
            p_count == count_in(cls, Gpk::Propagate, i as nat),
            k_count == count_in(cls, Gpk::Kill, i as nat),
            chain_after(cls, i as nat) == (ChainState {
                chain: chain as nat,
                longest: max_chain as nat,
                carry,
            }),
        decreases pair_count - i,
    {
        let ii: isize = i as isize;
        let ai: u8 = wide_high_bit(n, pair_count, ii);
        let bi: u8 = wide_low_bit(n, pair_count, ii);
        let (p_r, q_r, p_l, q_l) = if s_is_even {
            (wide_low_bit(n, pair_count, ii - t), bi, wide_high_bit(n, pair_count, ii - t), ai)
        } else {
            (wide_high_bit(n, pair_count, ii - t - 1), bi, wide_low_bit(n, pair_count, ii - t), ai)
        };
        proof {
            lemma_pair_inputs(v, s as nat, pair_count as nat, i as int);
            lemma_class_counts(cls, i as nat);
            lemma_chain_bound(cls, i as nat);
            assert(cls(i as int) == pair_class(v, s as nat, i as int));
        }
        let gpk = pair_gpk(p_r, q_r, p_l, q_l);
        match gpk {
            Gpk::Generate => {
                g_count = g_count + 1;
                chain = chain + 1;
                carry = true;
            },
            Gpk::Propagate => {
                p_count = p_count + 1;
                if carry {
                    chain = chain + 1;
                }
            },
            Gpk::Kill => {
                k_count = k_count + 1;
                if chain > max_chain {
                    max_chain = chain;
                }
                chain = 0;
                carry = false;
            },
        }
        i = i + 1;
    }
    if chain > max_chain {
        max_chain = chain;
    }
    stats.add_step(g_count, p_count, k_count, pair_count, max_chain);
}

/// Records the classification of the pairs of `n`, read from its limbs.
/// For `n = 0` nothing is recorded.
fn accumulate_gpk_u256(n: &U256, x: u64, stats: &mut GpkStats)
    requires
        valid_multiplier(x),
        n.value() > 0 ==> stats_fit(stats_record(old(stats)@, n.value(), shift_of(x))),
    ensures
        final(stats)@ == if n.value() == 0 {
            old(stats)@
        } else {
            stats_record(old(stats)@, n.value(), shift_of(x))
        },
{
    let bl: u32 = n.bit_len();
    if bl == 0 {
        return ;
    }
    let bit_len: usize = bl as usize;
    let pair_count: usize = (bit_len + 1) / 2;
    let xm1: u64 = x - 1;
    let s: u32 = xm1.trailing_zeros();
    proof {
        lemma_power_shift(x, shift_of(x));
        lemma_power_word(shift_of(x) as u64);
        lemma_lowest_bit(xm1, shift_of(x) as u64);
    }
    let t: isize = (s / 2) as isize;
    let s_is_even: bool = s % 2 == 0;
    let ghost v: nat = n.value();
    let ghost cls = classes(v, s as nat);
    let mut g_count: u32 = 0;
    let mut p_count: u32 = 0;
    let mut k_count: u32 = 0;
    let mut carry: bool = true;
    let mut chain: u32 = 0;
    let mut max_chain: u32 = 0;
    let mut i: usize = 0;
    while i < pair_count
        invariant
            i <= pair_count,
            pair_count == pair_len(v),
            pair_count <= 128,
            v == n.value(),
            1 <= s < 64,
            t == s / 2,
            s_is_even == (s % 2 == 0),
            cls == classes(v, s as nat),
            g_count == count_in(cls, Gpk::Generate, i as nat),
            p_count == count_in(cls, Gpk::Propagate, i as nat),
            k_count == count_in(cls, Gpk::Kill, i as nat),
            chain_after(cls, i as nat) == (ChainState {
                chain: chain as nat,
                longest: max_chain as nat,
                carry,
            }),
        decreases pair_count - i,
    {
        let ii: isize = i as isize;
        let ai: u8 = limb_high_bit(n, pair_count, ii);
        let bi: u8 = limb_low_bit(n, pair_count, ii);
        let (p_r, q_r, p_l, q_l) = if s_is_even {
            (limb_low_bit(n, pair_count, ii - t), bi, limb_high_bit(n, pair_count, ii - t), ai)
        } else {
            (limb_high_bit(n, pair_count, ii - t - 1), bi, limb_low_bit(n, pair_count, ii - t), ai)
        };
        proof {
            lemma_pair_inputs(v, s as nat, pair_count as nat, i as int);
            lemma_class_counts(cls, i as nat);
            lemma_chain_bound(cls, i as nat);
            assert(cls(i as int) == pair_class(v, s as nat, i as int));
        }
        let gpk = pair_gpk(p_r, q_r, p_l, q_l);
        match gpk {
            Gpk::Generate => {
                g_count = g_count + 1;
                chain = chain + 1;
                carry = true;
            },
            Gpk::Propagate => {
                p_count = p_count + 1;
                if carry {
                    chain = chain + 1;
                }
            },
            Gpk::Kill => {
                k_count = k_count + 1;
                if chain > max_chain {
                    max_chain = chain;
                }
                chain = 0;
                carry = false;
            },
        }
        i = i + 1;
    }
    if chain > max_chain {
        max_chain = chain;
    }
    stats.add_step(g_count, p_count, k_count, pair_count, max_chain);
}

/// The search by packed steps from `pn`, reached from `initial_pn` in
/// `steps` steps. Every number stepped from is recorded in `stats` where
/// `collect_gpk` is set.
#[verifier::loop_isolation(false)]
fn packed_search(
    initial_pn: &PairNumber,
    pn: PairNumber,
    x: u64,
    steps: u64,
    max_steps: u64,
    stats: &mut GpkStats,
    collect_gpk: bool,
    use_stopping_time: bool,
) -> (r: Option<u64>)
    requires
        valid_multiplier(x),
        steps <= max_steps,
        pn@.k <= MAX_STEP_PAIRS,
        collect_gpk ==> stats_room(
            old(stats)@,
            (max_steps - steps) as nat,
            search_pairs(pn@.value()),
        ),
    ensures
        time_is(
            r,
            stop_search(
                initial_pn@.value(),
                pn@.value(),
                x,
                steps as nat,
                max_steps as nat,
                use_stopping_time,
            ),
        ),
        final(stats)@ == if collect_gpk {
            stop_stats(
                old(stats)@,
                initial_pn@.value(),
                pn@.value(),
                x,
                steps as nat,
                max_steps as nat,
                use_stopping_time,
            )
        } else {
            old(stats)@
        },
{
    let ghost start = initial_pn@.value();
    let ghost first = pn@.value();
    let ghost goal = stop_search(start, first, x, steps as nat, max_steps as nat, use_stopping_time);
    let ghost goal_stats = stop_stats(
        old(stats)@,
        start,
        first,
        x,
        steps as nat,
        max_steps as nat,
        use_stopping_time,
    );
    let ghost pairs = search_pairs(first);
    let mut pn = pn;
    let mut steps = steps;
    let first_pairs: usize = pn.pair_count();
    proof {
        lemma_canonical_digits(pn@);
    }
    while steps < max_steps
        invariant
            valid_multiplier(x),
            steps <= max_steps,
            pn@.wf(),
            pn@.k <= MAX_STEP_PAIRS,
            pn@.k <= pairs,
            pairs >= MAX_PAIR_COUNT,
            start == initial_pn@.value(),
            stop_search(start, pn@.value(), x, steps as nat, max_steps as nat, use_stopping_time)
                == goal,
            collect_gpk ==> stop_stats(
                stats@,
                start,
                pn@.value(),
                x,
                steps as nat,
                max_steps as nat,
                use_stopping_time,
            ) == goal_stats,
            collect_gpk ==> stats_room(stats@, (max_steps - steps) as nat, pairs),
            !collect_gpk ==> stats@ == old(stats)@,
        decreases max_steps - steps,
    {
        let ghost cur = pn@.value();
        let result = if x == 3 {
            packed_step_3n1_opt(&pn, collect_gpk)
        } else if x == 5 {
            packed_step_5n1_opt(&pn, collect_gpk)
        } else {
            packed_step_generic_opt(&pn, x, collect_gpk)
        };
        proof {
            lemma_canonical_digits(pn@);
        }
        if collect_gpk {
            proof {
                lemma_room_step(stats@, (max_steps - steps) as nat, pairs, cur, shift_of(x));
            }
            stats.add_step(
                result.g_count,
                result.p_count,
                result.k_count,
                pn.pair_count(),
                result.max_carry_chain,
            );
        }
        let next = PairNumber::from_packed(result.new_m4, result.new_m6, result.new_pair_count);
        proof {
            lemma_canonical_digits(next@);
        }
        steps = steps + 1;
        proof {
            assert(next@.value() == step_next(cur, x));
            assert(pairs_of(result.new_m4@, result.new_m6@, result.new_pair_count as int) == next@);
        }
        if next.is_one() {
            return Some(steps);
        }
        let below: bool = next < *initial_pn;
        if use_stopping_time && below {
            return Some(steps);
        }
        if next.pair_count() > MAX_PAIR_COUNT {
            return None;
        }
        pn = next;
    }
    None
}

/// The stopping time of `n`: the number of steps to the first iterate below
/// `n` (or equal to 1), `None` where there is none within `max_steps`
/// steps or an iterate grows beyond `MAX_PAIR_COUNT` pairs.
pub fn stopping_time(n: &BigUint, x: u64, max_steps: u64) -> (r: Option<u64>)
    requires
        valid_multiplier(x),
        pair_len(biguint_value(*n)) <= MAX_STEP_PAIRS,
    ensures
        time_is(r, stopping_time_of(biguint_value(*n), x, max_steps as nat, true)),
{
    stopping_time_with_gpk(n, x, max_steps, None, true)
}

/// The stopping time of `n` by packed steps. Where `gpk_stats` is given,
/// the classification of every number stepped from is added to it. Where
/// `use_stopping_time` is not set, the search goes on to 1.
pub fn stopping_time_with_gpk(
    n: &BigUint,
    x: u64,
    max_steps: u64,
    gpk_stats: Option<&mut GpkStats>,
    use_stopping_time: bool,
) -> (r: Option<u64>)
    requires
        valid_multiplier(x),
        pair_len(biguint_value(*n)) <= MAX_STEP_PAIRS,
        gpk_stats matches Some(s) ==> stats_room(
            s@,
            max_steps as nat,
            search_pairs(biguint_value(*n)),
        ),
    ensures
        time_is(r, stopping_time_of(biguint_value(*n), x, max_steps as nat, use_stopping_time)),
        gpk_stats matches Some(s) ==> final(s)@ == stopping_stats_of(
            s@,
            biguint_value(*n),
            x,
            max_steps as nat,
            use_stopping_time,
        ),
{
    proof {
        lemma_pair_len(biguint_value(*n));
    }
    let initial_pn = PairNumber::from_biguint(n);
    proof {
        lemma_canonical_digits(initial_pn@);
    }
    if initial_pn.is_one() {
        return Some(0);
    }
    let pn = initial_pn.clone();
    match gpk_stats {
        Some(stats) => packed_search(
            &initial_pn,
            pn,
            x,
            0,
            max_steps,
            stats,
            true,
            use_stopping_time,
        ),
        None => {
            let mut unused = GpkStats::new();
            packed_search(&initial_pn, pn, x, 0, max_steps, &mut unused, false, use_stopping_time)
        },
    }
}

/// The stopping time of a 64-bit `n`, started in fixed-width arithmetic:
/// in 128 bits while `x*n + 1` fits, then in 256 bits, then by packed
/// steps. Without `use_phase1` the packed steps are taken from the start.
pub fn stopping_time_u64_fast(
    n: u64,
    x: u64,
    max_steps: u64,
    gpk_stats: Option<&mut GpkStats>,
    use_phase1: bool,
    use_stopping_time: bool,
) -> (r: Option<u64>)
    requires
        valid_multiplier(x),
        n >= 1,
        gpk_stats matches Some(s) ==> stats_room(s@, max_steps as nat, MAX_PAIR_COUNT as nat),
    ensures
        time_is(r, stopping_time_of(n as nat, x, max_steps as nat, use_stopping_time)),
        gpk_stats matches Some(s) ==> final(s)@ == stopping_stats_of(
            s@,
            n as nat,
            x,
            max_steps as nat,
            use_stopping_time,
        ),
{
    match gpk_stats {
        Some(stats) => fast_search(n, x, max_steps, stats, true, use_phase1, use_stopping_time),
        None => {
            let mut unused = GpkStats::new();
            fast_search(n, x, max_steps, &mut unused, false, use_phase1, use_stopping_time)
        },
    }
}

/// One step in 128 bits: `(x*current + 1) >> d`. `x*current + 1` has to fit.
fn step_u128(current: u128, x: u64) -> (r: u128)
    requires
        valid_multiplier(x),
        current <= (u128::MAX - 1) / (x as int),
    ensures
        r == step_next(current as nat, x),
{
    let x128: u128 = x as u128;
    assert(current * x128 + 1 <= u128::MAX) by (nonlinear_arith)
        requires
            current <= (u128::MAX - 1) / (x128 as int),
            x128 >= 3,
    ;
    let xn1: u128 = current * x128 + 1;
    let d: u32 = xn1.trailing_zeros();
    proof {
        assert(x * (current as nat) + 1 == xn1) by (nonlinear_arith)
            requires
                xn1 == current * x128 + 1,
                x128 == x,
        ;
        crate::bits::lemma_low_zeros(xn1 as nat);
        lemma_pow2_pos(d as nat);
        crate::bits::lemma_bit_length(xn1 as nat);
        // d is below 128: 2^d divides a positive number below 2^128
        if d >= 128 {
            lemma2_to64();
            vstd::arithmetic::power2::lemma_pow2_adds(64, 64);
            if d > 128 {
                lemma_pow2_strictly_increases(128, d as nat);
            }
            vstd::arithmetic::div_mod::lemma_small_mod(xn1 as nat, pow2(d as nat));
        }
        vstd::bits::lemma_u128_shr_is_div(xn1, d as u128);
    }
    xn1 >> d
}

/// The search for the stopping time of a 64-bit number, phase by phase.
#[verifier::loop_isolation(false)]
fn fast_search(
    n: u64,
    x: u64,
    max_steps: u64,
    stats: &mut GpkStats,
    collect_gpk: bool,
    use_phase1: bool,
    use_stopping_time: bool,
) -> (r: Option<u64>)
    requires
        valid_multiplier(x),
        n >= 1,
        collect_gpk ==> stats_room(old(stats)@, max_steps as nat, MAX_PAIR_COUNT as nat),
    ensures
        time_is(r, stopping_time_of(n as nat, x, max_steps as nat, use_stopping_time)),
        final(stats)@ == if collect_gpk {
            stopping_stats_of(old(stats)@, n as nat, x, max_steps as nat, use_stopping_time)
        } else {
            old(stats)@
        },
{
    if n == 1 {
        return Some(0);
    }
    let ghost start: nat = n as nat;
    let ghost goal = stop_search(start, start, x, 0, max_steps as nat, use_stopping_time);
    let ghost goal_stats = stop_stats(
        old(stats)@,
        start,
        start,
        x,
        0,
        max_steps as nat,
        use_stopping_time,
    );
    let ghost pairs: nat = MAX_PAIR_COUNT as nat;
    let x128: u128 = x as u128;
    let n128: u128 = n as u128;
    let mut current: u128 = n128;
    let overflow_limit: u128 = (u128::MAX - 1) / x128;
    let mut steps: u64 = 0;
    proof {
        lemma_width();
        lemma_pair_len_bound(start, 64);
    }
    while use_phase1 && steps < max_steps && current <= overflow_limit
        invariant
            valid_multiplier(x),
            overflow_limit == (u128::MAX - 1) / (x as int),
            n128 == n,
            start == n,
            pairs == MAX_PAIR_COUNT,
            steps <= max_steps,
            current >= 1,
            pow2(256) > u128::MAX,
            !use_phase1 ==> steps == 0 && current == n && stats@ == old(stats)@,
            stop_search(start, current as nat, x, steps as nat, max_steps as nat, use_stopping_time)
                == goal,
            collect_gpk ==> stop_stats(
                stats@,
                start,
                current as nat,
                x,
                steps as nat,
                max_steps as nat,
                use_stopping_time,
            ) == goal_stats,
            collect_gpk ==> stats_room(stats@, (max_steps - steps) as nat, pairs),
            !collect_gpk ==> stats@ == old(stats)@,
        decreases max_steps - steps,
    {
        if collect_gpk {
            proof {
                lemma_pair_len_bound(current as nat, 128);
                lemma_room_step(
                    stats@,
                    (max_steps - steps) as nat,
                    pairs,
                    current as nat,
                    shift_of(x),
                );
            }
            accumulate_gpk_u128(current, x, stats);
        }
        let ghost before = current;
        current = step_u128(current, x);
        steps = steps + 1;
        proof {
            lemma_step_odd(before as nat, x);
            lemma_pair_len_bound(current as nat, 128);
        }
        if current == 1 {
            return Some(steps);
        }
        if use_stopping_time && current < n128 {
            return Some(steps);
        }
    }
    if use_phase1 && steps < max_steps {
        let mut cur256 = U256::from_u128(current);
        while steps < max_steps
            invariant
                valid_multiplier(x),
                n128 == n,
                start == n,
                pairs == MAX_PAIR_COUNT,
                steps <= max_steps,
                cur256.value() >= 1,
                stop_search(
                    start,
                    cur256.value(),
                    x,
                    steps as nat,
                    max_steps as nat,
                    use_stopping_time,
                ) == goal,
                collect_gpk ==> stop_stats(
                    stats@,
                    start,
                    cur256.value(),
                    x,
                    steps as nat,
                    max_steps as nat,
                    use_stopping_time,
                ) == goal_stats,
                collect_gpk ==> stats_room(stats@, (max_steps - steps) as nat, pairs),
                !collect_gpk ==> stats@ == old(stats)@,
            decreases max_steps - steps,
        {
            proof {
                cur256.lemma_bits();
                lemma_pair_len_bound(cur256.value(), 128);
            }
            let product = cur256.mul_small_checked(x);
            let fits: bool = match product {
                Some(p) => !p.is_max(),
                None => false,
            };
            if !fits {
                let big_current = cur256.to_biguint();
                let initial_pn = PairNumber::from_biguint(&biguint_from_u64(n));
                let pn = PairNumber::from_biguint(&big_current);
                proof {
                    lemma_canonical_digits(pn@);
                }
                return packed_search(
                    &initial_pn,
                    pn,
                    x,
                    steps,
                    max_steps,
                    stats,
                    collect_gpk,
                    use_stopping_time,
                );
            }
            if collect_gpk {
                proof {
                    lemma_room_step(
                        stats@,
                        (max_steps - steps) as nat,
                        pairs,
                        cur256.value(),
                        shift_of(x),
                    );
                }
                accumulate_gpk_u256(&cur256, x, stats);
            }
            let ghost before = cur256.value();
            let xn1 = product.unwrap().add_one();
            let d: u32 = xn1.trailing_zeros();
            cur256 = xn1.shr(d);
            steps = steps + 1;
            proof {
                assert(xn1.value() == raw_next(before, x)) by (nonlinear_arith)
                    requires
                        xn1.value() == before * x + 1,
                        raw_next(before, x) == x * before + 1,
                ;
                lemma_step_odd(before, x);
                cur256.lemma_bits();
                lemma_pair_len_bound(cur256.value(), 128);
            }
            if cur256.is_one() {
                return Some(steps);
            }
            if use_stopping_time && cur256.lt_u128(n128) {
                return Some(steps);
            }
        }
        return None;
    }
    if steps < max_steps {
        let initial_pn = PairNumber::from_biguint(&biguint_from_u64(n));
        let pn = PairNumber::from_biguint(&biguint_from_u64(n));
        proof {
            lemma_canonical_digits(pn@);
        }
        return packed_search(
            &initial_pn,
            pn,
            x,
            steps,
            max_steps,
            stats,
            collect_gpk,
            use_stopping_time,
        );
    }
    None
}

/// `2^64`, `2^128` and `2^256` against the widths of the machine numbers.
pub proof fn lemma_width()
    ensures
        pow2(64) == 0x1_0000_0000_0000_0000,
        pow2(128) == 0x1_0000_0000_0000_0000_0000_0000_0000_0000,
        pow2(256) > u128::MAX,
{
    lemma2_to64();
    vstd::arithmetic::power2::lemma_pow2_adds(64, 64);
    lemma_pow2_strictly_increases(128, 256);
    assert(0x1_0000_0000_0000_0000int * 0x1_0000_0000_0000_0000int
        == 0x1_0000_0000_0000_0000_0000_0000_0000_0000int);
}

/// One step of a trace in pair form.
#[derive(Debug, Clone)]
pub struct PairStep {
    /// The stream `m4` of the number reached.
    pub m4_words: Vec<u64>,
    /// The stream `m6` of the number reached.
    pub m6_words: Vec<u64>,
    /// Its number of pairs.
    pub pair_count: usize,
    /// Number of halvings of the step.
    pub d: u64,
    /// Whether the two streams changed roles.
    pub exchanged: bool,
    /// The stream `m4` of `x*n + 1`, before postprocessing.
    pub raw_m4_words: Vec<u64>,
    /// The stream `m6` of `x*n + 1`, before postprocessing.
    pub raw_m6_words: Vec<u64>,
    /// Number of pairs that the scan wrote.
    pub raw_pair_count: usize,
}

/// What a trace hands back.
#[derive(Debug, Clone)]
pub struct TrajectoryResult {
    /// The number started from.
    pub start: BigUint,
    /// The number reached by each step, with the step's `d`.
    pub steps: Vec<(BigUint, u64)>,
    /// The start, and then every step, in pair form.
    pub pair_steps: Vec<PairStep>,
    /// The classification of the number that each step started from.
    pub gpk_per_step: Vec<GpkInfo>,
    /// The totals of these classifications.
    pub gpk_stats: GpkStats,
    /// Number of steps taken.
    pub total_steps: u64,
    /// The largest number on the way, the start included.
    pub max_value: BigUint,
    /// Whether the trace ended at 1.
    pub reached_one: bool,
}

/// The record of the start `v`: its pairs, and nothing of a step.
pub open spec fn is_first_pair_step(ps: PairStep, v: nat) -> bool {
    &&& pairs_of(ps.m4_words@, ps.m6_words@, ps.pair_count as int).wf()
    &&& pairs_of(ps.m4_words@, ps.m6_words@, ps.pair_count as int).value() == v
    &&& ps.d == 0
    &&& !ps.exchanged
    &&& ps.raw_m4_words@.len() == 0
    &&& ps.raw_m6_words@.len() == 0
    &&& ps.raw_pair_count == 0
}

/// The record of the step from `v`.
pub open spec fn is_pair_step_of(ps: PairStep, v: nat, x: u64) -> bool {
    &&& pairs_of(ps.m4_words@, ps.m6_words@, ps.pair_count as int).wf()
    &&& pairs_of(ps.m4_words@, ps.m6_words@, ps.pair_count as int).value() == step_next(v, x)
    &&& ps.d == step_d(v, x)
    &&& ps.exchanged == (step_d(v, x) % 2 == 1)
    &&& is_raw_of(ps.raw_m4_words@, ps.raw_m6_words@, v, x)
    &&& ps.raw_pair_count == raw_len(v, x)
}

/// Number of steps of the trace that is at `cur` after `steps` steps: it
/// ends at 1, after `max_steps` steps, or behind the first step to a number
/// of more than `MAX_PAIR_COUNT` pairs.
pub open spec fn trace_len_from(cur: nat, x: u64, steps: nat, max_steps: nat) -> nat
    decreases max_steps - steps,
{
    if cur == 1 || steps >= max_steps {
        steps
    } else if pair_len(step_next(cur, x)) > MAX_PAIR_COUNT {
        steps + 1
    } else {
        trace_len_from(step_next(cur, x), x, steps + 1, max_steps)
    }
}

/// Totals of no steps.
pub open spec fn no_stats() -> StatsView {
    StatsView { g: 0, p: 0, k: 0, pairs: 0, steps: 0, hist: Seq::new(128, |i: int| 0nat) }
}

/// The totals of the first `m` steps from `v`.
pub open spec fn trace_stats(v: nat, x: u64, m: nat) -> StatsView
    decreases m,
{
    if m == 0 {
        no_stats()
    } else {
        stats_record(trace_stats(v, x, (m - 1) as nat), iterate(v, x, (m - 1) as nat), shift_of(x))
    }
}

/// The largest of `v` and its first `m` iterates.
pub open spec fn max_iterate(v: nat, x: u64, m: nat) -> nat
    decreases m,
{
    if m == 0 {
        v
    } else if iterate(v, x, m) > max_iterate(v, x, (m - 1) as nat) {
        iterate(v, x, m)
    } else {
        max_iterate(v, x, (m - 1) as nat)
    }
}

/// The three lists are those of the first `m` steps from `v`.
pub open spec fn lists_hold(
    steps: Seq<(BigUint, u64)>,
    pair_steps: Seq<PairStep>,
    gpks: Seq<GpkInfo>,
    v: nat,
    x: u64,
    m: nat,
) -> bool {
    &&& steps.len() == m
    &&& pair_steps.len() == m + 1
    &&& gpks.len() == m
    &&& is_first_pair_step(pair_steps[0], v)
    &&& forall|i: int|
        0 <= i < m ==> biguint_value((#[trigger] steps[i]).0) == iterate(v, x, (i + 1) as nat)
            && steps[i].1 == step_d(iterate(v, x, i as nat), x)
    &&& forall|i: int|
        0 <= i < m ==> is_pair_step_of(#[trigger] pair_steps[i + 1], iterate(v, x, i as nat), x)
    &&& forall|i: int|
        0 <= i < m ==> (#[trigger] gpks[i]).active_pairs == pair_len(iterate(v, x, i as nat))
            && gpks[i].describes(classes(iterate(v, x, i as nat), shift_of(x)))
}

/// `r` is the trace of the first `m` steps from `v`.
pub open spec fn is_trace_run(r: TrajectoryResult, v: nat, x: u64, m: nat) -> bool {
    &&& biguint_value(r.start) == v
    &&& r.total_steps == m
    &&& lists_hold(r.steps@, r.pair_steps@, r.gpk_per_step@, v, x, m)
    &&& r.gpk_stats@ == trace_stats(v, x, m)
    &&& biguint_value(r.max_value) == max_iterate(v, x, m)
    &&& r.reached_one == (iterate(v, x, m) == 1)
}

/// A trace has at least the steps that it has taken, and no more than
/// `max_steps` where it has taken no more.
pub proof fn lemma_trace_len(cur: nat, x: u64, steps: nat, max_steps: nat)
    ensures
        steps <= trace_len_from(cur, x, steps, max_steps),
        steps <= max_steps ==> trace_len_from(cur, x, steps, max_steps) <= max_steps,
    decreases max_steps - steps,
{
    if cur != 1 && steps < max_steps && pair_len(step_next(cur, x)) <= MAX_PAIR_COUNT {
        lemma_trace_len(step_next(cur, x), x, steps + 1, max_steps);
    }
}

/// The trace from `start`: steps until 1 is reached, `max_steps` steps are
/// taken, or a number has more than `MAX_PAIR_COUNT` pairs.
pub fn trace_trajectory(start: &BigUint, x: u64, max_steps: u64) -> (r: TrajectoryResult)
    requires
        valid_multiplier(x),
        pair_len(biguint_value(*start)) <= MAX_STEP_PAIRS,
        max_steps * search_pairs(biguint_value(*start)) <= u64::MAX,
    ensures
        is_trace_run(
            r,
            biguint_value(*start),
            x,
            trace_len_from(biguint_value(*start), x, 0, max_steps as nat),
        ),
{
    let quiet = |step: u64, digits: usize, d: u64| {  };
    trace_trajectory_with_callback(start, x, max_steps, quiet)
}

/// The trace from `start`, with `callback(step, digits, d)` called after
/// every step: the number of the step, twice the number of pairs of the
/// number reached, and the step's `d`.
pub fn trace_trajectory_with_callback<F: Fn(u64, usize, u64)>(
    start: &BigUint,
    x: u64,
    max_steps: u64,
    callback: F,
) -> (r: TrajectoryResult)
    requires
        valid_multiplier(x),
        pair_len(biguint_value(*start)) <= MAX_STEP_PAIRS,
        max_steps * search_pairs(biguint_value(*start)) <= u64::MAX,
        forall|step: u64, digits: usize, d: u64| callback.requires((step, digits, d)),
    ensures
        is_trace_run(
            r,
            biguint_value(*start),
            x,
            trace_len_from(biguint_value(*start), x, 0, max_steps as nat),
        ),
{
    trace_run(start, x, max_steps, None, callback)
}

/// The trace from `start` that ends early where `cancel` is found raised
/// before a step: what comes back is then the trace of the steps taken.
pub fn trace_trajectory_cancellable<F: Fn(u64, usize, u64)>(
    start: &BigUint,
    x: u64,
    max_steps: u64,
    cancel: &AtomicBool,
    callback: F,
) -> (r: TrajectoryResult)
    requires
        valid_multiplier(x),
        pair_len(biguint_value(*start)) <= MAX_STEP_PAIRS,
        max_steps * search_pairs(biguint_value(*start)) <= u64::MAX,
        forall|step: u64, digits: usize, d: u64| callback.requires((step, digits, d)),
    ensures
        is_trace_run(r, biguint_value(*start), x, r.total_steps as nat),
        r.total_steps <= trace_len_from(biguint_value(*start), x, 0, max_steps as nat),
{
    trace_run(start, x, max_steps, Some(cancel), callback)
}

/// The trace, with or without a cancellation flag.
#[verifier::loop_isolation(false)]
fn trace_run<F: Fn(u64, usize, u64)>(
    start: &BigUint,
    x: u64,
    max_steps: u64,
    cancel: Option<&AtomicBool>,
    callback: F,
) -> (r: TrajectoryResult)
    requires
        valid_multiplier(x),
        pair_len(biguint_value(*start)) <= MAX_STEP_PAIRS,
        max_steps * search_pairs(biguint_value(*start)) <= u64::MAX,
        forall|step: u64, digits: usize, d: u64| callback.requires((step, digits, d)),
    ensures
        is_trace_run(r, biguint_value(*start), x, r.total_steps as nat),
        r.total_steps <= trace_len_from(biguint_value(*start), x, 0, max_steps as nat),
        cancel is None ==> r.total_steps == trace_len_from(
            biguint_value(*start),
            x,
            0,
            max_steps as nat,
        ),
{
    let ghost v = biguint_value(*start);
    let ghost goal = trace_len_from(v, x, 0, max_steps as nat);
    let ghost pairs = search_pairs(v);
    let ghost s = shift_of(x);
    proof {
        lemma_pair_len(v);
        lemma_power_shift(x, s);
        assert(0 * pairs == 0);
    }
    let mut pair = PairNumber::from_biguint(start);
    let mut steps: Vec<(BigUint, u64)> = Vec::new();
    let mut pair_steps: Vec<PairStep> = Vec::new();
    let mut gpk_per_step: Vec<GpkInfo> = Vec::new();
    let mut gpk_stats = GpkStats::new();
    let mut total_steps: u64 = 0;
    let mut max_value: BigUint = start.clone();
    let mut reached_one: bool = pair.is_one();
    pair_steps.push(
        PairStep {
            m4_words: slice_to_vec(pair.m4_words()),
            m6_words: slice_to_vec(pair.m6_words()),
            pair_count: pair.pair_count(),
            d: 0,
            exchanged: false,
            raw_m4_words: Vec::new(),
            raw_m6_words: Vec::new(),
            raw_pair_count: 0,
        },
    );
    proof {
        lemma_canonical_digits(pair@);
        assert(gpk_stats@ =~= no_stats());
    }
    while !reached_one && total_steps < max_steps
        invariant
            total_steps <= max_steps,
            pair@.wf(),
            pair@.value() == iterate(v, x, total_steps as nat),
            pair@.k <= MAX_STEP_PAIRS,
            pair@.k <= pairs,
            reached_one == (pair@.value() == 1),
            lists_hold(steps@, pair_steps@, gpk_per_step@, v, x, total_steps as nat),
            gpk_stats@ == trace_stats(v, x, total_steps as nat),
            biguint_value(max_value) == max_iterate(v, x, total_steps as nat),
            trace_len_from(pair@.value(), x, total_steps as nat, max_steps as nat) == goal,
            stats_room(gpk_stats@, (max_steps - total_steps) as nat, pairs),
        decreases max_steps - total_steps,
    {
        let ghost cur = pair@.value();
        proof {
            lemma_trace_len(cur, x, total_steps as nat, max_steps as nat);
        }
        let stop: bool = match cancel {
            Some(flag) => is_cancelled(flag),
            None => false,
        };
        if stop {
            break ;
        }
        let result = if x == 3 {
            collatz_step_3n1(&pair)
        } else if x == 5 {
            collatz_step_5n1(&pair)
        } else {
            collatz_step(&pair, x)
        };
        let StepResult { next, d, exchanged, gpk, raw_m4, raw_m6, raw_pair_count } = result;
        let ghost old_steps = steps@;
        let ghost old_pair_steps = pair_steps@;
        let ghost old_gpks = gpk_per_step@;
        proof {
            lemma_canonical_digits(pair@);
            lemma_canonical_digits(next@);
            lemma_next_pairs(cur, x);
            lemma_room_step(gpk_stats@, (max_steps - total_steps) as nat, pairs, cur, s);
        }
        total_steps = total_steps + 1;
        gpk_stats.accumulate(&gpk);
        gpk_per_step.push(gpk);
        let next_pairs: usize = next.pair_count();
        pair_steps.push(
            PairStep {
                m4_words: slice_to_vec(next.m4_words()),
                m6_words: slice_to_vec(next.m6_words()),
                pair_count: next_pairs,
                d,
                exchanged,
                raw_m4_words: raw_m4,
                raw_m6_words: raw_m6,
                raw_pair_count,
            },
        );
        let n_val: BigUint = next.to_biguint();
        if !biguint_le(&n_val, &max_value) {
            max_value = n_val.clone();
        }
        let digits: usize = next_pairs * 2;
        callback(total_steps, digits, d);
        steps.push((n_val, d));
        proof {
            let m: nat = total_steps as nat;
            assert(iterate(v, x, m) == step_next(iterate(v, x, (m - 1) as nat), x));
            assert forall|i: int| 0 <= i < m implies biguint_value((#[trigger] steps@[i]).0)
                == iterate(v, x, (i + 1) as nat) && steps@[i].1 == step_d(
                iterate(v, x, i as nat),
                x,
            ) by {
                if i < m - 1 {
                    assert(steps@[i] == old_steps[i]);
                }
            }
            assert forall|i: int| 0 <= i < m implies is_pair_step_of(
                #[trigger] pair_steps@[i + 1],
                iterate(v, x, i as nat),
                x,
            ) by {
                if i < m - 1 {
                    assert(pair_steps@[i + 1] == old_pair_steps[i + 1]);
                }
            }
            assert forall|i: int| 0 <= i < m implies (#[trigger] gpk_per_step@[i]).active_pairs
                == pair_len(iterate(v, x, i as nat)) && gpk_per_step@[i].describes(
                classes(iterate(v, x, i as nat), shift_of(x)),
            ) by {
                if i < m - 1 {
                    assert(gpk_per_step@[i] == old_gpks[i]);
                }
            }
            assert(pair_steps@[0] == old_pair_steps[0]);
        }
        if next.is_one() {
            reached_one = true;
        }
        if next_pairs > MAX_PAIR_COUNT {
            break ;
        }
        pair = next;
    }
    proof {
        lemma_trace_len(v, x, 0, max_steps as nat);
    }
    TrajectoryResult {
        start: start.clone(),
        steps,
        pair_steps,
        gpk_per_step,
        gpk_stats,
        total_steps,
        max_value,
        reached_one,
    }
}


/// Whether `n` has no more pairs than a step accepts.
pub fn within_step_limit(n: &BigUint) -> (r: bool)
    ensures
        r == (pair_len(biguint_value(*n)) <= MAX_STEP_PAIRS),
{
    let bytes: usize = n.to_bytes_le().len();
    let ghost v = biguint_value(*n);
    proof {
        lemma_pair_len(v);
        crate::bits::lemma_bit_length(v);
    }
    if bytes > 0x2000_0000 {
        proof {
            let low: nat = (8 * (bytes - 1)) as nat;
            crate::big::lemma_bytes_length(crate::big::biguint_bytes(*n));
            lemma_bit_length_bounds(v, low);
        }
        return false;
    }
    proof {
        let len8: nat = 8 * (bytes as nat);
        crate::bits::lemma_bits_value_bound(
            crate::big::bytes_bits(crate::big::biguint_bytes(*n)),
            len8,
        );
        lemma_bit_length_bounds(v, len8);
    }
    let bits: u64 = n.bits();
    bits <= 2 * (MAX_STEP_PAIRS as u64)
}

/// The larger of the number of pairs of `n` and `MAX_PAIR_COUNT`, for an
/// `n` within the step limit.
pub fn search_pairs_of(n: &BigUint) -> (r: u64)
    requires
        pair_len(biguint_value(*n)) <= MAX_STEP_PAIRS,
    ensures
        r == search_pairs(biguint_value(*n)),
        r <= MAX_STEP_PAIRS,
{
    proof {
        lemma_pair_len(biguint_value(*n));
    }
    let bits: u64 = n.bits();
    let pairs: u64 = if bits == 0 {
        1
    } else {
        (bits + 1) / 2
    };
    if pairs > MAX_PAIR_COUNT as u64 {
        pairs
    } else {
        MAX_PAIR_COUNT as u64
    }
}

/// Whether the counters of a trace from `start` hold `max_steps` steps.
pub fn trace_has_room(start: &BigUint, max_steps: u64) -> (r: bool)
    requires
        pair_len(biguint_value(*start)) <= MAX_STEP_PAIRS,
    ensures
        r == (max_steps * search_pairs(biguint_value(*start)) <= u64::MAX),
{
    let pairs: u64 = search_pairs_of(start);
    assert(max_steps * pairs <= u128::MAX) by (nonlinear_arith)
        requires
            max_steps <= u64::MAX,
            pairs <= u64::MAX,
    ;
    (max_steps as u128) * (pairs as u128) <= u64::MAX as u128
}

/// The stopping time of `n` where the multiplier is valid, `n` is within
/// the step limit and the totals, if any, have room; `None` where one of
/// these fails, and then nothing is changed.
pub fn try_stopping_time_with_gpk(
    n: &BigUint,
    x: u64,
    max_steps: u64,
    gpk_stats: Option<&mut GpkStats>,
    use_stopping_time: bool,
) -> (r: Option<Option<u64>>)
    ensures
        r is Some <==> (valid_multiplier(x) && pair_len(biguint_value(*n)) <= MAX_STEP_PAIRS && (
        gpk_stats matches Some(s) ==> stats_room(
            s@,
            max_steps as nat,
            search_pairs(biguint_value(*n)),
        ))),
        r matches Some(t) ==> time_is(
            t,
            stopping_time_of(biguint_value(*n), x, max_steps as nat, use_stopping_time),
        ),
        gpk_stats matches Some(s) ==> final(s)@ == if r is Some {
            stopping_stats_of(s@, biguint_value(*n), x, max_steps as nat, use_stopping_time)
        } else {
            s@
        },
{
    if !crate::reference::is_valid_multiplier(x) || !within_step_limit(n) {
        return None;
    }
    let pairs: u64 = search_pairs_of(n);
    match gpk_stats {
        Some(stats) => {
            if !stats.has_room(max_steps, pairs) {
                return None;
            }
            Some(stopping_time_with_gpk(n, x, max_steps, Some(stats), use_stopping_time))
        },
        None => Some(stopping_time_with_gpk(n, x, max_steps, None, use_stopping_time)),
    }
}

/// The trace from `start` where the multiplier is valid, `start` is within
/// the step limit and the counters hold `max_steps` steps; `None` where one
/// of these fails.
pub fn try_trace_trajectory_with_callback<F: Fn(u64, usize, u64)>(
    start: &BigUint,
    x: u64,
    max_steps: u64,
    callback: F,
) -> (r: Option<TrajectoryResult>)
    requires
        forall|step: u64, digits: usize, d: u64| callback.requires((step, digits, d)),
    ensures
        r is Some <==> (valid_multiplier(x) && pair_len(biguint_value(*start)) <= MAX_STEP_PAIRS
            && max_steps * search_pairs(biguint_value(*start)) <= u64::MAX),
        r matches Some(t) ==> is_trace_run(
            t,
            biguint_value(*start),
            x,
            trace_len_from(biguint_value(*start), x, 0, max_steps as nat),
        ),
{
    if !crate::reference::is_valid_multiplier(x) || !within_step_limit(start) {
        return None;
    }
    if !trace_has_room(start, max_steps) {
        return None;
    }
    Some(trace_trajectory_with_callback(start, x, max_steps, callback))
}

} // verus!

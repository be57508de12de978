//! The step, a word of 64 pairs at a time: the carries of a word are
//! resolved together by a parallel prefix, and one carry bit runs from word
//! to word.

use vstd::prelude::*;
use crate::bits::{
    word_bit, lemma_word_bitwise, lemma_word_consts, lemma_word_low_mask, lemma_word_shl,
    lemma_word_shr, lemma_word_bit_value,
};
use vstd::slice::slice_to_vec;
use vstd::arithmetic::power2::lemma2_to64;
use crate::bits::{nat_bit};
use crate::adder::{maj, xor3, scan_bit, scan_carry, lemma_scan_digits, lemma_scan_pair};
use crate::model::{
    MAX_STEP_PAIRS, class_of, classes, count_in, longest_chain, pair_class, shift_of, step_d,
    step_next, valid_multiplier, lemma_class_counts, lemma_classes_agree,
};
use crate::scan::{
    Gpk, StepResult, is_step_of, mask_class, mask_classes, sweep_chain, lemma_pair_len,
    lemma_raw_streams,
};
use crate::streams::{
    stream_bit, stream_ones, words_for, word_count_for, zero_words, mask_top,
    lemma_stream_ones_bound, lemma_stream_ones_tail, lemma_stream_ones_word,
};
use crate::pair_number::{PairNumber, pair_len, pairs_of, lemma_canonical_digits, lemma_canonical_unique};
use crate::postprocess::postprocess;
use crate::reference::{lemma_lowest_bit, lemma_power_shift, lemma_power_word, lemma_reference_bits};

verus! {

/// What a packed step hands back.
#[derive(Debug)]
pub struct PackedStepResult {
    /// The stream `m4` of the next odd number.
    pub new_m4: Vec<u64>,
    /// The stream `m6` of the next odd number.
    pub new_m6: Vec<u64>,
    /// Number of pairs of the next odd number.
    pub new_pair_count: usize,
    /// Number of halvings `d`.
    pub d: u64,
    /// Whether `d` is odd, so that the two streams changed roles.
    pub exchanged: bool,
    /// Number of Generates.
    pub g_count: u32,
    /// Number of Propagates.
    pub p_count: u32,
    /// Number of Kills.
    pub k_count: u32,
    /// The longest carry chain.
    pub max_carry_chain: u32,
    /// Position `i` is set where pair `i` is a Generate.
    pub g_masks: Vec<u64>,
    /// Position `i` is set where pair `i` is a Propagate.
    pub p_masks: Vec<u64>,
}

impl Clone for PackedStepResult {
    fn clone(&self) -> (r: Self)
        ensures
            r.new_m4@ == self.new_m4@,
            r.new_m6@ == self.new_m6@,
            r.new_pair_count == self.new_pair_count,
            r.d == self.d,
            r.exchanged == self.exchanged,
            r.g_count == self.g_count,
            r.p_count == self.p_count,
            r.k_count == self.k_count,
            r.max_carry_chain == self.max_carry_chain,
            r.g_masks@ == self.g_masks@,
            r.p_masks@ == self.p_masks@,
    {
        let new_m4 = self.new_m4.clone();
        let new_m6 = self.new_m6.clone();
        let g_masks = self.g_masks.clone();
        let p_masks = self.p_masks.clone();
        assert(new_m4@ =~= self.new_m4@);
        assert(new_m6@ =~= self.new_m6@);
        assert(g_masks@ =~= self.g_masks@);
        assert(p_masks@ =~= self.p_masks@);
        PackedStepResult {
            new_m4,
            new_m6,
            new_pair_count: self.new_pair_count,
            d: self.d,
            exchanged: self.exchanged,
            g_count: self.g_count,
            p_count: self.p_count,
            k_count: self.k_count,
            max_carry_chain: self.max_carry_chain,
            g_masks,
            p_masks,
        }
    }
}

/// The masks and counts are those of the classification `cls` of `k` pairs.
pub open spec fn masks_describe(r: PackedStepResult, cls: spec_fn(int) -> Gpk, k: nat) -> bool {
    &&& r.g_masks@.len() == words_for(k)
    &&& r.p_masks@.len() == words_for(k)
    &&& forall|i: int| #[trigger] stream_bit(r.g_masks@, i) == (0 <= i < k && cls(i) == Gpk::Generate)
    &&& forall|i: int| #[trigger] stream_bit(r.p_masks@, i) == (0 <= i < k && cls(i) == Gpk::Propagate)
    &&& r.g_count == count_in(cls, Gpk::Generate, k)
    &&& r.p_count == count_in(cls, Gpk::Propagate, k)
    &&& r.k_count == count_in(cls, Gpk::Kill, k)
    &&& r.max_carry_chain == longest_chain(cls, k)
}

/// `r` is the step from `v` with the multiplier `x`, with the
/// classification where `collect` asks for it and with empty masks and zero
/// counts where it does not.
pub open spec fn is_packed_step_of(r: PackedStepResult, v: nat, x: u64, collect: bool) -> bool {
    &&& pairs_of(r.new_m4@, r.new_m6@, r.new_pair_count as int).wf()
    &&& pairs_of(r.new_m4@, r.new_m6@, r.new_pair_count as int).value() == step_next(v, x)
    &&& r.d == step_d(v, x)
    &&& r.exchanged == (step_d(v, x) % 2 == 1)
    &&& collect ==> masks_describe(r, classes(v, shift_of(x)), pair_len(v))
    &&& !collect ==> r.g_masks@.len() == 0 && r.p_masks@.len() == 0 && r.g_count == 0 && r.p_count
        == 0 && r.k_count == 0 && r.max_carry_chain == 0
}

/// The packed step and the step pair by pair hand back the same number, the
/// same `d`, the same exchange flag, the same masks, the same counts and
/// the same longest carry chain.
pub proof fn lemma_packed_is_sequential(ps: PackedStepResult, ss: StepResult, v: nat, x: u64)
    requires
        is_packed_step_of(ps, v, x, true),
        is_step_of(ss, v, x),
    ensures
        pairs_of(ps.new_m4@, ps.new_m6@, ps.new_pair_count as int) == ss.next@,
        ps.d == ss.d,
        ps.exchanged == ss.exchanged,
        ps.g_count == ss.gpk.g_count,
        ps.p_count == ss.gpk.p_count,
        ps.k_count == ss.gpk.k_count,
        ps.max_carry_chain == ss.gpk.max_carry_chain,
        ps.g_masks@ == ss.gpk.g_masks@,
        ps.p_masks@ == ss.gpk.p_masks@,
{
    lemma_canonical_unique(pairs_of(ps.new_m4@, ps.new_m6@, ps.new_pair_count as int), ss.next@);
    crate::pair_number::lemma_streams_ext(ps.g_masks@, ss.gpk.g_masks@);
    crate::pair_number::lemma_streams_ext(ps.p_masks@, ss.gpk.p_masks@);
}

/// Whether a carry comes out of position `i` of a word when none goes in:
/// position `i` generates, or it propagates what comes out of `i - 1`.
pub open spec fn prefix_gen(g: u64, p: u64, i: int) -> bool
    decreases i + 1,
{
    if i < 0 {
        false
    } else {
        word_bit(g, i) || (word_bit(p, i) && prefix_gen(g, p, i - 1))
    }
}

/// Whether all positions of a word up to `i` propagate.
pub open spec fn prefix_prop(p: u64, i: int) -> bool
    decreases i + 1,
{
    if i < 0 {
        true
    } else {
        word_bit(p, i) && prefix_prop(p, i - 1)
    }
}

/// One round of the prefix: every position takes in the position `shift`
/// below it. The positions that have none take in the identity (0, 1).
fn combine_stride(g: u64, p: u64, shift: u64) -> (r: (u64, u64))
    requires
        shift < 64,
    ensures
        r.0 == g | (p & (g << shift)),
        r.1 == p & ((p << shift) | (((1u64 << shift) - 1) as u64)),
{
    proof {
        lemma_word_low_mask(shift);
    }
    let g_shifted: u64 = g << shift;
    let p_shifted: u64 = (p << shift) | ((1u64 << shift) - 1);
    (g | (p & g_shifted), p & p_shifted)
}

/// After the six rounds a word holds the carry recurrence: position `i`
/// generates, or propagates what position `i - 1` holds.
proof fn lemma_prefix_rounds(
    gen0: u64,
    prop0: u64,
    gen1: u64,
    prop1: u64,
    gen2: u64,
    prop2: u64,
    gen3: u64,
    prop3: u64,
    gen4: u64,
    prop4: u64,
    gen5: u64,
    prop5: u64,
    gen6: u64,
    prop6: u64,
)
    by (bit_vector)
    requires
        gen1 == gen0 | (prop0 & (gen0 << 1u64)),
        prop1 == prop0 & ((prop0 << 1u64) | (((1u64 << 1u64) - 1) as u64)),
        gen2 == gen1 | (prop1 & (gen1 << 2u64)),
        prop2 == prop1 & ((prop1 << 2u64) | (((1u64 << 2u64) - 1) as u64)),
        gen3 == gen2 | (prop2 & (gen2 << 4u64)),
        prop3 == prop2 & ((prop2 << 4u64) | (((1u64 << 4u64) - 1) as u64)),
        gen4 == gen3 | (prop3 & (gen3 << 8u64)),
        prop4 == prop3 & ((prop3 << 8u64) | (((1u64 << 8u64) - 1) as u64)),
        gen5 == gen4 | (prop4 & (gen4 << 16u64)),
        prop5 == prop4 & ((prop4 << 16u64) | (((1u64 << 16u64) - 1) as u64)),
        gen6 == gen5 | (prop5 & (gen5 << 32u64)),
        prop6 == prop5 & ((prop5 << 32u64) | (((1u64 << 32u64) - 1) as u64)),
    ensures
        gen6 == gen0 | (prop0 & (gen6 << 1u64)),
        prop6 == prop0 & ((prop6 << 1u64) | 1u64),
{
}

/// A word that satisfies the carry recurrence holds the prefix.
proof fn lemma_prefix_bits(g: u64, p: u64, gp: u64, pp: u64, i: int)
    requires
        gp == g | (p & (gp << 1u64)),
        pp == p & ((pp << 1u64) | 1u64),
        0 <= i < 64,
    ensures
        word_bit(gp, i) == prefix_gen(g, p, i),
        word_bit(pp, i) == prefix_prop(p, i),
    decreases i,
{
    lemma_word_shl(gp, 1);
    lemma_word_shl(pp, 1);
    lemma_word_bitwise(p, gp << 1u64);
    lemma_word_bitwise(g, p & (gp << 1u64));
    lemma_word_bitwise(pp << 1u64, 1);
    lemma_word_bitwise(p, (pp << 1u64) | 1u64);
    lemma_word_consts();
    if i > 0 {
        lemma_prefix_bits(g, p, gp, pp, i - 1);
    } else {
        assert(!prefix_gen(g, p, -1));
        assert(prefix_prop(p, -1));
    }
    assert(word_bit(gp, i) == (word_bit(g, i) || (word_bit(p, i) && word_bit(gp << 1u64, i))));
    assert(word_bit(pp, i) == (word_bit(p, i) && (word_bit(pp << 1u64, i) || word_bit(1, i))));
}

/// The parallel prefix of a word of generate and propagate bits: position
/// `i` of the result combines the positions `0..=i`, in six rounds with the
/// strides 1, 2, 4, 8, 16 and 32.
pub fn kogge_stone_prefix(g: u64, p: u64) -> (r: (u64, u64))
    ensures
        forall|i: int| 0 <= i < 64 ==> #[trigger] word_bit(r.0, i) == prefix_gen(g, p, i),
        forall|i: int| 0 <= i < 64 ==> #[trigger] word_bit(r.1, i) == prefix_prop(p, i),
{
    let (gen1, prop1) = combine_stride(g, p, 1);
    let (gen2, prop2) = combine_stride(gen1, prop1, 2);
    let (gen3, prop3) = combine_stride(gen2, prop2, 4);
    let (gen4, prop4) = combine_stride(gen3, prop3, 8);
    let (gen5, prop5) = combine_stride(gen4, prop4, 16);
    let (gen6, prop6) = combine_stride(gen5, prop5, 32);
    proof {
        lemma_prefix_rounds(g, p, gen1, prop1, gen2, prop2, gen3, prop3, gen4, prop4, gen5, prop5, gen6, prop6);
        assert forall|i: int| 0 <= i < 64 implies #[trigger] word_bit(gen6, i) == prefix_gen(g, p, i) by {
            lemma_prefix_bits(g, p, gen6, prop6, i);
        }
        assert forall|i: int| 0 <= i < 64 implies #[trigger] word_bit(prop6, i) == prefix_prop(p, i) by {
            lemma_prefix_bits(g, p, gen6, prop6, i);
        }
    }
    (gen6, prop6)
}

/// Position `i` of a stream of `k` positions; 0 outside `0..k`.
pub open spec fn limited_bit(words: Seq<u64>, k: nat, i: int) -> bool {
    i < k && stream_bit(words, i)
}

/// The 64 positions of a stream from the signed position `start` on, with
/// zeros for the positions below 0 and from `pair_count` on.
pub fn extract_window(words: &[u64], pair_count: usize, start: isize) -> (r: u64)
    ensures
        forall|b: int|
            0 <= b < 64 ==> #[trigger] word_bit(r, b) == limited_bit(
                words@,
                pair_count as nat,
                start + b,
            ),
{
    proof {
        lemma_word_consts();
    }
    if start >= 0 && start as usize >= pair_count {
        return 0;
    }
    if start < 0 {
        if start <= -64 {
            return 0;
        }
        let abs_start: u64 = (-start) as u64;
        let w0: u64 = if words.len() == 0 {
            0
        } else {
            words[0]
        };
        let mut val: u64 = w0 << abs_start;
        proof {
            lemma_word_shl(w0, abs_start);
            assert forall|b: int| 0 <= b < 64 implies #[trigger] word_bit(val, b) == stream_bit(
                words@,
                start + b,
            ) by {
                if b >= abs_start {
                    assert((start + b) / 64 == 0 && (start + b) % 64 == b - abs_start);
                }
            }
        }
        if pair_count < 64 {
            let remaining: u64 = pair_count as u64 + abs_start;
            if remaining < 64 {
                proof {
                    lemma_word_low_mask(remaining);
                    lemma_word_bitwise(val, ((1u64 << remaining) - 1) as u64);
                }
                val = val & ((1u64 << remaining) - 1);
            }
        }
        return val;
    }
    let start_u: usize = start as usize;
    let word_idx: usize = start_u / 64;
    let bit_off: u64 = (start_u % 64) as u64;
    let remaining: usize = pair_count - start_u;
    if bit_off == 0 {
        if word_idx < words.len() {
            let mut val: u64 = words[word_idx];
            proof {
                assert forall|b: int| 0 <= b < 64 implies #[trigger] word_bit(val, b) == stream_bit(
                    words@,
                    start + b,
                ) by {
                    assert((start + b) / 64 == word_idx && (start + b) % 64 == b);
                }
            }
            if remaining < 64 {
                proof {
                    lemma_word_low_mask(remaining as u64);
                    lemma_word_bitwise(val, ((1u64 << (remaining as u64)) - 1) as u64);
                }
                val = val & ((1u64 << (remaining as u64)) - 1);
            }
            val
        } else {
            proof {
                assert forall|b: int| 0 <= b < 64 implies #[trigger] word_bit(0u64, b)
                    == stream_bit(words@, start + b) by {
                    assert((start + b) / 64 == word_idx);
                }
            }
            0
        }
    } else {
        let lo: u64 = if word_idx < words.len() {
            words[word_idx]
        } else {
            0
        };
        let hi: u64 = if word_idx + 1 < words.len() {
            words[word_idx + 1]
        } else {
            0
        };
        let mut val: u64 = (lo >> bit_off) | (hi << (64 - bit_off));
        proof {
            lemma_word_shr(lo, bit_off);
            lemma_word_shl(hi, (64 - bit_off) as u64);
            lemma_word_bitwise(lo >> bit_off, hi << ((64 - bit_off) as u64));
            assert forall|b: int| 0 <= b < 64 implies #[trigger] word_bit(val, b) == stream_bit(
                words@,
                start + b,
            ) by {
                if b + bit_off < 64 {
                    assert((start + b) / 64 == word_idx && (start + b) % 64 == b + bit_off);
                } else {
                    assert((start + b) / 64 == word_idx + 1 && (start + b) % 64 == b + bit_off
                        - 64);
                }
            }
        }
        if remaining < 64 {
            proof {
                lemma_word_low_mask(remaining as u64);
                lemma_word_bitwise(val, ((1u64 << (remaining as u64)) - 1) as u64);
            }
            val = val & ((1u64 << (remaining as u64)) - 1);
        }
        val
    }
}

/// The carry of three bits, word-wise: set where at least two are set.
fn majority(a: u64, b: u64, c: u64) -> (r: u64)
    ensures
        forall|i: int| #[trigger] word_bit(r, i) == maj(word_bit(a, i), word_bit(b, i), word_bit(c, i)),
{
    proof {
        lemma_word_bitwise(a, b);
        lemma_word_bitwise(b, c);
        lemma_word_bitwise(a, c);
        lemma_word_bitwise(a & b, b & c);
        lemma_word_bitwise((a & b) | (b & c), a & c);
    }
    (a & b) | (b & c) | (a & c)
}

/// The carry into pair `b` of a word whose pairs add the bits of `p_r` and
/// `q_r` in their low stage and the bits of `p_l` and `q_l` in their high
/// stage, with the carry `cin` into pair 0.
pub open spec fn word_carry(p_r: u64, q_r: u64, p_l: u64, q_l: u64, cin: bool, b: int) -> bool
    decreases b,
{
    if b <= 0 {
        cin
    } else {
        maj(
            word_bit(p_l, b - 1),
            word_bit(q_l, b - 1),
            maj(
                word_bit(p_r, b - 1),
                word_bit(q_r, b - 1),
                word_carry(p_r, q_r, p_l, q_l, cin, b - 1),
            ),
        )
    }
}

/// The classification of pair `b` of such a word.
pub open spec fn word_class(p_r: u64, q_r: u64, p_l: u64, q_l: u64, b: int) -> Gpk {
    class_of(word_bit(p_r, b), word_bit(q_r, b), word_bit(p_l, b), word_bit(q_l, b))
}

/// The prefix of the pair classification, with the carry into the word,
/// is the ripple carry of the two stages.
proof fn lemma_prefix_is_carry(
    p_r: u64,
    q_r: u64,
    p_l: u64,
    q_l: u64,
    g: u64,
    p: u64,
    cin: bool,
    b: int,
)
    requires
        -1 <= b < 64,
        forall|i: int|
            0 <= i < 64 ==> #[trigger] word_bit(g, i) == (word_class(p_r, q_r, p_l, q_l, i)
                == Gpk::Generate),
        forall|i: int|
            0 <= i < 64 ==> #[trigger] word_bit(p, i) == (word_class(p_r, q_r, p_l, q_l, i)
                == Gpk::Propagate),
    ensures
        (prefix_gen(g, p, b) || (prefix_prop(p, b) && cin)) == word_carry(
            p_r,
            q_r,
            p_l,
            q_l,
            cin,
            b + 1,
        ),
    decreases b + 1,
{
    if b >= 0 {
        lemma_prefix_is_carry(p_r, q_r, p_l, q_l, g, p, cin, b - 1);
        assert(word_bit(g, b) == (word_class(p_r, q_r, p_l, q_l, b) == Gpk::Generate));
        assert(word_bit(p, b) == (word_class(p_r, q_r, p_l, q_l, b) == Gpk::Propagate));
    }
}

/// One word of the scan: the sum bits of its 64 pairs, the carry out of the
/// word, and the generate and propagate masks of the pairs.
///
/// The result is `(new_m4, new_m6, carry_out, g_pair, p_pair)`.
pub fn packed_scan_word(p_r: u64, q_r: u64, p_l: u64, q_l: u64, carry_in: u64) -> (r: (
    u64,
    u64,
    u64,
    u64,
    u64,
))
    requires
        carry_in <= 1,
    ensures
        forall|b: int|
            0 <= b < 64 ==> #[trigger] word_bit(r.1, b) == xor3(
                word_bit(p_r, b),
                word_bit(q_r, b),
                word_carry(p_r, q_r, p_l, q_l, carry_in == 1, b),
            ),
        forall|b: int|
            0 <= b < 64 ==> #[trigger] word_bit(r.0, b) == xor3(
                word_bit(p_l, b),
                word_bit(q_l, b),
                maj(
                    word_bit(p_r, b),
                    word_bit(q_r, b),
                    word_carry(p_r, q_r, p_l, q_l, carry_in == 1, b),
                ),
            ),
        r.2 <= 1,
        (r.2 == 1) == word_carry(p_r, q_r, p_l, q_l, carry_in == 1, 64),
        forall|b: int|
            0 <= b < 64 ==> #[trigger] word_bit(r.3, b) == (word_class(p_r, q_r, p_l, q_l, b)
                == Gpk::Generate),
        forall|b: int|
            0 <= b < 64 ==> #[trigger] word_bit(r.4, b) == (word_class(p_r, q_r, p_l, q_l, b)
                == Gpk::Propagate),
{
    let ghost cin: bool = carry_in == 1;
    let g_mid: u64 = p_r & q_r;
    let p_mid: u64 = p_r ^ q_r;
    let g_out: u64 = p_l & q_l;
    let p_out: u64 = p_l ^ q_l;
    let g_pair: u64 = g_out | (p_out & g_mid);
    let p_pair: u64 = p_out & p_mid;
    proof {
        lemma_word_bitwise(p_r, q_r);
        lemma_word_bitwise(p_l, q_l);
        lemma_word_bitwise(p_out, g_mid);
        lemma_word_bitwise(g_out, p_out & g_mid);
        lemma_word_bitwise(p_out, p_mid);
        assert forall|b: int| 0 <= b < 64 implies #[trigger] word_bit(g_pair, b) == (word_class(
            p_r,
            q_r,
            p_l,
            q_l,
            b,
        ) == Gpk::Generate) by {
            assert(word_bit(g_pair, b) == (word_bit(g_out, b) || word_bit(p_out & g_mid, b)));
        }
        assert forall|b: int| 0 <= b < 64 implies #[trigger] word_bit(p_pair, b) == (word_class(
            p_r,
            q_r,
            p_l,
            q_l,
            b,
        ) == Gpk::Propagate) by {
            assert(word_bit(p_pair, b) == (word_bit(p_out, b) && word_bit(p_mid, b)));
        }
    }
    let (g_pfx, p_pfx) = kogge_stone_prefix(g_pair, p_pair);
    let carry_in_broadcast: u64 = if carry_in != 0 {
        u64::MAX
    } else {
        0
    };
    let carry_after: u64 = g_pfx | (p_pfx & carry_in_broadcast);
    let c_in_per_pair: u64 = (carry_after << 1) | carry_in;
    proof {
        lemma_word_consts();
        lemma_word_bitwise(p_pfx, carry_in_broadcast);
        lemma_word_bitwise(g_pfx, p_pfx & carry_in_broadcast);
        lemma_word_shl(carry_after, 1);
        lemma_word_bitwise(carry_after << 1, carry_in);
        assert forall|b: int| 0 <= b < 64 implies #[trigger] word_bit(carry_after, b) == word_carry(
            p_r,
            q_r,
            p_l,
            q_l,
            cin,
            b + 1,
        ) by {
            lemma_prefix_is_carry(p_r, q_r, p_l, q_l, g_pair, p_pair, cin, b);
            assert(word_bit(carry_after, b) == (word_bit(g_pfx, b) || word_bit(
                p_pfx & carry_in_broadcast,
                b,
            )));
            assert(word_bit(carry_in_broadcast, b) == cin);
        }
        assert forall|b: int| 0 <= b < 64 implies #[trigger] word_bit(c_in_per_pair, b)
            == word_carry(p_r, q_r, p_l, q_l, cin, b) by {
            assert(word_bit(c_in_per_pair, b) == (word_bit(carry_after << 1, b) || word_bit(
                carry_in,
                b,
            )));
            assert(word_bit(carry_in, b) == (b == 0 && cin));
            if b > 0 {
                assert(word_bit(carry_after, b - 1) == word_carry(p_r, q_r, p_l, q_l, cin, b));
            }
        }
    }
    let new_m6: u64 = p_mid ^ c_in_per_pair;
    let c_mid: u64 = majority(p_r, q_r, c_in_per_pair);
    let new_m4: u64 = p_out ^ c_mid;
    let carry_out: u64 = (carry_after >> 63) & 1;
    proof {
        lemma_word_bitwise(p_mid, c_in_per_pair);
        lemma_word_bitwise(p_out, c_mid);
        lemma_word_bit_value(carry_after, 63);
        assert(word_bit(carry_after, 63) == word_carry(p_r, q_r, p_l, q_l, cin, 64));
        assert forall|b: int| 0 <= b < 64 implies #[trigger] word_bit(new_m6, b) == xor3(
            word_bit(p_r, b),
            word_bit(q_r, b),
            word_carry(p_r, q_r, p_l, q_l, cin, b),
        ) by {
            assert(word_bit(new_m6, b) == (word_bit(p_mid, b) != word_bit(c_in_per_pair, b)));
        }
        assert forall|b: int| 0 <= b < 64 implies #[trigger] word_bit(new_m4, b) == xor3(
            word_bit(p_l, b),
            word_bit(q_l, b),
            maj(word_bit(p_r, b), word_bit(q_r, b), word_carry(p_r, q_r, p_l, q_l, cin, b)),
        ) by {
            assert(word_bit(new_m4, b) == (word_bit(p_out, b) != word_bit(c_mid, b)));
            assert(word_bit(c_mid, b) == maj(
                word_bit(p_r, b),
                word_bit(q_r, b),
                word_bit(c_in_per_pair, b),
            ));
        }
    }
    (new_m4, new_m6, carry_out, g_pair, p_pair)
}

/// The state of a packed scan that has written the words below `w`: the
/// sum bits of their pairs, the carry into word `w`, and the masks of the
/// words below `w` that the masks have room for.
pub open spec fn packed_state(
    v: nat,
    s: nat,
    m4: Seq<u64>,
    m6: Seq<u64>,
    g: Seq<u64>,
    p: Seq<u64>,
    carry: u64,
    w: int,
) -> bool {
    let seen: int = if w < g.len() {
        w
    } else {
        g.len() as int
    };
    &&& carry <= 1
    &&& (carry == 1) == scan_carry(v, s, (128 * w) as nat)
    &&& forall|j: int| #[trigger] stream_bit(m6, j) == (0 <= j < 64 * w && scan_bit(v, s, 2 * j))
    &&& forall|j: int| #[trigger] stream_bit(m4, j) == (0 <= j < 64 * w && scan_bit(v, s, 2 * j + 1))
    &&& g.len() == p.len()
    &&& forall|j: int| #[trigger]
        stream_bit(g, j) == (0 <= j < 64 * seen && pair_class(v, s, j) == Gpk::Generate)
    &&& forall|j: int| #[trigger]
        stream_bit(p, j) == (0 <= j < 64 * seen && pair_class(v, s, j) == Gpk::Propagate)
}

/// The four input words of word `w` hold the bits of `v` that its pairs
/// add.
pub open spec fn word_inputs(v: nat, s: nat, w: int, p_r: u64, q_r: u64, p_l: u64, q_l: u64) -> bool {
    &&& forall|b: int| 0 <= b < 64 ==> #[trigger] word_bit(p_r, b) == nat_bit(v, 2 * (64 * w + b) - s)
    &&& forall|b: int| 0 <= b < 64 ==> #[trigger] word_bit(q_r, b) == nat_bit(v, 2 * (64 * w + b))
    &&& forall|b: int|
        0 <= b < 64 ==> #[trigger] word_bit(p_l, b) == nat_bit(v, 2 * (64 * w + b) + 1 - s)
    &&& forall|b: int| 0 <= b < 64 ==> #[trigger] word_bit(q_l, b) == nat_bit(v, 2 * (64 * w + b) + 1)
}

/// Within word `w` the carry of the word is the carry of the addition.
proof fn lemma_word_carry(v: nat, s: nat, w: int, p_r: u64, q_r: u64, p_l: u64, q_l: u64, b: int)
    requires
        w >= 0,
        0 <= b <= 64,
        word_inputs(v, s, w, p_r, q_r, p_l, q_l),
    ensures
        word_carry(p_r, q_r, p_l, q_l, scan_carry(v, s, (128 * w) as nat), b) == scan_carry(
            v,
            s,
            (2 * (64 * w + b)) as nat,
        ),
    decreases b,
{
    if b > 0 {
        lemma_word_carry(v, s, w, p_r, q_r, p_l, q_l, b - 1);
        lemma_scan_pair(v, s, 64 * w + b - 1);
        assert(word_bit(p_r, b - 1) == nat_bit(v, 2 * (64 * w + (b - 1)) - s));
        assert(word_bit(q_r, b - 1) == nat_bit(v, 2 * (64 * w + (b - 1))));
        assert(word_bit(p_l, b - 1) == nat_bit(v, 2 * (64 * w + (b - 1)) + 1 - s));
        assert(word_bit(q_l, b - 1) == nat_bit(v, 2 * (64 * w + (b - 1)) + 1));
    }
}

/// A packed scan that has written the words below `w` writes word `w`.
proof fn lemma_packed_advance(
    v: nat,
    s: nat,
    w: int,
    p_r: u64,
    q_r: u64,
    p_l: u64,
    q_l: u64,
    carry_in: u64,
    out: (u64, u64, u64, u64, u64),
    m4_0: Seq<u64>,
    m6_0: Seq<u64>,
    g_0: Seq<u64>,
    p_0: Seq<u64>,
    m4_1: Seq<u64>,
    m6_1: Seq<u64>,
    g_1: Seq<u64>,
    p_1: Seq<u64>,
)
    requires
        0 <= w < m4_0.len(),
        m4_0.len() == m6_0.len(),
        packed_state(v, s, m4_0, m6_0, g_0, p_0, carry_in, w),
        word_inputs(v, s, w, p_r, q_r, p_l, q_l),
        forall|b: int|
            0 <= b < 64 ==> #[trigger] word_bit(out.1, b) == xor3(
                word_bit(p_r, b),
                word_bit(q_r, b),
                word_carry(p_r, q_r, p_l, q_l, carry_in == 1, b),
            ),
        forall|b: int|
            0 <= b < 64 ==> #[trigger] word_bit(out.0, b) == xor3(
                word_bit(p_l, b),
                word_bit(q_l, b),
                maj(
                    word_bit(p_r, b),
                    word_bit(q_r, b),
                    word_carry(p_r, q_r, p_l, q_l, carry_in == 1, b),
                ),
            ),
        out.2 <= 1,
        (out.2 == 1) == word_carry(p_r, q_r, p_l, q_l, carry_in == 1, 64),
        forall|b: int|
            0 <= b < 64 ==> #[trigger] word_bit(out.3, b) == (word_class(p_r, q_r, p_l, q_l, b)
                == Gpk::Generate),
        forall|b: int|
            0 <= b < 64 ==> #[trigger] word_bit(out.4, b) == (word_class(p_r, q_r, p_l, q_l, b)
                == Gpk::Propagate),
        m4_1 == m4_0.update(w, out.0),
        m6_1 == m6_0.update(w, out.1),
        w < g_0.len() ==> g_1 == g_0.update(w, out.3) && p_1 == p_0.update(w, out.4),
        w >= g_0.len() ==> g_1 == g_0 && p_1 == p_0,
    ensures
        packed_state(v, s, m4_1, m6_1, g_1, p_1, out.2, w + 1),
{
    let cin: bool = scan_carry(v, s, (128 * w) as nat);
    lemma_word_carry(v, s, w, p_r, q_r, p_l, q_l, 64);
    assert forall|j: int| #[trigger]
        stream_bit(m6_1, j) == (0 <= j < 64 * (w + 1) && scan_bit(v, s, 2 * j)) by {
        assert(stream_bit(m6_0, j) == (0 <= j < 64 * w && scan_bit(v, s, 2 * j)));
        if 0 <= j && j / 64 == w {
            let b: int = j % 64;
            assert(j == 64 * w + b);
            lemma_word_carry(v, s, w, p_r, q_r, p_l, q_l, b);
            lemma_scan_pair(v, s, j);
            assert(word_bit(p_r, b) == nat_bit(v, 2 * (64 * w + b) - s));
            assert(word_bit(q_r, b) == nat_bit(v, 2 * (64 * w + b)));
            assert(m6_1[j / 64] == out.1);
            assert(word_bit(out.1, b) == scan_bit(v, s, 2 * j));
        } else if 0 <= j && j / 64 < m6_0.len() {
            assert(m6_1[j / 64] == m6_0[j / 64]);
        }
    }
    assert forall|j: int| #[trigger]
        stream_bit(m4_1, j) == (0 <= j < 64 * (w + 1) && scan_bit(v, s, 2 * j + 1)) by {
        assert(stream_bit(m4_0, j) == (0 <= j < 64 * w && scan_bit(v, s, 2 * j + 1)));
        if 0 <= j && j / 64 == w {
            let b: int = j % 64;
            assert(j == 64 * w + b);
            lemma_word_carry(v, s, w, p_r, q_r, p_l, q_l, b);
            lemma_scan_pair(v, s, j);
            assert(word_bit(p_r, b) == nat_bit(v, 2 * (64 * w + b) - s));
            assert(word_bit(q_r, b) == nat_bit(v, 2 * (64 * w + b)));
            assert(word_bit(p_l, b) == nat_bit(v, 2 * (64 * w + b) + 1 - s));
            assert(word_bit(q_l, b) == nat_bit(v, 2 * (64 * w + b) + 1));
            assert(m4_1[j / 64] == out.0);
            assert(word_bit(out.0, b) == scan_bit(v, s, 2 * j + 1));
        } else if 0 <= j && j / 64 < m4_0.len() {
            assert(m4_1[j / 64] == m4_0[j / 64]);
        }
    }
    let seen0: int = if w < g_0.len() { w } else { g_0.len() as int };
    let seen1: int = if w + 1 < g_1.len() { w + 1 } else { g_1.len() as int };
    assert forall|j: int| #[trigger]
        stream_bit(g_1, j) == (0 <= j < 64 * seen1 && pair_class(v, s, j) == Gpk::Generate) by {
        assert(stream_bit(g_0, j) == (0 <= j < 64 * seen0 && pair_class(v, s, j) == Gpk::Generate));
        if w < g_0.len() {
            if 0 <= j && j / 64 == w {
                let b: int = j % 64;
                assert(j == 64 * w + b);
                assert(word_bit(p_r, b) == nat_bit(v, 2 * (64 * w + b) - s));
                assert(word_bit(q_r, b) == nat_bit(v, 2 * (64 * w + b)));
                assert(word_bit(p_l, b) == nat_bit(v, 2 * (64 * w + b) + 1 - s));
                assert(word_bit(q_l, b) == nat_bit(v, 2 * (64 * w + b) + 1));
                assert(g_1[j / 64] == out.3);
                assert(word_bit(out.3, b) == (word_class(p_r, q_r, p_l, q_l, b) == Gpk::Generate));
            } else if 0 <= j && j / 64 < g_0.len() {
                assert(g_1[j / 64] == g_0[j / 64]);
            }
        }
    }
    assert forall|j: int| #[trigger]
        stream_bit(p_1, j) == (0 <= j < 64 * seen1 && pair_class(v, s, j) == Gpk::Propagate) by {
        assert(stream_bit(p_0, j) == (0 <= j < 64 * seen0 && pair_class(v, s, j) == Gpk::Propagate));
        if w < p_0.len() {
            if 0 <= j && j / 64 == w {
                let b: int = j % 64;
                assert(j == 64 * w + b);
                assert(word_bit(p_r, b) == nat_bit(v, 2 * (64 * w + b) - s));
                assert(word_bit(q_r, b) == nat_bit(v, 2 * (64 * w + b)));
                assert(word_bit(p_l, b) == nat_bit(v, 2 * (64 * w + b) + 1 - s));
                assert(word_bit(q_l, b) == nat_bit(v, 2 * (64 * w + b) + 1));
                assert(p_1[j / 64] == out.4);
                assert(word_bit(out.4, b) == (word_class(p_r, q_r, p_l, q_l, b) == Gpk::Propagate));
            } else if 0 <= j && j / 64 < p_0.len() {
                assert(p_1[j / 64] == p_0[j / 64]);
            }
        }
    }
}

/// The windows of a canonical form at word `w` are the input words of the
/// addition, for an even and for an odd exponent.
proof fn lemma_windows(
    n: crate::pair_number::Pairs,
    s: nat,
    w: int,
    a_cur: u64,
    b_cur: u64,
    p_r: u64,
    p_l: u64,
)
    requires
        n.wf(),
        w >= 0,
        forall|b: int| 0 <= b < 64 ==> #[trigger] word_bit(a_cur, b) == limited_bit(n.m4, n.k, 64 * w + b),
        forall|b: int| 0 <= b < 64 ==> #[trigger] word_bit(b_cur, b) == limited_bit(n.m6, n.k, 64 * w + b),
        s % 2 == 0 ==> forall|b: int|
            0 <= b < 64 ==> #[trigger] word_bit(p_r, b) == limited_bit(
                n.m6,
                n.k,
                64 * w - s / 2 + b,
            ),
        s % 2 == 0 ==> forall|b: int|
            0 <= b < 64 ==> #[trigger] word_bit(p_l, b) == limited_bit(
                n.m4,
                n.k,
                64 * w - s / 2 + b,
            ),
        s % 2 == 1 ==> forall|b: int|
            0 <= b < 64 ==> #[trigger] word_bit(p_r, b) == limited_bit(
                n.m4,
                n.k,
                64 * w - s / 2 - 1 + b,
            ),
        s % 2 == 1 ==> forall|b: int|
            0 <= b < 64 ==> #[trigger] word_bit(p_l, b) == limited_bit(
                n.m6,
                n.k,
                64 * w - s / 2 + b,
            ),
    ensures
        word_inputs(n.value(), s, w, p_r, b_cur, p_l, a_cur),
{
    let v = n.value();
    assert forall|b: int| 0 <= b < 64 implies #[trigger] word_bit(p_r, b) == nat_bit(
        v,
        2 * (64 * w + b) - s,
    ) by {
        lemma_reference_bits(n, s, 64 * w + b);
    }
    assert forall|b: int| 0 <= b < 64 implies #[trigger] word_bit(b_cur, b) == nat_bit(
        v,
        2 * (64 * w + b),
    ) by {
        lemma_reference_bits(n, s, 64 * w + b);
    }
    assert forall|b: int| 0 <= b < 64 implies #[trigger] word_bit(p_l, b) == nat_bit(
        v,
        2 * (64 * w + b) + 1 - s,
    ) by {
        lemma_reference_bits(n, s, 64 * w + b);
    }
    assert forall|b: int| 0 <= b < 64 implies #[trigger] word_bit(a_cur, b) == nat_bit(
        v,
        2 * (64 * w + b) + 1,
    ) by {
        lemma_reference_bits(n, s, 64 * w + b);
    }
}

/// The counts of two masks that share no position.
pub open spec fn masks_clean(g: Seq<u64>, p: Seq<u64>, k: nat) -> bool {
    &&& g.len() == words_for(k)
    &&& p.len() == words_for(k)
    &&& forall|i: int| i >= k ==> !#[trigger] stream_bit(g, i)
    &&& forall|i: int| i >= k ==> !#[trigger] stream_bit(p, i)
    &&& forall|i: int| !(#[trigger] stream_bit(g, i) && stream_bit(p, i))
}

/// The set positions of clean masks are the Generates and the Propagates.
proof fn lemma_mask_counts(g: Seq<u64>, p: Seq<u64>, n: nat)
    requires
        forall|i: int| !(#[trigger] stream_bit(g, i) && stream_bit(p, i)),
    ensures
        count_in(mask_classes(g, p), Gpk::Generate, n) == stream_ones(g, n),
        count_in(mask_classes(g, p), Gpk::Propagate, n) == stream_ones(p, n),
    decreases n,
{
    if n > 0 {
        lemma_mask_counts(g, p, (n - 1) as nat);
        assert(!(stream_bit(g, n - 1) && stream_bit(p, n - 1)));
        assert(mask_classes(g, p)(n - 1) == mask_class(g, p, n - 1));
    }
}

/// Counts the Generates, Propagates and Kills of two masks by the ones of
/// their words.
fn compute_gpk_counts(g_masks: &[u64], p_masks: &[u64], pair_count: usize) -> (r: (u32, u32, u32))
    requires
        masks_clean(g_masks@, p_masks@, pair_count as nat),
        pair_count <= u32::MAX,
    ensures
        r.0 == count_in(mask_classes(g_masks@, p_masks@), Gpk::Generate, pair_count as nat),
        r.1 == count_in(mask_classes(g_masks@, p_masks@), Gpk::Propagate, pair_count as nat),
        r.2 == count_in(mask_classes(g_masks@, p_masks@), Gpk::Kill, pair_count as nat),
{
    let mut g_count: u32 = 0;
    let mut p_count: u32 = 0;
    let mut w: usize = 0;
    let ghost cls = mask_classes(g_masks@, p_masks@);
    while w < g_masks.len()
        invariant
            w <= g_masks@.len(),
            masks_clean(g_masks@, p_masks@, pair_count as nat),
            pair_count <= u32::MAX,
            g_count == stream_ones(g_masks@, 64 * (w as nat)),
            p_count == stream_ones(p_masks@, 64 * (w as nat)),
        decreases g_masks@.len() - w,
    {
        proof {
            lemma_stream_ones_word(g_masks@, w as nat, 64);
            lemma_stream_ones_word(p_masks@, w as nat, 64);
            let upto: nat = 64 * (w as nat) + 64;
            lemma_stream_ones_bound(g_masks@, pair_count as nat);
            lemma_stream_ones_bound(p_masks@, pair_count as nat);
            if upto >= pair_count {
                lemma_stream_ones_tail(g_masks@, pair_count as nat, upto);
                lemma_stream_ones_tail(p_masks@, pair_count as nat, upto);
            } else {
                lemma_stream_ones_bound(g_masks@, upto);
                lemma_stream_ones_bound(p_masks@, upto);
            }
        }
        g_count = g_count + g_masks[w].count_ones();
        p_count = p_count + p_masks[w].count_ones();
        w = w + 1;
    }
    proof {
        let all: nat = 64 * (g_masks@.len() as nat);
        lemma_stream_ones_tail(g_masks@, pair_count as nat, all);
        lemma_stream_ones_tail(p_masks@, pair_count as nat, all);
        lemma_mask_counts(g_masks@, p_masks@, pair_count as nat);
        lemma_class_counts(cls, pair_count as nat);
    }
    let k_count: u32 = pair_count as u32 - g_count - p_count;
    (g_count, p_count, k_count)
}

/// The counts and the longest carry chain of two masks.
fn compute_gpk_stats(g_masks: &[u64], p_masks: &[u64], pair_count: usize) -> (r: (u32, u32, u32, u32))
    requires
        masks_clean(g_masks@, p_masks@, pair_count as nat),
        pair_count <= u32::MAX,
    ensures
        r.0 == count_in(mask_classes(g_masks@, p_masks@), Gpk::Generate, pair_count as nat),
        r.1 == count_in(mask_classes(g_masks@, p_masks@), Gpk::Propagate, pair_count as nat),
        r.2 == count_in(mask_classes(g_masks@, p_masks@), Gpk::Kill, pair_count as nat),
        r.3 == longest_chain(mask_classes(g_masks@, p_masks@), pair_count as nat),
{
    let (g_count, p_count, k_count) = compute_gpk_counts(g_masks, p_masks, pair_count);
    let max_chain: u32 = sweep_chain(g_masks, p_masks, pair_count);
    (g_count, p_count, k_count, max_chain)
}

/// The tail of a packed step: clears what lies above the pairs, counts the
/// classification where it was collected, and postprocesses the sum.
fn finish_packed(
    new_m4: Vec<u64>,
    new_m6: Vec<u64>,
    out_pairs: usize,
    g_masks: Vec<u64>,
    p_masks: Vec<u64>,
    k: usize,
    collect_gpk: bool,
    Ghost(v): Ghost<nat>,
    Ghost(x): Ghost<u64>,
) -> (r: PackedStepResult)
    requires
        valid_multiplier(x),
        k == pair_len(v),
        k <= MAX_STEP_PAIRS,
        out_pairs == k + (shift_of(x) + 1) / 2 + 1,
        new_m4@.len() == words_for(out_pairs as nat),
        new_m6@.len() == words_for(out_pairs as nat),
        g_masks@.len() == if collect_gpk {
            words_for(k as nat)
        } else {
            0
        },
        exists|carry: u64|
            packed_state(
                v,
                shift_of(x),
                new_m4@,
                new_m6@,
                g_masks@,
                p_masks@,
                carry,
                words_for(out_pairs as nat) as int,
            ),
    ensures
        is_packed_step_of(r, v, x, collect_gpk),
{
    let ghost s = shift_of(x);
    let ghost cls = classes(v, s);
    let mut new_m4 = new_m4;
    let mut new_m6 = new_m6;
    let mut g_masks = g_masks;
    let mut p_masks = p_masks;
    let ghost full4 = new_m4@;
    let ghost full6 = new_m6@;
    let ghost full_g = g_masks@;
    let ghost full_p = p_masks@;
    proof {
        lemma_power_shift(x, s);
        lemma_pair_len(v);
        lemma_scan_digits(v, x, (2 * out_pairs) as nat);
    }
    mask_top(&mut new_m4, out_pairs);
    mask_top(&mut new_m6, out_pairs);
    proof {
        assert forall|j: int| #[trigger]
            stream_bit(new_m6@, j) == (0 <= j < out_pairs && scan_bit(v, s, 2 * j)) by {
            assert(stream_bit(new_m6@, j) == (j < out_pairs && stream_bit(full6, j)));
        }
        assert forall|j: int| #[trigger]
            stream_bit(new_m4@, j) == (0 <= j < out_pairs && scan_bit(v, s, 2 * j + 1)) by {
            assert(stream_bit(new_m4@, j) == (j < out_pairs && stream_bit(full4, j)));
        }
        lemma_raw_streams(v, x, new_m4@, new_m6@, out_pairs as nat);
    }
    let (g_count, p_count, k_count, max_carry_chain) = if collect_gpk {
        mask_top(&mut g_masks, k);
        mask_top(&mut p_masks, k);
        proof {
            assert forall|j: int| #[trigger]
                stream_bit(g_masks@, j) == (0 <= j < k && cls(j) == Gpk::Generate) by {
                assert(stream_bit(g_masks@, j) == (j < k && stream_bit(full_g, j)));
            }
            assert forall|j: int| #[trigger]
                stream_bit(p_masks@, j) == (0 <= j < k && cls(j) == Gpk::Propagate) by {
                assert(stream_bit(p_masks@, j) == (j < k && stream_bit(full_p, j)));
            }
            lemma_classes_agree(mask_classes(g_masks@, p_masks@), cls, k as nat);
        }
        compute_gpk_stats(g_masks.as_slice(), p_masks.as_slice(), k)
    } else {
        (0, 0, 0, 0)
    };
    let pp = postprocess(new_m4, new_m6, out_pairs);
    PackedStepResult {
        new_m4: slice_to_vec(pp.next.m4_words()),
        new_m6: slice_to_vec(pp.next.m6_words()),
        new_pair_count: pp.next.pair_count(),
        d: pp.d,
        exchanged: pp.exchanged,
        g_count,
        p_count,
        k_count,
        max_carry_chain,
        g_masks,
        p_masks,
    }
}

/// One step of `3n + 1`, by words, with the classification.
pub fn packed_step_3n1(pn: &PairNumber) -> (r: PackedStepResult)
    requires
        pn@.k <= MAX_STEP_PAIRS,
    ensures
        is_packed_step_of(r, pn@.value(), 3, true),
{
    packed_step_3n1_opt(pn, true)
}

/// One step of `3n + 1`, by words; the classification is collected where
/// `collect_gpk` is set.
pub fn packed_step_3n1_opt(pn: &PairNumber, collect_gpk: bool) -> (r: PackedStepResult)
    requires
        pn@.k <= MAX_STEP_PAIRS,
    ensures
        is_packed_step_of(r, pn@.value(), 3, collect_gpk),
{
    let k: usize = pn.pair_count();
    let m4: &[u64] = pn.m4_words();
    let m6: &[u64] = pn.m6_words();
    let ghost v = pn@.value();
    let ghost s: nat = 1;
    proof {
        lemma2_to64();
        lemma_power_shift(3, 1);
        lemma_canonical_digits(pn@);
    }
    let out_pairs: usize = k + 2;
    let out_words: usize = word_count_for(out_pairs);
    let gpk_word_count: usize = if collect_gpk {
        word_count_for(k)
    } else {
        0
    };
    let mut new_m4: Vec<u64> = zero_words(out_words);
    let mut new_m6: Vec<u64> = zero_words(out_words);
    let mut g_masks: Vec<u64> = zero_words(gpk_word_count);
    let mut p_masks: Vec<u64> = zero_words(gpk_word_count);
    let mut carry: u64 = 1;
    let mut w: usize = 0;
    while w < out_words
        invariant
            w <= out_words,
            pn@.wf(),
            v == pn@.value(),
            k == pn@.k,
            k <= MAX_STEP_PAIRS,
            m4@ == pn@.m4,
            m6@ == pn@.m6,
            s == shift_of(3),
            s == 1,
            out_pairs == k + 2,
            out_words == words_for(out_pairs as nat),
            64 * out_words < out_pairs + 64,
            new_m4@.len() == out_words,
            new_m6@.len() == out_words,
            g_masks@.len() == gpk_word_count,
            gpk_word_count == if collect_gpk { words_for(k as nat) } else { 0 },
            packed_state(v, s, new_m4@, new_m6@, g_masks@, p_masks@, carry, w as int),
        decreases out_words - w,
    {
        let base: isize = (w * 64) as isize;
        let a_cur: u64 = extract_window(m4, k, base);
        let b_cur: u64 = extract_window(m6, k, base);
        let a_prev: u64 = extract_window(m4, k, base - 1);
        let p_r: u64 = a_prev;
        let q_r: u64 = b_cur;
        let p_l: u64 = b_cur;
        let q_l: u64 = a_cur;
        proof {
            lemma_windows(pn@, s, w as int, a_cur, b_cur, p_r, p_l);
        }
        let ghost m4_0 = new_m4@;
        let ghost m6_0 = new_m6@;
        let ghost g_0 = g_masks@;
        let ghost p_0 = p_masks@;
        let out = packed_scan_word(p_r, q_r, p_l, q_l, carry);
        let (m4w, m6w, c_out, g_pair, p_pair) = out;
        new_m4[w] = m4w;
        new_m6[w] = m6w;
        if collect_gpk && w < gpk_word_count {
            g_masks[w] = g_pair;
            p_masks[w] = p_pair;
        }
        proof {
            lemma_packed_advance(
                v,
                s,
                w as int,
                p_r,
                q_r,
                p_l,
                q_l,
                carry,
                out,
                m4_0,
                m6_0,
                g_0,
                p_0,
                new_m4@,
                new_m6@,
                g_masks@,
                p_masks@,
            );
        }
        carry = c_out;
        w = w + 1;
    }
    finish_packed(new_m4, new_m6, out_pairs, g_masks, p_masks, k, collect_gpk, Ghost(v), Ghost(3))
}

/// One step of `5n + 1`, by words, with the classification.
pub fn packed_step_5n1(pn: &PairNumber) -> (r: PackedStepResult)
    requires
        pn@.k <= MAX_STEP_PAIRS,
    ensures
        is_packed_step_of(r, pn@.value(), 5, true),
{
    packed_step_5n1_opt(pn, true)
}

/// One step of `5n + 1`, by words; the classification is collected where
/// `collect_gpk` is set.
pub fn packed_step_5n1_opt(pn: &PairNumber, collect_gpk: bool) -> (r: PackedStepResult)
    requires
        pn@.k <= MAX_STEP_PAIRS,
    ensures
        is_packed_step_of(r, pn@.value(), 5, collect_gpk),
{
    let k: usize = pn.pair_count();
    let m4: &[u64] = pn.m4_words();
    let m6: &[u64] = pn.m6_words();
    let ghost v = pn@.value();
    let ghost s: nat = 2;
    proof {
        lemma2_to64();
        lemma_power_shift(5, 2);
        lemma_canonical_digits(pn@);
    }
    let out_pairs: usize = k + 2;
    let out_words: usize = word_count_for(out_pairs);
    let gpk_word_count: usize = if collect_gpk {
        word_count_for(k)
    } else {
        0
    };
    let mut new_m4: Vec<u64> = zero_words(out_words);
    let mut new_m6: Vec<u64> = zero_words(out_words);
    let mut g_masks: Vec<u64> = zero_words(gpk_word_count);
    let mut p_masks: Vec<u64> = zero_words(gpk_word_count);
    let mut carry: u64 = 1;
    let mut w: usize = 0;
    while w < out_words
        invariant
            w <= out_words,
            pn@.wf(),
            v == pn@.value(),
            k == pn@.k,
            k <= MAX_STEP_PAIRS,
            m4@ == pn@.m4,
            m6@ == pn@.m6,
            s == shift_of(5),
            s == 2,
            out_pairs == k + 2,
            out_words == words_for(out_pairs as nat),
            64 * out_words < out_pairs + 64,
            new_m4@.len() == out_words,
            new_m6@.len() == out_words,
            g_masks@.len() == gpk_word_count,
            gpk_word_count == if collect_gpk { words_for(k as nat) } else { 0 },
            packed_state(v, s, new_m4@, new_m6@, g_masks@, p_masks@, carry, w as int),
        decreases out_words - w,
    {
        let base: isize = (w * 64) as isize;
        let a_cur: u64 = extract_window(m4, k, base);
        let b_cur: u64 = extract_window(m6, k, base);
        let b_prev: u64 = extract_window(m6, k, base - 1);
        let a_prev: u64 = extract_window(m4, k, base - 1);
        let p_r: u64 = b_prev;
        let q_r: u64 = b_cur;
        let p_l: u64 = a_prev;
        let q_l: u64 = a_cur;
        proof {
            lemma_windows(pn@, s, w as int, a_cur, b_cur, p_r, p_l);
        }
        let ghost m4_0 = new_m4@;
        let ghost m6_0 = new_m6@;
        let ghost g_0 = g_masks@;
        let ghost p_0 = p_masks@;
        let out = packed_scan_word(p_r, q_r, p_l, q_l, carry);
        let (m4w, m6w, c_out, g_pair, p_pair) = out;
        new_m4[w] = m4w;
        new_m6[w] = m6w;
        if collect_gpk && w < gpk_word_count {
            g_masks[w] = g_pair;
            p_masks[w] = p_pair;
        }
        proof {
            lemma_packed_advance(
                v,
                s,
                w as int,
                p_r,
                q_r,
                p_l,
                q_l,
                carry,
                out,
                m4_0,
                m6_0,
                g_0,
                p_0,
                new_m4@,
                new_m6@,
                g_masks@,
                p_masks@,
            );
        }
        carry = c_out;
        w = w + 1;
    }
    finish_packed(new_m4, new_m6, out_pairs, g_masks, p_masks, k, collect_gpk, Ghost(v), Ghost(5))
}

/// One step `T(n) = (x*n + 1) / 2^d` by words, with the classification.
pub fn packed_step_generic(pn: &PairNumber, x: u64) -> (r: PackedStepResult)
    requires
        valid_multiplier(x),
        pn@.k <= MAX_STEP_PAIRS,
    ensures
        is_packed_step_of(r, pn@.value(), x, true),
{
    packed_step_generic_opt(pn, x, true)
}

/// One step `T(n) = (x*n + 1) / 2^d` by words; the classification is
/// collected where `collect_gpk` is set.
pub fn packed_step_generic_opt(pn: &PairNumber, x: u64, collect_gpk: bool) -> (r: PackedStepResult)
    requires
        valid_multiplier(x),
        pn@.k <= MAX_STEP_PAIRS,
    ensures
        is_packed_step_of(r, pn@.value(), x, collect_gpk),
{
    let xm1: u64 = x - 1;
    let s: u32 = xm1.trailing_zeros();
    proof {
        lemma_power_shift(x, shift_of(x));
        lemma_power_word(shift_of(x) as u64);
        lemma_lowest_bit(xm1, shift_of(x) as u64);
    }
    let t: isize = (s / 2) as isize;
    let s_is_even: bool = s % 2 == 0;
    let k: usize = pn.pair_count();
    proof {
        lemma_canonical_digits(pn@);
    }
    let m4: &[u64] = pn.m4_words();
    let m6: &[u64] = pn.m6_words();
    let ghost v = pn@.value();
    let extra_pairs: usize = ((s as usize + 1) / 2) + 1;
    let out_pairs: usize = k + extra_pairs;
    let out_words: usize = word_count_for(out_pairs);
    let gpk_word_count: usize = if collect_gpk {
        word_count_for(k)
    } else {
        0
    };
    let mut new_m4: Vec<u64> = zero_words(out_words);
    let mut new_m6: Vec<u64> = zero_words(out_words);
    let mut g_masks: Vec<u64> = zero_words(gpk_word_count);
    let mut p_masks: Vec<u64> = zero_words(gpk_word_count);
    let mut carry: u64 = 1;
    let mut w: usize = 0;
    while w < out_words
        invariant
            w <= out_words,
            pn@.wf(),
            v == pn@.value(),
            k == pn@.k,
            k <= MAX_STEP_PAIRS,
            m4@ == pn@.m4,
            m6@ == pn@.m6,
            s == shift_of(x),
            1 <= s < 64,
            t == s / 2,
            s_is_even == (s % 2 == 0),
            out_pairs == k + (s + 1) / 2 + 1,
            out_words == words_for(out_pairs as nat),
            64 * out_words < out_pairs + 64,
            new_m4@.len() == out_words,
            new_m6@.len() == out_words,
            g_masks@.len() == gpk_word_count,
            gpk_word_count == if collect_gpk { words_for(k as nat) } else { 0 },
            packed_state(v, s as nat, new_m4@, new_m6@, g_masks@, p_masks@, carry, w as int),
        decreases out_words - w,
    {
        let base: isize = (w * 64) as isize;
        let a_cur: u64 = extract_window(m4, k, base);
        let b_cur: u64 = extract_window(m6, k, base);
        let (p_r, q_r, p_l, q_l) = if s_is_even {
            let b_shifted: u64 = extract_window(m6, k, base - t);
            let a_shifted: u64 = extract_window(m4, k, base - t);
            (b_shifted, b_cur, a_shifted, a_cur)
        } else {
            let a_shifted: u64 = extract_window(m4, k, base - t - 1);
            let b_shifted: u64 = extract_window(m6, k, base - t);
            (a_shifted, b_cur, b_shifted, a_cur)
        };
        proof {
            lemma_windows(pn@, s as nat, w as int, a_cur, b_cur, p_r, p_l);
        }
        let ghost m4_0 = new_m4@;
        let ghost m6_0 = new_m6@;
        let ghost g_0 = g_masks@;
        let ghost p_0 = p_masks@;
        let out = packed_scan_word(p_r, q_r, p_l, q_l, carry);
        let (m4w, m6w, c_out, g_pair, p_pair) = out;
        new_m4[w] = m4w;
        new_m6[w] = m6w;
        if collect_gpk && w < gpk_word_count {
            g_masks[w] = g_pair;
            p_masks[w] = p_pair;
        }
        proof {
            lemma_packed_advance(
                v,
                s as nat,
                w as int,
                p_r,
                q_r,
                p_l,
                q_l,
                carry,
                out,
                m4_0,
                m6_0,
                g_0,
                p_0,
                new_m4@,
                new_m6@,
                g_masks@,
                p_masks@,
            );
        }
        carry = c_out;
        w = w + 1;
    }
    finish_packed(new_m4, new_m6, out_pairs, g_masks, p_masks, k, collect_gpk, Ghost(v), Ghost(x))
}

} // verus!

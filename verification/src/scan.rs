//! The step, one pair at a time: the two-stage ripple adder that turns the
//! pairs of `n` into those of `x*n + 1`, with the carry classification of
//! every pair.

use vstd::prelude::*;
use vstd::string::StringExecFns;

use crate::streams::{stream_bit, words_for, word_count_for, zero_words, packed_bit, or_packed_bit};
use crate::model::{
    ChainState, chain_after, classes, count_in, longest_chain, class_of, lemma_chain_bound,
    lemma_class_counts, lemma_classes_agree,
};
use crate::adder::{maj, xor3, scan_bit, scan_carry, lemma_scan_digits, lemma_scan_pair};
use crate::bits::{bit_length, nat_bit, lemma_bit_length_bounds, lemma_nat_bit_above};
use crate::model::{
    MAX_STEP_PAIRS, pair_class, raw_next, shift_of, step_d, step_next, valid_multiplier,
};
use crate::pair_number::{PairNumber, pair_len, pairs_of, lemma_canonical_digits};
use crate::postprocess::postprocess;
use crate::reference::{RefPattern, lemma_power_shift, lemma_reference_bits};
use vstd::arithmetic::power2::{lemma2_to64};

verus! {

/// Carry classification of a pair.
#[derive(Debug, Clone, Copy, PartialEq, Eq, Structural)]
pub enum Gpk {
    Kill,
    Propagate,
    Generate,
}

/// The classification of the pairs of one step.
#[derive(Debug)]
pub struct GpkInfo {
    /// Position `i` is set where pair `i` is a Generate.
    pub g_masks: Vec<u64>,
    /// Position `i` is set where pair `i` is a Propagate.
    pub p_masks: Vec<u64>,
    /// Number of pairs classified.
    pub active_pairs: usize,
    /// Number of Generates.
    pub g_count: u32,
    /// Number of Propagates.
    pub p_count: u32,
    /// Number of Kills.
    pub k_count: u32,
    /// The longest carry chain.
    pub max_carry_chain: u32,
}

/// The classification that two masks hold for pair `i`.
pub open spec fn mask_class(g: Seq<u64>, p: Seq<u64>, i: int) -> Gpk {
    if stream_bit(g, i) {
        Gpk::Generate
    } else if stream_bit(p, i) {
        Gpk::Propagate
    } else {
        Gpk::Kill
    }
}

/// The classification that two masks hold, as a function of the pair.
pub open spec fn mask_classes(g: Seq<u64>, p: Seq<u64>) -> spec_fn(int) -> Gpk {
    |i: int| mask_class(g, p, i)
}

impl Clone for GpkInfo {
    fn clone(&self) -> (r: Self)
        ensures
            r.g_masks@ == self.g_masks@,
            r.p_masks@ == self.p_masks@,
            r.active_pairs == self.active_pairs,
            r.g_count == self.g_count,
            r.p_count == self.p_count,
            r.k_count == self.k_count,
            r.max_carry_chain == self.max_carry_chain,
    {
        let g = self.g_masks.clone();
        let p = self.p_masks.clone();
        assert(g@ =~= self.g_masks@);
        assert(p@ =~= self.p_masks@);
        GpkInfo {
            g_masks: g,
            p_masks: p,
            active_pairs: self.active_pairs,
            g_count: self.g_count,
            p_count: self.p_count,
            k_count: self.k_count,
            max_carry_chain: self.max_carry_chain,
        }
    }
}

impl GpkInfo {
    /// Both masks have a word for every pair.
    pub open spec fn covered(self) -> bool {
        &&& self.g_masks@.len() >= words_for(self.active_pairs as nat)
        &&& self.p_masks@.len() >= words_for(self.active_pairs as nat)
    }

    /// The masks hold the classification `cls` of the pairs below `upto`
    /// and nothing else.
    pub open spec fn holds(self, cls: spec_fn(int) -> Gpk, upto: int) -> bool {
        &&& self.g_masks@.len() == words_for(self.active_pairs as nat)
        &&& self.p_masks@.len() == words_for(self.active_pairs as nat)
        &&& forall|i: int| #[trigger]
            stream_bit(self.g_masks@, i) == (0 <= i < upto && cls(i) == Gpk::Generate)
        &&& forall|i: int| #[trigger]
            stream_bit(self.p_masks@, i) == (0 <= i < upto && cls(i) == Gpk::Propagate)
    }

    /// The record is that of the classification `cls`: masks, counts and
    /// longest carry chain.
    pub open spec fn describes(self, cls: spec_fn(int) -> Gpk) -> bool {
        &&& self.holds(cls, self.active_pairs as int)
        &&& self.g_count == count_in(cls, Gpk::Generate, self.active_pairs as nat)
        &&& self.p_count == count_in(cls, Gpk::Propagate, self.active_pairs as nat)
        &&& self.k_count == count_in(cls, Gpk::Kill, self.active_pairs as nat)
        &&& self.max_carry_chain == longest_chain(cls, self.active_pairs as nat)
    }

    /// An empty record for `pair_count` pairs.
    fn new(pair_count: usize) -> (r: Self)
        ensures
            r.active_pairs == pair_count,
            r.g_count == 0,
            r.p_count == 0,
            r.k_count == 0,
            r.max_carry_chain == 0,
            r.g_masks@.len() == words_for(pair_count as nat),
            r.p_masks@.len() == words_for(pair_count as nat),
            forall|i: int| !#[trigger] stream_bit(r.g_masks@, i),
            forall|i: int| !#[trigger] stream_bit(r.p_masks@, i),
    {
        let word_count: usize = word_count_for(pair_count);
        GpkInfo {
            g_masks: zero_words(word_count),
            p_masks: zero_words(word_count),
            active_pairs: pair_count,
            g_count: 0,
            p_count: 0,
            k_count: 0,
            max_carry_chain: 0,
        }
    }

    /// Records the classification of pair `i`.
    fn set_gpk(&mut self, i: usize, gpk: Gpk)
        requires
            i < old(self).active_pairs,
            old(self).covered(),
            old(self).g_count < u32::MAX,
            old(self).p_count < u32::MAX,
            old(self).k_count < u32::MAX,
        ensures
            recorded(*old(self), *final(self), i as int, gpk),
    {
        match gpk {
            Gpk::Generate => {
                self.g_count = self.g_count + 1;
                or_packed_bit(&mut self.g_masks, i, 1);
            },
            Gpk::Propagate => {
                self.p_count = self.p_count + 1;
                or_packed_bit(&mut self.p_masks, i, 1);
            },
            Gpk::Kill => {
                self.k_count = self.k_count + 1;
            },
        }
    }

    /// Measures the longest carry chain of the masks in one sweep from the
    /// lowest pair, the carry of the `+ 1` alive at the start.
    fn finalize(&mut self)
        requires
            old(self).covered(),
            old(self).active_pairs <= u32::MAX,
        ensures
            final(self).active_pairs == old(self).active_pairs,
            final(self).g_masks == old(self).g_masks,
            final(self).p_masks == old(self).p_masks,
            final(self).g_count == old(self).g_count,
            final(self).p_count == old(self).p_count,
            final(self).k_count == old(self).k_count,
            final(self).max_carry_chain == longest_chain(
                mask_classes(old(self).g_masks@, old(self).p_masks@),
                old(self).active_pairs as nat,
            ),
    {
        self.max_carry_chain = sweep_chain(
            self.g_masks.as_slice(),
            self.p_masks.as_slice(),
            self.active_pairs,
        );
    }

    /// The classification as text, one of `G`, `P`, `K` for each of the
    /// first `limit` pairs, and `...` behind them where there are more.
    pub fn gpk_string(&self, limit: usize) -> (s: String)
        requires
            self.covered(),
        ensures
            s@ == class_text(self.g_masks@, self.p_masks@, self.active_pairs as nat, limit as nat),
    {
        let len: usize = if self.active_pairs < limit {
            self.active_pairs
        } else {
            limit
        };
        let mut s: String = String::new();
        let mut i: usize = 0;
        proof {
            reveal_strlit("G");
            reveal_strlit("P");
            reveal_strlit("K");
            reveal_strlit("...");
        }
        while i < len
            invariant
                i <= len,
                len <= self.active_pairs,
                self.covered(),
                "G"@ == seq!['G'],
                "P"@ == seq!['P'],
                "K"@ == seq!['K'],
                s@ == class_letters(self.g_masks@, self.p_masks@, i as nat),
            decreases len - i,
        {
            let is_g: bool = packed_bit(self.g_masks.as_slice(), i) != 0;
            let is_p: bool = packed_bit(self.p_masks.as_slice(), i) != 0;
            if is_g {
                s.append("G");
            } else if is_p {
                s.append("P");
            } else {
                s.append("K");
            }
            i = i + 1;
            proof {
                assert(s@ =~= class_letters(self.g_masks@, self.p_masks@, i as nat));
            }
        }
        if self.active_pairs > limit {
            s.append("...");
        }
        proof {
            assert("..."@ =~= seq!['.', '.', '.']);
        }
        s
    }

    /// The classification of every pair, lowest pair first.
    pub fn to_seq(&self) -> (seq: Vec<Gpk>)
        requires
            self.covered(),
        ensures
            seq@.len() == self.active_pairs,
            forall|i: int|
                0 <= i < self.active_pairs ==> seq@[i] == mask_class(
                    self.g_masks@,
                    self.p_masks@,
                    i,
                ),
    {
        let mut seq: Vec<Gpk> = Vec::new();
        let mut i: usize = 0;
        while i < self.active_pairs
            invariant
                i <= self.active_pairs,
                self.covered(),
                seq@.len() == i,
                forall|j: int|
                    0 <= j < i ==> seq@[j] == mask_class(self.g_masks@, self.p_masks@, j),
            decreases self.active_pairs - i,
        {
            let is_g: bool = packed_bit(self.g_masks.as_slice(), i) != 0;
            let is_p: bool = packed_bit(self.p_masks.as_slice(), i) != 0;
            if is_g {
                seq.push(Gpk::Generate);
            } else if is_p {
                seq.push(Gpk::Propagate);
            } else {
                seq.push(Gpk::Kill);
            }
            i = i + 1;
        }
        seq
    }
}

/// `after` is `before` with the classification `gpk` recorded for pair `i`.
pub open spec fn recorded(before: GpkInfo, after: GpkInfo, i: int, gpk: Gpk) -> bool {
    &&& after.active_pairs == before.active_pairs
    &&& after.max_carry_chain == before.max_carry_chain
    &&& after.g_masks@.len() == before.g_masks@.len()
    &&& after.p_masks@.len() == before.p_masks@.len()
    &&& after.g_count == before.g_count + if gpk == Gpk::Generate {
        1int
    } else {
        0int
    }
    &&& after.p_count == before.p_count + if gpk == Gpk::Propagate {
        1int
    } else {
        0int
    }
    &&& after.k_count == before.k_count + if gpk == Gpk::Kill {
        1int
    } else {
        0int
    }
    &&& forall|j: int| #[trigger]
        stream_bit(after.g_masks@, j) == (stream_bit(before.g_masks@, j) || (j == i && gpk
            == Gpk::Generate))
    &&& forall|j: int| #[trigger]
        stream_bit(after.p_masks@, j) == (stream_bit(before.p_masks@, j) || (j == i && gpk
            == Gpk::Propagate))
}

/// The letter of a classification.
pub open spec fn class_letter(c: Gpk) -> char {
    match c {
        Gpk::Generate => 'G',
        Gpk::Propagate => 'P',
        Gpk::Kill => 'K',
    }
}

/// The letters of the first `n` pairs of two masks.
pub open spec fn class_letters(g: Seq<u64>, p: Seq<u64>, n: nat) -> Seq<char>
    decreases n,
{
    if n == 0 {
        Seq::empty()
    } else {
        class_letters(g, p, (n - 1) as nat).push(class_letter(mask_class(g, p, n - 1)))
    }
}

/// The text of `active` pairs cut at `limit` letters.
pub open spec fn class_text(g: Seq<u64>, p: Seq<u64>, active: nat, limit: nat) -> Seq<char> {
    if active > limit {
        class_letters(g, p, limit) + seq!['.', '.', '.']
    } else {
        class_letters(g, p, active)
    }
}

/// The longest carry chain of the first `pair_count` pairs of two masks.
pub fn sweep_chain(g_masks: &[u64], p_masks: &[u64], pair_count: usize) -> (r: u32)
    requires
        g_masks@.len() >= words_for(pair_count as nat),
        p_masks@.len() >= words_for(pair_count as nat),
        pair_count <= u32::MAX,
    ensures
        r == longest_chain(mask_classes(g_masks@, p_masks@), pair_count as nat),
{
    let ghost cls = mask_classes(g_masks@, p_masks@);
    let mut chain: u32 = 0;
    let mut max_chain: u32 = 0;
    let mut carry: bool = true;
    let mut i: usize = 0;
    while i < pair_count
        invariant
            i <= pair_count,
            pair_count <= u32::MAX,
            g_masks@.len() >= words_for(pair_count as nat),
            p_masks@.len() >= words_for(pair_count as nat),
            cls == mask_classes(g_masks@, p_masks@),
            chain_after(cls, i as nat) == (ChainState {
                chain: chain as nat,
                longest: max_chain as nat,
                carry,
            }),
        decreases pair_count - i,
    {
        proof {
            lemma_chain_bound(cls, i as nat);
        }
        let is_g: bool = packed_bit(g_masks, i) != 0;
        let is_p: bool = packed_bit(p_masks, i) != 0;
        if is_g {
            chain = chain + 1;
            carry = true;
        } else if is_p {
            if carry {
                chain = chain + 1;
            }
        } else {
            if chain > max_chain {
                max_chain = chain;
            }
            chain = 0;
            carry = false;
        }
        i = i + 1;
    }
    if chain > max_chain {
        max_chain = chain;
    }
    max_chain
}

/// Totals of the classifications of many steps.
#[derive(Debug)]
pub struct GpkStats {
    /// Number of Generates.
    pub total_g: u64,
    /// Number of Propagates.
    pub total_p: u64,
    /// Number of Kills.
    pub total_k: u64,
    /// Number of pairs classified.
    pub total_pairs: u64,
    /// Number of steps recorded.
    pub total_steps: u64,
    /// Number of steps by their longest carry chain; chains of 127 and more
    /// share the last bin.
    pub carry_chain_hist: [u64; 128],
}

/// The totals as natural numbers.
pub struct StatsView {
    pub g: nat,
    pub p: nat,
    pub k: nat,
    pub pairs: nat,
    pub steps: nat,
    pub hist: Seq<nat>,
}

impl View for GpkStats {
    type V = StatsView;

    open spec fn view(&self) -> StatsView {
        StatsView {
            g: self.total_g as nat,
            p: self.total_p as nat,
            k: self.total_k as nat,
            pairs: self.total_pairs as nat,
            steps: self.total_steps as nat,
            hist: Seq::new(128, |i: int| self.carry_chain_hist[i] as nat),
        }
    }
}

/// The bin of a longest carry chain.
pub open spec fn chain_bin(chain: nat) -> int {
    if chain < 127 {
        chain as int
    } else {
        127
    }
}

/// The totals with one more step of the given counts.
pub open spec fn stats_plus(st: StatsView, g: nat, p: nat, k: nat, pairs: nat, chain: nat) -> StatsView {
    StatsView {
        g: st.g + g,
        p: st.p + p,
        k: st.k + k,
        pairs: st.pairs + pairs,
        steps: st.steps + 1,
        hist: st.hist.update(chain_bin(chain), st.hist[chain_bin(chain)] + 1),
    }
}

/// The totals with the step from `v` recorded, for the exponent `s`.
pub open spec fn stats_record(st: StatsView, v: nat, s: nat) -> StatsView {
    stats_plus(
        st,
        count_in(classes(v, s), Gpk::Generate, pair_len(v)),
        count_in(classes(v, s), Gpk::Propagate, pair_len(v)),
        count_in(classes(v, s), Gpk::Kill, pair_len(v)),
        pair_len(v),
        longest_chain(classes(v, s), pair_len(v)),
    )
}

/// The sum of two totals.
pub open spec fn stats_sum(a: StatsView, b: StatsView) -> StatsView {
    StatsView {
        g: a.g + b.g,
        p: a.p + b.p,
        k: a.k + b.k,
        pairs: a.pairs + b.pairs,
        steps: a.steps + b.steps,
        hist: Seq::new(128, |i: int| a.hist[i] + b.hist[i]),
    }
}

/// Every total fits in 64 bits.
pub open spec fn stats_fit(st: StatsView) -> bool {
    &&& st.g <= u64::MAX
    &&& st.p <= u64::MAX
    &&& st.k <= u64::MAX
    &&& st.pairs <= u64::MAX
    &&& st.steps <= u64::MAX
    &&& st.hist.len() == 128
    &&& forall|i: int| 0 <= i < 128 ==> #[trigger] st.hist[i] <= u64::MAX
}

/// The totals have room for `steps` more steps of at most `pairs` pairs
/// each.
pub open spec fn stats_room(st: StatsView, steps: nat, pairs: nat) -> bool {
    &&& st.g + steps * pairs <= u64::MAX
    &&& st.p + steps * pairs <= u64::MAX
    &&& st.k + steps * pairs <= u64::MAX
    &&& st.pairs + steps * pairs <= u64::MAX
    &&& st.steps + steps <= u64::MAX
    &&& st.hist.len() == 128
    &&& forall|i: int| 0 <= i < 128 ==> #[trigger] st.hist[i] + steps <= u64::MAX
}

impl Clone for GpkStats {
    fn clone(&self) -> (r: Self)
        ensures
            r == *self,
    {
        GpkStats {
            total_g: self.total_g,
            total_p: self.total_p,
            total_k: self.total_k,
            total_pairs: self.total_pairs,
            total_steps: self.total_steps,
            carry_chain_hist: self.carry_chain_hist,
        }
    }
}

impl GpkStats {
    /// Totals of no steps.
    pub fn new() -> (r: Self)
        ensures
            r@.g == 0,
            r@.p == 0,
            r@.k == 0,
            r@.pairs == 0,
            r@.steps == 0,
            r@.hist == Seq::new(128, |i: int| 0nat),
    {
        let r = GpkStats {
            total_g: 0,
            total_p: 0,
            total_k: 0,
            total_pairs: 0,
            total_steps: 0,
            carry_chain_hist: [0u64;128],
        };
        assert(r@.hist =~= Seq::new(128, |i: int| 0nat));
        r
    }

    /// Whether the totals have room for `steps` more steps of at most
    /// `pairs` pairs each.
    pub fn has_room(&self, steps: u64, pairs: u64) -> (r: bool)
        ensures
            r == stats_room(self@, steps as nat, pairs as nat),
    {
        assert(steps * pairs <= u128::MAX) by (nonlinear_arith)
            requires
                steps <= u64::MAX,
                pairs <= u64::MAX,
        ;
        assert(0 <= steps * pairs) by (nonlinear_arith)
            requires
                steps >= 0,
                pairs >= 0,
        ;
        let need: u128 = (steps as u128) * (pairs as u128);
        let max: u128 = u64::MAX as u128;
        if need > max {
            return false;
        }
        if self.total_g as u128 + need > max || self.total_p as u128 + need > max
            || self.total_k as u128 + need > max || self.total_pairs as u128 + need > max
            || self.total_steps as u128 + steps as u128 > max {
            return false;
        }
        let mut i: usize = 0;
        while i < 128
            invariant
                i <= 128,
                max == u64::MAX,
                forall|j: int| 0 <= j < i ==> #[trigger] self@.hist[j] + steps <= u64::MAX,
            decreases 128 - i,
        {
            assert(self@.hist[i as int] == self.carry_chain_hist@[i as int]);
            if self.carry_chain_hist[i] as u128 + steps as u128 > max {
                return false;
            }
            i = i + 1;
        }
        true
    }

    /// Adds the record of one step.
    pub fn accumulate(&mut self, info: &GpkInfo)
        requires
            stats_fit(
                stats_plus(
                    old(self)@,
                    info.g_count as nat,
                    info.p_count as nat,
                    info.k_count as nat,
                    info.active_pairs as nat,
                    info.max_carry_chain as nat,
                ),
            ),
        ensures
            final(self)@ == stats_plus(
                old(self)@,
                info.g_count as nat,
                info.p_count as nat,
                info.k_count as nat,
                info.active_pairs as nat,
                info.max_carry_chain as nat,
            ),
    {
        self.add_step(
            info.g_count,
            info.p_count,
            info.k_count,
            info.active_pairs,
            info.max_carry_chain,
        );
    }

    /// Adds one step of the given counts.
    pub fn add_step(&mut self, g_count: u32, p_count: u32, k_count: u32, pairs: usize, chain: u32)
        requires
            stats_fit(
                stats_plus(
                    old(self)@,
                    g_count as nat,
                    p_count as nat,
                    k_count as nat,
                    pairs as nat,
                    chain as nat,
                ),
            ),
        ensures
            final(self)@ == stats_plus(
                old(self)@,
                g_count as nat,
                p_count as nat,
                k_count as nat,
                pairs as nat,
                chain as nat,
            ),
    {
        let ghost target = stats_plus(
            self@,
            g_count as nat,
            p_count as nat,
            k_count as nat,
            pairs as nat,
            chain as nat,
        );
        let idx: usize = if (chain as usize) < 127 {
            chain as usize
        } else {
            127
        };
        proof {
            assert(target.hist[idx as int] == self@.hist[idx as int] + 1);
            assert(target.hist[idx as int] <= u64::MAX);
        }
        self.total_g = self.total_g + g_count as u64;
        self.total_p = self.total_p + p_count as u64;
        self.total_k = self.total_k + k_count as u64;
        self.total_pairs = self.total_pairs + pairs as u64;
        self.total_steps = self.total_steps + 1;
        self.carry_chain_hist[idx] = self.carry_chain_hist[idx] + 1;
        proof {
            assert(self@.hist =~= target.hist);
        }
    }

    /// Adds the totals of `other`.
    pub fn merge(&mut self, other: &GpkStats)
        requires
            stats_fit(stats_sum(old(self)@, other@)),
        ensures
            final(self)@ == stats_sum(old(self)@, other@),
    {
        let ghost target = stats_sum(self@, other@);
        self.total_g = self.total_g + other.total_g;
        self.total_p = self.total_p + other.total_p;
        self.total_k = self.total_k + other.total_k;
        self.total_pairs = self.total_pairs + other.total_pairs;
        self.total_steps = self.total_steps + other.total_steps;
        let mut i: usize = 0;
        while i < 128
            invariant
                i <= 128,
                target == stats_sum(old(self)@, other@),
                stats_fit(target),
                self.total_g == target.g,
                self.total_p == target.p,
                self.total_k == target.k,
                self.total_pairs == target.pairs,
                self.total_steps == target.steps,
                forall|j: int| 0 <= j < i ==> self.carry_chain_hist[j] == #[trigger] target.hist[j],
                forall|j: int|
                    i <= j < 128 ==> self.carry_chain_hist[j] == #[trigger] old(
                        self,
                    ).carry_chain_hist[j],
            decreases 128 - i,
        {
            proof {
                assert(target.hist[i as int] == old(self)@.hist[i as int] + other@.hist[i as int]);
                assert(target.hist[i as int] <= u64::MAX);
            }
            self.carry_chain_hist[i] = self.carry_chain_hist[i] + other.carry_chain_hist[i];
            i = i + 1;
        }
        proof {
            assert(self@.hist =~= target.hist);
        }
    }
}

/// Classification of a pair from its four input bits.
pub fn pair_gpk(p_r: u8, q_r: u8, p_l: u8, q_l: u8) -> (r: Gpk)
    requires
        p_r <= 1,
        q_r <= 1,
        p_l <= 1,
        q_l <= 1,
    ensures
        r == class_of(p_r == 1, q_r == 1, p_l == 1, q_l == 1),
{
    let g_mid: u8 = p_r & q_r;
    let p_mid: u8 = p_r ^ q_r;
    let g_out: u8 = p_l & q_l;
    let p_out: u8 = p_l ^ q_l;
    let g_i: u8 = g_out | (p_out & g_mid);
    let p_i: u8 = p_out & p_mid;
    proof {
        lemma_flag_logic(p_r, q_r, p_l, q_l);
    }
    if g_i != 0 {
        Gpk::Generate
    } else if p_i != 0 {
        Gpk::Propagate
    } else {
        Gpk::Kill
    }
}

/// The classification of a pair, computed on bytes that are 0 or 1.
proof fn lemma_flag_logic(p_r: u8, q_r: u8, p_l: u8, q_l: u8)
    by (bit_vector)
    requires
        p_r <= 1,
        q_r <= 1,
        p_l <= 1,
        q_l <= 1,
    ensures
        ((p_l & q_l) | ((p_l ^ q_l) & (p_r & q_r))) != 0 <==> ((p_l == 1 && q_l == 1) || ((p_l
            != q_l) && (p_r == 1 && q_r == 1))),
        ((p_l ^ q_l) & (p_r ^ q_r)) != 0 <==> ((p_l != q_l) && (p_r != q_r)),
{
}

/// The low bit and the carry of a sum of three bits.
proof fn lemma_small_sum(sum: u8)
    by (bit_vector)
    requires
        sum <= 3,
    ensures
        (sum & 1) == sum % 2,
        (sum >> 1) == sum / 2,
{
}

/// One stage of the pair adder: the sum bit and the carry of `p + q + c`.
pub fn full_add(p: u8, q: u8, c: u8) -> (r: (u64, u8))
    requires
        p <= 1,
        q <= 1,
        c <= 1,
    ensures
        r.0 == if xor3(p == 1, q == 1, c == 1) { 1u64 } else { 0u64 },
        r.1 == if maj(p == 1, q == 1, c == 1) { 1u8 } else { 0u8 },
{
    let sum: u8 = p + q + c;
    proof {
        lemma_small_sum(sum);
    }
    ((sum & 1) as u64, sum >> 1)
}

/// What a step hands back.
#[derive(Debug)]
pub struct StepResult {
    /// The next odd number.
    pub next: PairNumber,
    /// Number of halvings `d`.
    pub d: u64,
    /// Whether `d` is odd, so that the two streams changed roles.
    pub exchanged: bool,
    /// The classification of the pairs of the number stepped from.
    pub gpk: GpkInfo,
    /// The stream `m4` of `x*n + 1`, before postprocessing.
    pub raw_m4: Vec<u64>,
    /// The stream `m6` of `x*n + 1`, before postprocessing.
    pub raw_m6: Vec<u64>,
    /// Number of pairs that the scan wrote.
    pub raw_pair_count: usize,
}

impl Clone for StepResult {
    fn clone(&self) -> (r: Self)
        ensures
            r.next@ == self.next@,
            r.d == self.d,
            r.exchanged == self.exchanged,
            r.gpk.g_masks@ == self.gpk.g_masks@,
            r.gpk.p_masks@ == self.gpk.p_masks@,
            r.gpk.active_pairs == self.gpk.active_pairs,
            r.gpk.g_count == self.gpk.g_count,
            r.gpk.p_count == self.gpk.p_count,
            r.gpk.k_count == self.gpk.k_count,
            r.gpk.max_carry_chain == self.gpk.max_carry_chain,
            r.raw_m4@ == self.raw_m4@,
            r.raw_m6@ == self.raw_m6@,
            r.raw_pair_count == self.raw_pair_count,
    {
        let raw_m4 = self.raw_m4.clone();
        let raw_m6 = self.raw_m6.clone();
        assert(raw_m4@ =~= self.raw_m4@);
        assert(raw_m6@ =~= self.raw_m6@);
        StepResult {
            next: self.next.clone(),
            d: self.d,
            exchanged: self.exchanged,
            gpk: self.gpk.clone(),
            raw_m4,
            raw_m6,
            raw_pair_count: self.raw_pair_count,
        }
    }
}

/// Number of pairs that the raw streams have room for: the pairs of `v`,
/// half of `s + 1` rounded up, and one.
pub open spec fn raw_room(v: nat, x: u64) -> nat {
    pair_len(v) + (shift_of(x) + 2) / 2 + 1
}

/// Number of pairs that the scan writes: it goes on past the pairs of `v`
/// and of `v*2^s` until the carry is out.
pub open spec fn raw_len(v: nat, x: u64) -> nat {
    let quiet: nat = (pair_len(v) + (shift_of(x) - 1) / 2 + 1) as nat;
    let need: nat = (bit_length(raw_next(v, x)) + 1) / 2;
    if need > quiet {
        need
    } else {
        quiet
    }
}

/// The raw streams are those of `x*v + 1`.
pub open spec fn is_raw_of(m4: Seq<u64>, m6: Seq<u64>, v: nat, x: u64) -> bool {
    &&& m4.len() == words_for(raw_room(v, x))
    &&& m6.len() == words_for(raw_room(v, x))
    &&& forall|i: int| #[trigger] stream_bit(m4, i) == nat_bit(raw_next(v, x), 2 * i + 1)
    &&& forall|i: int| #[trigger] stream_bit(m6, i) == nat_bit(raw_next(v, x), 2 * i)
}

/// `r` is the step from `v` with the multiplier `x`.
pub open spec fn is_step_of(r: StepResult, v: nat, x: u64) -> bool {
    &&& r.next@.wf()
    &&& r.next@.value() == step_next(v, x)
    &&& r.d == step_d(v, x)
    &&& r.exchanged == (step_d(v, x) % 2 == 1)
    &&& r.gpk.active_pairs == pair_len(v)
    &&& r.gpk.describes(classes(v, shift_of(x)))
    &&& r.raw_pair_count == raw_len(v, x)
    &&& is_raw_of(r.raw_m4@, r.raw_m6@, v, x)
}

/// The state of a scan that has written the pairs below `i`.
pub open spec fn scan_state(
    v: nat,
    s: nat,
    m4: Seq<u64>,
    m6: Seq<u64>,
    info: GpkInfo,
    c: u8,
    i: int,
) -> bool {
    let seen: int = if i < pair_len(v) {
        i
    } else {
        pair_len(v) as int
    };
    &&& c <= 1
    &&& (c == 1) == scan_carry(v, s, (2 * i) as nat)
    &&& forall|j: int| #[trigger] stream_bit(m6, j) == (0 <= j < i && scan_bit(v, s, 2 * j))
    &&& forall|j: int| #[trigger] stream_bit(m4, j) == (0 <= j < i && scan_bit(v, s, 2 * j + 1))
    &&& info.active_pairs == pair_len(v)
    &&& info.holds(classes(v, s), seen)
    &&& info.g_count == count_in(classes(v, s), Gpk::Generate, seen as nat)
    &&& info.p_count == count_in(classes(v, s), Gpk::Propagate, seen as nat)
    &&& info.k_count == count_in(classes(v, s), Gpk::Kill, seen as nat)
    &&& info.max_carry_chain == 0
}

/// A scan that has written the pairs below `i` writes pair `i`: the two sum
/// bits go to the streams, the carry moves on by two bits, and the
/// classification of the pair is recorded where `v` has such a pair.
pub proof fn lemma_scan_advance(
    v: nat,
    s: nat,
    i: int,
    m4_0: Seq<u64>,
    m6_0: Seq<u64>,
    info0: GpkInfo,
    c0: u8,
    m4_1: Seq<u64>,
    m6_1: Seq<u64>,
    info1: GpkInfo,
    c1: u8,
    m4_bit: u64,
    m6_bit: u64,
)
    requires
        i >= 0,
        scan_state(v, s, m4_0, m6_0, info0, c0, i),
        m6_bit == if xor3(nat_bit(v, 2 * i - s), nat_bit(v, 2 * i), c0 == 1) { 1u64 } else { 0u64 },
        m4_bit == if xor3(
            nat_bit(v, 2 * i + 1 - s),
            nat_bit(v, 2 * i + 1),
            maj(nat_bit(v, 2 * i - s), nat_bit(v, 2 * i), c0 == 1),
        ) { 1u64 } else { 0u64 },
        c1 == if maj(
            nat_bit(v, 2 * i + 1 - s),
            nat_bit(v, 2 * i + 1),
            maj(nat_bit(v, 2 * i - s), nat_bit(v, 2 * i), c0 == 1),
        ) { 1u8 } else { 0u8 },
        forall|j: int| #[trigger] stream_bit(m6_1, j) == (stream_bit(m6_0, j) || (j == i && m6_bit == 1)),
        forall|j: int| #[trigger] stream_bit(m4_1, j) == (stream_bit(m4_0, j) || (j == i && m4_bit == 1)),
        i < pair_len(v) ==> recorded(info0, info1, i, pair_class(v, s, i)),
        i >= pair_len(v) ==> info1 == info0,
    ensures
        scan_state(v, s, m4_1, m6_1, info1, c1, i + 1),
{
    lemma_scan_pair(v, s, i);
    let cls = classes(v, s);
    assert(cls(i) == pair_class(v, s, i));
    assert forall|j: int| #[trigger]
        stream_bit(m6_1, j) == (0 <= j < i + 1 && scan_bit(v, s, 2 * j)) by {
        assert(stream_bit(m6_1, j) == (stream_bit(m6_0, j) || (j == i && m6_bit == 1)));
        assert(stream_bit(m6_0, j) == (0 <= j < i && scan_bit(v, s, 2 * j)));
    }
    assert forall|j: int| #[trigger]
        stream_bit(m4_1, j) == (0 <= j < i + 1 && scan_bit(v, s, 2 * j + 1)) by {
        assert(stream_bit(m4_1, j) == (stream_bit(m4_0, j) || (j == i && m4_bit == 1)));
        assert(stream_bit(m4_0, j) == (0 <= j < i && scan_bit(v, s, 2 * j + 1)));
    }
    if i < pair_len(v) {
        assert forall|j: int| #[trigger]
            stream_bit(info1.g_masks@, j) == (0 <= j < i + 1 && cls(j) == Gpk::Generate) by {
            assert(stream_bit(info0.g_masks@, j) == (0 <= j < i && cls(j) == Gpk::Generate));
        }
        assert forall|j: int| #[trigger]
            stream_bit(info1.p_masks@, j) == (0 <= j < i + 1 && cls(j) == Gpk::Propagate) by {
            assert(stream_bit(info0.p_masks@, j) == (0 <= j < i && cls(j) == Gpk::Propagate));
        }
    }
}

/// The tail of a step: measures the carry chains, keeps the raw streams
/// and postprocesses them.
fn finish_step(
    new_m4: Vec<u64>,
    new_m6: Vec<u64>,
    actual_pairs: usize,
    gpk_info: GpkInfo,
    Ghost(v): Ghost<nat>,
    Ghost(x): Ghost<u64>,
) -> (r: StepResult)
    requires
        valid_multiplier(x),
        pair_len(v) <= MAX_STEP_PAIRS,
        new_m4@.len() == words_for(raw_room(v, x)),
        new_m6@.len() == words_for(raw_room(v, x)),
        scan_state(v, shift_of(x), new_m4@, new_m6@, gpk_info, 0, actual_pairs as int),
        actual_pairs == raw_len(v, x),
        actual_pairs <= raw_room(v, x),
    ensures
        is_step_of(r, v, x),
{
    let ghost s = shift_of(x);
    let ghost cls = classes(v, s);
    let ghost k = pair_len(v);
    let mut gpk_info = gpk_info;
    proof {
        lemma_power_shift(x, s);
        lemma_class_counts(cls, k);
    }
    gpk_info.finalize();
    let raw_m4: Vec<u64> = new_m4.clone();
    let raw_m6: Vec<u64> = new_m6.clone();
    proof {
        assert(raw_m4@ =~= new_m4@);
        assert(raw_m6@ =~= new_m6@);
        lemma_classes_agree(mask_classes(gpk_info.g_masks@, gpk_info.p_masks@), cls, k);
        lemma_raw_streams(v, x, new_m4@, new_m6@, actual_pairs as nat);
    }
    let pp = postprocess(new_m4, new_m6, actual_pairs);
    StepResult {
        next: pp.next,
        d: pp.d,
        exchanged: pp.exchanged,
        gpk: gpk_info,
        raw_m4,
        raw_m6,
        raw_pair_count: actual_pairs,
    }
}

/// Streams that hold the sum bits of the pairs below `n`, with the carry
/// out, are the streams of `x*v + 1`.
pub proof fn lemma_raw_streams(v: nat, x: u64, m4: Seq<u64>, m6: Seq<u64>, n: nat)
    requires
        valid_multiplier(x),
        2 * n >= 2 * pair_len(v) + shift_of(x),
        !scan_carry(v, shift_of(x), 2 * n),
        forall|j: int| #[trigger] stream_bit(m6, j) == (0 <= j < n && scan_bit(v, shift_of(x), 2 * j)),
        forall|j: int| #[trigger]
            stream_bit(m4, j) == (0 <= j < n && scan_bit(v, shift_of(x), 2 * j + 1)),
    ensures
        pairs_of(m4, m6, n as int).value() == raw_next(v, x),
        raw_next(v, x) > 0,
        forall|i: int| #[trigger] stream_bit(m4, i) == nat_bit(raw_next(v, x), 2 * i + 1),
        forall|i: int| #[trigger] stream_bit(m6, i) == nat_bit(raw_next(v, x), 2 * i),
{
    let s = shift_of(x);
    let raw = raw_next(v, x);
    lemma_pair_len(v);
    lemma_scan_digits(v, x, 2 * n);
    crate::adder::lemma_raw_bound(v, x);
    let p = pairs_of(m4, m6, n as int);
    let f = crate::adder::sum_bits(
        crate::bits::nat_bits(v),
        crate::bits::bits_up(crate::bits::nat_bits(v), s as int),
        true,
    );
    assert forall|j: int| 0 <= j < 2 * n implies #[trigger] p.zbits()(j) == f(j) by {
        assert(0 <= j / 2 < n);
        if j % 2 == 0 {
            assert(2 * (j / 2) == j);
        } else {
            assert(2 * (j / 2) + 1 == j);
        }
        assert(f(j) == scan_bit(v, s, j));
    }
    crate::bits::lemma_bits_value_agree(p.zbits(), f, 2 * n);
    assert forall|i: int| #[trigger] stream_bit(m4, i) == nat_bit(raw, 2 * i + 1) by {
        if i >= n {
            lemma_nat_bit_above(raw, 2 * n, 2 * i + 1);
        }
    }
    assert forall|i: int| #[trigger] stream_bit(m6, i) == nat_bit(raw, 2 * i) by {
        if i >= n {
            lemma_nat_bit_above(raw, 2 * n, 2 * i);
        }
    }
}

/// The pairs of the canonical form of `v` cover its bits.
pub proof fn lemma_pair_len(v: nat)
    ensures
        2 * pair_len(v) >= bit_length(v),
        pair_len(v) >= 1,
{
}

/// One step `T(n) = (x*n + 1) / 2^d`, for a multiplier `x = 2^s + 1`.
pub fn collatz_step(n: &PairNumber, x: u64) -> (r: StepResult)
    requires
        valid_multiplier(x),
        n@.k <= MAX_STEP_PAIRS,
    ensures
        is_step_of(r, n@.value(), x),
{
    let rp = RefPattern::new(x);
    let k: usize = n.pair_count();
    let ghost v = n@.value();
    let ghost s = shift_of(x);
    proof {
        lemma_canonical_digits(n@);
    }
    let max_i: usize = k + ((rp.s as usize + 2) / 2);
    let out_pair_count: usize = max_i + 1;
    let out_word_count: usize = word_count_for(out_pair_count);
    let mut new_m4: Vec<u64> = zero_words(out_word_count);
    let mut new_m6: Vec<u64> = zero_words(out_word_count);
    let mut gpk_info = GpkInfo::new(k);
    let mut c: u8 = 1;
    let safe_end: usize = k + rp.s.saturating_sub(1) as usize / 2;
    let mut i: usize = 0;
    let mut done: bool = false;
    while !done
        invariant
            valid_multiplier(x),
            rp.is_for(x),
            s == shift_of(x),
            n@.wf(),
            v == n@.value(),
            k == n@.k,
            k == pair_len(v),
            k <= MAX_STEP_PAIRS,
            max_i == k + (s + 2) / 2,
            safe_end == k + (s - 1) / 2,
            out_word_count == words_for((max_i + 1) as nat),
            max_i + 1 <= 64 * out_word_count,
            new_m4@.len() == out_word_count,
            new_m6@.len() == out_word_count,
            scan_state(v, s, new_m4@, new_m6@, gpk_info, c, i as int),
            !done ==> i <= max_i,
            done ==> c == 0 && i >= safe_end + 1 && i <= max_i + 1,
            i > safe_end + 1 ==> scan_carry(v, s, (2 * (i - 1)) as nat),
            !done && i > safe_end ==> c == 1,
        decreases max_i + 1 - i + (if done { 0int } else { 1int }),
    {
        let ii: isize = i as isize;
        let ai: u8 = n.get_m4(ii);
        let bi: u8 = n.get_m6(ii);
        let (p_r, q_r) = rp.ref_r(n, ii, bi);
        let (p_l, q_l) = rp.ref_l(n, ii, ai);
        proof {
            lemma_reference_bits(n@, s, i as int);
        }
        let ghost before = gpk_info;
        let ghost old_m4 = new_m4@;
        let ghost old_m6 = new_m6@;
        let ghost c_in = c;
        if i < k {
            proof {
                lemma_class_counts(classes(v, s), i as nat);
            }
            gpk_info.set_gpk(i, pair_gpk(p_r, q_r, p_l, q_l));
        }
        let (m6_bit, c_mid) = full_add(p_r, q_r, c);
        let (m4_bit, c_out) = full_add(p_l, q_l, c_mid);
        c = c_out;
        or_packed_bit(&mut new_m6, i, m6_bit);
        or_packed_bit(&mut new_m4, i, m4_bit);
        proof {
            lemma_scan_advance(
                v,
                s,
                i as int,
                old_m4,
                old_m6,
                before,
                c_in,
                new_m4@,
                new_m6@,
                gpk_info,
                c,
                m4_bit,
                m6_bit,
            );
            if i == max_i {
                lemma_pair_len(v);
                lemma_scan_digits(v, x, (2 * (max_i + 1)) as nat);
            }
        }
        if c == 0 && i >= safe_end {
            done = true;
        }
        i = i + 1;
    }
    proof {
        lemma_step_len(v, x, i as nat);
    }
    finish_step(new_m4, new_m6, i, gpk_info, Ghost(v), Ghost(x))
}

/// One step of `3n + 1`: the low stage of pair `i` adds `m4[i - 1]` and
/// `m6[i]`, the high stage `m6[i]` and `m4[i]`.
pub fn collatz_step_3n1(n: &PairNumber) -> (r: StepResult)
    requires
        n@.k <= MAX_STEP_PAIRS,
    ensures
        is_step_of(r, n@.value(), 3),
{
    let k: usize = n.pair_count();
    let ghost v = n@.value();
    let ghost s = shift_of(3);
    proof {
        lemma2_to64();
        lemma_power_shift(3, 1);
        lemma_canonical_digits(n@);
    }
    let max_i: usize = k + 1;
    let out_pair_count: usize = max_i + 1;
    let out_word_count: usize = word_count_for(out_pair_count);
    let mut new_m4: Vec<u64> = zero_words(out_word_count);
    let mut new_m6: Vec<u64> = zero_words(out_word_count);
    let mut gpk_info = GpkInfo::new(k);
    let mut c: u8 = 1;
    let mut i: usize = 0;
    let mut done: bool = false;
    while !done
        invariant
            valid_multiplier(3),
            s == shift_of(3),
            s == 1,
            n@.wf(),
            v == n@.value(),
            k == n@.k,
            k == pair_len(v),
            k <= MAX_STEP_PAIRS,
            max_i == k + 1,
            out_word_count == words_for((max_i + 1) as nat),
            max_i + 1 <= 64 * out_word_count,
            new_m4@.len() == out_word_count,
            new_m6@.len() == out_word_count,
            scan_state(v, s, new_m4@, new_m6@, gpk_info, c, i as int),
            !done ==> i <= max_i,
            done ==> c == 0 && i >= k + 1 && i <= max_i + 1,
            i > k + 1 ==> scan_carry(v, s, (2 * (i - 1)) as nat),
            !done && i > k ==> c == 1,
        decreases max_i + 1 - i + (if done { 0int } else { 1int }),
    {
        let ai: u8 = n.get_m4(i as isize);
        let bi: u8 = n.get_m6(i as isize);
        let a_prev: u8 = n.get_m4(i as isize - 1);
        let p_r: u8 = a_prev;
        let q_r: u8 = bi;
        let p_l: u8 = bi;
        let q_l: u8 = ai;
        proof {
            lemma_reference_bits(n@, s, i as int);
        }
        let ghost before = gpk_info;
        let ghost old_m4 = new_m4@;
        let ghost old_m6 = new_m6@;
        let ghost c_in = c;
        if i < k {
            proof {
                lemma_class_counts(classes(v, s), i as nat);
            }
            gpk_info.set_gpk(i, pair_gpk(p_r, q_r, p_l, q_l));
        }
        let (m6_bit, c_mid) = full_add(p_r, q_r, c);
        let (m4_bit, c_out) = full_add(p_l, q_l, c_mid);
        c = c_out;
        or_packed_bit(&mut new_m6, i, m6_bit);
        or_packed_bit(&mut new_m4, i, m4_bit);
        proof {
            lemma_scan_advance(
                v,
                s,
                i as int,
                old_m4,
                old_m6,
                before,
                c_in,
                new_m4@,
                new_m6@,
                gpk_info,
                c,
                m4_bit,
                m6_bit,
            );
            if i == max_i {
                lemma_pair_len(v);
                lemma_scan_digits(v, 3, (2 * (max_i + 1)) as nat);
            }
        }
        if c == 0 && i >= k {
            done = true;
        }
        i = i + 1;
    }
    proof {
        lemma_step_len(v, 3, i as nat);
    }
    finish_step(new_m4, new_m6, i, gpk_info, Ghost(v), Ghost(3))
}

/// One step of `5n + 1`: the low stage of pair `i` adds `m6[i - 1]` and
/// `m6[i]`, the high stage `m4[i - 1]` and `m4[i]`.
pub fn collatz_step_5n1(n: &PairNumber) -> (r: StepResult)
    requires
        n@.k <= MAX_STEP_PAIRS,
    ensures
        is_step_of(r, n@.value(), 5),
{
    let k: usize = n.pair_count();
    let ghost v = n@.value();
    let ghost s = shift_of(5);
    proof {
        lemma2_to64();
        lemma_power_shift(5, 2);
        lemma_canonical_digits(n@);
    }
    let max_i: usize = k + 2;
    let out_pair_count: usize = max_i + 1;
    let out_word_count: usize = word_count_for(out_pair_count);
    let mut new_m4: Vec<u64> = zero_words(out_word_count);
    let mut new_m6: Vec<u64> = zero_words(out_word_count);
    let mut gpk_info = GpkInfo::new(k);
    let mut c: u8 = 1;
    let mut i: usize = 0;
    let mut done: bool = false;
    while !done
        invariant
            valid_multiplier(5),
            s == shift_of(5),
            s == 2,
            n@.wf(),
            v == n@.value(),
            k == n@.k,
            k == pair_len(v),
            k <= MAX_STEP_PAIRS,
            max_i == k + 2,
            out_word_count == words_for((max_i + 1) as nat),
            max_i + 1 <= 64 * out_word_count,
            new_m4@.len() == out_word_count,
            new_m6@.len() == out_word_count,
            scan_state(v, s, new_m4@, new_m6@, gpk_info, c, i as int),
            !done ==> i <= max_i,
            done ==> c == 0 && i >= k + 1 && i <= max_i + 1,
            i > k + 1 ==> scan_carry(v, s, (2 * (i - 1)) as nat),
            !done && i > k ==> c == 1,
        decreases max_i + 1 - i + (if done { 0int } else { 1int }),
    {
        let ai: u8 = n.get_m4(i as isize);
        let bi: u8 = n.get_m6(i as isize);
        let b_prev: u8 = n.get_m6(i as isize - 1);
        let a_prev: u8 = n.get_m4(i as isize - 1);
        let p_r: u8 = b_prev;
        let q_r: u8 = bi;
        let p_l: u8 = a_prev;
        let q_l: u8 = ai;
        proof {
            lemma_reference_bits(n@, s, i as int);
        }
        let ghost before = gpk_info;
        let ghost old_m4 = new_m4@;
        let ghost old_m6 = new_m6@;
        let ghost c_in = c;
        if i < k {
            proof {
                lemma_class_counts(classes(v, s), i as nat);
            }
            gpk_info.set_gpk(i, pair_gpk(p_r, q_r, p_l, q_l));
        }
        let (m6_bit, c_mid) = full_add(p_r, q_r, c);
        let (m4_bit, c_out) = full_add(p_l, q_l, c_mid);
        c = c_out;
        or_packed_bit(&mut new_m6, i, m6_bit);
        or_packed_bit(&mut new_m4, i, m4_bit);
        proof {
            lemma_scan_advance(
                v,
                s,
                i as int,
                old_m4,
                old_m6,
                before,
                c_in,
                new_m4@,
                new_m6@,
                gpk_info,
                c,
                m4_bit,
                m6_bit,
            );
            if i == max_i {
                lemma_pair_len(v);
                lemma_scan_digits(v, 5, (2 * (max_i + 1)) as nat);
            }
        }
        if c == 0 && i >= k {
            done = true;
        }
        i = i + 1;
    }
    proof {
        lemma_step_len(v, 5, i as nat);
    }
    finish_step(new_m4, new_m6, i, gpk_info, Ghost(v), Ghost(5))
}

/// The scan stops at the first pair from `quiet` on behind which the carry
/// is out: that is the number of pairs of `x*v + 1`, or `quiet` where that is
/// more.
pub proof fn lemma_step_len(v: nat, x: u64, n: nat)
    requires
        valid_multiplier(x),
        n >= pair_len(v) + (shift_of(x) - 1) / 2 + 1,
        !scan_carry(v, shift_of(x), 2 * n),
        n > pair_len(v) + (shift_of(x) - 1) / 2 + 1 ==> scan_carry(
            v,
            shift_of(x),
            (2 * (n - 1)) as nat,
        ),
    ensures
        n == raw_len(v, x),
        n <= raw_room(v, x),
        2 * n >= 2 * pair_len(v) + shift_of(x),
{
    let s = shift_of(x);
    let raw = raw_next(v, x);
    let quiet: nat = (pair_len(v) + (s - 1) / 2 + 1) as nat;
    lemma_power_shift(x, s);
    lemma_pair_len(v);
    lemma_scan_digits(v, x, 2 * n);
    lemma_bit_length_bounds(raw, 2 * n);
    if n > quiet {
        let j: nat = (n - 1) as nat;
        lemma_scan_digits(v, x, 2 * j);
        lemma_bit_length_bounds(raw, 2 * j);
    }
    if n > raw_room(v, x) {
        let j: nat = (n - 1) as nat;
        lemma_scan_digits(v, x, 2 * j);
    }
}

} // verus!

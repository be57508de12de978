//! The maps `T(n) = (x*n + 1) / 2^d` and the carry classification of the
//! addition `n + n*2^s + 1`, stated over natural numbers.

use vstd::prelude::*;
use vstd::arithmetic::power2::{pow2, lemma_pow2_pos};

use crate::bits::{bit_length, low_zeros, nat_bit, lemma_low_zeros, lemma_low_zeros_unique};
use crate::scan::Gpk;

verus! {

/// Largest number of pairs of a number that a step accepts: the counters of
/// a classification are 32 bits wide, and pair indices are signed.
pub const MAX_STEP_PAIRS: usize = 0x7fff_ff00;

/// The exponent `s` of a multiplier `x = 2^s + 1`.
pub open spec fn shift_of(x: u64) -> nat {
    (bit_length((x - 1) as nat) - 1) as nat
}

/// `x` is at least 3 and `x - 1` is a power of two.
pub open spec fn valid_multiplier(x: u64) -> bool {
    x >= 3 && x - 1 == pow2(shift_of(x))
}

/// The number `x*v + 1`.
pub open spec fn raw_next(v: nat, x: u64) -> nat {
    (x * v + 1) as nat
}

/// The exponent `d` of the step from `v`: the number of times that 2
/// divides `x*v + 1`.
pub open spec fn step_d(v: nat, x: u64) -> nat {
    low_zeros(raw_next(v, x))
}

/// The odd number `T(v) = (x*v + 1) / 2^d`.
pub open spec fn step_next(v: nat, x: u64) -> nat {
    raw_next(v, x) / pow2(step_d(v, x))
}

/// The iterate `T^j(v)`.
pub open spec fn iterate(v: nat, x: u64, j: nat) -> nat
    decreases j,
{
    if j == 0 {
        v
    } else {
        step_next(iterate(v, x, (j - 1) as nat), x)
    }
}

/// Classification of one stage that adds the bits `p` and `q`: it generates
/// a carry where both are set, hands one on where one is set, and ends one
/// where none is.
pub open spec fn stage_class(p: bool, q: bool) -> Gpk {
    if p && q {
        Gpk::Generate
    } else if p != q {
        Gpk::Propagate
    } else {
        Gpk::Kill
    }
}

/// The classification of a pair is the composition of its two stages: the
/// pair generates where the high stage does, or hands on what the low
/// stage generates; it propagates where both stages do.
pub proof fn lemma_class_by_stages(p_r: bool, q_r: bool, p_l: bool, q_l: bool)
    ensures
        class_of(p_r, q_r, p_l, q_l) == Gpk::Generate <==> (stage_class(p_l, q_l) == Gpk::Generate
            || (stage_class(p_l, q_l) == Gpk::Propagate && stage_class(p_r, q_r)
            == Gpk::Generate)),
        class_of(p_r, q_r, p_l, q_l) == Gpk::Propagate <==> (stage_class(p_l, q_l)
            == Gpk::Propagate && stage_class(p_r, q_r) == Gpk::Propagate),
{
}

/// Classification of a pair from its four input bits: the low stage adds
/// `p_r + q_r`, the high stage `p_l + q_l`, and the two stages are composed.
pub open spec fn class_of(p_r: bool, q_r: bool, p_l: bool, q_l: bool) -> Gpk {
    let g_mid = p_r && q_r;
    let p_mid = p_r != q_r;
    let g_out = p_l && q_l;
    let p_out = p_l != q_l;
    if g_out || (p_out && g_mid) {
        Gpk::Generate
    } else if p_out && p_mid {
        Gpk::Propagate
    } else {
        Gpk::Kill
    }
}

/// Classification of pair `i` of `v` in the addition `v + v*2^s + 1`: the
/// low stage adds bits `2i - s` and `2i` of `v`, the high stage bits
/// `2i + 1 - s` and `2i + 1`.
pub open spec fn pair_class(v: nat, s: nat, i: int) -> Gpk {
    class_of(nat_bit(v, 2 * i - s), nat_bit(v, 2 * i), nat_bit(v, 2 * i + 1 - s), nat_bit(v, 2 * i + 1))
}

/// The classification of every pair of `v`, as a function of the pair.
pub open spec fn classes(v: nat, s: nat) -> spec_fn(int) -> Gpk {
    |i: int| pair_class(v, s, i)
}

/// Number of pairs below `k` that `cls` classifies as `c`.
pub open spec fn count_in(cls: spec_fn(int) -> Gpk, c: Gpk, k: nat) -> nat
    decreases k,
{
    if k == 0 {
        0
    } else {
        count_in(cls, c, (k - 1) as nat) + if cls(k - 1) == c {
            1nat
        } else {
            0nat
        }
    }
}

/// State of the sweep that measures carry chains.
pub struct ChainState {
    /// Length of the chain that is running.
    pub chain: nat,
    /// Longest chain that has ended.
    pub longest: nat,
    /// Whether a carry is alive.
    pub carry: bool,
}

/// One pair of the sweep: a Generate lengthens the chain and revives the
/// carry, a Propagate lengthens it while the carry is alive, a Kill ends it.
pub open spec fn chain_step(st: ChainState, c: Gpk) -> ChainState {
    match c {
        Gpk::Generate => ChainState { chain: st.chain + 1, longest: st.longest, carry: true },
        Gpk::Propagate => ChainState {
            chain: if st.carry { st.chain + 1 } else { st.chain },
            longest: st.longest,
            carry: st.carry,
        },
        Gpk::Kill => ChainState {
            chain: 0,
            longest: if st.chain > st.longest { st.chain } else { st.longest },
            carry: false,
        },
    }
}

/// State of the sweep after the pairs below `i`, started with the carry of
/// the `+ 1` alive.
pub open spec fn chain_after(cls: spec_fn(int) -> Gpk, i: nat) -> ChainState
    decreases i,
{
    if i == 0 {
        ChainState { chain: 0, longest: 0, carry: true }
    } else {
        chain_step(chain_after(cls, (i - 1) as nat), cls(i - 1))
    }
}

/// The longest carry chain among the first `k` pairs: the largest number of
/// pairs in a row through which one carry stayed alive, from the `+ 1` or
/// from a Generate.
pub open spec fn longest_chain(cls: spec_fn(int) -> Gpk, k: nat) -> nat {
    let st = chain_after(cls, k);
    if st.chain > st.longest {
        st.chain
    } else {
        st.longest
    }
}

/// A chain is no longer than the pairs swept.
pub proof fn lemma_chain_bound(cls: spec_fn(int) -> Gpk, i: nat)
    ensures
        chain_after(cls, i).chain <= i,
        chain_after(cls, i).longest <= i,
        longest_chain(cls, i) <= i,
    decreases i,
{
    if i > 0 {
        lemma_chain_bound(cls, (i - 1) as nat);
    }
}

/// The three counts add up to the number of pairs.
pub proof fn lemma_class_counts(cls: spec_fn(int) -> Gpk, k: nat)
    ensures
        count_in(cls, Gpk::Generate, k) + count_in(cls, Gpk::Propagate, k) + count_in(
            cls,
            Gpk::Kill,
            k,
        ) == k,
    decreases k,
{
    if k > 0 {
        lemma_class_counts(cls, (k - 1) as nat);
    }
}

/// Classifications that agree below `k` have the same counts and chains
/// there.
pub proof fn lemma_classes_agree(c1: spec_fn(int) -> Gpk, c2: spec_fn(int) -> Gpk, k: nat)
    requires
        forall|i: int| 0 <= i < k ==> #[trigger] c1(i) == c2(i),
    ensures
        count_in(c1, Gpk::Generate, k) == count_in(c2, Gpk::Generate, k),
        count_in(c1, Gpk::Propagate, k) == count_in(c2, Gpk::Propagate, k),
        count_in(c1, Gpk::Kill, k) == count_in(c2, Gpk::Kill, k),
        chain_after(c1, k) == chain_after(c2, k),
        longest_chain(c1, k) == longest_chain(c2, k),
    decreases k,
{
    if k > 0 {
        lemma_classes_agree(c1, c2, (k - 1) as nat);
        assert(c1(k - 1) == c2(k - 1));
    }
}

/// The step is the only way to write `x*v + 1` as an odd number times a
/// power of two.
pub proof fn lemma_step_unique(v: nat, x: u64, d: nat, q: nat)
    requires
        x * v + 1 == q * pow2(d),
        q % 2 == 1,
    ensures
        d == step_d(v, x),
        q == step_next(v, x),
{
    lemma_low_zeros_unique((x * v + 1) as nat, d, q);
}

/// `T(v)` is odd, and `T(v) * 2^d = x*v + 1`.
pub proof fn lemma_step_odd(v: nat, x: u64)
    ensures
        step_next(v, x) % 2 == 1,
        step_next(v, x) * pow2(step_d(v, x)) == x * v + 1,
{
    let w: nat = (x * v + 1) as nat;
    lemma_low_zeros(w);
    let d = low_zeros(w);
    lemma_pow2_pos(d);
    vstd::arithmetic::div_mod::lemma_fundamental_div_mod(w as int, pow2(d) as int);
    assert(pow2(d) * (w / pow2(d)) == (w / pow2(d)) * pow2(d)) by (nonlinear_arith);
}

} // verus!

//! Where each stage of the pair adder reads its input bits.
//!
//! For `x = 2^s + 1` and `t = s / 2`, the low stage of pair `i` adds
//! `m6[i]` to `m6[i - t]` (even `s`) or to `m4[i - t - 1]` (odd `s`), and
//! the high stage adds `m4[i]` to `m4[i - t]` (even `s`) or to `m6[i - t]`
//! (odd `s`): in both cases bit `2i - s`, and bit `2i + 1 - s`, of the
//! number.

use vstd::prelude::*;
use vstd::arithmetic::power2::{pow2, lemma_pow2_pos, lemma2_to64, lemma_pow2_strictly_increases};

use crate::bits::{nat_bit, word_bit, lemma_bit_length_bounds, lemma_word_consts, lemma_word_shl};
use crate::model::{shift_of, valid_multiplier};
use crate::pair_number::{PairNumber, Pairs, lemma_canonical_digits};

verus! {

/// The reference pattern of a multiplier.
pub struct RefPattern {
    /// The exponent `s` of `x = 2^s + 1`.
    pub s: u32,
    /// `s / 2`.
    pub t: isize,
    /// Whether `s` is even.
    pub s_is_even: bool,
}

/// Whether `x` is at least 3 with `x - 1` a power of two.
pub fn is_valid_multiplier(x: u64) -> (r: bool)
    ensures
        r == valid_multiplier(x),
{
    if x < 3 {
        return false;
    }
    let xm1: u64 = x - 1;
    let tz: u32 = xm1.trailing_zeros();
    proof {
        vstd::std_specs::bits::axiom_u64_trailing_zeros(xm1);
        lemma_power_word(tz as u64);
        if xm1 == pow2(shift_of(x)) {
            lemma_power_shift(x, shift_of(x));
            lemma_power_word(shift_of(x) as u64);
            lemma_lowest_bit(xm1, shift_of(x) as u64);
        }
        if xm1 == 1u64 << (tz as u64) {
            lemma_power_shift(x, tz as nat);
        }
    }
    xm1 == 1u64 << (tz as u64)
}

/// `1 << e` is `2^e`, the word with bit `e` alone.
pub proof fn lemma_power_word(e: u64)
    requires
        e < 64,
    ensures
        (1u64 << e) == pow2(e as nat),
        forall|i: int| #[trigger] word_bit(1u64 << e, i) == (i == e),
{
    vstd::bits::lemma_u64_pow2_no_overflow(e as nat);
    vstd::bits::lemma_u64_shl_is_mul(1, e);
    lemma_word_shl(1, e);
    lemma_word_consts();
}

/// The exponent of `x = 2^e + 1` is `e`.
pub proof fn lemma_power_shift(x: u64, e: nat)
    requires
        x >= 3,
        x - 1 == pow2(e),
    ensures
        shift_of(x) == e,
        valid_multiplier(x),
        1 <= e < 64,
{
    lemma2_to64();
    lemma_bit_length_bounds((x - 1) as nat, e);
    lemma_bit_length_bounds((x - 1) as nat, e + 1);
    vstd::arithmetic::power2::lemma_pow2_unfold(e + 1);
    if e >= 64 {
        if e > 64 {
            lemma_pow2_strictly_increases(64, e);
        }
    }
}

/// The number of trailing zeros of the word with bit `e` alone is `e`.
pub proof fn lemma_lowest_bit(w: u64, e: u64)
    requires
        e < 64,
        w == 1u64 << e,
    ensures
        vstd::std_specs::bits::u64_trailing_zeros(w) == e,
{
    lemma_power_word(e);
    vstd::std_specs::bits::axiom_u64_trailing_zeros(w);
    let t = vstd::std_specs::bits::u64_trailing_zeros(w);
    lemma_pow2_pos(e as nat);
    assert(t < 64);
    assert(word_bit(w, t as int));
}

impl RefPattern {
    /// The fields are those of the multiplier `x`.
    pub open spec fn is_for(self, x: u64) -> bool {
        &&& self.s == shift_of(x)
        &&& self.t == self.s / 2
        &&& self.s_is_even == (self.s % 2 == 0)
        &&& 1 <= self.s < 64
    }

    /// The pattern of the multiplier `x`.
    pub fn new(x: u64) -> (r: Self)
        requires
            valid_multiplier(x),
        ensures
            r.is_for(x),
    {
        let xm1: u64 = x - 1;
        let s: u32 = xm1.trailing_zeros();
        proof {
            lemma_power_shift(x, shift_of(x));
            lemma_power_word(shift_of(x) as u64);
            lemma_lowest_bit(xm1, shift_of(x) as u64);
        }
        let t: isize = (s / 2) as isize;
        RefPattern { s, t, s_is_even: s % 2 == 0 }
    }

    /// The two bits that the low stage of pair `i` adds: the reference bit
    /// and the pair's own low bit `bi`.
    pub fn ref_r(&self, n: &PairNumber, i: isize, bi: u8) -> (r: (u8, u8))
        requires
            0 <= self.t < 64,
            isize::MIN + 64 <= i,
        ensures
            r.0 == if (if self.s_is_even {
                n@.bit6(i - self.t)
            } else {
                n@.bit4(i - self.t - 1)
            }) {
                1u8
            } else {
                0u8
            },
            r.1 == bi,
    {
        if self.s_is_even {
            (n.get_m6(i - self.t), bi)
        } else {
            (n.get_m4(i - self.t - 1), bi)
        }
    }

    /// The two bits that the high stage of pair `i` adds: the reference bit
    /// and the pair's own high bit `ai`.
    pub fn ref_l(&self, n: &PairNumber, i: isize, ai: u8) -> (r: (u8, u8))
        requires
            0 <= self.t < 64,
            isize::MIN + 64 <= i,
        ensures
            r.0 == if (if self.s_is_even {
                n@.bit4(i - self.t)
            } else {
                n@.bit6(i - self.t)
            }) {
                1u8
            } else {
                0u8
            },
            r.1 == ai,
    {
        if self.s_is_even {
            (n.get_m4(i - self.t), ai)
        } else {
            (n.get_m6(i - self.t), ai)
        }
    }
}

/// The reference bits of a canonical form are bits `2i - s` and
/// `2i + 1 - s` of its value, and the pair's own bits are bits `2i` and
/// `2i + 1`.
pub proof fn lemma_reference_bits(p: Pairs, s: nat, i: int)
    requires
        p.wf(),
    ensures
        p.bit6(i) == nat_bit(p.value(), 2 * i),
        p.bit4(i) == nat_bit(p.value(), 2 * i + 1),
        s % 2 == 0 ==> p.bit6(i - s / 2) == nat_bit(p.value(), 2 * i - s),
        s % 2 == 0 ==> p.bit4(i - s / 2) == nat_bit(p.value(), 2 * i + 1 - s),
        s % 2 == 1 ==> p.bit4(i - s / 2 - 1) == nat_bit(p.value(), 2 * i - s),
        s % 2 == 1 ==> p.bit6(i - s / 2) == nat_bit(p.value(), 2 * i + 1 - s),
{
    lemma_canonical_digits(p);
    let t: int = (s / 2) as int;
    assert(p.zbit(2 * i) == p.bit6(i)) by {
        assert((2 * i) / 2 == i && (2 * i) % 2 == 0);
    }
    assert(p.zbit(2 * i + 1) == p.bit4(i)) by {
        assert((2 * i + 1) / 2 == i && (2 * i + 1) % 2 == 1);
    }
    assert(p.zbit(2 * (i - t)) == p.bit6(i - t)) by {
        assert((2 * (i - t)) / 2 == i - t && (2 * (i - t)) % 2 == 0);
    }
    assert(p.zbit(2 * (i - t) + 1) == p.bit4(i - t)) by {
        assert((2 * (i - t) + 1) / 2 == i - t && (2 * (i - t) + 1) % 2 == 1);
    }
    assert(p.zbit(2 * (i - t - 1) + 1) == p.bit4(i - t - 1)) by {
        assert((2 * (i - t - 1) + 1) / 2 == i - t - 1 && (2 * (i - t - 1) + 1) % 2 == 1);
    }
    if i < 0 {
        assert(!p.bit6(i) && !p.bit4(i));
    }
}

/// For `x = 3` the high stage of pair `i` adds the pair's own two bits, so
/// its classification is that of the pair itself: Generate where both are
/// set (AND), Propagate where one is (XOR), Kill where none is (NOR).
pub proof fn lemma_high_stage_x3(p: Pairs, i: int)
    requires
        p.wf(),
    ensures
        shift_of(3) == 1,
        nat_bit(p.value(), 2 * i + 1 - shift_of(3)) == p.bit6(i),
        nat_bit(p.value(), 2 * i + 1) == p.bit4(i),
        crate::model::stage_class(
            nat_bit(p.value(), 2 * i + 1 - shift_of(3)),
            nat_bit(p.value(), 2 * i + 1),
        ) == if p.bit4(i) && p.bit6(i) {
            crate::scan::Gpk::Generate
        } else if p.bit4(i) != p.bit6(i) {
            crate::scan::Gpk::Propagate
        } else {
            crate::scan::Gpk::Kill
        },
{
    lemma2_to64();
    lemma_power_shift(3, 1);
    lemma_reference_bits(p, 1, i);
}

} // verus!

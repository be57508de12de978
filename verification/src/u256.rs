//! Unsigned 256-bit numbers in four 64-bit limbs, lowest limb first, with
//! the operations that the step needs.

use vstd::prelude::*;
use vstd::arithmetic::power2::{pow2, lemma_pow2_adds, lemma_pow2_pos, lemma2_to64};
use num_bigint::BigUint;
use crate::big::{biguint_value, bytes_bits};
use crate::bits::{
    bits_from, bits_value, bit_length, low_zeros, nat_bit, word_bit, lemma_bits_value_agree,
    lemma_bits_value_bound, lemma_bits_value_digit, lemma_bits_value_is_zero,
    lemma_bits_value_shifted, lemma_bits_value_split, lemma_bits_value_zero_tail,
    lemma_bit_length_at, lemma_low_zeros_at, lemma_nat_bit_above, lemma_word_bitwise,
    lemma_word_consts, lemma_word_shl, lemma_word_shr, lemma_word_value, lemma_word_zero,
    highest_bit,
};
use crate::streams::stream_bit;

verus! {

/// An unsigned 256-bit number.
#[derive(Clone, Copy, Debug)]
pub struct U256(pub [u64; 4]);

/// The bits of a packed stream, as a function of the position.
pub open spec fn stream_bits(words: Seq<u64>) -> spec_fn(int) -> bool {
    |j: int| stream_bit(words, j)
}

/// The number that the first `n` words of a stream hold, lowest word first.
pub open spec fn words_value(words: Seq<u64>, n: nat) -> nat
    decreases n,
{
    if n == 0 {
        0
    } else {
        words_value(words, (n - 1) as nat) + (words[n - 1] as nat) * pow2((64 * (n - 1)) as nat)
    }
}

/// The first `n` words of a stream hold the value of their bits.
pub proof fn lemma_words_value(words: Seq<u64>, n: nat)
    requires
        n <= words.len(),
    ensures
        bits_value(stream_bits(words), 64 * n) == words_value(words, n),
    decreases n,
{
    if n > 0 {
        let f = stream_bits(words);
        let low: nat = (64 * (n - 1)) as nat;
        lemma_words_value(words, (n - 1) as nat);
        lemma_bits_value_split(f, low, 64 * n);
        let g = bits_from(f, low as int);
        let w = words[n - 1];
        assert forall|t: int| 0 <= t < 64 implies #[trigger] g(t) == word_bit(w, t) by {
            assert((t + low) / 64 == n - 1 && (t + low) % 64 == t);
        }
        lemma_word_value(w, g);
        assert(pow2(low) * (w as nat) == w * pow2(low)) by (nonlinear_arith);
    }
}

/// The low and the high 64 bits of a 128-bit number.
proof fn lemma_truncate_bv(prod: u128)
    by (bit_vector)
    ensures
        (prod as u64) == prod % 0x1_0000_0000_0000_0000u128,
        (prod >> 64u128) == prod / 0x1_0000_0000_0000_0000u128,
        prod == (prod as u64) as u128 | ((((prod >> 64u128) as u64) as u128) << 64u128),
{
}

/// Two 64-bit halves joined by shifting are their weighted sum.
proof fn lemma_join_bv(lo: u64, hi: u64)
    by (bit_vector)
    ensures
        (lo as u128) | ((hi as u128) << 64u128) == lo as u128 + (hi as u128)
            * 0x1_0000_0000_0000_0000u128,
{
}

/// Bit `t` of byte `j` of a word is bit `8j + t` of the word.
proof fn lemma_byte_of_word_bv(w: u64, j: u64, t: u64)
    by (bit_vector)
    requires
        j < 8,
        t < 8,
    ensures
        ((((w >> (8 * j)) as u8) >> (t as u8)) & 1u8 == 1u8) == ((w >> ((8 * j + t) as u64)) & 1u64
            == 1u64),
{
}

impl U256 {
    /// The number held.
    pub open spec fn value(self) -> nat {
        words_value(self.0@, 4)
    }

    /// The bits of the number are the bits of the limbs.
    pub proof fn lemma_bits(self)
        ensures
            self.value() == bits_value(stream_bits(self.0@), 256),
            self.value() < pow2(256),
            forall|j: int| #[trigger] stream_bit(self.0@, j) == nat_bit(self.value(), j),
    {
        let f = stream_bits(self.0@);
        lemma_words_value(self.0@, 4);
        lemma_bits_value_bound(f, 256);
        assert forall|j: int| #[trigger] stream_bit(self.0@, j) == nat_bit(self.value(), j) by {
            if 0 <= j < 256 {
                lemma_bits_value_digit(f, 256, j);
            } else if j >= 256 {
                lemma_nat_bit_above(self.value(), 256, j);
                assert(j / 64 >= 4);
            }
        }
    }

    /// The limbs as a sum.
    pub proof fn lemma_value(self)
        ensures
            self.value() == self.0[0] + self.0[1] * pow2(64) + self.0[2] * pow2(128) + self.0[3]
                * pow2(192),
            pow2(64) == 0x1_0000_0000_0000_0000,
            pow2(128) == 0x1_0000_0000_0000_0000_0000_0000_0000_0000,
            pow2(192) == 0x1_0000_0000_0000_0000_0000_0000_0000_0000_0000_0000_0000_0000,
            pow2(256)
                == 0x1_0000_0000_0000_0000_0000_0000_0000_0000_0000_0000_0000_0000_0000_0000_0000_0000,
    {
        lemma2_to64();
        lemma_pow2_adds(64, 64);
        lemma_pow2_adds(128, 64);
        lemma_pow2_adds(192, 64);
        assert(0x1_0000_0000_0000_0000int * 0x1_0000_0000_0000_0000int
            == 0x1_0000_0000_0000_0000_0000_0000_0000_0000int);
        assert(0x1_0000_0000_0000_0000_0000_0000_0000_0000int * 0x1_0000_0000_0000_0000int
            == 0x1_0000_0000_0000_0000_0000_0000_0000_0000_0000_0000_0000_0000int);
        assert(0x1_0000_0000_0000_0000_0000_0000_0000_0000_0000_0000_0000_0000int
            * 0x1_0000_0000_0000_0000int
            == 0x1_0000_0000_0000_0000_0000_0000_0000_0000_0000_0000_0000_0000_0000_0000_0000_0000int);
        assert(words_value(self.0@, 4) == words_value(self.0@, 3) + self.0@[3] * pow2(192));
        assert(words_value(self.0@, 3) == words_value(self.0@, 2) + self.0@[2] * pow2(128));
        assert(words_value(self.0@, 2) == words_value(self.0@, 1) + self.0@[1] * pow2(64));
        assert(words_value(self.0@, 1) == words_value(self.0@, 0) + self.0@[0] * pow2(0));
        assert(self.0@[0] * 1 == self.0@[0]);
    }

    /// The number `v`.
    pub fn from_u128(v: u128) -> (r: Self)
        ensures
            r.value() == v,
    {
        let r = U256([v as u64, (v >> 64) as u64, 0, 0]);
        proof {
            r.lemma_value();
            lemma_truncate_bv(v);
            lemma_join_bv(v as u64, (v >> 64u128) as u64);
            assert(0 * pow2(128) == 0);
            assert(0 * pow2(192) == 0);
        }
        r
    }

    /// The product with `x`, or `None` where it does not fit in 256 bits.
    pub fn mul_small_checked(self, x: u64) -> (r: Option<Self>)
        ensures
            r is Some <==> self.value() * x < pow2(256),
            r matches Some(p) ==> p.value() == self.value() * x,
    {
        let mut result: [u64; 4] = [0u64;4];
        let mut carry: u128 = 0;
        let mut i: usize = 0;
        proof {
            lemma2_to64();
            assert(x * 0 == 0);
        }
        while i < 4
            invariant
                i <= 4,
                carry < 0x1_0000_0000_0000_0000,
                words_value(result@, i as nat) + carry * pow2((64 * i) as nat) == x * words_value(
                    self.0@,
                    i as nat,
                ),
            decreases 4 - i,
        {
            let limb: u64 = self.0[i];
            assert(limb as u128 * x as u128 + carry < 0x1_0000_0000_0000_0000_0000_0000_0000_0000)
                by (nonlinear_arith)
                requires
                    limb < 0x1_0000_0000_0000_0000,
                    x < 0x1_0000_0000_0000_0000,
                    carry < 0x1_0000_0000_0000_0000,
            ;
            let prod: u128 = limb as u128 * x as u128 + carry;
            let ghost old_result = result@;
            let ghost old_carry = carry;
            result[i] = prod as u64;
            carry = prod >> 64;
            proof {
                lemma_truncate_bv(prod);
                lemma2_to64();
                lemma_pow2_adds((64 * i) as nat, 64);
                let low = pow2((64 * i) as nat);
                let r_i: int = result@[i as int] as int;
                let c: int = carry as int;
                assert(prod == r_i + c * 0x1_0000_0000_0000_0000);
                assert(words_value(result@, i as nat) == words_value(old_result, i as nat)) by {
                    lemma_words_same(result@, old_result, i as nat);
                }
                assert(words_value(result@, (i + 1) as nat) == words_value(result@, i as nat) + r_i
                    * low);
                assert(words_value(self.0@, (i + 1) as nat) == words_value(self.0@, i as nat) + limb
                    * low);
                let a = words_value(old_result, i as nat) as int;
                let b = words_value(self.0@, i as nat) as int;
                let oc: int = old_carry as int;
                let l: int = limb as int;
                let xx: int = x as int;
                let lw: int = low as int;
                assert(a + r_i * lw + c * (lw * 0x1_0000_0000_0000_0000) == xx * (b + l * lw))
                    by (nonlinear_arith)
                    requires
                        a + oc * lw == xx * b,
                        l * xx + oc == r_i + c * 0x1_0000_0000_0000_0000,
                ;
            }
            i = i + 1;
        }
        proof {
            lemma2_to64();
            lemma_pow2_adds(192, 64);
            lemma_pow2_pos(256);
            let out = U256(result);
            out.lemma_bits();
            assert(x * self.value() == self.value() * x) by (nonlinear_arith);
            if carry != 0 {
                assert(carry * pow2(256) >= pow2(256)) by (nonlinear_arith)
                    requires
                        carry >= 1,
                        pow2(256) > 0,
                ;
            } else {
                assert(carry * pow2(256) == 0) by (nonlinear_arith)
                    requires
                        carry == 0,
                ;
            }
        }
        if carry != 0 {
            return None;
        }
        Some(U256(result))
    }

    /// Whether every bit is set.
    pub fn is_max(self) -> (r: bool)
        ensures
            r == (self.value() + 1 == pow2(256)),
    {
        proof {
            self.lemma_value();
        }
        self.0[0] == u64::MAX && self.0[1] == u64::MAX && self.0[2] == u64::MAX && self.0[3]
            == u64::MAX
    }

    /// The number plus one. The number has to be below the largest.
    pub fn add_one(self) -> (r: Self)
        requires
            self.value() + 1 < pow2(256),
        ensures
            r.value() == self.value() + 1,
    {
        let mut out = self;
        proof {
            self.lemma_value();
        }
        let mut i: usize = 0;
        while i < 4
            invariant
                i <= 4,
                self.value() + 1 < pow2(256),
                forall|j: int| 0 <= j < i ==> #[trigger] self.0[j] == u64::MAX,
                forall|j: int| 0 <= j < i ==> #[trigger] out.0[j] == 0,
                forall|j: int| i <= j < 4 ==> self.0[j] == #[trigger] out.0[j],
            decreases 4 - i,
        {
            let ghost before = out;
            if out.0[i] < u64::MAX {
                out.0[i] = out.0[i] + 1;
                proof {
                    assert(before.0[i as int] == self.0[i as int]);
                    assert(out.0@ == before.0@.update(i as int, (self.0[i as int] + 1) as u64));
                    assert forall|j: int| 0 <= j < i implies self.0[j] == u64::MAX && out.0[j]
                        == 0 by {
                        assert(out.0[j] == before.0[j]);
                    }
                    assert forall|j: int| i < j < 4 implies self.0[j] == out.0[j] by {
                        assert(out.0[j] == before.0[j]);
                    }
                    lemma_add_one_value(self, out, i as int);
                }
                return out;
            }
            out.0[i] = 0;
            proof {
                assert(before.0[i as int] == self.0[i as int]);
                assert(out.0@ == before.0@.update(i as int, 0u64));
                assert forall|j: int| 0 <= j < i + 1 implies #[trigger] out.0[j] == 0 by {
                    if j < i {
                        assert(out.0[j] == before.0[j]);
                    }
                }
                assert forall|j: int| i + 1 <= j < 4 implies self.0[j] == #[trigger] out.0[j] by {
                    assert(out.0[j] == before.0[j]);
                }
            }
            i = i + 1;
        }
        proof {
            self.lemma_value();
            assert(self.0[0] == u64::MAX);
            assert(self.0[1] == u64::MAX);
            assert(self.0[2] == u64::MAX);
            assert(self.0[3] == u64::MAX);
        }
        out
    }

    /// Number of zero bits below the lowest set bit; 256 for zero.
    pub fn trailing_zeros(self) -> (r: u32)
        ensures
            self.value() == 0 ==> r == 256,
            self.value() > 0 ==> r == low_zeros(self.value()),
            r <= 256,
    {
        let ghost f = stream_bits(self.0@);
        proof {
            self.lemma_bits();
        }
        let mut i: usize = 0;
        while i < 4
            invariant
                i <= 4,
                f == stream_bits(self.0@),
                self.value() == bits_value(f, 256),
                forall|j: int| 0 <= j < 64 * i ==> !#[trigger] f(j),
            decreases 4 - i,
        {
            let limb: u64 = self.0[i];
            if limb != 0 {
                let tz: u32 = limb.trailing_zeros();
                proof {
                    vstd::std_specs::bits::axiom_u64_trailing_zeros(limb);
                    let p: int = 64 * i + tz;
                    assert(p / 64 == i && p % 64 == tz);
                    assert(f(p));
                    assert forall|j: int| 0 <= j < p implies !#[trigger] f(j) by {
                        if j >= 64 * i {
                            assert(j / 64 == i);
                            let t: u64 = (j % 64) as u64;
                            assert((limb >> t) & 1u64 == 0u64);
                        }
                    }
                    lemma_low_zeros_at(f, p as nat, 256);
                }
                return i as u32 * 64 + tz;
            }
            proof {
                lemma_word_zero(limb);
                assert forall|j: int| 0 <= j < 64 * (i + 1) implies !#[trigger] f(j) by {
                    if j >= 64 * i {
                        assert(j / 64 == i);
                    }
                }
            }
            i = i + 1;
        }
        proof {
            lemma_bits_value_is_zero(f, 256);
        }
        256
    }

    /// The number shifted right by `d` bits.
    pub fn shr(self, d: u32) -> (r: Self)
        ensures
            r.value() == self.value() / pow2(d as nat),
    {
        let ghost f = stream_bits(self.0@);
        proof {
            self.lemma_bits();
            lemma2_to64();
        }
        if d == 0 {
            assert(self.value() / 1 == self.value());
            return self;
        }
        if d >= 256 {
            let z = U256([0u64;4]);
            proof {
                z.lemma_value();
                assert(0 * pow2(64) == 0 && 0 * pow2(128) == 0 && 0 * pow2(192) == 0);
                lemma_bits_value_shifted(f, d as nat, 256);
            }
            return z;
        }
        let word_shift: usize = (d / 64) as usize;
        let bit_shift: u64 = (d % 64) as u64;
        let mut result: [u64; 4] = [0u64;4];
        proof {
            lemma_word_consts();
            assert forall|j: int| !#[trigger] stream_bit(result@, j) by {
                if 0 <= j && j / 64 < 4 {
                    assert(result@[j / 64] == 0);
                }
            }
        }
        let mut i: usize = 0;
        while i < 4
            invariant
                i <= 4,
                0 < d < 256,
                word_shift == d / 64,
                bit_shift == d % 64,
                f == stream_bits(self.0@),
                forall|j: int|
                    0 <= j < 64 * i ==> #[trigger] stream_bit(result@, j) == stream_bit(
                        self.0@,
                        j + d,
                    ),
                forall|j: int| 64 * i <= j ==> !#[trigger] stream_bit(result@, j),
                forall|q: int| i <= q < 4 ==> #[trigger] result@[q] == 0,
            decreases 4 - i,
        {
            let src: usize = i + word_shift;
            let ghost before = result@;
            if src < 4 {
                let lo: u64 = self.0[src] >> bit_shift;
                let mut word: u64 = lo;
                proof {
                    lemma_word_shr(self.0[src as int], bit_shift);
                    lemma_word_consts();
                }
                if bit_shift > 0 && src + 1 < 4 {
                    let hi: u64 = self.0[src + 1] << (64 - bit_shift);
                    proof {
                        lemma_word_shl(self.0[src + 1], (64 - bit_shift) as u64);
                        lemma_word_bitwise(lo, hi);
                    }
                    word = lo | hi;
                }
                result[i] = word;
                proof {
                    assert forall|t: int| 0 <= t < 64 implies #[trigger] word_bit(word, t)
                        == stream_bit(self.0@, 64 * i + t + d) by {
                        let q: int = 64 * i + t + d;
                        if t + bit_shift < 64 {
                            assert(q / 64 == src && q % 64 == t + bit_shift);
                        } else {
                            assert(q / 64 == src + 1 && q % 64 == t + bit_shift - 64);
                        }
                    }
                }
            } else {
                proof {
                    lemma_word_consts();
                    assert forall|t: int| 0 <= t < 64 implies #[trigger] word_bit(0u64, t)
                        == stream_bit(self.0@, 64 * i + t + d) by {
                        assert(d >= 64 * word_shift);
                        assert(64 * i + t + d >= 256);
                        assert((64 * i + t + d) / 64 >= 4);
                    }
                }
            }
            proof {
                assert forall|j: int| 0 <= j < 64 * (i + 1) implies #[trigger] stream_bit(
                    result@,
                    j,
                ) == stream_bit(self.0@, j + d) by {
                    if j >= 64 * i {
                        assert(j / 64 == i);
                        let t: int = j % 64;
                        assert(j == 64 * i + t);
                        if src < 4 {
                            assert(word_bit(result@[i as int], t) == stream_bit(
                                self.0@,
                                64 * i + t + d,
                            ));
                        } else {
                            assert(result@[i as int] == 0);
                            assert(word_bit(0u64, t) == stream_bit(self.0@, 64 * i + t + d));
                        }
                    } else {
                        assert(result@[j / 64] == before[j / 64]);
                        assert(stream_bit(before, j) == stream_bit(self.0@, j + d));
                    }
                }
                assert forall|j: int| 64 * (i + 1) <= j implies !#[trigger] stream_bit(
                    result@,
                    j,
                ) by {
                    if j / 64 < 4 {
                        assert(result@[j / 64] == before[j / 64]);
                        assert(!stream_bit(before, j));
                    }
                }
            }
            i = i + 1;
        }
        let r = U256(result);
        proof {
            r.lemma_bits();
            let g = bits_from(f, d as int);
            let h = stream_bits(result@);
            assert forall|j: int| 0 <= j < 256 implies #[trigger] h(j) == g(j) by {
                assert(stream_bit(result@, j) == stream_bit(self.0@, j + d));
            }
            lemma_bits_value_agree(h, g, 256);
            assert forall|j: int| 256 - d <= j < 256 implies !#[trigger] g(j) by {
                assert((j + d) / 64 >= 4);
            }
            lemma_bits_value_zero_tail(g, (256 - d) as nat, 256);
            lemma_bits_value_shifted(f, d as nat, 256);
        }
        r
    }

    /// Whether the number is 1.
    pub fn is_one(self) -> (r: bool)
        ensures
            r == (self.value() == 1),
    {
        proof {
            self.lemma_value();
        }
        self.0[0] == 1 && self.0[1] == 0 && self.0[2] == 0 && self.0[3] == 0
    }

    /// Whether the number is below `v`.
    pub fn lt_u128(self, v: u128) -> (r: bool)
        ensures
            r == (self.value() < v),
    {
        proof {
            self.lemma_value();
        }
        if self.0[3] != 0 || self.0[2] != 0 {
            return false;
        }
        let self_lo: u128 = self.0[0] as u128 | ((self.0[1] as u128) << 64);
        proof {
            lemma_join_bv(self.0[0], self.0[1]);
            assert(0 * pow2(128) == 0 && 0 * pow2(192) == 0);
        }
        self_lo < v
    }

    /// The number as a `BigUint`.
    pub fn to_biguint(self) -> (r: BigUint)
        ensures
            biguint_value(r) == self.value(),
    {
        let mut bytes: Vec<u8> = Vec::new();
        let mut i: usize = 0;
        while i < 4
            invariant
                i <= 4,
                bytes@.len() == 8 * i,
                forall|q: int|
                    0 <= q < 64 * i ==> #[trigger] bytes_bits(bytes@)(q) == stream_bit(self.0@, q),
            decreases 4 - i,
        {
            let limb: u64 = self.0[i];
            let mut j: usize = 0;
            while j < 8
                invariant
                    i < 4,
                    j <= 8,
                    limb == self.0[i as int],
                    bytes@.len() == 8 * i + j,
                    forall|q: int|
                        0 <= q < 64 * i + 8 * j ==> #[trigger] bytes_bits(bytes@)(q) == stream_bit(
                            self.0@,
                            q,
                        ),
                decreases 8 - j,
            {
                let ghost before = bytes@;
                let b: u8 = (limb >> (8 * j as u64)) as u8;
                bytes.push(b);
                proof {
                    assert forall|q: int| 0 <= q < 64 * i + 8 * (j + 1) implies #[trigger] bytes_bits(
                        bytes@,
                    )(q) == stream_bit(self.0@, q) by {
                        if q < 64 * i + 8 * j {
                            assert(bytes@[q / 8] == before[q / 8]);
                            assert(bytes_bits(before)(q) == stream_bit(self.0@, q));
                        } else {
                            let t: int = q % 8;
                            assert(q / 8 == 8 * i + j);
                            assert(q / 64 == i && q % 64 == 8 * j + t);
                            lemma_byte_of_word_bv(limb, j as u64, t as u64);
                        }
                    }
                }
                j = j + 1;
            }
            i = i + 1;
        }
        proof {
            self.lemma_bits();
            lemma_bits_value_agree(bytes_bits(bytes@), stream_bits(self.0@), 256);
        }
        BigUint::from_bytes_le(bytes.as_slice())
    }

    /// Number of bits of the number; 0 for zero.
    pub fn bit_len(self) -> (r: u32)
        ensures
            r == bit_length(self.value()),
            r <= 256,
    {
        let ghost f = stream_bits(self.0@);
        proof {
            self.lemma_bits();
        }
        let mut i: usize = 4;
        while i > 0
            invariant
                i <= 4,
                f == stream_bits(self.0@),
                self.value() == bits_value(f, 256),
                forall|j: int| 64 * i <= j < 256 ==> !#[trigger] f(j),
            decreases i,
        {
            i = i - 1;
            let limb: u64 = self.0[i];
            if limb != 0 {
                let top: u64 = highest_bit(limb);
                proof {
                    let p: int = 64 * i + top;
                    assert(p / 64 == i && p % 64 == top);
                    assert(f(p));
                    assert forall|j: int| p < j < 256 implies !#[trigger] f(j) by {
                        if j < 64 * (i + 1) {
                            assert(j / 64 == i);
                        }
                    }
                    lemma_bit_length_at(f, p as nat, 256);
                }
                return i as u32 * 64 + (top as u32 + 1);
            }
            proof {
                lemma_word_zero(limb);
                assert forall|j: int| 64 * i <= j < 256 implies !#[trigger] f(j) by {
                    if j < 64 * (i + 1) {
                        assert(j / 64 == i);
                    }
                }
            }
        }
        proof {
            lemma_bits_value_is_zero(f, 256);
        }
        0
    }
}

/// The value of the first `n` words does not depend on the words behind them.
pub proof fn lemma_words_same(a: Seq<u64>, b: Seq<u64>, n: nat)
    requires
        forall|j: int| 0 <= j < n ==> a[j] == b[j],
    ensures
        words_value(a, n) == words_value(b, n),
    decreases n,
{
    if n > 0 {
        lemma_words_same(a, b, (n - 1) as nat);
    }
}

/// Adding one to limb `i`, with the limbs below it turned from all ones to
/// zero, adds one to the number.
proof fn lemma_add_one_value(a: U256, b: U256, i: int)
    requires
        0 <= i < 4,
        forall|j: int| 0 <= j < i ==> a.0[j] == u64::MAX && b.0[j] == 0,
        b.0[i] == a.0[i] + 1,
        forall|j: int| i < j < 4 ==> a.0[j] == b.0[j],
    ensures
        b.value() == a.value() + 1,
{
    a.lemma_value();
    b.lemma_value();
    if i == 0 {
        assert(a.0[1] == b.0[1] && a.0[2] == b.0[2] && a.0[3] == b.0[3]);
    } else if i == 1 {
        assert(a.0[0] == u64::MAX && b.0[0] == 0);
        assert(a.0[2] == b.0[2] && a.0[3] == b.0[3]);
    } else if i == 2 {
        assert(a.0[0] == u64::MAX && b.0[0] == 0);
        assert(a.0[1] == u64::MAX && b.0[1] == 0);
        assert(a.0[3] == b.0[3]);
    } else {
        assert(a.0[0] == u64::MAX && b.0[0] == 0);
        assert(a.0[1] == u64::MAX && b.0[1] == 0);
        assert(a.0[2] == u64::MAX && b.0[2] == 0);
    }
}

} // verus!

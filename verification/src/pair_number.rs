//! Natural numbers as two packed streams of bit pairs.
//!
//! The binary expansion of a number is padded to an even length `2k` and cut
//! into `k` pairs, pair 0 lowest. The low bit of pair `i` (bit `2i` of the
//! number) is position `i` of the stream `m6`, the high bit (bit `2i + 1`)
//! is position `i` of the stream `m4`.

use vstd::prelude::*;
use std::cmp::Ordering;
use num_bigint::BigUint;
use crate::big::{biguint_bytes, biguint_is_zero, biguint_value, bytes_bits};
use vstd::std_specs::cmp::{PartialEqSpecImpl, PartialOrdSpecImpl};
use vstd::arithmetic::power2::{pow2, lemma_pow2_strictly_increases, lemma_pow2_unfold, lemma2_to64};
use crate::bits::{
    bits_value, bit_length, nat_bit, word_bit, lemma_bits_value_agree, lemma_bits_value_bound,
    lemma_bits_value_digit, lemma_bits_value_ge, lemma_bits_value_is_zero,
    lemma_bits_value_zero_tail, lemma_bit_length_bounds, lemma_nat_bit_above, lemma_word_consts,
    lemma_word_ext, lemma_bits_value_order, lemma_word_bitwise, lemma_single_bit, highest_bit,
    lemma_byte_bit_value, lemma_byte_set, lemma_top_bit,
};
use crate::streams::{
    stream_bit, words_for, word_count_for, zero_words, packed_bit, or_packed_bit, mask_top,
};

verus! {

/// The mathematical content of a pair number: the two streams and the number
/// of pairs.
pub struct Pairs {
    pub m4: Seq<u64>,
    pub m6: Seq<u64>,
    pub k: nat,
}

/// The pairs held by the words `m4` and `m6`, `k` of them.
pub open spec fn pairs_of(m4: Seq<u64>, m6: Seq<u64>, k: int) -> Pairs {
    Pairs { m4, m6, k: k as nat }
}

/// Number of pairs of the canonical form of `v`.
pub open spec fn pair_len(v: nat) -> nat {
    if v == 0 {
        1
    } else {
        (bit_length(v) + 1) / 2
    }
}

impl Pairs {
    /// High bit of pair `i`; 0 outside `0..k`.
    pub open spec fn bit4(self, i: int) -> bool {
        i < self.k && stream_bit(self.m4, i)
    }

    /// Low bit of pair `i`; 0 outside `0..k`.
    pub open spec fn bit6(self, i: int) -> bool {
        i < self.k && stream_bit(self.m6, i)
    }

    /// Bit `j` of the interleaved sequence m6[0], m4[0], m6[1], m4[1], ..
    pub open spec fn zbit(self, j: int) -> bool {
        if j % 2 == 0 {
            self.bit6(j / 2)
        } else {
            self.bit4(j / 2)
        }
    }

    /// The interleaved sequence as a function of the position.
    pub open spec fn zbits(self) -> spec_fn(int) -> bool {
        |j: int| self.zbit(j)
    }

    /// The number that the pairs stand for: the sum of
    /// `(2 * m4[i] + m6[i]) * 4^i` over the `k` pairs.
    pub open spec fn value(self) -> nat {
        bits_value(self.zbits(), 2 * self.k)
    }

    /// Both streams have a word for every pair.
    pub open spec fn covered(self) -> bool {
        self.m4.len() >= words_for(self.k) && self.m6.len() >= words_for(self.k)
    }

    /// Canonical form: at least one pair, exactly the words needed, nothing
    /// set at or above pair `k`, and a top pair other than (0, 0) unless
    /// there is one pair only.
    pub open spec fn wf(self) -> bool {
        &&& self.k >= 1
        &&& self.m4.len() == words_for(self.k)
        &&& self.m6.len() == words_for(self.k)
        &&& forall|i: int| i >= self.k ==> !#[trigger] stream_bit(self.m4, i)
        &&& forall|i: int| i >= self.k ==> !#[trigger] stream_bit(self.m6, i)
        &&& self.k > 1 ==> (self.bit4(self.k - 1) || self.bit6(self.k - 1))
    }
}

/// The bytes that are 1, as a function of the position; false outside the bytes.
pub open spec fn byte_flags(s: Seq<u8>) -> spec_fn(int) -> bool {
    |j: int| 0 <= j < s.len() && s[j] == 1
}

/// Pairs with the same pair bits stand for the same number.
pub proof fn lemma_value_agree(a: Pairs, b: Pairs)
    requires
        a.k == b.k,
        forall|i: int| 0 <= i < a.k ==> a.bit4(i) == b.bit4(i) && a.bit6(i) == b.bit6(i),
    ensures
        a.value() == b.value(),
{
    assert forall|j: int| 0 <= j < 2 * a.k implies #[trigger] a.zbits()(j) == b.zbits()(j) by {
        assert(0 <= j / 2 < a.k);
    }
    lemma_bits_value_agree(a.zbits(), b.zbits(), 2 * a.k);
}

/// Zero pairs at the top do not change the number.
pub proof fn lemma_value_trim(a: Pairs, k: nat)
    requires
        k <= a.k,
        forall|i: int| k <= i < a.k ==> !a.bit4(i) && !a.bit6(i),
    ensures
        pairs_of(a.m4, a.m6, k as int).value() == a.value(),
{
    let b = pairs_of(a.m4, a.m6, k as int);
    assert forall|j: int| 2 * k <= j < 2 * a.k implies !#[trigger] a.zbits()(j) by {
        assert(k <= j / 2 < a.k);
    }
    lemma_bits_value_zero_tail(a.zbits(), 2 * k, 2 * a.k);
    assert forall|j: int| 0 <= j < 2 * k implies #[trigger] a.zbits()(j) == b.zbits()(j) by {
        assert(0 <= j / 2 < k);
    }
    lemma_bits_value_agree(a.zbits(), b.zbits(), 2 * k);
}

/// The pairs of a canonical form are the binary digits of its value, and
/// their number is the one that the value calls for.
pub proof fn lemma_canonical_digits(p: Pairs)
    requires
        p.wf(),
    ensures
        forall|j: int| #[trigger] p.zbit(j) == nat_bit(p.value(), j),
        p.k == pair_len(p.value()),
        p.value() < pow2(2 * p.k),
{
    let v = p.value();
    lemma_bits_value_bound(p.zbits(), 2 * p.k);
    assert forall|j: int| #[trigger] p.zbit(j) == nat_bit(v, j) by {
        if 0 <= j < 2 * p.k {
            lemma_bits_value_digit(p.zbits(), 2 * p.k, j);
        } else if j >= 2 * p.k {
            lemma_nat_bit_above(v, 2 * p.k, j);
            assert(j / 2 >= p.k);
        } else {
            assert(j / 2 < 0);
        }
    }
    lemma2_to64();
    if p.k > 1 {
        let top: int = p.k - 1;
        let pos: nat = if p.bit6(top) { (2 * top) as nat } else { (2 * top + 1) as nat };
        assert(p.zbits()(pos as int));
        lemma_bits_value_ge(p.zbits(), pos, 2 * p.k);
        if pos > 2 * top {
            lemma_pow2_strictly_increases((2 * top) as nat, pos);
        }
        lemma_bit_length_bounds(v, (2 * top) as nat);
        lemma_bit_length_bounds(v, 2 * p.k);
    } else {
        lemma_bit_length_bounds(v, 2);
        if v > 0 {
            lemma_bit_length_bounds(v, 0);
        }
    }
}

/// Canonical forms of the same number are the same pairs.
pub proof fn lemma_canonical_unique(a: Pairs, b: Pairs)
    requires
        a.wf(),
        b.wf(),
        a.value() == b.value(),
    ensures
        a == b,
{
    lemma_canonical_digits(a);
    lemma_canonical_digits(b);
    assert(a.k == b.k);
    assert forall|i: int| #[trigger] stream_bit(a.m4, i) == stream_bit(b.m4, i) by {
        if 0 <= i < a.k {
            assert(a.zbit(2 * i + 1) == b.zbit(2 * i + 1));
            assert((2 * i + 1) / 2 == i);
        }
    }
    assert forall|i: int| #[trigger] stream_bit(a.m6, i) == stream_bit(b.m6, i) by {
        if 0 <= i < a.k {
            assert(a.zbit(2 * i) == b.zbit(2 * i));
            assert((2 * i) / 2 == i);
        }
    }
    lemma_streams_ext(a.m4, b.m4);
    lemma_streams_ext(a.m6, b.m6);
}

/// Streams of the same length with the same bits are the same words.
pub proof fn lemma_streams_ext(a: Seq<u64>, b: Seq<u64>)
    requires
        a.len() == b.len(),
        forall|i: int| #[trigger] stream_bit(a, i) == stream_bit(b, i),
    ensures
        a == b,
{
    assert forall|w: int| 0 <= w < a.len() implies a[w] == b[w] by {
        assert forall|t: int| 0 <= t < 64 implies word_bit(a[w], t) == word_bit(b[w], t) by {
            let i: int = 64 * w + t;
            assert(i / 64 == w && i % 64 == t);
            assert(stream_bit(a, i) == stream_bit(b, i));
        }
        lemma_word_ext(a[w], b[w]);
    }
    assert(a =~= b);
}

/// A natural number in canonical pair form.
#[derive(Debug)]
pub struct PairNumber {
    m4_words: Vec<u64>,
    m6_words: Vec<u64>,
    pair_count: usize,
}

impl View for PairNumber {
    type V = Pairs;

    closed spec fn view(&self) -> Pairs {
        Pairs { m4: self.m4_words@, m6: self.m6_words@, k: self.pair_count as nat }
    }
}

impl Clone for PairNumber {
    fn clone(&self) -> (r: Self)
        ensures
            r@ == self@,
    {
        proof {
            use_type_invariant(self);
        }
        let m4 = self.m4_words.clone();
        let m6 = self.m6_words.clone();
        assert(m4@ =~= self.m4_words@);
        assert(m6@ =~= self.m6_words@);
        PairNumber { m4_words: m4, m6_words: m6, pair_count: self.pair_count }
    }
}

impl PartialEq for PairNumber {
    fn eq(&self, other: &Self) -> (r: bool) {
        match self.compare(other) {
            Ordering::Equal => true,
            _ => false,
        }
    }
}

impl PartialEqSpecImpl for PairNumber {
    open spec fn obeys_eq_spec() -> bool {
        true
    }

    open spec fn eq_spec(&self, other: &Self) -> bool {
        self@.value() == other@.value()
    }
}

impl Eq for PairNumber {

}

impl PartialOrd for PairNumber {
    fn partial_cmp(&self, other: &Self) -> (r: Option<Ordering>) {
        Some(self.compare(other))
    }
}

impl PartialOrdSpecImpl for PairNumber {
    open spec fn obeys_partial_cmp_spec() -> bool {
        true
    }

    open spec fn partial_cmp_spec(&self, other: &Self) -> Option<Ordering> {
        Some(order_of(self@.value(), other@.value()))
    }
}

impl PairNumber {
    #[verifier::type_invariant]
    spec fn inv(self) -> bool {
        self@.wf()
    }

    /// The canonical pair form of `n`.
    ///
    /// The bit length of `n`, rounded up to an even number, has to fit in a
    /// `usize`: see [`PairNumber::try_from_biguint`].
    pub fn from_biguint(n: &BigUint) -> (r: Self)
        requires
            bit_length(biguint_value(*n)) < usize::MAX,
        ensures
            r@.wf(),
            r@.value() == biguint_value(*n),
    {
        if biguint_is_zero(n) {
            let m4 = zero_words(1);
            let m6 = zero_words(1);
            proof {
                lemma_bits_value_is_zero(pairs_of(m4@, m6@, 1).zbits(), 2);
            }
            return PairNumber { m4_words: m4, m6_words: m6, pair_count: 1 };
        }
        let bytes: Vec<u8> = n.to_bytes_le();
        let bit_len: usize = n.bits() as usize;
        let padded_bit_len: usize = if bit_len % 2 != 0 {
            bit_len + 1
        } else {
            bit_len
        };
        let pair_count: usize = padded_bit_len / 2;
        let word_count: usize = word_count_for(pair_count);
        let mut m4_words: Vec<u64> = zero_words(word_count);
        let mut m6_words: Vec<u64> = zero_words(word_count);
        let ghost src = bytes_bits(bytes@);
        let mut i: usize = 0;
        while i < pair_count
            invariant
                i <= pair_count,
                2 * pair_count <= usize::MAX,
                src == bytes_bits(bytes@),
                m4_words@.len() == word_count,
                m6_words@.len() == word_count,
                pair_count <= 64 * word_count,
                forall|j: int| #[trigger] stream_bit(m6_words@, j) == (0 <= j < i && src(2 * j)),
                forall|j: int| #[trigger] stream_bit(m4_words@, j) == (0 <= j < i && src(2 * j + 1)),
            decreases pair_count - i,
        {
            let m6_bit: u64 = byte_stream_bit(bytes.as_slice(), 2 * i);
            let m4_bit: u64 = byte_stream_bit(bytes.as_slice(), 2 * i + 1);
            or_packed_bit(&mut m6_words, i, m6_bit);
            or_packed_bit(&mut m4_words, i, m4_bit);
            i = i + 1;
        }
        proof {
            let v = biguint_value(*n);
            let r = pairs_of(m4_words@, m6_words@, pair_count as int);
            let len8: nat = 8 * bytes@.len();
            crate::bits::lemma_bit_length(v);
            lemma_bits_value_bound(src, len8);
            lemma_bit_length_bounds(v, len8);
            lemma_top_bit(v);
            assert forall|j: int| 0 <= j < len8 implies #[trigger] src(j) == nat_bit(v, j) by {
                lemma_bits_value_digit(src, len8, j);
            }
            assert forall|j: int| j >= bit_len implies !#[trigger] src(j) by {
                if j < len8 {
                    lemma_nat_bit_above(v, bit_len as nat, j);
                }
            }
            assert forall|j: int| 0 <= j < 2 * pair_count implies #[trigger] r.zbits()(j) == src(j) by {
                assert(0 <= j / 2 < pair_count);
                if j % 2 == 0 {
                    assert(2 * (j / 2) == j);
                } else {
                    assert(2 * (j / 2) + 1 == j);
                }
            }
            lemma_bits_value_agree(r.zbits(), src, 2 * (pair_count as nat));
            if 2 * pair_count <= len8 {
                lemma_bits_value_zero_tail(src, 2 * (pair_count as nat), len8);
            } else {
                lemma_bits_value_zero_tail(src, len8, 2 * (pair_count as nat));
            }
            let top: int = bit_len - 1;
            assert(src(top));
            assert(top / 2 == pair_count - 1);
            assert(r.zbits()(top));
        }
        PairNumber { m4_words, m6_words, pair_count }
    }

    /// The canonical pair form of `n`, or `None` where the bit length of `n`
    /// is too large for [`PairNumber::from_biguint`].
    pub fn try_from_biguint(n: &BigUint) -> (r: Option<Self>)
        ensures
            r is Some <==> biguint_bytes(*n).len() < usize::MAX / 8,
            r matches Some(p) ==> p@.wf() && p@.value() == biguint_value(*n),
    {
        let bytes: usize = n.to_bytes_le().len();
        if bytes < usize::MAX / 8 {
            proof {
                let len8: nat = 8 * (bytes as nat);
                lemma_bits_value_bound(bytes_bits(biguint_bytes(*n)), len8);
                lemma_bit_length_bounds(biguint_value(*n), len8);
            }
            Some(Self::from_biguint(n))
        } else {
            None
        }
    }

    /// The number as a `BigUint`.
    pub fn to_biguint(&self) -> (r: BigUint)
        ensures
            biguint_value(r) == self@.value(),
    {
        proof {
            use_type_invariant(self);
        }
        let k: usize = self.pair_count;
        let byte_count: usize = if k % 4 == 0 {
            k / 4
        } else {
            k / 4 + 1
        };
        let mut bytes: Vec<u8> = vec![0u8; byte_count];
        proof {
            lemma_byte_set(0, 0, 0);
        }
        let mut i: usize = 0;
        while i < k
            invariant
                self@.wf(),
                k == self@.k,
                i <= k,
                bytes@.len() == byte_count,
                k <= 4 * byte_count,
                forall|j: int| #[trigger] bytes_bits(bytes@)(j) == (0 <= j < 2 * i && self@.zbit(j)),
            decreases k - i,
        {
            let m6_bit: u8 = packed_bit(self.m6_words.as_slice(), i) as u8;
            let m4_bit: u8 = packed_bit(self.m4_words.as_slice(), i) as u8;
            let at: usize = i / 4;
            let low: u8 = (2 * (i % 4)) as u8;
            let ghost before = bytes@;
            let b0: u8 = bytes[at];
            let b1: u8 = b0 | (m6_bit << low);
            let b2: u8 = b1 | (m4_bit << (low + 1));
            bytes[at] = b2;
            proof {
                lemma_byte_set(b0, m6_bit, low);
                lemma_byte_set(b1, m4_bit, (low + 1) as u8);
                assert((2 * i) / 2 == i && (2 * i) % 2 == 0);
                assert((2 * i + 1) / 2 == i && (2 * i + 1) % 2 == 1);
                assert forall|j: int| #[trigger]
                    bytes_bits(bytes@)(j) == (0 <= j < 2 * (i + 1) && self@.zbit(j)) by {
                    assert(bytes_bits(before)(j) == (0 <= j < 2 * i && self@.zbit(j)));
                    if 0 <= j < 8 * byte_count {
                        if j / 8 == at {
                            assert(bytes@[j / 8] == b2);
                            assert(before[j / 8] == b0);
                        } else {
                            assert(bytes@[j / 8] == before[j / 8]);
                        }
                    }
                }
            }
            i = i + 1;
        }
        proof {
            let f = bytes_bits(bytes@);
            assert forall|j: int| 0 <= j < 2 * k implies #[trigger] f(j) == self@.zbits()(j) by {}
            lemma_bits_value_agree(f, self@.zbits(), 2 * (k as nat));
            lemma_bits_value_zero_tail(f, 2 * (k as nat), 8 * (byte_count as nat));
        }
        BigUint::from_bytes_le(bytes.as_slice())
    }

    /// Number of pairs `k`.
    pub fn pair_count(&self) -> (r: usize)
        ensures
            r == self@.k,
            self@.wf(),
    {
        proof {
            use_type_invariant(self);
        }
        self.pair_count
    }

    /// Number of words of each stream.
    pub fn word_count(&self) -> (r: usize)
        ensures
            r == words_for(self@.k),
            r == self@.m4.len(),
            self@.wf(),
    {
        proof {
            use_type_invariant(self);
        }
        self.m4_words.len()
    }

    /// High bit of pair `i`, 0 for an `i` outside the pairs.
    pub fn get_m4(&self, i: isize) -> (r: u8)
        ensures
            r == if self@.bit4(i as int) { 1u8 } else { 0u8 },
    {
        proof {
            use_type_invariant(self);
        }
        if i < 0 || i as usize >= self.pair_count {
            0
        } else {
            let idx: usize = i as usize;
            packed_bit(self.m4_words.as_slice(), idx) as u8
        }
    }

    /// Low bit of pair `i`, 0 for an `i` outside the pairs.
    pub fn get_m6(&self, i: isize) -> (r: u8)
        ensures
            r == if self@.bit6(i as int) { 1u8 } else { 0u8 },
    {
        proof {
            use_type_invariant(self);
        }
        if i < 0 || i as usize >= self.pair_count {
            0
        } else {
            let idx: usize = i as usize;
            packed_bit(self.m6_words.as_slice(), idx) as u8
        }
    }

    /// Whether the number is 1.
    pub fn is_one(&self) -> (r: bool)
        ensures
            r == (self@.value() == 1),
    {
        proof {
            use_type_invariant(self);
            lemma_one_form(self@);
        }
        if self.pair_count != 1 {
            return false;
        }
        self.m4_words[0] == 0 && self.m6_words[0] == 1
    }

    /// The words of the stream `m4`.
    pub fn m4_words(&self) -> (r: &[u64])
        ensures
            r@ == self@.m4,
            self@.wf(),
    {
        proof {
            use_type_invariant(self);
        }
        self.m4_words.as_slice()
    }

    /// The words of the stream `m6`.
    pub fn m6_words(&self) -> (r: &[u64])
        ensures
            r@ == self@.m6,
            self@.wf(),
    {
        proof {
            use_type_invariant(self);
        }
        self.m6_words.as_slice()
    }

    /// Takes packed words that are already in canonical form.
    pub fn from_packed(m4_words: Vec<u64>, m6_words: Vec<u64>, pair_count: usize) -> (r: Self)
        requires
            pairs_of(m4_words@, m6_words@, pair_count as int).wf(),
        ensures
            r@ == pairs_of(m4_words@, m6_words@, pair_count as int),
    {
        PairNumber { m4_words, m6_words, pair_count }
    }

    /// The stream `m4` with one byte, 0 or 1, for each pair.
    pub fn m4_as_vec_u8(&self) -> (v: Vec<u8>)
        ensures
            v@.len() == self@.k,
            forall|i: int| 0 <= i < self@.k ==> v@[i] == if self@.bit4(i) { 1u8 } else { 0u8 },
    {
        proof {
            use_type_invariant(self);
        }
        let mut v: Vec<u8> = Vec::new();
        let mut i: usize = 0;
        while i < self.pair_count
            invariant
                self@.wf(),
                i <= self.pair_count,
                v@.len() == i,
                forall|j: int| 0 <= j < i ==> v@[j] == if self@.bit4(j) { 1u8 } else { 0u8 },
            decreases self.pair_count - i,
        {
            v.push(packed_bit(self.m4_words.as_slice(), i) as u8);
            i = i + 1;
        }
        v
    }

    /// The stream `m6` with one byte, 0 or 1, for each pair.
    pub fn m6_as_vec_u8(&self) -> (v: Vec<u8>)
        ensures
            v@.len() == self@.k,
            forall|i: int| 0 <= i < self@.k ==> v@[i] == if self@.bit6(i) { 1u8 } else { 0u8 },
    {
        proof {
            use_type_invariant(self);
        }
        let mut v: Vec<u8> = Vec::new();
        let mut i: usize = 0;
        while i < self.pair_count
            invariant
                self@.wf(),
                i <= self.pair_count,
                v@.len() == i,
                forall|j: int| 0 <= j < i ==> v@[j] == if self@.bit6(j) { 1u8 } else { 0u8 },
            decreases self.pair_count - i,
        {
            v.push(packed_bit(self.m6_words.as_slice(), i) as u8);
            i = i + 1;
        }
        v
    }

    /// Orders two numbers by their values: first by the number of pairs,
    /// then by the highest pair in which they differ, `m4` before `m6`.
    pub fn compare(&self, other: &PairNumber) -> (r: Ordering)
        ensures
            r == order_of(self@.value(), other@.value()),
    {
        proof {
            use_type_invariant(self);
            use_type_invariant(other);
        }
        if self.pair_count < other.pair_count {
            proof {
                lemma_order_by_len(self@, other@);
            }
            return Ordering::Less;
        }
        if self.pair_count > other.pair_count {
            proof {
                lemma_order_by_len(other@, self@);
            }
            return Ordering::Greater;
        }
        let words: usize = self.m4_words.len();
        let mut w: usize = words;
        while w > 0
            invariant
                self@.wf(),
                other@.wf(),
                self@.k == other@.k,
                words == self@.m4.len(),
                w <= words,
                forall|j: int| w <= j < words ==> self@.m4[j] == other@.m4[j],
                forall|j: int| w <= j < words ==> self@.m6[j] == other@.m6[j],
            decreases w,
        {
            w = w - 1;
            let a4: u64 = self.m4_words[w];
            let b4: u64 = other.m4_words[w];
            let a6: u64 = self.m6_words[w];
            let b6: u64 = other.m6_words[w];
            let diff_m4: u64 = a4 ^ b4;
            let diff_m6: u64 = a6 ^ b6;
            let diff_any: u64 = diff_m4 | diff_m6;
            if diff_any != 0 {
                let top_bit: u64 = highest_bit(diff_any);
                let mask: u64 = 1u64 << top_bit;
                let a_m4: u64 = a4 & mask;
                let b_m4: u64 = b4 & mask;
                proof {
                    lemma_single_bit(a4, b4, top_bit);
                    lemma_single_bit(a6, b6, top_bit);
                    lemma_word_difference(self@, other@, w, top_bit);
                }
                if a_m4 != b_m4 {
                    if a_m4 != 0 {
                        proof {
                            lemma_order_at(self@, other@, 2 * (64 * w + top_bit) + 1);
                        }
                        return Ordering::Greater;
                    } else {
                        proof {
                            lemma_order_at(other@, self@, 2 * (64 * w + top_bit) + 1);
                        }
                        return Ordering::Less;
                    }
                }
                let a_m6: u64 = a6 & mask;
                if a_m6 != 0 {
                    proof {
                        lemma_order_at(self@, other@, 2 * (64 * w + top_bit));
                    }
                    return Ordering::Greater;
                } else {
                    proof {
                        lemma_order_at(other@, self@, 2 * (64 * w + top_bit));
                    }
                    return Ordering::Less;
                }
            }
            proof {
                lemma_same_words(a4, b4, a6, b6);
            }
        }
        proof {
            assert(self@.m4 =~= other@.m4);
            assert(self@.m6 =~= other@.m6);
        }
        Ordering::Equal
    }

    /// Builds the number from its bits, lowest first; an odd length is padded
    /// with a zero and zero pairs at the top are dropped.
    pub fn from_bits_lsb(bits: &[u8]) -> (r: Self)
        requires
            forall|j: int| 0 <= j < bits@.len() ==> bits@[j] <= 1,
        ensures
            r@.wf(),
            r@.value() == bits_value(byte_flags(bits@), bits@.len()),
    {
        let n: usize = bits.len();
        if n == 0 {
            let m4 = zero_words(1);
            let m6 = zero_words(1);
            proof {
                let z = pairs_of(m4@, m6@, 1);
                assert(bits_value(byte_flags(bits@), 0) == 0);
                lemma_bits_value_is_zero(z.zbits(), 2);
            }
            return PairNumber { m4_words: m4, m6_words: m6, pair_count: 1 };
        }
        let k0: usize = n / 2 + n % 2;
        let word_count: usize = word_count_for(k0);
        let mut m4: Vec<u64> = zero_words(word_count);
        let mut m6: Vec<u64> = zero_words(word_count);
        let mut i: usize = 0;
        while i < k0
            invariant
                n == bits@.len(),
                k0 == n / 2 + n % 2,
                i <= k0,
                m4@.len() == word_count,
                m6@.len() == word_count,
                k0 <= 64 * word_count,
                forall|j: int| 0 <= j < bits@.len() ==> bits@[j] <= 1,
                forall|j: int| #[trigger]
                    stream_bit(m6@, j) == (0 <= j < i && 2 * j < n && bits@[2 * j] == 1),
                forall|j: int| #[trigger]
                    stream_bit(m4@, j) == (0 <= j < i && 2 * j + 1 < n && bits@[2 * j + 1] == 1),
            decreases k0 - i,
        {
            let b6: u64 = bits[2 * i] as u64;
            let b4: u64 = if 2 * i + 1 < n {
                bits[2 * i + 1] as u64
            } else {
                0
            };
            or_packed_bit(&mut m6, i, b6);
            or_packed_bit(&mut m4, i, b4);
            i = i + 1;
        }
        let ghost filled = pairs_of(m4@, m6@, k0 as int);
        let (c4, c6, k) = canonical_words(m4, m6, k0);
        proof {
            let f = byte_flags(bits@);
            assert forall|j: int| 0 <= j < 2 * k0 implies #[trigger] filled.zbits()(j) == f(j) by {
                assert(0 <= j / 2 < k0);
                if j % 2 == 0 {
                    assert(2 * (j / 2) == j);
                } else {
                    assert(2 * (j / 2) + 1 == j);
                }
            }
            lemma_bits_value_agree(filled.zbits(), f, 2 * (k0 as nat));
            lemma_bits_value_zero_tail(f, n as nat, 2 * (k0 as nat));
        }
        PairNumber { m4_words: c4, m6_words: c6, pair_count: k }
    }

    /// The interleaved bit sequence, lowest bit first: m6[0], m4[0], m6[1], ..
    pub fn to_bits_lsb(&self) -> (bits: Vec<u8>)
        ensures
            bits@.len() == 2 * self@.k,
            forall|j: int| 0 <= j < 2 * self@.k ==> bits@[j] == if self@.zbit(j) { 1u8 } else { 0u8 },
    {
        proof {
            use_type_invariant(self);
        }
        let mut bits: Vec<u8> = Vec::new();
        let mut i: usize = 0;
        while i < self.pair_count
            invariant
                self@.wf(),
                i <= self.pair_count,
                bits@.len() == 2 * i,
                forall|j: int| 0 <= j < 2 * i ==> bits@[j] == if self@.zbit(j) { 1u8 } else { 0u8 },
            decreases self.pair_count - i,
        {
            bits.push(packed_bit(self.m6_words.as_slice(), i) as u8);
            bits.push(packed_bit(self.m4_words.as_slice(), i) as u8);
            proof {
                assert((2 * i) / 2 == i && (2 * i) % 2 == 0);
                assert((2 * i + 1) / 2 == i && (2 * i + 1) % 2 == 1);
            }
            i = i + 1;
        }
        bits
    }
}

/// Brings `k` pairs with nothing set above them into canonical form: drops
/// the zero pairs at the top and the words that they leave empty.
pub fn canonical_words(m4: Vec<u64>, m6: Vec<u64>, k: usize) -> (r: (Vec<u64>, Vec<u64>, usize))
    requires
        k >= 1,
        m4@.len() == words_for(k as nat),
        m6@.len() == words_for(k as nat),
        forall|j: int| j >= k ==> !#[trigger] stream_bit(m4@, j),
        forall|j: int| j >= k ==> !#[trigger] stream_bit(m6@, j),
    ensures
        pairs_of(r.0@, r.1@, r.2 as int).wf(),
        pairs_of(r.0@, r.1@, r.2 as int).value() == pairs_of(m4@, m6@, k as int).value(),
        r.2 <= k,
{
    let mut m4 = m4;
    let mut m6 = m6;
    let ghost full4 = m4@;
    let ghost full6 = m6@;
    let mut n: usize = k;
    while n > 1 && packed_bit(m4.as_slice(), n - 1) == 0 && packed_bit(m6.as_slice(), n - 1) == 0
        invariant
            1 <= n <= k,
            m4@ == full4,
            m6@ == full6,
            full4.len() == words_for(k as nat),
            full6.len() == words_for(k as nat),
            forall|j: int| j >= n ==> !#[trigger] stream_bit(full4, j),
            forall|j: int| j >= n ==> !#[trigger] stream_bit(full6, j),
        decreases n,
    {
        n = n - 1;
    }
    let new_word_count: usize = word_count_for(n);
    m4.truncate(new_word_count);
    m6.truncate(new_word_count);
    proof {
        assert forall|j: int| #[trigger] stream_bit(m4@, j) == stream_bit(full4, j) by {
            if 0 <= j && j / 64 < new_word_count {
                assert(m4@[j / 64] == full4[j / 64]);
            }
        }
        assert forall|j: int| #[trigger] stream_bit(m6@, j) == stream_bit(full6, j) by {
            if 0 <= j && j / 64 < new_word_count {
                assert(m6@[j / 64] == full6[j / 64]);
            }
        }
    }
    let ghost cut4 = m4@;
    let ghost cut6 = m6@;
    mask_top(&mut m4, n);
    mask_top(&mut m6, n);
    proof {
        let r = pairs_of(m4@, m6@, n as int);
        assert forall|j: int| #[trigger] stream_bit(m4@, j) == stream_bit(full4, j) by {
            assert(stream_bit(m4@, j) == (j < n && stream_bit(cut4, j)));
        }
        assert forall|j: int| #[trigger] stream_bit(m6@, j) == stream_bit(full6, j) by {
            assert(stream_bit(m6@, j) == (j < n && stream_bit(cut6, j)));
        }
        assert(r.wf());
        lemma_value_agree(r, pairs_of(full4, full6, n as int));
        lemma_value_trim(pairs_of(full4, full6, k as int), n as nat);
    }
    (m4, m6, n)
}

/// Reads bit `pos` of little-endian bytes as 0 or 1; 0 beyond the bytes.
pub fn byte_stream_bit(bytes: &[u8], pos: usize) -> (r: u64)
    ensures
        r == if bytes_bits(bytes@)(pos as int) { 1u64 } else { 0u64 },
{
    if pos / 8 < bytes.len() {
        let b: u8 = bytes[pos / 8];
        let t: u8 = (pos % 8) as u8;
        proof {
            lemma_byte_bit_value(b, t);
        }
        ((b >> t) & 1) as u64
    } else {
        0
    }
}

/// The order of two natural numbers.
pub open spec fn order_of(a: nat, b: nat) -> Ordering {
    if a < b {
        Ordering::Less
    } else if a == b {
        Ordering::Equal
    } else {
        Ordering::Greater
    }
}

/// A canonical form with fewer pairs stands for a smaller number.
pub proof fn lemma_order_by_len(a: Pairs, b: Pairs)
    requires
        a.wf(),
        b.wf(),
        a.k < b.k,
    ensures
        a.value() < b.value(),
{
    lemma_canonical_digits(a);
    let top: int = b.k - 1;
    let pos: nat = if b.bit6(top) { (2 * top) as nat } else { (2 * top + 1) as nat };
    assert(b.zbits()(pos as int));
    lemma_bits_value_ge(b.zbits(), pos, 2 * b.k);
    if 2 * a.k < pos {
        lemma_pow2_strictly_increases(2 * a.k, pos);
    }
}

/// Two canonical forms of the same length whose interleaved bits agree above
/// position `p`, where `a` has a one and `b` a zero: `a` is the larger.
pub proof fn lemma_order_at(a: Pairs, b: Pairs, p: int)
    requires
        a.wf(),
        b.wf(),
        a.k == b.k,
        0 <= p,
        a.zbit(p),
        !b.zbit(p),
        forall|j: int| p < j ==> a.zbit(j) == b.zbit(j),
    ensures
        b.value() < a.value(),
{
    assert(p / 2 < a.k);
    assert forall|j: int| p < j < 2 * a.k implies #[trigger] a.zbits()(j) == b.zbits()(j) by {
        assert(a.zbit(j) == b.zbit(j));
    }
    lemma_bits_value_order(a.zbits(), b.zbits(), p as nat, 2 * a.k);
}

/// What the highest differing bit of word `w` says about the interleaved
/// bits, when all higher words are the same.
pub proof fn lemma_word_difference(a: Pairs, b: Pairs, w: usize, t: u64)
    requires
        a.wf(),
        b.wf(),
        a.k == b.k,
        w < a.m4.len(),
        t < 64,
        forall|j: int| w < j < a.m4.len() ==> a.m4[j] == b.m4[j],
        forall|j: int| w < j < a.m4.len() ==> a.m6[j] == b.m6[j],
        word_bit((a.m4[w as int] ^ b.m4[w as int]) | (a.m6[w as int] ^ b.m6[w as int]), t as int),
        forall|i: int|
            t < i ==> !#[trigger] word_bit(
                (a.m4[w as int] ^ b.m4[w as int]) | (a.m6[w as int] ^ b.m6[w as int]),
                i,
            ),
    ensures
        a.zbit(2 * (64 * w + t) + 1) == word_bit(a.m4[w as int], t as int),
        b.zbit(2 * (64 * w + t) + 1) == word_bit(b.m4[w as int], t as int),
        a.zbit(2 * (64 * w + t)) == word_bit(a.m6[w as int], t as int),
        b.zbit(2 * (64 * w + t)) == word_bit(b.m6[w as int], t as int),
        word_bit(a.m4[w as int], t as int) != word_bit(b.m4[w as int], t as int) || word_bit(
            a.m6[w as int],
            t as int,
        ) != word_bit(b.m6[w as int], t as int),
        forall|j: int| 2 * (64 * w + t) + 1 < j ==> a.zbit(j) == b.zbit(j),
{
    let a4 = a.m4[w as int];
    let b4 = b.m4[w as int];
    let a6 = a.m6[w as int];
    let b6 = b.m6[w as int];
    lemma_word_bitwise(a4, b4);
    lemma_word_bitwise(a6, b6);
    lemma_word_bitwise(a4 ^ b4, a6 ^ b6);
    let i0: int = 64 * w + t;
    assert(i0 / 64 == w && i0 % 64 == t);
    assert((2 * i0 + 1) / 2 == i0 && (2 * i0) / 2 == i0);
    assert(stream_bit(a.m4, i0) == word_bit(a4, t as int));
    assert(stream_bit(a.m6, i0) == word_bit(a6, t as int));
    assert(stream_bit(b.m4, i0) == word_bit(b4, t as int));
    assert(stream_bit(b.m6, i0) == word_bit(b6, t as int));
    if i0 >= a.k {
        assert(!stream_bit(a.m4, i0) && !stream_bit(b.m4, i0));
        assert(!stream_bit(a.m6, i0) && !stream_bit(b.m6, i0));
    }
    assert forall|i: int| i0 < i implies stream_bit(a.m4, i) == stream_bit(b.m4, i) && stream_bit(
        a.m6,
        i,
    ) == stream_bit(b.m6, i) by {
        if i / 64 < a.m4.len() {
            if i / 64 == w {
                assert(t < i % 64);
                assert(!word_bit((a4 ^ b4) | (a6 ^ b6), i % 64));
            } else {
                assert(w < i / 64);
            }
        }
    }
    assert forall|j: int| 2 * i0 + 1 < j implies a.zbit(j) == b.zbit(j) by {
        assert(i0 < j / 2);
    }
}

/// Words whose differences are all zero are equal.
pub proof fn lemma_same_words(a4: u64, b4: u64, a6: u64, b6: u64)
    requires
        (a4 ^ b4) | (a6 ^ b6) == 0,
    ensures
        a4 == b4,
        a6 == b6,
{
    lemma_word_bitwise(a4, b4);
    lemma_word_bitwise(a6, b6);
    lemma_word_bitwise(a4 ^ b4, a6 ^ b6);
    lemma_word_consts();
    assert forall|i: int| 0 <= i < 64 implies word_bit(a4, i) == word_bit(b4, i) by {
        assert(!word_bit((a4 ^ b4) | (a6 ^ b6), i));
        assert(!word_bit(a4 ^ b4, i));
    }
    assert forall|i: int| 0 <= i < 64 implies word_bit(a6, i) == word_bit(b6, i) by {
        assert(!word_bit((a4 ^ b4) | (a6 ^ b6), i));
        assert(!word_bit(a6 ^ b6, i));
    }
    lemma_word_ext(a4, b4);
    lemma_word_ext(a6, b6);
}

/// The canonical form of 1 is the single pair (0, 1).
pub proof fn lemma_one_form(p: Pairs)
    requires
        p.wf(),
    ensures
        p.value() == 1 <==> (p.k == 1 && p.m4[0] == 0 && p.m6[0] == 1),
{
    lemma_canonical_digits(p);
    lemma2_to64();
    lemma_word_consts();
    let f = p.zbits();
    if p.k == 1 {
        assert(bits_value(f, 2) == bits_value(f, 1) + if f(1) { pow2(1) } else { 0nat });
        assert(bits_value(f, 1) == bits_value(f, 0) + if f(0) { pow2(0) } else { 0nat });
        assert(bits_value(f, 0) == 0);
        assert(f(0) == stream_bit(p.m6, 0));
        assert(f(1) == stream_bit(p.m4, 0));
        if p.m4[0] == 0 && p.m6[0] == 1 {
            assert(word_bit(1, 0));
        }
        if p.value() == 1 {
            assert forall|t: int| 0 <= t < 64 implies word_bit(p.m4[0], t) == word_bit(0, t) by {
                assert(stream_bit(p.m4, t) == word_bit(p.m4[0], t));
            }
            lemma_word_ext(p.m4[0], 0);
            assert forall|t: int| 0 <= t < 64 implies word_bit(p.m6[0], t) == word_bit(1, t) by {
                assert(stream_bit(p.m6, t) == word_bit(p.m6[0], t));
            }
            lemma_word_ext(p.m6[0], 1);
        }
    } else {
        lemma_bit_length_bounds(1, 1);
        lemma_bit_length_bounds(1, 0);
    }
}

/// The sum of `(2 * m4[i] + m6[i]) * 4^i` over the pairs below `k`.
pub open spec fn pair_sum(p: Pairs, k: nat) -> nat
    decreases k,
{
    if k == 0 {
        0
    } else {
        pair_sum(p, (k - 1) as nat) + ((if p.bit4(k - 1) {
            2nat
        } else {
            0nat
        }) + (if p.bit6(k - 1) {
            1nat
        } else {
            0nat
        })) * pow2((2 * (k - 1)) as nat)
    }
}

/// The value of pairs is the sum of `(2 * m4[i] + m6[i]) * 4^i` over them.
pub proof fn lemma_value_by_pairs(p: Pairs, k: nat)
    requires
        k <= p.k,
    ensures
        bits_value(p.zbits(), 2 * k) == pair_sum(p, k),
        k == p.k ==> p.value() == pair_sum(p, k),
    decreases k,
{
    if k > 0 {
        lemma_value_by_pairs(p, (k - 1) as nat);
        let f = p.zbits();
        let low: nat = (2 * (k - 1)) as nat;
        assert(bits_value(f, 2 * k) == bits_value(f, low + 1) + if f((low + 1) as int) {
            pow2(low + 1)
        } else {
            0nat
        });
        assert(bits_value(f, low + 1) == bits_value(f, low) + if f(low as int) {
            pow2(low)
        } else {
            0nat
        });
        assert(f(low as int) == p.bit6(k - 1)) by {
            assert(low / 2 == k - 1 && low % 2 == 0);
        }
        assert(f((low + 1) as int) == p.bit4(k - 1)) by {
            assert((low + 1) / 2 == k - 1 && (low + 1) % 2 == 1);
        }
        lemma_pow2_unfold(low + 1);
        let w = pow2(low);
        assert((2nat + 1nat) * w == 2 * w + w) by (nonlinear_arith);
        assert((2nat + 0nat) * w == 2 * w) by (nonlinear_arith);
        assert((0nat + 1nat) * w == w) by (nonlinear_arith);
        assert((0nat + 0nat) * w == 0) by (nonlinear_arith);
    }
}

/// The number `2^m - 1`, of `m` ones, has `(m + 1) / 2` pairs.
pub proof fn lemma_ones_pair_count(m: nat)
    requires
        m >= 1,
    ensures
        pair_len((pow2(m) - 1) as nat) == (m + 1) / 2,
{
    let v: nat = (pow2(m) - 1) as nat;
    vstd::arithmetic::power2::lemma_pow2_pos(m);
    lemma_pow2_unfold(m);
    vstd::arithmetic::power2::lemma_pow2_pos((m - 1) as nat);
    lemma_bit_length_bounds(v, m);
    lemma_bit_length_bounds(v, (m - 1) as nat);
}

} // verus!

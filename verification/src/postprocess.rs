//! From the raw streams of `x*n + 1` to the next odd number: drop the zero
//! pairs at the top, count the zero bits at the bottom, and shift them out.

use vstd::prelude::*;
use vstd::arithmetic::power2::pow2;
use vstd::slice::{slice_subrange, slice_to_vec};
use crate::bits::{
    bits_from, bits_value, low_zeros, word_bit, lemma_bits_value_agree, lemma_bits_value_is_zero,
    lemma_bits_value_shifted, lemma_bits_value_zero_tail, lemma_low_zeros_at, lemma_word_bit_value,
    lemma_word_bitwise, lemma_word_consts, lemma_word_zero,
};
use crate::streams::{
    stream_bit, words_for, word_count_for, zero_words, packed_bit, or_packed_bit, mask_top,
};
use crate::pair_number::{
    Pairs, PairNumber, pairs_of, canonical_words, lemma_value_agree, lemma_value_trim,
};

verus! {

/// What postprocessing hands back.
pub struct PostprocessResult {
    /// The number after the shift.
    pub next: PairNumber,
    /// Number of bits shifted out.
    pub d: u64,
    /// Whether `d` is odd, so that the two streams changed roles.
    pub exchanged: bool,
}

/// Bit `j` of the interleaving m6[0], m4[0], m6[1], .. of whole words.
pub open spec fn zip_bit(m4: Seq<u64>, m6: Seq<u64>, j: int) -> bool {
    if j % 2 == 0 {
        stream_bit(m6, j / 2)
    } else {
        stream_bit(m4, j / 2)
    }
}

/// Position of the lowest set bit among the first `limit` interleaved bits
/// of whole words, `limit` where none is set.
pub open spec fn zero_run(m4: Seq<u64>, m6: Seq<u64>, limit: nat) -> nat
    decreases limit,
{
    if limit == 0 {
        0
    } else {
        let r = zero_run(m4, m6, (limit - 1) as nat);
        if r < limit - 1 || zip_bit(m4, m6, limit - 1) {
            r
        } else {
            limit
        }
    }
}

/// Number of pairs that are left when the zero pairs at the top are dropped,
/// one pair at least.
pub open spec fn trimmed_len(p: Pairs) -> nat
    decreases p.k,
{
    if p.k <= 1 || p.bit4(p.k - 1) || p.bit6(p.k - 1) {
        p.k
    } else {
        trimmed_len(pairs_of(p.m4, p.m6, p.k - 1))
    }
}

/// The bits below the zero run are zero, and the bit that ends it is set.
pub proof fn lemma_zero_run(m4: Seq<u64>, m6: Seq<u64>, limit: nat)
    ensures
        zero_run(m4, m6, limit) <= limit,
        forall|j: int| 0 <= j < zero_run(m4, m6, limit) ==> !#[trigger] zip_bit(m4, m6, j),
        zero_run(m4, m6, limit) < limit ==> zip_bit(m4, m6, zero_run(m4, m6, limit) as int),
    decreases limit,
{
    if limit > 0 {
        lemma_zero_run(m4, m6, (limit - 1) as nat);
    }
}

/// The zero run ends at the first set bit, or at the limit.
pub proof fn lemma_zero_run_is(m4: Seq<u64>, m6: Seq<u64>, limit: nat, p: nat)
    requires
        p <= limit,
        forall|j: int| 0 <= j < p ==> !#[trigger] zip_bit(m4, m6, j),
        p < limit ==> zip_bit(m4, m6, p as int),
    ensures
        zero_run(m4, m6, limit) == p,
{
    lemma_zero_run(m4, m6, limit);
    let r = zero_run(m4, m6, limit);
    if r < p {
        assert(!zip_bit(m4, m6, r as int));
    }
}

/// Number of pairs below `pair_count` up to the highest one that is not
/// (0, 0): at least 1, and 0 only for no pairs.
fn trim_pair_count(m4: &[u64], m6: &[u64], pair_count: usize) -> (k: usize)
    requires
        pairs_of(m4@, m6@, pair_count as int).covered(),
    ensures
        pair_count == 0 ==> k == 0,
        pair_count > 0 ==> k == trimmed_len(pairs_of(m4@, m6@, pair_count as int)),
        pair_count > 0 ==> 1 <= k <= pair_count,
        forall|i: int| k <= i < pair_count ==> !#[trigger] stream_bit(m4@, i),
        forall|i: int| k <= i < pair_count ==> !#[trigger] stream_bit(m6@, i),
        k > 1 ==> stream_bit(m4@, k - 1) || stream_bit(m6@, k - 1),
{
    if pair_count == 0 {
        return 0;
    }
    let mut k: usize = pair_count;
    while k > 1 && packed_bit(m4, k - 1) == 0 && packed_bit(m6, k - 1) == 0
        invariant
            1 <= k <= pair_count,
            pairs_of(m4@, m6@, pair_count as int).covered(),
            trimmed_len(pairs_of(m4@, m6@, pair_count as int)) == trimmed_len(
                pairs_of(m4@, m6@, k as int),
            ),
            forall|i: int| k <= i < pair_count ==> !#[trigger] stream_bit(m4@, i),
            forall|i: int| k <= i < pair_count ==> !#[trigger] stream_bit(m6@, i),
        decreases k,
    {
        k = k - 1;
    }
    k
}

/// Counts the zero bits at the bottom of the interleaved sequence, a word
/// of 64 pairs at a time: a word without a pair other than (0, 0) counts
/// 128; the first other word counts two for each zero pair below its lowest
/// set pair, and one more where that pair is (1, 0).
fn count_trailing_zeros_packed(m4: &[u64], m6: &[u64], pair_count: usize) -> (d: u64)
    requires
        2 * pair_count + 128 <= usize::MAX,
    ensures
        d == zero_run(m4@, m6@, 128 * words_for(pair_count as nat)),
{
    let word_count: usize = word_count_for(pair_count);
    let mut d: u64 = 0;
    let mut w: usize = 0;
    while w < word_count
        invariant
            w <= word_count,
            64 * word_count < pair_count + 64,
            2 * pair_count + 128 <= usize::MAX,
            d == 128 * w,
            forall|j: int| 0 <= j < 128 * w ==> !#[trigger] zip_bit(m4@, m6@, j),
        decreases word_count - w,
    {
        let m4w: u64 = if w < m4.len() {
            m4[w]
        } else {
            0
        };
        let m6w: u64 = if w < m6.len() {
            m6[w]
        } else {
            0
        };
        let or_word: u64 = m4w | m6w;
        proof {
            lemma_word_bitwise(m4w, m6w);
            lemma_word_consts();
            assert forall|i: int| 64 * w <= i < 64 * w + 64 implies #[trigger] stream_bit(m4@, i)
                == word_bit(m4w, i - 64 * w) && #[trigger] stream_bit(m6@, i) == word_bit(
                m6w,
                i - 64 * w,
            ) by {
                assert(i / 64 == w && i % 64 == i - 64 * w);
            }
        }
        if or_word == 0 {
            proof {
                lemma_word_zero(or_word);
                assert forall|j: int| 0 <= j < 128 * (w + 1) implies !#[trigger] zip_bit(
                    m4@,
                    m6@,
                    j,
                ) by {
                    if j >= 128 * w {
                        let i: int = j / 2;
                        assert(64 * w <= i < 64 * w + 64);
                        assert(!word_bit(or_word, i - 64 * w));
                        assert(stream_bit(m4@, i) == word_bit(m4w, i - 64 * w));
                        assert(stream_bit(m6@, i) == word_bit(m6w, i - 64 * w));
                    }
                }
            }
            d = d + 128;
            w = w + 1;
        } else {
            let tz: u64 = or_word.trailing_zeros() as u64;
            proof {
                vstd::std_specs::bits::axiom_u64_trailing_zeros(or_word);
                lemma_word_bit_value(m6w, tz);
                assert(word_bit(or_word, tz as int));
                assert forall|t: int| 0 <= t < tz implies !word_bit(or_word, t) by {
                    let tt: u64 = t as u64;
                    assert((or_word >> tt) & 1u64 == 0u64);
                }
            }
            let low_is_zero: bool = (m6w >> tz) & 1 == 0;
            d = d + tz * 2;
            if low_is_zero {
                d = d + 1;
            }
            proof {
                let base: int = 128 * w + 2 * tz;
                let i0: int = 64 * w + tz;
                assert(stream_bit(m4@, i0) == word_bit(m4w, tz as int));
                assert(stream_bit(m6@, i0) == word_bit(m6w, tz as int));
                assert(base / 2 == i0 && base % 2 == 0);
                assert((base + 1) / 2 == i0 && (base + 1) % 2 == 1);
                assert forall|j: int| 0 <= j < base implies !#[trigger] zip_bit(m4@, m6@, j) by {
                    if j >= 128 * w {
                        let i: int = j / 2;
                        assert(64 * w <= i < i0);
                        assert(!word_bit(or_word, i - 64 * w));
                        assert(stream_bit(m4@, i) == word_bit(m4w, i - 64 * w));
                        assert(stream_bit(m6@, i) == word_bit(m6w, i - 64 * w));
                    }
                }
                lemma_zero_run_is(m4@, m6@, 128 * words_for(pair_count as nat), d as nat);
            }
            return d;
        }
    }
    proof {
        lemma_zero_run_is(m4@, m6@, 128 * words_for(pair_count as nat), d as nat);
    }
    d
}

/// Shifts the interleaved sequence of `pair_count` pairs right by `d` bits
/// and pairs it up again, in canonical form. An odd `d` moves what was in
/// `m4` to `m6` and the other way round.
fn shift_right_bits(m4: &[u64], m6: &[u64], pair_count: usize, d: u64) -> (r: (
    Vec<u64>,
    Vec<u64>,
    usize,
))
    requires
        pair_count >= 1,
        2 * pair_count <= usize::MAX,
        pairs_of(m4@, m6@, pair_count as int).covered(),
        pair_count > 1 ==> stream_bit(m4@, pair_count - 1) || stream_bit(m6@, pair_count - 1),
    ensures
        pairs_of(r.0@, r.1@, r.2 as int).wf(),
        pairs_of(r.0@, r.1@, r.2 as int).value() == pairs_of(m4@, m6@, pair_count as int).value()
            / pow2(d as nat),
{
    let ghost src = pairs_of(m4@, m6@, pair_count as int);
    if d == 0 {
        let word_count: usize = word_count_for(pair_count);
        let mut rm4: Vec<u64> = slice_to_vec(slice_subrange(m4, 0, word_count));
        let mut rm6: Vec<u64> = slice_to_vec(slice_subrange(m6, 0, word_count));
        let ghost cut4 = rm4@;
        let ghost cut6 = rm6@;
        mask_top(&mut rm4, pair_count);
        mask_top(&mut rm6, pair_count);
        proof {
            let out = pairs_of(rm4@, rm6@, pair_count as int);
            assert forall|j: int| #[trigger]
                stream_bit(rm4@, j) == (j < pair_count && stream_bit(m4@, j)) by {
                assert(stream_bit(rm4@, j) == (j < pair_count && stream_bit(cut4, j)));
                if 0 <= j < pair_count {
                    assert(cut4[j / 64] == m4@[j / 64]);
                }
            }
            assert forall|j: int| #[trigger]
                stream_bit(rm6@, j) == (j < pair_count && stream_bit(m6@, j)) by {
                assert(stream_bit(rm6@, j) == (j < pair_count && stream_bit(cut6, j)));
                if 0 <= j < pair_count {
                    assert(cut6[j / 64] == m6@[j / 64]);
                }
            }
            lemma_value_agree(out, src);
            vstd::arithmetic::power2::lemma2_to64();
            assert(src.value() / 1 == src.value());
        }
        return (rm4, rm6, pair_count);
    }
    let total_bits: u64 = 2 * (pair_count as u64);
    let remaining_bits: u64 = total_bits.saturating_sub(d);
    if remaining_bits == 0 {
        let z4 = zero_words(1);
        let z6 = zero_words(1);
        proof {
            lemma_bits_value_is_zero(pairs_of(z4@, z6@, 1).zbits(), 2);
            lemma_bits_value_shifted(src.zbits(), d as nat, 2 * src.k);
        }
        return (z4, z6, 1);
    }
    let remaining: usize = remaining_bits as usize;
    let new_pair_count: usize = remaining / 2 + remaining % 2;
    let new_word_count: usize = word_count_for(new_pair_count);
    let mut new_m4: Vec<u64> = zero_words(new_word_count);
    let mut new_m6: Vec<u64> = zero_words(new_word_count);
    let d_usize: usize = d as usize;
    let mut out_bit: usize = 0;
    while out_bit < remaining
        invariant
            out_bit <= remaining,
            remaining + d_usize == 2 * pair_count,
            2 * pair_count <= usize::MAX,
            d_usize == d,
            new_pair_count == remaining / 2 + remaining % 2,
            new_pair_count <= 64 * new_word_count,
            new_m4@.len() == new_word_count,
            new_m6@.len() == new_word_count,
            src == pairs_of(m4@, m6@, pair_count as int),
            src.covered(),
            forall|i: int| #[trigger]
                stream_bit(new_m6@, i) == (0 <= i && 2 * i < out_bit && src.zbit(2 * i + d_usize)),
            forall|i: int| #[trigger]
                stream_bit(new_m4@, i) == (0 <= i && 2 * i + 1 < out_bit && src.zbit(
                    2 * i + 1 + d_usize,
                )),
        decreases remaining - out_bit,
    {
        let src_bit: usize = out_bit + d_usize;
        let src_pair: usize = src_bit / 2;
        let src_is_m4: bool = (src_bit % 2) == 1;
        let bit_val: u64 = if src_is_m4 {
            packed_bit(m4, src_pair)
        } else {
            packed_bit(m6, src_pair)
        };
        let out_pair: usize = out_bit / 2;
        let out_is_m4: bool = (out_bit % 2) == 1;
        if out_is_m4 {
            or_packed_bit(&mut new_m4, out_pair, bit_val);
        } else {
            or_packed_bit(&mut new_m6, out_pair, bit_val);
        }
        out_bit = out_bit + 1;
    }
    let ghost moved = pairs_of(new_m4@, new_m6@, new_pair_count as int);
    proof {
        let f = src.zbits();
        let g = bits_from(f, d as int);
        assert forall|j: int| 0 <= j < 2 * new_pair_count implies #[trigger] moved.zbits()(j) == g(
            j,
        ) by {
            assert(0 <= j / 2 < new_pair_count);
            if j % 2 == 0 {
                assert(2 * (j / 2) == j);
            } else {
                assert(2 * (j / 2) + 1 == j);
            }
            if j >= remaining {
                assert((j + d) / 2 >= pair_count);
            }
        }
        lemma_bits_value_agree(moved.zbits(), g, 2 * (new_pair_count as nat));
        assert forall|j: int| remaining <= j < 2 * new_pair_count implies !#[trigger] g(j) by {
            assert((j + d) / 2 >= pair_count);
        }
        lemma_bits_value_zero_tail(g, remaining as nat, 2 * (new_pair_count as nat));
        lemma_bits_value_shifted(f, d as nat, 2 * src.k);
    }
    canonical_words(new_m4, new_m6, new_pair_count)
}

/// Postprocesses the raw streams of a step.
///
/// With `V` the number that the `raw_pair_count` pairs stand for: `d` is the
/// number of times that 2 divides `V`, and `next` is `V / 2^d`. For `V = 0`,
/// which no step produces, `next` is 0 and `d` is what the count by words
/// gives: 128 where nothing is set in the first words, and 0 where there
/// are no pairs at all.
pub fn postprocess(new_m4: Vec<u64>, new_m6: Vec<u64>, raw_pair_count: usize) -> (r:
    PostprocessResult)
    requires
        pairs_of(new_m4@, new_m6@, raw_pair_count as int).covered(),
        2 * raw_pair_count + 128 <= usize::MAX,
    ensures
        r.next@.wf(),
        r.next@.value() == pairs_of(new_m4@, new_m6@, raw_pair_count as int).value() / pow2(
            r.d as nat,
        ),
        r.exchanged == (r.d % 2 == 1),
        pairs_of(new_m4@, new_m6@, raw_pair_count as int).value() > 0 ==> r.d == low_zeros(
            pairs_of(new_m4@, new_m6@, raw_pair_count as int).value(),
        ),
        pairs_of(new_m4@, new_m6@, raw_pair_count as int).value() == 0 ==> r.d == if raw_pair_count
            == 0 {
            0
        } else {
            zero_run(new_m4@, new_m6@, 128)
        },
{
    let ghost raw = pairs_of(new_m4@, new_m6@, raw_pair_count as int);
    let pair_count: usize = trim_pair_count(new_m4.as_slice(), new_m6.as_slice(), raw_pair_count);
    if pair_count == 0 {
        let z4 = zero_words(1);
        let z6 = zero_words(1);
        proof {
            lemma_bits_value_is_zero(pairs_of(z4@, z6@, 1).zbits(), 2);
            assert(raw.value() == 0);
            vstd::arithmetic::power2::lemma2_to64();
        }
        return PostprocessResult {
            next: PairNumber::from_packed(z4, z6, 1),
            d: 0,
            exchanged: false,
        };
    }
    let ghost cut = pairs_of(new_m4@, new_m6@, pair_count as int);
    let d: u64 = count_trailing_zeros_packed(new_m4.as_slice(), new_m6.as_slice(), pair_count);
    let (shifted_m4, shifted_m6, shifted_pair_count) = shift_right_bits(
        new_m4.as_slice(),
        new_m6.as_slice(),
        pair_count,
        d,
    );
    proof {
        lemma_value_trim(raw, pair_count as nat);
        let f = cut.zbits();
        let limit: nat = 128 * words_for(pair_count as nat);
        lemma_zero_run(new_m4@, new_m6@, limit);
        lemma_bits_value_is_zero(f, 2 * cut.k);
        assert forall|j: int| 0 <= j < 2 * pair_count implies #[trigger] f(j) == zip_bit(
            new_m4@,
            new_m6@,
            j,
        ) by {
            assert(0 <= j / 2 < pair_count);
        }
        if cut.value() > 0 {
            let p = choose|p: int| 0 <= p < 2 * cut.k && #[trigger] f(p);
            assert(zip_bit(new_m4@, new_m6@, p));
            assert(d <= p);
            lemma_low_zeros_at(f, d as nat, 2 * cut.k);
        } else {
            if pair_count > 1 {
                let top: int = pair_count - 1;
                assert(f(2 * top) == stream_bit(new_m6@, top)) by {
                    assert((2 * top) / 2 == top);
                }
                assert(f(2 * top + 1) == stream_bit(new_m4@, top)) by {
                    assert((2 * top + 1) / 2 == top);
                }
            }
            assert(pair_count == 1);
        }
    }
    let exchanged: bool = d % 2 == 1;
    PostprocessResult {
        next: PairNumber::from_packed(shifted_m4, shifted_m6, shifted_pair_count),
        d,
        exchanged,
    }
}

/// Postprocesses raw streams given with one byte, 0 or 1, for each pair.
pub fn postprocess_legacy(new_m4_bits: Vec<u8>, new_m6_bits: Vec<u8>) -> (r: PostprocessResult)
    requires
        new_m6_bits@.len() >= new_m4_bits@.len(),
        2 * new_m4_bits@.len() + 128 <= usize::MAX,
        forall|i: int| 0 <= i < new_m4_bits@.len() ==> new_m4_bits@[i] <= 1,
        forall|i: int| 0 <= i < new_m4_bits@.len() ==> new_m6_bits@[i] <= 1,
    ensures
        r.next@.wf(),
        r.next@.value() == flags_value(new_m4_bits@, new_m6_bits@) / pow2(r.d as nat),
        r.exchanged == (r.d % 2 == 1),
        flags_value(new_m4_bits@, new_m6_bits@) > 0 ==> r.d == low_zeros(
            flags_value(new_m4_bits@, new_m6_bits@),
        ),
        flags_value(new_m4_bits@, new_m6_bits@) == 0 ==> r.d == if new_m4_bits@.len() == 0 {
            0u64
        } else {
            128u64
        },
{
    let pair_count: usize = new_m4_bits.len();
    let word_count: usize = word_count_for(pair_count);
    let mut m4_words: Vec<u64> = zero_words(word_count);
    let mut m6_words: Vec<u64> = zero_words(word_count);
    let mut i: usize = 0;
    while i < pair_count
        invariant
            i <= pair_count,
            pair_count == new_m4_bits@.len(),
            new_m6_bits@.len() >= pair_count,
            pair_count <= 64 * word_count,
            m4_words@.len() == word_count,
            m6_words@.len() == word_count,
            forall|j: int| 0 <= j < new_m4_bits@.len() ==> new_m4_bits@[j] <= 1,
            forall|j: int| 0 <= j < new_m4_bits@.len() ==> new_m6_bits@[j] <= 1,
            forall|j: int| #[trigger] stream_bit(m4_words@, j) == (0 <= j < i && new_m4_bits@[j] == 1),
            forall|j: int| #[trigger] stream_bit(m6_words@, j) == (0 <= j < i && new_m6_bits@[j] == 1),
        decreases pair_count - i,
    {
        or_packed_bit(&mut m4_words, i, new_m4_bits[i] as u64);
        or_packed_bit(&mut m6_words, i, new_m6_bits[i] as u64);
        i = i + 1;
    }
    proof {
        let raw = pairs_of(m4_words@, m6_words@, pair_count as int);
        let f = flag_bits(new_m4_bits@, new_m6_bits@);
        assert forall|j: int| 0 <= j < 2 * pair_count implies #[trigger] raw.zbits()(j) == f(j) by {
            assert(0 <= j / 2 < pair_count);
        }
        lemma_bits_value_agree(raw.zbits(), f, 2 * (pair_count as nat));
        if raw.value() == 0 && pair_count > 0 {
            lemma_bits_value_is_zero(raw.zbits(), 2 * raw.k);
            assert forall|j: int| 0 <= j < 128 implies !#[trigger] zip_bit(
                m4_words@,
                m6_words@,
                j,
            ) by {
                if j < 2 * pair_count {
                    assert(0 <= j / 2 < pair_count);
                    assert(!raw.zbits()(j));
                }
            }
            lemma_zero_run_is(m4_words@, m6_words@, 128, 128);
        }
    }
    postprocess(m4_words, m6_words, pair_count)
}

/// The interleaved bits of two byte sequences of flags: position `2i` is
/// set where `m6[i]` is 1, position `2i + 1` where `m4[i]` is 1.
pub open spec fn flag_bits(m4: Seq<u8>, m6: Seq<u8>) -> spec_fn(int) -> bool {
    |j: int|
        0 <= j < 2 * m4.len() && if j % 2 == 0 {
            m6[j / 2] == 1
        } else {
            m4[j / 2] == 1
        }
}

/// The number that two byte sequences of flags stand for.
pub open spec fn flags_value(m4: Seq<u8>, m6: Seq<u8>) -> nat {
    bits_value(flag_bits(m4, m6), 2 * m4.len())
}

} // verus!

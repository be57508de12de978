//! Packed bit streams: 64 positions to a word, position `i` in bit `i % 64`
//! of word `i / 64`.

use vstd::prelude::*;
use crate::bits::{word_bit, word_ones, lemma_word_bit_value, lemma_word_bitwise, lemma_word_consts, lemma_word_low_mask, lemma_word_shl};

verus! {

/// Bit `i` of the packed stream `words`; false outside the words.
pub open spec fn stream_bit(words: Seq<u64>, i: int) -> bool {
    0 <= i && i / 64 < words.len() && word_bit(words[i / 64], i % 64)
}

/// Number of words that hold `k` positions.
pub open spec fn words_for(k: nat) -> nat {
    (k + 63) / 64
}

/// Number of words that hold `k` positions.
pub fn word_count_for(k: usize) -> (r: usize)
    ensures
        r == words_for(k as nat),
        k <= 64 * r,
        64 * r < k + 64,
{
    if k % 64 == 0 {
        k / 64
    } else {
        k / 64 + 1
    }
}

/// A vector of `n` zero words.
pub fn zero_words(n: usize) -> (r: Vec<u64>)
    ensures
        r@.len() == n,
        forall|i: int| 0 <= i < n ==> r@[i] == 0,
        forall|i: int| !#[trigger] stream_bit(r@, i),
{
    let r = vec![0u64; n];
    proof {
        lemma_word_consts();
        assert forall|i: int| !#[trigger] stream_bit(r@, i) by {
            if 0 <= i && i / 64 < r@.len() {
                assert(r@[i / 64] == 0);
            }
        }
    }
    r
}

/// Reads position `i` of a packed stream as 0 or 1.
pub fn packed_bit(words: &[u64], i: usize) -> (r: u64)
    requires
        i / 64 < words@.len(),
    ensures
        r == if stream_bit(words@, i as int) { 1u64 } else { 0u64 },
{
    let w: u64 = words[i / 64];
    let b: u64 = (i % 64) as u64;
    proof {
        lemma_word_bit_value(w, b);
    }
    (w >> b) & 1
}

/// Sets position `i` of a packed stream if `bit` is 1, and leaves the stream
/// as it is if `bit` is 0.
pub fn or_packed_bit(words: &mut Vec<u64>, i: usize, bit: u64)
    requires
        i / 64 < old(words)@.len(),
        bit <= 1,
    ensures
        final(words)@.len() == old(words)@.len(),
        forall|j: int| #[trigger]
            stream_bit(final(words)@, j) == (stream_bit(old(words)@, j) || (j == i && bit == 1)),
{
    let w: usize = i / 64;
    let b: u64 = (i % 64) as u64;
    let before: u64 = words[w];
    let moved: u64 = bit << b;
    words[w] = before | moved;
    proof {
        lemma_word_shl(bit, b);
        lemma_word_bitwise(before, moved);
        lemma_word_consts();
        assert forall|j: int| #[trigger]
            stream_bit(words@, j) == (stream_bit(old(words)@, j) || (j == i && bit == 1)) by {
            if 0 <= j && j / 64 < words@.len() {
                if j / 64 == w {
                    assert(words@[j / 64] == before | moved);
                    assert(word_bit(moved, j % 64) == (b <= j % 64 && word_bit(bit, j % 64 - b)));
                } else {
                    assert(words@[j / 64] == old(words)@[j / 64]);
                }
            }
        }
    }
}

/// Clears, where `k` is no multiple of 64, the bits of the last word from
/// bit `k % 64` on. On a stream that holds exactly the words for `k`
/// positions these are the positions at and above `k`.
pub fn mask_top(words: &mut Vec<u64>, k: usize)
    ensures
        final(words)@.len() == old(words)@.len(),
        forall|j: int| #[trigger]
            stream_bit(final(words)@, j) == (stream_bit(old(words)@, j) && !(k % 64 > 0 && j / 64
                == old(words)@.len() - 1 && j % 64 >= k % 64)),
        old(words)@.len() == words_for(k as nat) ==> forall|j: int| #[trigger]
            stream_bit(final(words)@, j) == (j < k && stream_bit(old(words)@, j)),
{
    if words.len() == 0 {
        return ;
    }
    let remainder: u64 = (k % 64) as u64;
    if remainder > 0 {
        let last: usize = words.len() - 1;
        proof {
            lemma_word_low_mask(remainder);
        }
        let mask: u64 = (1u64 << remainder) - 1;
        let before: u64 = words[last];
        words[last] = before & mask;
        proof {
            lemma_word_bitwise(before, mask);
            assert forall|j: int| #[trigger]
                stream_bit(words@, j) == (stream_bit(old(words)@, j) && !(k % 64 > 0 && j / 64
                    == old(words)@.len() - 1 && j % 64 >= k % 64)) by {
                if 0 <= j && j / 64 < words@.len() {
                    if j / 64 == last {
                        assert(words@[j / 64] == before & mask);
                    } else {
                        assert(words@[j / 64] == old(words)@[j / 64]);
                    }
                }
            }
        }
    }
}

/// Number of set positions below `n` of a packed stream.
pub open spec fn stream_ones(words: Seq<u64>, n: nat) -> nat
    decreases n,
{
    if n == 0 {
        0
    } else {
        stream_ones(words, (n - 1) as nat) + if stream_bit(words, n - 1) {
            1nat
        } else {
            0nat
        }
    }
}

/// There are no more set positions than positions.
pub proof fn lemma_stream_ones_bound(words: Seq<u64>, n: nat)
    ensures
        stream_ones(words, n) <= n,
    decreases n,
{
    if n > 0 {
        lemma_stream_ones_bound(words, (n - 1) as nat);
    }
}

/// Positions above the last set one add nothing.
pub proof fn lemma_stream_ones_tail(words: Seq<u64>, k: nat, n: nat)
    requires
        k <= n,
        forall|i: int| i >= k ==> !#[trigger] stream_bit(words, i),
    ensures
        stream_ones(words, n) == stream_ones(words, k),
    decreases n,
{
    if n > k {
        lemma_stream_ones_tail(words, k, (n - 1) as nat);
    }
}

/// The set positions of word `w` are the ones of that word.
pub proof fn lemma_stream_ones_word(words: Seq<u64>, w: nat, t: nat)
    requires
        w < words.len(),
        t <= 64,
    ensures
        stream_ones(words, 64 * w + t) == stream_ones(words, 64 * w) + word_ones(words[w as int], t),
    decreases t,
{
    if t > 0 {
        lemma_stream_ones_word(words, w, (t - 1) as nat);
        let i: int = 64 * w + t - 1;
        assert(i / 64 == w && i % 64 == t - 1);
    }
}

} // verus!

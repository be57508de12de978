//! Bits of machine words and of natural numbers, and the value of a finite
//! run of bits.

use vstd::prelude::*;
use vstd::arithmetic::power2::*;
use vstd::arithmetic::div_mod::*;
use vstd::arithmetic::mul::*;

verus! {

/// Bit `b` of the word `w`; false outside `0..64`.
pub open spec fn word_bit(w: u64, b: int) -> bool {
    0 <= b < 64 && (w >> (b as u64)) & 1 == 1
}

/// Bit `b` of the byte `w`; false outside `0..8`.
pub open spec fn byte_bit(w: u8, b: int) -> bool {
    0 <= b < 8 && (w >> (b as u8)) & 1 == 1
}

/// Bit `j` of the natural number `v`; false for negative `j`.
pub open spec fn nat_bit(v: nat, j: int) -> bool {
    j >= 0 && (v / pow2(j as nat)) % 2 == 1
}

/// The bits of `v` as a function of the position.
pub open spec fn nat_bits(v: nat) -> spec_fn(int) -> bool {
    |j: int| nat_bit(v, j)
}

/// The number whose binary digits below position `m` are `f(0), f(1), ..`.
pub open spec fn bits_value(f: spec_fn(int) -> bool, m: nat) -> nat
    decreases m,
{
    if m == 0 {
        0
    } else {
        bits_value(f, (m - 1) as nat) + if f(m - 1) {
            pow2((m - 1) as nat)
        } else {
            0nat
        }
    }
}

/// The bit function `f` moved down by `d` positions.
pub open spec fn bits_from(f: spec_fn(int) -> bool, d: int) -> spec_fn(int) -> bool {
    |j: int| f(j + d)
}

/// The bit function `f` moved up by `s` positions, zeros entering below.
pub open spec fn bits_up(f: spec_fn(int) -> bool, s: int) -> spec_fn(int) -> bool {
    |j: int| j >= s && f(j - s)
}

/// Number of binary digits of `v`: 0 for 0, else the position of the top set bit plus one.
pub open spec fn bit_length(v: nat) -> nat
    decreases v,
{
    if v == 0 {
        0
    } else {
        1 + bit_length(v / 2)
    }
}

/// Number of zero bits below the lowest set bit of `v`; 0 for `v == 0`.
pub open spec fn low_zeros(v: nat) -> nat
    decreases v,
{
    if v == 0 || v % 2 == 1 {
        0
    } else {
        1 + low_zeros(v / 2)
    }
}

/// A run of `m` bits has a value below `2^m`.
pub proof fn lemma_bits_value_bound(f: spec_fn(int) -> bool, m: nat)
    ensures
        bits_value(f, m) < pow2(m),
    decreases m,
{
    if m == 0 {
        lemma2_to64();
    } else {
        lemma_bits_value_bound(f, (m - 1) as nat);
        lemma_pow2_unfold(m);
    }
}

/// Runs of bits that agree below `m` have the same value.
pub proof fn lemma_bits_value_agree(f: spec_fn(int) -> bool, g: spec_fn(int) -> bool, m: nat)
    requires
        forall|j: int| 0 <= j < m ==> #[trigger] f(j) == g(j),
    ensures
        bits_value(f, m) == bits_value(g, m),
    decreases m,
{
    if m > 0 {
        lemma_bits_value_agree(f, g, (m - 1) as nat);
    }
}

/// Zero bits at the top add nothing to the value.
pub proof fn lemma_bits_value_zero_tail(f: spec_fn(int) -> bool, m0: nat, m: nat)
    requires
        m0 <= m,
        forall|j: int| m0 <= j < m ==> !#[trigger] f(j),
    ensures
        bits_value(f, m) == bits_value(f, m0),
    decreases m,
{
    if m > m0 {
        lemma_bits_value_zero_tail(f, m0, (m - 1) as nat);
    }
}

/// Splitting a run of bits at position `d`.
pub proof fn lemma_bits_value_split(f: spec_fn(int) -> bool, d: nat, m: nat)
    requires
        d <= m,
    ensures
        bits_value(f, m) == bits_value(f, d) + pow2(d) * bits_value(bits_from(f, d as int), (m - d) as nat),
    decreases m,
{
    let g = bits_from(f, d as int);
    if m == d {
        assert(bits_value(g, 0) == 0);
        assert(pow2(d) * 0 == 0);
    } else {
        lemma_bits_value_split(f, d, (m - 1) as nat);
        let r: nat = (m - 1 - d) as nat;
        assert(g(r as int) == f(m - 1));
        lemma_pow2_adds(d, r);
        let a = bits_value(g, r);
        assert(bits_value(g, (m - d) as nat) == a + if g(r as int) { pow2(r) } else { 0nat });
        if f(m - 1) {
            assert(pow2(d) * (a + pow2(r)) == pow2(d) * a + pow2(d) * pow2(r)) by (nonlinear_arith);
        }
    }
}

/// Moving bits up by `s` multiplies the value by `2^s`.
pub proof fn lemma_bits_value_up(f: spec_fn(int) -> bool, s: nat, m: nat)
    ensures
        bits_value(bits_up(f, s as int), m + s) == pow2(s) * bits_value(f, m),
        m <= s ==> bits_value(bits_up(f, s as int), m) == 0,
    decreases m,
{
    let g = bits_up(f, s as int);
    lemma_bits_value_zero_tail(g, 0, s);
    assert(bits_value(g, 0) == 0);
    if m <= s {
        lemma_bits_value_zero_tail(g, 0, m);
    }
    if m == 0 {
        assert(bits_value(f, 0) == 0);
        assert(pow2(s) * 0 == 0);
    } else {
        lemma_bits_value_up(f, s, (m - 1) as nat);
        let r: nat = (m - 1) as nat;
        assert(g((r + s) as int) == f(r as int));
        lemma_pow2_adds(s, r);
        let a = bits_value(f, r);
        assert(bits_value(g, m + s) == bits_value(g, r + s) + if g((r + s) as int) { pow2(r + s) } else { 0nat });
        if f(r as int) {
            assert(pow2(s) * (a + pow2(r)) == pow2(s) * a + pow2(s) * pow2(r)) by (nonlinear_arith);
        }
    }
}

/// The digits of a run of bits are the bits of its value.
pub proof fn lemma_bits_value_digit(f: spec_fn(int) -> bool, m: nat, j: int)
    requires
        0 <= j < m,
    ensures
        nat_bit(bits_value(f, m), j) == f(j),
{
    let d: nat = j as nat;
    let v = bits_value(f, m);
    let lo = bits_value(f, d);
    let g = bits_from(f, j);
    let hi = bits_value(g, (m - d) as nat);
    lemma_bits_value_split(f, d, m);
    lemma_bits_value_bound(f, d);
    lemma_pow2_pos(d);
    // v == lo + pow2(d) * hi with lo < pow2(d)
    lemma_fundamental_div_mod_converse(v as int, pow2(d) as int, hi as int, lo as int);
    assert(v / pow2(d) == hi);
    // hi == g(0) + 2 * rest
    let g1 = bits_from(g, 1);
    lemma_bits_value_split(g, 1, (m - d) as nat);
    lemma2_to64();
    assert(bits_value(g, 1) == bits_value(g, 0) + if g(0) { pow2(0) } else { 0nat });
    assert(bits_value(g, 0) == 0);
    let rest = bits_value(g1, (m - d - 1) as nat);
    let b: int = if g(0) { 1 } else { 0 };
    assert(hi == b + 2 * rest);
    assert(g(0) == f(j));
    lemma_fundamental_div_mod_converse(hi as int, 2, rest as int, b);
}

/// A number below `2^m` is the value of its own low `m` bits.
pub proof fn lemma_nat_bits_value(v: nat, m: nat)
    ensures
        bits_value(nat_bits(v), m) == v % pow2(m),
    decreases m,
{
    lemma2_to64();
    if m == 0 {
        assert(v % 1 == 0);
    } else {
        let r: nat = (m - 1) as nat;
        lemma_nat_bits_value(v, r);
        lemma_pow2_pos(r);
        lemma_pow2_unfold(m);
        // v % 2^m == v % 2^r + 2^r * ((v / 2^r) % 2)
        lemma_mod_breakdown(v as int, pow2(r) as int, 2);
        assert(pow2(r) * 2 == pow2(m));
        assert(nat_bits(v)(r as int) == nat_bit(v, r as int));
        let q = (v / pow2(r)) % 2;
        assert(q == 0 || q == 1);
        assert(v % pow2(m) == pow2(r) * q + v % pow2(r));
        if q == 1 {
            assert(pow2(r) * 1 == pow2(r));
        } else {
            assert(pow2(r) * 0 == 0);
        }
    }
}

/// Bits at and above the bit length are zero, and the bit below it is set.
pub proof fn lemma_bit_length(v: nat)
    ensures
        v < pow2(bit_length(v)),
        v > 0 ==> pow2((bit_length(v) - 1) as nat) <= v,
        v > 0 ==> bit_length(v) >= 1,
    decreases v,
{
    lemma2_to64();
    if v > 0 {
        lemma_bit_length(v / 2);
        let l = bit_length(v / 2);
        lemma_pow2_unfold(l + 1);
        if v / 2 > 0 {
            lemma_pow2_unfold(l);
        }
    }
}

/// A number below `2^m` has no bit at or above position `m`.
pub proof fn lemma_nat_bit_above(v: nat, m: nat, j: int)
    requires
        v < pow2(m),
        j >= m,
    ensures
        !nat_bit(v, j),
{
    if m < j {
        lemma_pow2_strictly_increases(m, j as nat);
    }
    lemma_pow2_pos(j as nat);
    lemma_basic_div(v as int, pow2(j as nat) as int);
}

/// Two runs of bits that agree above position `p`, where one has a one and
/// the other a zero, are ordered by that position.
pub proof fn lemma_bits_value_order(f: spec_fn(int) -> bool, g: spec_fn(int) -> bool, p: nat, m: nat)
    requires
        p < m,
        f(p as int),
        !g(p as int),
        forall|j: int| p < j < m ==> #[trigger] f(j) == g(j),
    ensures
        bits_value(g, m) < bits_value(f, m),
    decreases m,
{
    if m == p + 1 {
        lemma_bits_value_bound(g, p);
    } else {
        lemma_bits_value_order(f, g, p, (m - 1) as nat);
    }
}

/// `2^low_zeros(v)` is the largest power of two that divides a positive `v`.
pub proof fn lemma_low_zeros(v: nat)
    requires
        v > 0,
    ensures
        v % pow2(low_zeros(v)) == 0,
        (v / pow2(low_zeros(v))) % 2 == 1,
    decreases v,
{
    lemma2_to64();
    if v % 2 == 1 {
        assert(v % 1 == 0);
        assert(v / 1 == v);
    } else {
        let h = v / 2;
        lemma_low_zeros(h);
        let z = low_zeros(h);
        lemma_pow2_unfold(z + 1);
        lemma_pow2_pos(z);
        // v == 2 * h, h == pow2(z) * q with q odd
        let q = h / pow2(z);
        lemma_fundamental_div_mod(h as int, pow2(z) as int);
        assert(h == pow2(z) * q);
        assert(v == 2 * h);
        assert(v == pow2(z + 1) * q) by (nonlinear_arith)
            requires
                v == 2 * h,
                h == pow2(z) * q,
                pow2(z + 1) == 2 * pow2(z),
        ;
        lemma_pow2_pos(z + 1);
        lemma_fundamental_div_mod_converse(v as int, pow2(z + 1) as int, q as int, 0);
    }
}

/// The only way to write a positive number as an odd number times a power of two.
pub proof fn lemma_low_zeros_unique(v: nat, d: nat, q: nat)
    requires
        v == q * pow2(d),
        q % 2 == 1,
    ensures
        d == low_zeros(v),
        q == v / pow2(d),
    decreases d,
{
    lemma2_to64();
    lemma_pow2_pos(d);
    if d == 0 {
        assert(pow2(0) == 1);
        assert(q * 1 == q);
        assert(v / 1 == v);
    } else {
        lemma_pow2_unfold(d);
        let h = q * pow2((d - 1) as nat);
        assert(v == 2 * h) by (nonlinear_arith)
            requires
                v == q * pow2(d),
                pow2(d) == 2 * pow2((d - 1) as nat),
                h == q * pow2((d - 1) as nat),
        ;
        assert(q > 0);
        lemma_pow2_pos((d - 1) as nat);
        assert(h > 0) by (nonlinear_arith)
            requires
                h == q * pow2((d - 1) as nat),
                q > 0,
                pow2((d - 1) as nat) > 0,
        ;
        lemma_low_zeros_unique(h, (d - 1) as nat, q);
        assert(v / 2 == h);
        assert(v % 2 == 0);
        assert(v == pow2(d) * q + 0) by (nonlinear_arith)
            requires
                v == q * pow2(d),
        ;
        lemma_fundamental_div_mod_converse(v as int, pow2(d) as int, q as int, 0);
    }
}

/// Bit `i` of the bitwise operations and of the constant words.
proof fn lemma_bitwise_bv(a: u64, b: u64, i: u64)
    by (bit_vector)
    requires
        i < 64,
    ensures
        ((a & b) >> i) & 1 == 1 <==> ((a >> i) & 1 == 1 && (b >> i) & 1 == 1),
        ((a | b) >> i) & 1 == 1 <==> ((a >> i) & 1 == 1 || (b >> i) & 1 == 1),
        ((a ^ b) >> i) & 1 == 1 <==> (((a >> i) & 1 == 1) != ((b >> i) & 1 == 1)),
        ((!a) >> i) & 1 == 1 <==> !((a >> i) & 1 == 1),
        (0u64 >> i) & 1 == 0,
        (0xffff_ffff_ffff_ffffu64 >> i) & 1 == 1,
        (1u64 >> i) & 1 == 1 <==> i == 0,
        (a >> i) & 1 == 0 || (a >> i) & 1 == 1,
{
}

/// Bit `i` of the shifts by `s`, and of the mask of the `s` lowest bits.
proof fn lemma_shift_bv(a: u64, s: u64, i: u64)
    by (bit_vector)
    requires
        i < 64,
        s < 64,
    ensures
        i < s ==> ((a << s) >> i) & 1 == 0,
        i >= s ==> ((a << s) >> i) & 1 == (a >> ((i - s) as u64)) & 1,
        i + s >= 64 ==> ((a >> s) >> i) & 1 == 0,
        i + s < 64 ==> ((a >> s) >> i) & 1 == (a >> ((i + s) as u64)) & 1,
        (1u64 << s) >= 1,
        ((((1u64 << s) - 1) as u64) >> i) & 1 == 1 <==> i < s,
{
}

/// Words without a difference are equal, and a zero union has zero parts.
proof fn lemma_word_zero_bv(a: u64, b: u64)
    by (bit_vector)
    ensures
        a ^ b == 0 ==> a == b,
        a | b == 0 <==> (a == 0 && b == 0),
{
}

/// Bits of `a & b`, `a | b`, `a ^ b` and `!a`, and of the constant words.
pub proof fn lemma_word_bitwise(a: u64, b: u64)
    ensures
        forall|i: int| #[trigger] word_bit(a & b, i) == (word_bit(a, i) && word_bit(b, i)),
        forall|i: int| #[trigger] word_bit(a | b, i) == (word_bit(a, i) || word_bit(b, i)),
        forall|i: int| #[trigger] word_bit(a ^ b, i) == (word_bit(a, i) != word_bit(b, i)),
        forall|i: int| 0 <= i < 64 ==> #[trigger] word_bit(!a, i) == !word_bit(a, i),
{
    assert forall|i: int| #[trigger] word_bit(a & b, i) == (word_bit(a, i) && word_bit(b, i)) by {
        if 0 <= i < 64 {
            lemma_bitwise_bv(a, b, i as u64);
        }
    }
    assert forall|i: int| #[trigger] word_bit(a | b, i) == (word_bit(a, i) || word_bit(b, i)) by {
        if 0 <= i < 64 {
            lemma_bitwise_bv(a, b, i as u64);
        }
    }
    assert forall|i: int| #[trigger] word_bit(a ^ b, i) == (word_bit(a, i) != word_bit(b, i)) by {
        if 0 <= i < 64 {
            lemma_bitwise_bv(a, b, i as u64);
        }
    }
    assert forall|i: int| 0 <= i < 64 implies #[trigger] word_bit(!a, i) == !word_bit(a, i) by {
        lemma_bitwise_bv(a, b, i as u64);
    }
}

/// Bits of the words 0, 1 and all-ones.
pub proof fn lemma_word_consts()
    ensures
        forall|i: int| !#[trigger] word_bit(0, i),
        forall|i: int| #[trigger] word_bit(1, i) == (i == 0),
        forall|i: int| #[trigger] word_bit(0xffff_ffff_ffff_ffff, i) == (0 <= i < 64),
{
    assert forall|i: int| !#[trigger] word_bit(0, i) by {
        if 0 <= i < 64 {
            lemma_bitwise_bv(0, 0, i as u64);
        }
    }
    assert forall|i: int| #[trigger] word_bit(1, i) == (i == 0) by {
        if 0 <= i < 64 {
            lemma_bitwise_bv(0, 0, i as u64);
        }
    }
    assert forall|i: int| #[trigger] word_bit(0xffff_ffff_ffff_ffff, i) == (0 <= i < 64) by {
        if 0 <= i < 64 {
            lemma_bitwise_bv(0, 0, i as u64);
        }
    }
}

/// Bits of `a << s`.
pub proof fn lemma_word_shl(a: u64, s: u64)
    requires
        s < 64,
    ensures
        forall|i: int| #[trigger] word_bit(a << s, i) == (s <= i < 64 && word_bit(a, i - s)),
{
    assert forall|i: int| #[trigger] word_bit(a << s, i) == (s <= i < 64 && word_bit(a, i - s)) by {
        if 0 <= i < 64 {
            lemma_shift_bv(a, s, i as u64);
        }
    }
}

/// Bits of `a >> s`.
pub proof fn lemma_word_shr(a: u64, s: u64)
    requires
        s < 64,
    ensures
        forall|i: int| #[trigger] word_bit(a >> s, i) == (0 <= i && word_bit(a, i + s)),
{
    assert forall|i: int| #[trigger] word_bit(a >> s, i) == (0 <= i && word_bit(a, i + s)) by {
        if 0 <= i < 64 {
            lemma_shift_bv(a, s, i as u64);
        }
    }
}

/// The word `(1 << r) - 1` has exactly the bits below `r`.
pub proof fn lemma_word_low_mask(r: u64)
    requires
        r < 64,
    ensures
        (1u64 << r) >= 1,
        forall|i: int| #[trigger] word_bit(((1u64 << r) - 1) as u64, i) == (0 <= i < r),
{
    lemma_shift_bv(0, r, 0);
    assert forall|i: int| #[trigger] word_bit(((1u64 << r) - 1) as u64, i) == (0 <= i < r) by {
        if 0 <= i < 64 {
            lemma_shift_bv(0, r, i as u64);
        }
    }
}

/// A word bit is 0 or 1, read as a number.
pub proof fn lemma_word_bit_value(a: u64, i: u64)
    requires
        i < 64,
    ensures
        (a >> i) & 1 == if word_bit(a, i as int) { 1u64 } else { 0u64 },
{
    lemma_bitwise_bv(a, a, i);
}

/// Words with the same bits are equal.
pub proof fn lemma_word_ext(a: u64, b: u64)
    requires
        forall|i: int| 0 <= i < 64 ==> word_bit(a, i) == word_bit(b, i),
    ensures
        a == b,
{
    if a != b {
        let x = a ^ b;
        lemma_word_zero_bv(a, b);
        vstd::std_specs::bits::axiom_u64_trailing_zeros(x);
        let t = vstd::std_specs::bits::u64_trailing_zeros(x);
        assert(t < 64);
        lemma_word_bitwise(a, b);
        assert(word_bit(x, t as int));
        assert(word_bit(a, t as int) != word_bit(b, t as int));
    }
}

/// A word is zero exactly when it has no bit set.
pub proof fn lemma_word_zero(a: u64)
    ensures
        a == 0 <==> (forall|i: int| 0 <= i < 64 ==> !word_bit(a, i)),
{
    lemma_word_consts();
    if forall|i: int| 0 <= i < 64 ==> !word_bit(a, i) {
        lemma_word_ext(a, 0);
    }
}

/// A set bit at position `p` makes the value at least `2^p`.
pub proof fn lemma_bits_value_ge(f: spec_fn(int) -> bool, p: nat, m: nat)
    requires
        p < m,
        f(p as int),
    ensures
        bits_value(f, m) >= pow2(p),
    decreases m,
{
    if m > p + 1 {
        lemma_bits_value_ge(f, p, (m - 1) as nat);
    }
}

/// A run of bits has value zero exactly when every bit is zero.
pub proof fn lemma_bits_value_is_zero(f: spec_fn(int) -> bool, m: nat)
    ensures
        bits_value(f, m) == 0 <==> (forall|j: int| 0 <= j < m ==> !#[trigger] f(j)),
    decreases m,
{
    if m > 0 {
        lemma_bits_value_is_zero(f, (m - 1) as nat);
        lemma_pow2_pos((m - 1) as nat);
        if bits_value(f, m) == 0 {
            assert forall|j: int| 0 <= j < m implies !#[trigger] f(j) by {
                if j < m - 1 {
                } else {
                    assert(j == m - 1);
                }
            }
        }
    }
}

/// The bit length of `v` is the least `a` with `v < 2^a`.
pub proof fn lemma_bit_length_bounds(v: nat, a: nat)
    ensures
        v < pow2(a) ==> bit_length(v) <= a,
        v >= pow2(a) ==> bit_length(v) > a,
    decreases a,
{
    lemma2_to64();
    if a == 0 {
    } else {
        lemma_pow2_unfold(a);
        lemma_bit_length_bounds(v / 2, (a - 1) as nat);
    }
}

/// What masking with the single bit `t` leaves.
proof fn lemma_single_bit_bv(a: u64, t: u64)
    by (bit_vector)
    requires
        t < 64,
    ensures
        (a & (1u64 << t)) != 0 <==> (a >> t) & 1 == 1,
        (a & (1u64 << t)) == 0 || (a & (1u64 << t)) == (1u64 << t),
{
}

/// `a & (1 << t)` is nonzero exactly when bit `t` of `a` is set, and two
/// words differ under that mask exactly when they differ in bit `t`.
pub proof fn lemma_single_bit(a: u64, b: u64, t: u64)
    requires
        t < 64,
    ensures
        (a & (1u64 << t)) != 0 <==> word_bit(a, t as int),
        (a & (1u64 << t)) != (b & (1u64 << t)) <==> word_bit(a, t as int) != word_bit(b, t as int),
{
    lemma_single_bit_bv(a, t);
    lemma_single_bit_bv(b, t);
}

/// Position of the highest set bit of a nonzero word.
pub fn highest_bit(x: u64) -> (t: u64)
    requires
        x != 0,
    ensures
        t < 64,
        word_bit(x, t as int),
        forall|i: int| t < i ==> !#[trigger] word_bit(x, i),
{
    let lz: u32 = x.leading_zeros();
    proof {
        vstd::std_specs::bits::axiom_u64_leading_zeros(x);
        let t: u64 = (63 - lz) as u64;
        lemma_bitwise_bv(x, x, t);
        assert forall|i: int| t < i implies !#[trigger] word_bit(x, i) by {
            if i < 64 {
                let j: u64 = i as u64;
                assert((x >> j) & 1u64 == 0u64);
            }
        }
    }
    (63 - lz) as u64
}

/// Bit `j` of a byte with a bit set at `t`.
proof fn lemma_byte_bv(a: u8, bit: u8, t: u8, j: u8)
    by (bit_vector)
    requires
        t < 8,
        j < 8,
        bit <= 1,
    ensures
        (a >> t) & 1 == 0 || (a >> t) & 1 == 1,
        ((a | (bit << t)) >> j) & 1 == 1 <==> ((a >> j) & 1 == 1 || (j == t && bit == 1)),
        (0u8 >> j) & 1 == 0,
{
}

/// A byte bit is 0 or 1, read as a number.
pub proof fn lemma_byte_bit_value(a: u8, t: u8)
    requires
        t < 8,
    ensures
        (a >> t) & 1 == if byte_bit(a, t as int) { 1u8 } else { 0u8 },
{
    lemma_byte_bv(a, 0, t, t);
}

/// Bits of `a | (bit << t)` for a `bit` that is 0 or 1, and of the zero byte.
pub proof fn lemma_byte_set(a: u8, bit: u8, t: u8)
    requires
        t < 8,
        bit <= 1,
    ensures
        forall|j: int| #[trigger] byte_bit(a | (bit << t), j) == (byte_bit(a, j) || (j == t && bit == 1)),
        forall|j: int| !#[trigger] byte_bit(0, j),
{
    assert forall|j: int| #[trigger]
        byte_bit(a | (bit << t), j) == (byte_bit(a, j) || (j == t && bit == 1)) by {
        if 0 <= j < 8 {
            lemma_byte_bv(a, bit, t, j as u8);
        }
    }
    assert forall|j: int| !#[trigger] byte_bit(0, j) by {
        if 0 <= j < 8 {
            lemma_byte_bv(a, bit, t, j as u8);
        }
    }
}

/// The top bit of a positive number is set.
pub proof fn lemma_top_bit(v: nat)
    requires
        v > 0,
    ensures
        nat_bit(v, bit_length(v) - 1),
{
    lemma_bit_length(v);
    let l: nat = (bit_length(v) - 1) as nat;
    lemma_pow2_unfold(l + 1);
    lemma_pow2_pos(l);
    lemma_fundamental_div_mod_converse(v as int, pow2(l) as int, 1, v - pow2(l));
}

/// Dropping the `d` lowest bits of a run divides its value by `2^d`.
pub proof fn lemma_bits_value_shifted(f: spec_fn(int) -> bool, d: nat, m: nat)
    ensures
        d <= m ==> bits_value(f, m) / pow2(d) == bits_value(bits_from(f, d as int), (m - d) as nat),
        d >= m ==> bits_value(f, m) / pow2(d) == 0,
{
    lemma_pow2_pos(d);
    if d <= m {
        lemma_bits_value_split(f, d, m);
        lemma_bits_value_bound(f, d);
        let hi = bits_value(bits_from(f, d as int), (m - d) as nat);
        lemma_fundamental_div_mod_converse(
            bits_value(f, m) as int,
            pow2(d) as int,
            hi as int,
            bits_value(f, d) as int,
        );
    }
    if d >= m {
        lemma_bits_value_bound(f, m);
        if d > m {
            lemma_pow2_strictly_increases(m, d);
        }
        lemma_basic_div(bits_value(f, m) as int, pow2(d) as int);
    }
}

/// The lowest set bit of a run of bits is the number of times that 2
/// divides its value.
pub proof fn lemma_low_zeros_at(f: spec_fn(int) -> bool, d: nat, m: nat)
    requires
        d < m,
        f(d as int),
        forall|j: int| 0 <= j < d ==> !#[trigger] f(j),
    ensures
        bits_value(f, m) > 0,
        low_zeros(bits_value(f, m)) == d,
{
    let v = bits_value(f, m);
    let g = bits_from(f, d as int);
    lemma_bits_value_split(f, d, m);
    lemma_bits_value_is_zero(f, d);
    let hi = bits_value(g, (m - d) as nat);
    lemma_bits_value_split(g, 1, (m - d) as nat);
    lemma2_to64();
    assert(bits_value(g, 1) == bits_value(g, 0) + if g(0) { pow2(0) } else { 0nat });
    assert(bits_value(g, 0) == 0);
    assert(g(0) == f(d as int));
    let rest = bits_value(bits_from(g, 1), (m - d - 1) as nat);
    assert(hi == 1 + 2 * rest);
    assert(v == hi * pow2(d)) by (nonlinear_arith)
        requires
            v == 0 + pow2(d) * hi,
    ;
    lemma_low_zeros_unique(v, d, hi);
    lemma_pow2_pos(d);
    assert(v > 0) by (nonlinear_arith)
        requires
            v == hi * pow2(d),
            hi >= 1,
            pow2(d) > 0,
    ;
}

/// Number of set bits among the lowest `n` bits of a word.
pub open spec fn word_ones(w: u64, n: nat) -> nat
    decreases n,
{
    if n == 0 {
        0
    } else {
        word_ones(w, (n - 1) as nat) + if word_bit(w, n - 1) {
            1nat
        } else {
            0nat
        }
    }
}

/// `u64::count_ones`: the number of ones in the binary representation.
pub assume_specification[ u64::count_ones ](w: u64) -> (r: u32)
    ensures
        r == word_ones(w, 64),
;

/// The lowest bit is the remainder by 2.
proof fn lemma_low_bit_bv(y: u64)
    by (bit_vector)
    ensures
        (y & 1 == 1) == (y % 2 == 1),
{
}

/// The bits of a word are the bits of the number that it holds.
pub proof fn lemma_word_bit_nat(w: u64, j: int)
    ensures
        word_bit(w, j) == (j < 64 && nat_bit(w as nat, j)),
{
    if 0 <= j < 64 {
        vstd::bits::lemma_u64_shr_is_div(w, j as u64);
        lemma_low_bit_bv(w >> (j as u64));
    }
}

/// A word is the value of its 64 bits.
pub proof fn lemma_word_value(w: u64, f: spec_fn(int) -> bool)
    requires
        forall|t: int| 0 <= t < 64 ==> #[trigger] f(t) == word_bit(w, t),
    ensures
        bits_value(f, 64) == w,
{
    assert forall|t: int| 0 <= t < 64 implies #[trigger] f(t) == nat_bits(w as nat)(t) by {
        lemma_word_bit_nat(w, t);
    }
    lemma_bits_value_agree(f, nat_bits(w as nat), 64);
    lemma_nat_bits_value(w as nat, 64);
    lemma2_to64();
    lemma_small_mod(w as nat, pow2(64));
}

/// A number whose highest set bit is at position `p` has `p + 1` bits.
pub proof fn lemma_bit_length_at(f: spec_fn(int) -> bool, p: nat, m: nat)
    requires
        p < m,
        f(p as int),
        forall|j: int| p < j < m ==> !#[trigger] f(j),
    ensures
        bit_length(bits_value(f, m)) == p + 1,
{
    lemma_bits_value_ge(f, p, m);
    lemma_bits_value_zero_tail(f, p + 1, m);
    lemma_bits_value_bound(f, p + 1);
    lemma_bit_length_bounds(bits_value(f, m), p);
    lemma_bit_length_bounds(bits_value(f, m), p + 1);
}

/// `u128::trailing_zeros`: the number of trailing zeros in the binary
/// representation, 128 for zero.
pub assume_specification[ u128::trailing_zeros ](v: u128) -> (r: u32)
    ensures
        r == if v == 0 { 128 } else { low_zeros(v as nat) },
;

/// `u128::leading_zeros`: the number of leading zeros in the binary
/// representation, 128 for zero.
pub assume_specification[ u128::leading_zeros ](v: u128) -> (r: u32)
    ensures
        r == 128 - bit_length(v as nat),
;

/// The lowest bit of a 128-bit number is its remainder by 2.
proof fn lemma_low_bit_wide_bv(y: u128)
    by (bit_vector)
    ensures
        (y & 1 == 1) == (y % 2 == 1),
        y & 1 == 0 || y & 1 == 1,
{
}

/// Bit `pos` of a 128-bit number, read by shifting and masking.
pub proof fn lemma_wide_bit(v: u128, pos: u128)
    requires
        pos < 128,
    ensures
        (v >> pos) & 1 == if nat_bit(v as nat, pos as int) { 1u128 } else { 0u128 },
{
    vstd::bits::lemma_u128_shr_is_div(v, pos);
    lemma_low_bit_wide_bv(v >> pos);
}

/// A byte is the sum of its bits, each at its weight.
proof fn lemma_byte_sum_bv(b: u8)
    by (bit_vector)
    ensures
        b == (b & 1) + 2 * ((b >> 1) & 1) + 4 * ((b >> 2) & 1) + 8 * ((b >> 3) & 1) + 16 * ((b
            >> 4) & 1) + 32 * ((b >> 5) & 1) + 64 * ((b >> 6) & 1) + 128 * ((b >> 7) & 1),
        b >> 0 == b,
{
}

/// A byte is the value of its 8 bits.
pub proof fn lemma_byte_value(b: u8, f: spec_fn(int) -> bool)
    requires
        forall|t: int| 0 <= t < 8 ==> #[trigger] f(t) == byte_bit(b, t),
    ensures
        bits_value(f, 8) == b,
{
    lemma_byte_sum_bv(b);
    lemma2_to64();
    lemma_byte_bit_value(b, 0);
    lemma_byte_bit_value(b, 1);
    lemma_byte_bit_value(b, 2);
    lemma_byte_bit_value(b, 3);
    lemma_byte_bit_value(b, 4);
    lemma_byte_bit_value(b, 5);
    lemma_byte_bit_value(b, 6);
    lemma_byte_bit_value(b, 7);
    assert(f(0) == byte_bit(b, 0) && f(1) == byte_bit(b, 1) && f(2) == byte_bit(b, 2) && f(3)
        == byte_bit(b, 3));
    assert(f(4) == byte_bit(b, 4) && f(5) == byte_bit(b, 5) && f(6) == byte_bit(b, 6) && f(7)
        == byte_bit(b, 7));
    assert(bits_value(f, 0) == 0);
    assert(bits_value(f, 1) == bits_value(f, 0) + if f(0) { pow2(0) } else { 0nat });
    assert(bits_value(f, 2) == bits_value(f, 1) + if f(1) { pow2(1) } else { 0nat });
    assert(bits_value(f, 3) == bits_value(f, 2) + if f(2) { pow2(2) } else { 0nat });
    assert(bits_value(f, 4) == bits_value(f, 3) + if f(3) { pow2(3) } else { 0nat });
    assert(bits_value(f, 5) == bits_value(f, 4) + if f(4) { pow2(4) } else { 0nat });
    assert(bits_value(f, 6) == bits_value(f, 5) + if f(5) { pow2(5) } else { 0nat });
    assert(bits_value(f, 7) == bits_value(f, 6) + if f(6) { pow2(6) } else { 0nat });
    assert(bits_value(f, 8) == bits_value(f, 7) + if f(7) { pow2(7) } else { 0nat });
}


/// One of the 8 bits of a nonzero byte is set.
proof fn lemma_byte_nonzero_bv(b: u8)
    by (bit_vector)
    requires
        b != 0,
    ensures
        (b >> 0u8) & 1 == 1 || (b >> 1u8) & 1 == 1 || (b >> 2u8) & 1 == 1 || (b >> 3u8) & 1 == 1
            || (b >> 4u8) & 1 == 1 || (b >> 5u8) & 1 == 1 || (b >> 6u8) & 1 == 1 || (b >> 7u8) & 1
            == 1,
{
}

/// A nonzero byte has a bit set.
pub proof fn lemma_byte_nonzero(b: u8)
    requires
        b != 0,
    ensures
        exists|t: int| 0 <= t < 8 && byte_bit(b, t),
{
    lemma_byte_nonzero_bv(b);
    assert(byte_bit(b, 0) || byte_bit(b, 1) || byte_bit(b, 2) || byte_bit(b, 3) || byte_bit(b, 4)
        || byte_bit(b, 5) || byte_bit(b, 6) || byte_bit(b, 7));
}

} // verus!

//! The ripple-carry addition `v + v*2^s + 1`, bit by bit, and why its bits
//! are those of `x*v + 1` for `x = 2^s + 1`.

use vstd::prelude::*;
use vstd::arithmetic::power2::{
    pow2, lemma_pow2_pos, lemma_pow2_unfold, lemma2_to64, lemma_pow2_strictly_increases,
    lemma_pow2_adds,
};
use vstd::arithmetic::div_mod::lemma_small_mod;
use crate::bits::{
    bits_up, bits_value, bit_length, nat_bit, nat_bits, lemma_bits_value_bound,
    lemma_bits_value_digit, lemma_bits_value_up, lemma_bit_length, lemma_bit_length_bounds,
    lemma_nat_bits_value,
};
use crate::model::{raw_next, shift_of, valid_multiplier};

verus! {

/// The carry out of a full adder.
pub open spec fn maj(a: bool, b: bool, c: bool) -> bool {
    (a && b) || (b && c) || (a && c)
}

/// The sum bit of a full adder.
pub open spec fn xor3(a: bool, b: bool, c: bool) -> bool {
    (a != b) != c
}

/// The carry into position `j` when the bit sequences `a` and `b` are added
/// with the carry `c0` into position 0.
pub open spec fn carry_into(a: spec_fn(int) -> bool, b: spec_fn(int) -> bool, c0: bool, j: nat) -> bool
    decreases j,
{
    if j == 0 {
        c0
    } else {
        maj(a(j - 1), b(j - 1), carry_into(a, b, c0, (j - 1) as nat))
    }
}

/// The bits of the sum of `a`, `b` and the carry `c0`.
pub open spec fn sum_bits(a: spec_fn(int) -> bool, b: spec_fn(int) -> bool, c0: bool) -> spec_fn(
    int,
) -> bool {
    |j: int| j >= 0 && xor3(a(j), b(j), carry_into(a, b, c0, j as nat))
}

/// The carry into bit `j` of `v + v*2^s + 1`.
pub open spec fn scan_carry(v: nat, s: nat, j: nat) -> bool {
    carry_into(nat_bits(v), bits_up(nat_bits(v), s as int), true, j)
}

/// Bit `j` of `v + v*2^s + 1`, as the addition produces it.
pub open spec fn scan_bit(v: nat, s: nat, j: int) -> bool {
    sum_bits(nat_bits(v), bits_up(nat_bits(v), s as int), true)(j)
}

/// The sum bits below `m` and the carry into `m` hold the sum of the
/// addends below `m`.
pub proof fn lemma_adder(a: spec_fn(int) -> bool, b: spec_fn(int) -> bool, c0: bool, m: nat)
    ensures
        bits_value(sum_bits(a, b, c0), m) + (if carry_into(a, b, c0, m) {
            pow2(m)
        } else {
            0nat
        }) == bits_value(a, m) + bits_value(b, m) + (if c0 {
            1nat
        } else {
            0nat
        }),
    decreases m,
{
    lemma2_to64();
    if m > 0 {
        let r: nat = (m - 1) as nat;
        lemma_adder(a, b, c0, r);
        lemma_pow2_unfold(m);
        assert(sum_bits(a, b, c0)(r as int) == xor3(a(r as int), b(r as int), carry_into(a, b, c0, r)));
    }
}

/// With `m` at least the bit length of `v` plus `s`, the addition below `m`
/// has taken in all of `v` and of `v*2^s`.
pub proof fn lemma_scan_sum(v: nat, s: nat, m: nat)
    requires
        m >= bit_length(v) + s,
    ensures
        bits_value(sum_bits(nat_bits(v), bits_up(nat_bits(v), s as int), true), m) + (if scan_carry(
            v,
            s,
            m,
        ) {
            pow2(m)
        } else {
            0nat
        }) == v + pow2(s) * v + 1,
{
    let a = nat_bits(v);
    let b = bits_up(a, s as int);
    lemma_adder(a, b, true, m);
    lemma_bit_length(v);
    let l = bit_length(v);
    // bits_value(a, m) == v
    lemma_nat_bits_value(v, m);
    if l < m {
        lemma_pow2_strictly_increases(l, m);
    }
    lemma_small_mod(v, pow2(m));
    // bits_value(b, m) == pow2(s) * v
    let h: nat = (m - s) as nat;
    lemma_bits_value_up(a, s, h);
    lemma_nat_bits_value(v, h);
    if l < h {
        lemma_pow2_strictly_increases(l, h);
    }
    lemma_small_mod(v, pow2(h));
}

/// What the addition says about `x*v + 1`, for `x = 2^s + 1`: past the bits
/// of the addends the carry is out exactly when the sum fits, and then the
/// sum bits are the bits of `x*v + 1`. One position further the carry is
/// always out.
pub proof fn lemma_scan_digits(v: nat, x: u64, m: nat)
    requires
        valid_multiplier(x),
        m >= bit_length(v) + shift_of(x),
    ensures
        !scan_carry(v, shift_of(x), m) <==> raw_next(v, x) < pow2(m),
        !scan_carry(v, shift_of(x), m) ==> bits_value(
            sum_bits(nat_bits(v), bits_up(nat_bits(v), shift_of(x) as int), true),
            m,
        ) == raw_next(v, x),
        !scan_carry(v, shift_of(x), m) ==> forall|j: int|
            0 <= j < m ==> #[trigger] scan_bit(v, shift_of(x), j) == nat_bit(raw_next(v, x), j),
        m >= bit_length(v) + shift_of(x) + 1 ==> !scan_carry(v, shift_of(x), m),
{
    let s = shift_of(x);
    let f = sum_bits(nat_bits(v), bits_up(nat_bits(v), s as int), true);
    lemma_scan_sum(v, s, m);
    lemma_bits_value_bound(f, m);
    assert(raw_next(v, x) == v + pow2(s) * v + 1) by (nonlinear_arith)
        requires
            x == pow2(s) + 1,
            raw_next(v, x) == x * v + 1,
    ;
    if !scan_carry(v, s, m) {
        assert forall|j: int| 0 <= j < m implies #[trigger] scan_bit(v, s, j) == nat_bit(
            raw_next(v, x),
            j,
        ) by {
            lemma_bits_value_digit(f, m, j);
        }
    }
    if m >= bit_length(v) + s + 1 {
        lemma_raw_bound(v, x);
        if bit_length(v) + s + 1 < m {
            lemma_pow2_strictly_increases(bit_length(v) + s + 1, m);
        }
    }
}

/// `x*v + 1` has at most `s + 1` bits more than `v`.
pub proof fn lemma_raw_bound(v: nat, x: u64)
    requires
        valid_multiplier(x),
    ensures
        raw_next(v, x) < pow2(bit_length(v) + shift_of(x) + 1),
        raw_next(v, x) >= 1,
{
    let s = shift_of(x);
    let l = bit_length(v);
    lemma_bit_length(v);
    lemma_pow2_adds(l, s + 1);
    lemma_pow2_unfold(s + 1);
    lemma_pow2_pos(s);
    lemma_pow2_pos(l);
    assert(x * v + 1 < pow2(l) * (2 * pow2(s))) by (nonlinear_arith)
        requires
            x == pow2(s) + 1,
            v < pow2(l),
            pow2(s) >= 1,
            pow2(l) >= 1,
    ;
    assert(x * v + 1 >= 1) by (nonlinear_arith)
        requires
            x >= 0,
            v >= 0,
    ;
}

/// The two stages of pair `i`: the low stage adds bits `2i - s` and `2i` of
/// `v` to the carry into bit `2i`, the high stage bits `2i + 1 - s` and
/// `2i + 1` to the carry that the low stage hands on.
pub proof fn lemma_scan_pair(v: nat, s: nat, i: int)
    requires
        i >= 0,
    ensures
        scan_bit(v, s, 2 * i) == xor3(
            nat_bit(v, 2 * i - s),
            nat_bit(v, 2 * i),
            scan_carry(v, s, (2 * i) as nat),
        ),
        scan_carry(v, s, (2 * i + 1) as nat) == maj(
            nat_bit(v, 2 * i - s),
            nat_bit(v, 2 * i),
            scan_carry(v, s, (2 * i) as nat),
        ),
        scan_bit(v, s, 2 * i + 1) == xor3(
            nat_bit(v, 2 * i + 1 - s),
            nat_bit(v, 2 * i + 1),
            scan_carry(v, s, (2 * i + 1) as nat),
        ),
        scan_carry(v, s, (2 * i + 2) as nat) == maj(
            nat_bit(v, 2 * i + 1 - s),
            nat_bit(v, 2 * i + 1),
            scan_carry(v, s, (2 * i + 1) as nat),
        ),
{
    let a = nat_bits(v);
    let b = bits_up(a, s as int);
    assert(b(2 * i) == nat_bit(v, 2 * i - s));
    assert(b(2 * i + 1) == nat_bit(v, 2 * i + 1 - s));
    assert(a(2 * i) == nat_bit(v, 2 * i));
    assert(a(2 * i + 1) == nat_bit(v, 2 * i + 1));
    assert(carry_into(a, b, true, (2 * i + 1) as nat) == maj(
        a(2 * i),
        b(2 * i),
        carry_into(a, b, true, (2 * i) as nat),
    ));
    assert(carry_into(a, b, true, (2 * i + 2) as nat) == maj(
        a(2 * i + 1),
        b(2 * i + 1),
        carry_into(a, b, true, (2 * i + 1) as nat),
    ));
}

/// The step from `v` has at most `(s + 1) / 2 + 1` pairs more than `v`.
pub proof fn lemma_next_pairs(v: nat, x: u64)
    requires
        valid_multiplier(x),
    ensures
        crate::pair_number::pair_len(crate::model::step_next(v, x)) <= crate::pair_number::pair_len(
            v,
        ) + (shift_of(x) + 1) / 2 + 1,
{
    let s = shift_of(x);
    let raw = raw_next(v, x);
    let next = crate::model::step_next(v, x);
    lemma_raw_bound(v, x);
    crate::model::lemma_step_odd(v, x);
    let d = crate::model::step_d(v, x);
    lemma_pow2_pos(d);
    assert(next <= raw) by (nonlinear_arith)
        requires
            next * pow2(d) == raw,
            pow2(d) >= 1,
    ;
    lemma_bit_length_bounds(next, bit_length(v) + s + 1);
}

} // verus!

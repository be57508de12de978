//! Arbitrary-precision numbers of `num_bigint`, as this library sees them:
//! a `BigUint` is known by its little-endian bytes, and every operation on
//! one is stated over the number that those bytes stand for.

use vstd::prelude::*;
use num_bigint::BigUint;
use num_traits::Zero;
use crate::bits::{bits_value, bit_length, byte_bit, lemma_bits_value_agree, lemma_bits_value_split};
use vstd::arithmetic::power2::pow2;

verus! {

/// `num_bigint::BigUint`, taken as it is: a value of it is carried through,
/// and known only by what the items below say of it.
#[verifier::external_type_specification]
#[verifier::external_body]
pub struct ExBigUint(BigUint);

/// The little-endian bytes of `n`, as `BigUint::to_bytes_le` returns them.
pub uninterp spec fn biguint_bytes(n: BigUint) -> Seq<u8>;

/// The bits of a byte sequence, lowest bit of the first byte first.
pub open spec fn bytes_bits(s: Seq<u8>) -> spec_fn(int) -> bool {
    |j: int| 0 <= j < 8 * s.len() && byte_bit(s[j / 8], j % 8)
}

/// The number that little-endian bytes stand for.
pub open spec fn bytes_value(s: Seq<u8>) -> nat {
    bits_value(bytes_bits(s), 8 * s.len())
}

/// The number that `n` holds.
pub open spec fn biguint_value(n: BigUint) -> nat {
    bytes_value(biguint_bytes(n))
}

/// The number that little-endian 64-bit digits stand for.
pub open spec fn digits_value(s: Seq<u64>) -> nat
    decreases s.len(),
{
    if s.len() == 0 {
        0
    } else {
        (s[0] + 0x1_0000_0000_0000_0000 * digits_value(s.drop_first())) as nat
    }
}

/// `BigUint::to_bytes_le`: the bytes that this library calls the contents
/// of `n`. There is at least one, and the top one is zero for zero only.
pub assume_specification[ BigUint::to_bytes_le ](n: &BigUint) -> (r: Vec<u8>)
    ensures
        r@ == biguint_bytes(*n),
        r@.len() >= 1,
        r@.len() > 1 ==> r@[r@.len() - 1] != 0,
;

/// `BigUint::bits`: the fewest bits that express the number, 0 for zero,
/// where that count fits the result.
pub assume_specification[ BigUint::bits ](n: &BigUint) -> (r: u64)
    ensures
        bit_length(biguint_value(*n)) <= u64::MAX ==> r == bit_length(biguint_value(*n)),
;

/// `BigUint::from_bytes_le`: the number with the given little-endian bytes;
/// zero for no bytes.
pub assume_specification[ BigUint::from_bytes_le ](bytes: &[u8]) -> (r: BigUint)
    ensures
        biguint_value(r) == bytes_value(bytes@),
;

/// `BigUint::to_u64_digits`: the base-2^64 digits of the number, lowest
/// first, without zero digits at the top: none at all for zero.
pub assume_specification[ BigUint::to_u64_digits ](n: &BigUint) -> (r: Vec<u64>)
    ensures
        digits_value(r@) == biguint_value(*n),
        r@.len() > 0 ==> r@[r@.len() - 1] != 0,
;

/// `Clone` of `BigUint`: a copy with the same contents.
pub assume_specification[ <BigUint as Clone>::clone ](n: &BigUint) -> (r: BigUint)
    ensures
        biguint_bytes(r) == biguint_bytes(*n),
;

/// `Zero::is_zero` of `BigUint`: whether the number is 0.
#[verifier::external_body]
pub(crate) fn biguint_is_zero(n: &BigUint) -> (r: bool)
    ensures
        r == (biguint_value(*n) == 0),
{
    n.is_zero()
}

/// `From<u64>` of `BigUint`: the number `v`.
#[verifier::external_body]
pub(crate) fn biguint_from_u64(v: u64) -> (r: BigUint)
    ensures
        biguint_value(r) == v,
{
    BigUint::from(v)
}

/// `<=` of `BigUint`: the order of the numbers.
#[verifier::external_body]
pub(crate) fn biguint_le(a: &BigUint, b: &BigUint) -> (r: bool)
    ensures
        r == (biguint_value(*a) <= biguint_value(*b)),
{
    a <= b
}

/// `+` of `BigUint`: the sum.
#[verifier::external_body]
pub(crate) fn biguint_add(a: &BigUint, b: &BigUint) -> (r: BigUint)
    ensures
        biguint_value(r) == biguint_value(*a) + biguint_value(*b),
{
    a + b
}

/// `-` of `BigUint`: the difference. The operator panics where `b` is the
/// larger, so that is left out.
#[verifier::external_body]
pub(crate) fn biguint_sub(a: &BigUint, b: &BigUint) -> (r: BigUint)
    requires
        biguint_value(*b) <= biguint_value(*a),
    ensures
        biguint_value(r) == biguint_value(*a) - biguint_value(*b),
{
    a - b
}

/// `/` of `BigUint`: the quotient, rounded down. The operator panics on a
/// zero divisor, so that is left out.
#[verifier::external_body]
pub(crate) fn biguint_div(a: &BigUint, b: &BigUint) -> (r: BigUint)
    requires
        biguint_value(*b) > 0,
    ensures
        biguint_value(r) == biguint_value(*a) / biguint_value(*b),
{
    a / b
}

/// `%` of `BigUint`: the remainder. The operator panics on a zero divisor,
/// so that is left out.
#[verifier::external_body]
pub(crate) fn biguint_rem(a: &BigUint, b: &BigUint) -> (r: BigUint)
    requires
        biguint_value(*b) > 0,
    ensures
        biguint_value(r) == biguint_value(*a) % biguint_value(*b),
{
    a % b
}

/// Digits without a zero at the top: at most one digit exactly for the
/// numbers below `2^64`, whose value is that digit, or 0 without one.
pub proof fn lemma_digits(s: Seq<u64>)
    requires
        s.len() > 0 ==> s[s.len() - 1] != 0,
    ensures
        s.len() == 0 ==> digits_value(s) == 0,
        s.len() == 1 ==> digits_value(s) == s[0],
        s.len() > 1 ==> digits_value(s) >= 0x1_0000_0000_0000_0000,
    decreases s.len(),
{
    if s.len() == 1 {
        assert(digits_value(s.drop_first()) == 0);
    } else if s.len() > 1 {
        let t = s.drop_first();
        assert(t[t.len() - 1] == s[s.len() - 1]);
        lemma_digits(t);
        lemma_digits_positive(t);
        assert(0x1_0000_0000_0000_0000 * digits_value(t) >= 0x1_0000_0000_0000_0000)
            by (nonlinear_arith)
            requires
                digits_value(t) >= 1,
        ;
    }
}

/// Digits with a nonzero digit at the top stand for a positive number.
pub proof fn lemma_digits_positive(s: Seq<u64>)
    requires
        s.len() > 0,
        s[s.len() - 1] != 0,
    ensures
        digits_value(s) >= 1,
    decreases s.len(),
{
    if s.len() > 1 {
        let t = s.drop_first();
        assert(t[t.len() - 1] == s[s.len() - 1]);
        lemma_digits_positive(t);
        assert(0x1_0000_0000_0000_0000 * digits_value(t) >= 0) by (nonlinear_arith)
            requires
                digits_value(t) >= 1,
        ;
    } else {
        assert(digits_value(s.drop_first()) == 0);
    }
}

/// The value of little-endian bytes, byte by byte: a byte at the top counts
/// `256^len` times itself.
pub proof fn lemma_bytes_value_push(s: Seq<u8>, b: u8)
    ensures
        bytes_value(s.push(b)) == bytes_value(s) + b * pow2(8 * s.len()),
        bytes_value(Seq::<u8>::empty()) == 0,
{
    let t = s.push(b);
    let low: nat = 8 * s.len();
    let f = bytes_bits(t);
    lemma_bits_value_split(f, low, low + 8);
    assert forall|j: int| 0 <= j < low implies #[trigger] f(j) == bytes_bits(s)(j) by {
        assert(t[j / 8] == s[j / 8]);
    }
    lemma_bits_value_agree(f, bytes_bits(s), low);
    let g = crate::bits::bits_from(f, low as int);
    assert forall|j: int| 0 <= j < 8 implies #[trigger] g(j) == byte_bit(b, j) by {
        assert((j + low) / 8 == s.len() && (j + low) % 8 == j);
    }
    crate::bits::lemma_byte_value(b, g);
    assert(pow2(low) * (b as nat) == b * pow2(low)) by (nonlinear_arith);
    assert(bits_value(bytes_bits(Seq::<u8>::empty()), 0) == 0);
}

/// Bytes with a nonzero byte at the top stand for a number of at least
/// `256^(len - 1)`.
pub proof fn lemma_bytes_length(s: Seq<u8>)
    requires
        s.len() >= 1,
        s[s.len() - 1] != 0,
    ensures
        bytes_value(s) >= pow2((8 * (s.len() - 1)) as nat),
{
    let top: int = s.len() - 1;
    let f = bytes_bits(s);
    let b = s[top];
    crate::bits::lemma_byte_nonzero(b);
    let t = choose|t: int| 0 <= t < 8 && byte_bit(b, t);
    let pos: nat = (8 * top + t) as nat;
    assert(f(pos as int)) by {
        assert(pos as int / 8 == top && pos as int % 8 == t);
    }
    crate::bits::lemma_bits_value_ge(f, pos, 8 * s.len());
    if pos > 8 * top {
        vstd::arithmetic::power2::lemma_pow2_strictly_increases((8 * top) as nat, pos);
    }
}

} // verus!

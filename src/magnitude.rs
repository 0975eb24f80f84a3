//! Arbitrary-precision unsigned integers, taken from `num_bigint`, and the
//! big-endian reading of byte sequences that relates them to buffers.
use num_bigint::BigUint;
use num_integer::Integer;
use num_traits::{One, ToPrimitive, Zero};
use vstd::prelude::*;

verus! {

#[verifier::external_type_specification]
#[verifier::external_body]
pub struct ExBigUint(BigUint);

/// The number that a `BigUint` holds.
pub uninterp spec fn big_value(b: BigUint) -> nat;

/// The number that `s` spells in base 256, most significant byte first.
pub open spec fn be_value(s: Seq<u8>) -> nat
    decreases s.len(),
{
    if s.len() == 0 {
        0
    } else {
        be_value(s.drop_last()) * 256 + s.last() as nat
    }
}

/// The shortest big-endian bytes of `n`: one byte `0` for zero, otherwise no
/// leading zero byte.
pub open spec fn be_bytes(n: nat) -> Seq<u8>
    decreases n,
{
    if n < 256 {
        seq![n as u8]
    } else {
        be_bytes(n / 256).push((n % 256) as u8)
    }
}

/// The shortest big-endian bytes of a number hold at least one byte.
pub proof fn lemma_be_bytes_nonempty(n: nat)
    ensures
        be_bytes(n).len() >= 1,
    decreases n,
{
    if n >= 256 {
        lemma_be_bytes_nonempty(n / 256);
    }
}

/// Bytes that start with a non-zero byte spell a positive number.
pub proof fn lemma_be_value_positive(s: Seq<u8>)
    requires
        s.len() >= 1,
        s[0] != 0,
    ensures
        be_value(s) >= 1,
    decreases s.len(),
{
    if s.len() > 1 {
        assert(s.drop_last()[0] == s[0]);
        lemma_be_value_positive(s.drop_last());
    }
}

/// Bytes without a leading zero byte are the shortest big-endian bytes of the
/// number they spell.
pub proof fn lemma_be_bytes_of_value(s: Seq<u8>)
    requires
        s.len() >= 1,
        s[0] != 0,
    ensures
        be_bytes(be_value(s)) == s,
    decreases s.len(),
{
    let n = be_value(s);
    if s.len() == 1 {
        assert(s.drop_last() =~= seq![]);
        assert(be_value(s.drop_last()) == 0);
        assert(n == s[0] as nat);
        assert(be_bytes(n) =~= s);
    } else {
        let p = s.drop_last();
        assert(p[0] == s[0]);
        lemma_be_value_positive(p);
        lemma_be_bytes_of_value(p);
        assert(n / 256 == be_value(p));
        assert(n % 256 == s.last() as nat);
        assert(be_bytes(n) =~= p.push(s.last()));
        assert(p.push(s.last()) =~= s);
    }
}

/// Relies on `Zero::zero` for `BigUint`: the number zero.
#[verifier::external_body]
pub(crate) fn big_zero() -> (r: BigUint)
    ensures
        big_value(r) == 0,
{
    BigUint::zero()
}

/// Relies on `One::one` for `BigUint`: the number one.
#[verifier::external_body]
pub(crate) fn big_one() -> (r: BigUint)
    ensures
        big_value(r) == 1,
{
    BigUint::one()
}

/// Relies on `From<u64>` for `BigUint`: the same number.
#[verifier::external_body]
pub(crate) fn big_from_u64(x: u64) -> (r: BigUint)
    ensures
        big_value(r) == x as nat,
{
    BigUint::from(x)
}

/// Relies on `BigUint::from_bytes_be`: the bytes read most significant first.
#[verifier::external_body]
pub(crate) fn big_from_bytes_be(bytes: &Vec<u8>) -> (r: BigUint)
    ensures
        big_value(r) == be_value(bytes@),
{
    BigUint::from_bytes_be(bytes.as_slice())
}

/// Relies on `BigUint::to_bytes_be`: the shortest big-endian bytes, `[0]` for zero.
#[verifier::external_body]
pub(crate) fn big_to_bytes_be(v: &BigUint) -> (r: Vec<u8>)
    ensures
        r@ == be_bytes(big_value(*v)),
{
    v.to_bytes_be()
}

/// Relies on `Zero::is_zero` for `BigUint`: whether the number is zero.
#[verifier::external_body]
pub(crate) fn big_is_zero(v: &BigUint) -> (r: bool)
    ensures
        r == (big_value(*v) == 0),
{
    v.is_zero()
}

/// Relies on `Integer::mod_floor` for `BigUint`: the remainder of the division,
/// which panics on a zero divisor.
#[verifier::external_body]
pub(crate) fn big_mod_floor(v: &BigUint, m: &BigUint) -> (r: BigUint)
    requires
        big_value(*m) > 0,
    ensures
        big_value(r) == big_value(*v) % big_value(*m),
{
    v.mod_floor(m)
}

/// Relies on `ToPrimitive::to_usize` for `BigUint`: the number, where it fits.
#[verifier::external_body]
pub(crate) fn big_to_usize(v: &BigUint) -> (r: Option<usize>)
    ensures
        big_value(*v) <= usize::MAX ==> r == Some(big_value(*v) as usize),
        big_value(*v) > usize::MAX ==> r is None,
{
    v.to_usize()
}

/// Relies on `DivAssign<&BigUint>` for `BigUint`: floor division in place,
/// which panics on a zero divisor.
#[verifier::external_body]
pub(crate) fn big_div_assign(v: &mut BigUint, d: &BigUint)
    requires
        big_value(*d) > 0,
    ensures
        big_value(*final(v)) == big_value(*old(v)) / big_value(*d),
{
    *v /= d;
}

/// Relies on `Mul<&BigUint>` for `BigUint`: the product.
#[verifier::external_body]
pub(crate) fn big_mul(a: BigUint, b: &BigUint) -> (r: BigUint)
    ensures
        big_value(r) == big_value(a) * big_value(*b),
{
    a * b
}

/// Relies on `AddAssign<BigUint>` for `BigUint`: the sum, in place.
#[verifier::external_body]
pub(crate) fn big_add_assign(v: &mut BigUint, a: BigUint)
    ensures
        big_value(*final(v)) == big_value(*old(v)) + big_value(a),
{
    *v += a;
}

/// Relies on `MulAssign<&BigUint>` for `BigUint`: the product, in place.
#[verifier::external_body]
pub(crate) fn big_mul_assign(v: &mut BigUint, m: &BigUint)
    ensures
        big_value(*final(v)) == big_value(*old(v)) * big_value(*m),
{
    *v *= m;
}

} // verus!

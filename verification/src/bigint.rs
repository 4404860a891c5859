//! An arbitrary-precision signed integer, held as big-endian two's-complement
//! bytes, with its arithmetic carried out by `num_bigint`.

use num_bigint::BigInt;
use num_bigint::Sign;
use num_integer::Integer;
use num_traits::One;
use num_traits::Zero;
use rand::rngs::StdRng;
use rand::Rng;
use vstd::arithmetic::power::pow;
use vstd::prelude::*;

verus! {

/// The random generator that the randomized operations draw from.
#[verifier::external_type_specification]
#[verifier::external_body]
pub struct ExStdRng(StdRng);

/// The number that `s` spells as big-endian base-256 digits.
pub open spec fn be_value(s: Seq<u8>) -> nat
    decreases s.len(),
{
    if s.len() == 0 {
        0
    } else {
        be_value(s.drop_last()) * 256 + s.last() as nat
    }
}

/// The number that `s` spells in big-endian two's complement; no bytes spell zero.
pub open spec fn signed_be_value(s: Seq<u8>) -> int {
    if s.len() > 0 && s[0] >= 128 {
        be_value(s) - pow(256, s.len())
    } else {
        be_value(s) as int
    }
}

/// Quotient of `a` by `b` rounded towards zero.
pub open spec fn trunc_div(a: int, b: int) -> int
    recommends
        b != 0,
{
    if a >= 0 {
        if b > 0 {
            a / b
        } else {
            -(a / (-b))
        }
    } else {
        if b > 0 {
            -((-a) / b)
        } else {
            (-a) / (-b)
        }
    }
}

/// Remainder that goes with `trunc_div`; it has the sign of `a`.
pub open spec fn trunc_rem(a: int, b: int) -> int
    recommends
        b != 0,
{
    a - trunc_div(a, b) * b
}

/// A signed integer of any size. Every byte string is a valid value.
#[derive(Debug)]
pub struct BigInteger {
    /// Big-endian two's-complement bytes.
    pub bytes: Vec<u8>,
}

impl View for BigInteger {
    type V = int;

    open spec fn view(&self) -> int {
        signed_be_value(self.bytes@)
    }
}

/// `BigInt::from` on a `u64`: the integer with that value.
#[verifier::external_body]
pub(crate) fn big_from_u64(v: u64) -> (r: BigInteger)
    ensures
        r@ == v,
{
    BigInteger { bytes: BigInt::from(v).to_signed_bytes_be() }
}

/// `BigInt::from_bytes_be` with a positive sign: the unsigned big-endian
/// reading of `bytes`.
#[verifier::external_body]
pub(crate) fn big_from_bytes_be(bytes: &[u8]) -> (r: BigInteger)
    ensures
        r@ == be_value(bytes@),
{
    BigInteger { bytes: BigInt::from_bytes_be(Sign::Plus, bytes).to_signed_bytes_be() }
}

/// `BigInt::to_bytes_be`, the magnitude only: the shortest big-endian bytes
/// of the absolute value, a single zero byte for zero.
#[verifier::external_body]
pub(crate) fn big_to_bytes_be(a: &BigInteger) -> (r: Vec<u8>)
    ensures
        be_value(r@) == (if a@ < 0 { -a@ } else { a@ }),
        r@.len() >= 1,
        r@.len() > 1 ==> r@[0] != 0,
{
    BigInt::from_signed_bytes_be(&a.bytes).to_bytes_be().1
}

/// `+` of `BigInt`: the exact sum.
#[verifier::external_body]
pub(crate) fn big_add(a: &BigInteger, b: &BigInteger) -> (r: BigInteger)
    ensures
        r@ == a@ + b@,
{
    let x = BigInt::from_signed_bytes_be(&a.bytes);
    let y = BigInt::from_signed_bytes_be(&b.bytes);
    BigInteger { bytes: (x + y).to_signed_bytes_be() }
}

/// `-` of `BigInt`: the exact difference.
#[verifier::external_body]
pub(crate) fn big_sub(a: &BigInteger, b: &BigInteger) -> (r: BigInteger)
    ensures
        r@ == a@ - b@,
{
    let x = BigInt::from_signed_bytes_be(&a.bytes);
    let y = BigInt::from_signed_bytes_be(&b.bytes);
    BigInteger { bytes: (x - y).to_signed_bytes_be() }
}

/// `*` of `BigInt`: the exact product.
#[verifier::external_body]
pub(crate) fn big_mul(a: &BigInteger, b: &BigInteger) -> (r: BigInteger)
    ensures
        r@ == a@ * b@,
{
    let x = BigInt::from_signed_bytes_be(&a.bytes);
    let y = BigInt::from_signed_bytes_be(&b.bytes);
    BigInteger { bytes: (x * y).to_signed_bytes_be() }
}

/// `Integer::div_rem` of `BigInt`: quotient rounded towards zero and the
/// remainder that goes with it. It panics on a zero divisor.
#[verifier::external_body]
pub(crate) fn big_div_rem(a: &BigInteger, b: &BigInteger) -> (r: (BigInteger, BigInteger))
    requires
        b@ != 0,
    ensures
        r.0@ == trunc_div(a@, b@),
        r.1@ == trunc_rem(a@, b@),
{
    let x = BigInt::from_signed_bytes_be(&a.bytes);
    let y = BigInt::from_signed_bytes_be(&b.bytes);
    let (q, m) = x.div_rem(&y);
    (BigInteger { bytes: q.to_signed_bytes_be() }, BigInteger { bytes: m.to_signed_bytes_be() })
}

/// `>>` of `BigInt`: division by a power of two, rounded down, also for a
/// negative value.
#[verifier::external_body]
pub(crate) fn big_shr(a: &BigInteger, n: u32) -> (r: BigInteger)
    ensures
        r@ == a@ / pow(2, n as nat),
{
    BigInteger { bytes: (BigInt::from_signed_bytes_be(&a.bytes) >> n).to_signed_bytes_be() }
}

/// `<<` of `BigInt`: multiplication by a power of two.
#[verifier::external_body]
pub(crate) fn big_shl(a: &BigInteger, n: u32) -> (r: BigInteger)
    ensures
        r@ == a@ * pow(2, n as nat),
{
    BigInteger { bytes: (BigInt::from_signed_bytes_be(&a.bytes) << n).to_signed_bytes_be() }
}

/// `Zero::is_zero` of `BigInt`.
#[verifier::external_body]
pub(crate) fn big_is_zero(a: &BigInteger) -> (r: bool)
    ensures
        r == (a@ == 0),
{
    BigInt::from_signed_bytes_be(&a.bytes).is_zero()
}

/// `One::is_one` of `BigInt`.
#[verifier::external_body]
pub(crate) fn big_is_one(a: &BigInteger) -> (r: bool)
    ensures
        r == (a@ == 1),
{
    BigInt::from_signed_bytes_be(&a.bytes).is_one()
}

/// `Integer::is_even` of `BigInt`: whether two divides the value.
#[verifier::external_body]
pub(crate) fn big_is_even(a: &BigInteger) -> (r: bool)
    ensures
        r == (a@ % 2 == 0),
{
    BigInt::from_signed_bytes_be(&a.bytes).is_even()
}

/// `Integer::is_odd` of `BigInt`: whether two does not divide the value.
#[verifier::external_body]
pub(crate) fn big_is_odd(a: &BigInteger) -> (r: bool)
    ensures
        r == (a@ % 2 != 0),
{
    BigInt::from_signed_bytes_be(&a.bytes).is_odd()
}

/// `<` of `BigInt`: the order of the integers.
#[verifier::external_body]
pub(crate) fn big_lt(a: &BigInteger, b: &BigInteger) -> (r: bool)
    ensures
        r == (a@ < b@),
{
    BigInt::from_signed_bytes_be(&a.bytes) < BigInt::from_signed_bytes_be(&b.bytes)
}

/// `==` of `BigInt`: equality of the integers.
#[verifier::external_body]
pub(crate) fn big_eq(a: &BigInteger, b: &BigInteger) -> (r: bool)
    ensures
        r == (a@ == b@),
{
    BigInt::from_signed_bytes_be(&a.bytes) == BigInt::from_signed_bytes_be(&b.bytes)
}

/// `BigInt::modpow`: the power reduced into `[0, modulus)`. It panics on a
/// negative exponent and on a zero modulus; only positive moduli are admitted.
#[verifier::external_body]
pub(crate) fn big_modpow(base: &BigInteger, exponent: &BigInteger, modulus: &BigInteger) -> (r:
    BigInteger)
    requires
        exponent@ >= 0,
        modulus@ > 0,
    ensures
        r@ == pow(base@, exponent@ as nat) % modulus@,
{
    let b = BigInt::from_signed_bytes_be(&base.bytes);
    let e = BigInt::from_signed_bytes_be(&exponent.bytes);
    let m = BigInt::from_signed_bytes_be(&modulus.bytes);
    BigInteger { bytes: b.modpow(&e, &m).to_signed_bytes_be() }
}

/// `Rng::gen_range` over a half-open range of `BigInt`: some integer of the
/// range. It panics on an empty range.
#[verifier::external_body]
pub(crate) fn big_random_range(rng: &mut StdRng, low: &BigInteger, high: &BigInteger) -> (r:
    BigInteger)
    requires
        low@ < high@,
    ensures
        low@ <= r@ < high@,
{
    let lo = BigInt::from_signed_bytes_be(&low.bytes);
    let hi = BigInt::from_signed_bytes_be(&high.bytes);
    BigInteger { bytes: rng.gen_range(lo..hi).to_signed_bytes_be() }
}

impl BigInteger {
    /// The integer with the value of `v`.
    pub fn from_u64(v: u64) -> (r: BigInteger)
        ensures
            r@ == v,
    {
        big_from_u64(v)
    }

    /// The integer that `bytes` spell in big-endian two's complement.
    pub fn from_signed_bytes_be(bytes: Vec<u8>) -> (r: BigInteger)
        ensures
            r@ == signed_be_value(bytes@),
            r.bytes@ == bytes@,
    {
        BigInteger { bytes }
    }

    /// The stored big-endian two's-complement bytes.
    pub fn as_signed_bytes_be(&self) -> (r: &Vec<u8>)
        ensures
            r@ == self.bytes@,
            signed_be_value(r@) == self@,
    {
        &self.bytes
    }

    /// A second integer with the same value.
    pub fn duplicate(&self) -> (r: BigInteger)
        ensures
            r@ == self@,
    {
        let zero = big_from_u64(0);
        big_add(self, &zero)
    }

    /// Whether the two integers have the same value.
    pub fn equals(&self, other: &BigInteger) -> (r: bool)
        ensures
            r == (self@ == other@),
    {
        big_eq(self, other)
    }

    /// Whether this integer is below `other`.
    pub fn less_than(&self, other: &BigInteger) -> (r: bool)
        ensures
            r == (self@ < other@),
    {
        big_lt(self, other)
    }
}

} // verus!

//! Greatest common divisor, least common multiple, modular power and modular inverse.

use crate::bigint::{
    big_add, big_div_rem, big_from_u64, big_is_odd, big_is_one, big_is_zero, big_lt, big_mul,
    big_shr, big_sub, trunc_div, trunc_rem, BigInteger,
};
use crate::error::RsaError;
use vstd::arithmetic::div_mod::*;
use vstd::arithmetic::power::*;
use vstd::prelude::*;

verus! {

/// The greatest common divisor, by Euclid's recurrence; `spec_gcd(0, 0)` is 0.
pub open spec fn spec_gcd(a: nat, b: nat) -> nat
    decreases b,
{
    if b == 0 {
        a
    } else {
        spec_gcd(b, a % b)
    }
}

/// Whether `g` divides `a` and `b` and is divided by whatever divides both;
/// for two zeros, whether it is zero.
pub open spec fn is_greatest_common_divisor(g: nat, a: nat, b: nat) -> bool {
    if a == 0 && b == 0 {
        g == 0
    } else {
        &&& g > 0
        &&& a % g == 0
        &&& b % g == 0
        &&& forall|d: nat| d > 0 && a % d == 0 && b % d == 0 ==> #[trigger] (g % d) == 0
    }
}

/// The greatest common divisor of two integers that are not negative, by
/// Euclid's algorithm.
pub fn gcd(a: &BigInteger, b: &BigInteger) -> (g: BigInteger)
    requires
        a@ >= 0,
        b@ >= 0,
    ensures
        g@ == spec_gcd(a@ as nat, b@ as nat),
        is_greatest_common_divisor(g@ as nat, a@ as nat, b@ as nat),
{
    proof {
        lemma_spec_gcd_is_greatest(a@ as nat, b@ as nat);
    }
    let mut x = a.duplicate();
    let mut y = b.duplicate();
    while !big_is_zero(&y)
        invariant
            x@ >= 0,
            y@ >= 0,
            spec_gcd(x@ as nat, y@ as nat) == spec_gcd(a@ as nat, b@ as nat),
        decreases y@,
    {
        let (_q, r) = big_div_rem(&x, &y);
        proof {
            lemma_fundamental_div_mod(x@, y@);
            lemma_mod_pos_bound(x@, y@);
            assert(x@ / y@ * y@ == y@ * (x@ / y@)) by (nonlinear_arith);
            assert(r@ == x@ % y@);
        }
        x = y;
        y = r;
    }
    x
}


/// The least common multiple; 0 where either argument is 0.
pub open spec fn spec_lcm(a: nat, b: nat) -> nat {
    if a == 0 || b == 0 {
        0
    } else {
        (a / spec_gcd(a, b)) * b
    }
}

/// Whether `l` is a multiple of `a` and of `b` that divides every common
/// multiple; where `a` or `b` is zero, whether it is zero.
pub open spec fn is_least_common_multiple(l: nat, a: nat, b: nat) -> bool {
    if a == 0 || b == 0 {
        l == 0
    } else {
        &&& l > 0
        &&& l % a == 0
        &&& l % b == 0
        &&& forall|m: nat| m % a == 0 && m % b == 0 ==> #[trigger] (m % l) == 0
    }
}

/// The power `base^exponent` reduced into `[0, modulus)`.
pub open spec fn spec_mod_pow(base: int, exponent: nat, modulus: int) -> int
    recommends
        modulus >= 1,
{
    pow(base, exponent) % modulus
}

/// Whether `a` and the positive `modulus` share no factor but 1.
pub open spec fn coprime_to_modulus(a: int, modulus: int) -> bool
    recommends
        modulus >= 1,
{
    spec_gcd(modulus as nat, (a % modulus) as nat) == 1
}

/// A sum of a multiple of `x` and of `y` is divisible by what divides both.
proof fn lemma_divides_combination(x: int, y: int, q: int, g: int)
    requires
        g > 0,
        x % g == 0,
        y % g == 0,
    ensures
        (x * q + y) % g == 0,
{
    lemma_mul_mod_noop_left(x, q, g);
    lemma_add_mod_noop(x * q, y, g);
    assert((0int * q) % g == 0) by (nonlinear_arith)
        requires
            g > 0,
    ;
}

/// The greatest common divisor of two numbers that are not both zero is
/// positive and divides each of them.
pub proof fn lemma_gcd_divides(a: nat, b: nat)
    requires
        a > 0 || b > 0,
    ensures
        spec_gcd(a, b) > 0,
        a % spec_gcd(a, b) == 0,
        b % spec_gcd(a, b) == 0,
    decreases b,
{
    if b == 0 {
        lemma_mod_self_0(a as int);
    } else {
        lemma_mod_pos_bound(a as int, b as int);
        lemma_gcd_divides(b, a % b);
        let g = spec_gcd(a, b) as int;
        lemma_fundamental_div_mod(a as int, b as int);
        lemma_divides_combination(b as int, (a % b) as int, (a as int) / (b as int), g);
    }
}

/// Every common divisor of two numbers divides their greatest common divisor.
pub proof fn lemma_gcd_greatest(a: nat, b: nat, d: nat)
    requires
        d > 0,
        a % d == 0,
        b % d == 0,
    ensures
        spec_gcd(a, b) % d == 0,
    decreases b,
{
    if b != 0 {
        lemma_mod_pos_bound(a as int, b as int);
        lemma_fundamental_div_mod(a as int, b as int);
        let q = (a as int) / (b as int);
        assert((b as int) * (-q) == -((b as int) * q)) by (nonlinear_arith);
        assert(a % b == (b as int) * (-q) + (a as int));
        lemma_divides_combination(b as int, a as int, -q, d as int);
        lemma_gcd_greatest(b, a % b, d);
    }
}

/// What Euclid's recurrence gives is the greatest common divisor.
pub proof fn lemma_spec_gcd_is_greatest(a: nat, b: nat)
    ensures
        is_greatest_common_divisor(spec_gcd(a, b), a, b),
{
    if a > 0 || b > 0 {
        lemma_gcd_divides(a, b);
        assert forall|d: nat| d > 0 && a % d == 0 && b % d == 0 implies #[trigger] (spec_gcd(a, b)
            % d) == 0 by {
            lemma_gcd_greatest(a, b, d);
        }
    }
}

/// The greatest common divisor of zero and `x` is `x`.
pub proof fn lemma_gcd_zero_left(x: nat)
    ensures
        spec_gcd(0, x) == x,
        spec_gcd(x, 0) == x,
{
    if x > 0 {
        lemma_small_mod(0, x);
        assert(spec_gcd(0, x) == spec_gcd(x, 0));
    }
}

/// For an argument that is not negative, being coprime to the modulus is
/// having the greatest common divisor 1 with it.
pub proof fn lemma_coprime_is_gcd_one(a: nat, modulus: nat)
    requires
        modulus >= 1,
    ensures
        coprime_to_modulus(a as int, modulus as int) == (spec_gcd(a, modulus) == 1),
{
    assert(spec_gcd(a, modulus) == spec_gcd(modulus, a % modulus));
}

/// The least common multiple of two positive numbers is a multiple of each.
pub proof fn lemma_lcm_is_common_multiple(a: nat, b: nat)
    requires
        a > 0,
        b > 0,
    ensures
        spec_lcm(a, b) % a == 0,
        spec_lcm(a, b) % b == 0,
{
    lemma_gcd_divides(a, b);
    let g = spec_gcd(a, b) as int;
    let qa = (a as int) / g;
    let qb = (b as int) / g;
    lemma_fundamental_div_mod(a as int, g);
    lemma_fundamental_div_mod(b as int, g);
    assert(qa * (b as int) == (a as int) * qb) by (nonlinear_arith)
        requires
            a == g * qa + 0,
            b == g * qb + 0,
    ;
    lemma_mod_multiples_basic(qa, b as int);
    lemma_mod_multiples_basic(qb, a as int);
    assert((a as int) * qb == qb * (a as int)) by (nonlinear_arith);
}

/// Scaling both arguments scales the greatest common divisor.
pub proof fn lemma_gcd_scales(m: nat, a: nat, b: nat)
    requires
        m > 0,
    ensures
        spec_gcd(m * a, m * b) == m * spec_gcd(a, b),
    decreases b,
{
    if b != 0 {
        lemma_truncate_middle(a as int, m as int, b as int);
        lemma_mod_pos_bound(a as int, b as int);
        lemma_gcd_scales(m, b, a % b);
        assert(m * b != 0) by (nonlinear_arith)
            requires
                m > 0,
                b > 0,
        ;
        assert(spec_gcd(m * a, m * b) == spec_gcd(m * b, (m * a) % (m * b)));
    } else {
        assert(m * b == 0) by (nonlinear_arith)
            requires
                b == 0,
        ;
    }
}

/// Every common multiple of two positive numbers is a multiple of their
/// least common multiple.
pub proof fn lemma_lcm_least(a: nat, b: nat, m: nat)
    requires
        a > 0,
        b > 0,
        m % a == 0,
        m % b == 0,
    ensures
        spec_lcm(a, b) > 0,
        m % spec_lcm(a, b) == 0,
{
    lemma_gcd_divides(a, b);
    lemma_lcm_gcd_product(a, b);
    let g = spec_gcd(a, b);
    let l = spec_lcm(a, b);
    let ab = a * b;
    assert(ab > 0) by (nonlinear_arith)
        requires
            a > 0,
            b > 0,
            ab == a * b,
    ;
    assert(l > 0) by (nonlinear_arith)
        requires
            l * g == ab,
            ab > 0,
            g > 0,
    ;
    if m > 0 {
        let ta = (m as int) / (a as int);
        let tb = (m as int) / (b as int);
        lemma_fundamental_div_mod(m as int, a as int);
        lemma_fundamental_div_mod(m as int, b as int);
        assert(m * a == tb * ab && m * b == ta * ab) by (nonlinear_arith)
            requires
                m == a * ta + 0,
                m == b * tb + 0,
                ab == a * b,
        ;
        lemma_mod_multiples_basic(tb, ab as int);
        lemma_mod_multiples_basic(ta, ab as int);
        lemma_gcd_greatest(m * a, m * b, ab);
        lemma_gcd_scales(m, a, b);
        assert(m * g == g * m && ab == g * l) by (nonlinear_arith)
            requires
                l * g == ab,
        ;
        lemma_truncate_middle(m as int, g as int, l as int);
        let rest = (m % l) as int;
        assert(rest == 0) by (nonlinear_arith)
            requires
                g * rest == 0,
                g > 0,
        ;
    } else {
        lemma_small_mod(0, l);
    }
}

/// What `spec_lcm` gives is the least common multiple.
pub proof fn lemma_spec_lcm_is_least(a: nat, b: nat)
    ensures
        is_least_common_multiple(spec_lcm(a, b), a, b),
{
    if a > 0 && b > 0 {
        lemma_lcm_is_common_multiple(a, b);
        lemma_lcm_least(a, b, 0);
        assert forall|m: nat| m % a == 0 && m % b == 0 implies #[trigger] (m % spec_lcm(a, b))
            == 0 by {
            lemma_lcm_least(a, b, m);
        }
    }
}

/// For positive `a` and `b`, the least common multiple times the greatest
/// common divisor is `a` times `b`.
pub proof fn lemma_lcm_gcd_product(a: nat, b: nat)
    requires
        a > 0,
        b > 0,
    ensures
        spec_lcm(a, b) * spec_gcd(a, b) == a * b,
{
    lemma_gcd_divides(a, b);
    let g = spec_gcd(a, b) as int;
    let q = (a as int) / g;
    lemma_fundamental_div_mod(a as int, g);
    assert(q * g == a) by (nonlinear_arith)
        requires
            a == g * q + 0,
    ;
    assert((q * b) * g == a * b) by (nonlinear_arith)
        requires
            q * g == a,
    ;
}

/// With exponent zero the modular power is 1 for a modulus above 1; with
/// modulus 1 it is 0 for every base and exponent.
pub proof fn lemma_mod_pow_edges(base: int, exponent: nat, modulus: int)
    ensures
        modulus > 1 ==> spec_mod_pow(base, 0, modulus) == 1,
        spec_mod_pow(base, exponent, 1) == 0,
{
    lemma_pow0(base);
    if modulus > 1 {
        lemma_small_mod(1, modulus as nat);
    }
}

/// A modular inverse within `[0, modulus)` is the only one there.
pub proof fn lemma_mod_inverse_unique(a: int, x: int, y: int, modulus: int)
    requires
        modulus > 1,
        0 <= x < modulus,
        0 <= y < modulus,
        (a * x) % modulus == 1,
        (a * y) % modulus == 1,
    ensures
        x == y,
{
    lemma_mul_mod_noop_right(x, a * y, modulus);
    lemma_mul_mod_noop_right(y, a * x, modulus);
    assert(x * (a * y) == y * (a * x)) by (nonlinear_arith);
    lemma_small_mod(x as nat, modulus as nat);
    lemma_small_mod(y as nat, modulus as nat);
}

/// The remainder of `a` by the positive `modulus`, taken into `[0, modulus)`.
pub fn reduce(a: &BigInteger, modulus: &BigInteger) -> (r: BigInteger)
    requires
        modulus@ > 0,
    ensures
        r@ == a@ % modulus@,
{
    let zero = big_from_u64(0);
    let (_q, rem) = big_div_rem(a, modulus);
    proof {
        let m = modulus@;
        if a@ >= 0 {
            lemma_fundamental_div_mod(a@, m);
            assert(a@ / m * m == m * (a@ / m)) by (nonlinear_arith);
        } else {
            let n = -a@;
            lemma_fundamental_div_mod(n, m);
            lemma_mod_pos_bound(n, m);
            assert(n / m * m == m * (n / m)) by (nonlinear_arith);
            assert(-(n / m) * m == -(n / m * m)) by (nonlinear_arith);
            assert(rem@ == -(n % m));
            if rem@ < 0 {
                assert(a@ == (-(n / m) - 1) * m + (rem@ + m)) by (nonlinear_arith)
                    requires
                        a@ == -(m * (n / m) + n % m),
                        rem@ == -(n % m),
                ;
                lemma_fundamental_div_mod_converse_mod(a@, m, -(n / m) - 1, rem@ + m);
            } else {
                assert(a@ == (-(n / m)) * m + 0) by (nonlinear_arith)
                    requires
                        a@ == -(m * (n / m) + n % m),
                        n % m == 0,
                ;
                lemma_fundamental_div_mod_converse_mod(a@, m, -(n / m), 0);
            }
        }
    }
    if big_lt(&rem, &zero) {
        big_add(&rem, modulus)
    } else {
        rem
    }
}

/// The least common multiple of two integers that are not negative,
/// computed by dividing before multiplying.
pub fn lcm(a: &BigInteger, b: &BigInteger) -> (l: BigInteger)
    requires
        a@ >= 0,
        b@ >= 0,
    ensures
        l@ == spec_lcm(a@ as nat, b@ as nat),
        is_least_common_multiple(l@ as nat, a@ as nat, b@ as nat),
{
    proof {
        lemma_spec_lcm_is_least(a@ as nat, b@ as nat);
    }
    if big_is_zero(a) || big_is_zero(b) {
        return big_from_u64(0);
    }
    let g = gcd(a, b);
    proof {
        lemma_gcd_divides(a@ as nat, b@ as nat);
    }
    let (q, _r) = big_div_rem(a, &g);
    big_mul(&q, b)
}

/// One step of square-and-multiply keeps the pending product unchanged
/// modulo `m`.
proof fn lemma_mod_pow_step(r: int, b: int, e: nat, m: int)
    requires
        m > 0,
        e > 0,
    ensures
        ((if e % 2 == 1 {
            (r * b) % m
        } else {
            r
        }) * pow((b * b) % m, e / 2)) % m == (r * pow(b, e)) % m,
{
    let k = e / 2;
    let p = pow(b * b, k);
    let p1 = pow((b * b) % m, k);
    lemma_pow_mod_noop(b * b, k, m);
    lemma_square_is_pow2(b);
    lemma_pow_multiplies(b, 2, k);
    assert(pow(b, 2 * k) == p);
    if e % 2 == 1 {
        assert(e == 2 * k + 1);
        lemma_pow_adds(b, 2 * k, 1);
        lemma_pow1(b);
        assert(pow(b, e) == p * b);
        lemma_mul_mod_noop_left(r * b, p1, m);
        lemma_mul_mod_noop_right(r * b, p1, m);
        lemma_mul_mod_noop_right(r * b, p, m);
        assert((r * b) * p == r * (p * b)) by (nonlinear_arith);
    } else {
        assert(e == 2 * k);
        lemma_mul_mod_noop_right(r, p1, m);
        lemma_mul_mod_noop_right(r, p, m);
    }
}

/// Modular power by square-and-multiply: `base^exponent` reduced into
/// `[0, modulus)`. A modulus below 1 is refused.
pub fn mod_pow(base: &BigInteger, exponent: &BigInteger, modulus: &BigInteger) -> (r: Result<
    BigInteger,
    RsaError,
>)
    requires
        exponent@ >= 0,
    ensures
        match r {
            Ok(v) => modulus@ >= 1 && v@ == spec_mod_pow(base@, exponent@ as nat, modulus@),
            Err(e) => modulus@ < 1 && e == RsaError::InvalidModulus,
        },
{
    let one = big_from_u64(1);
    let zero = big_from_u64(0);
    if big_lt(modulus, &one) {
        return Err(RsaError::InvalidModulus);
    }
    if big_is_one(modulus) {
        return Ok(zero);
    }
    let mut acc = one;
    let mut b = reduce(base, modulus);
    let mut e = exponent.duplicate();
    proof {
        lemma_pow_mod_noop(base@, exponent@ as nat, modulus@);
        lemma_mod_bound(base@, modulus@);
        assert(1 * pow(b@, e@ as nat) == pow(b@, e@ as nat));
    }
    while big_lt(&zero, &e)
        invariant
            zero@ == 0,
            modulus@ > 1,
            0 <= acc@ < modulus@,
            0 <= b@ < modulus@,
            e@ >= 0,
            (acc@ * pow(b@, e@ as nat)) % modulus@ == pow(base@, exponent@ as nat) % modulus@,
        decreases e@,
    {
        proof {
            lemma_mod_pow_step(acc@, b@, e@ as nat, modulus@);
            lemma_pow1(2);
            lemma_mod_pos_bound(acc@ * b@, modulus@);
            lemma_mod_pos_bound(b@ * b@, modulus@);
        }
        if big_is_odd(&e) {
            let product = big_mul(&acc, &b);
            acc = reduce(&product, modulus);
        }
        e = big_shr(&e, 1);
        let square = big_mul(&b, &b);
        b = reduce(&square, modulus);
    }
    proof {
        lemma_pow0(b@);
        lemma_small_mod(acc@ as nat, modulus@ as nat);
    }
    Ok(acc)
}

/// One step of the extended recurrence keeps each coefficient times `a`
/// congruent to its remainder modulo `m`.
proof fn lemma_coefficient_step(
    a: int,
    m: int,
    q: int,
    s0: int,
    s1: int,
    r0: int,
    r1: int,
    k0: int,
    k1: int,
)
    requires
        s0 * a - r0 == k0 * m,
        s1 * a - r1 == k1 * m,
    ensures
        (s0 - q * s1) * a - (r0 - q * r1) == (k0 - q * k1) * m,
{
    assert((s0 - q * s1) * a == s0 * a - q * (s1 * a)) by (nonlinear_arith);
    assert((k0 - q * k1) * m == k0 * m - q * (k1 * m)) by (nonlinear_arith);
    assert(q * (s1 * a) - q * r1 == q * (s1 * a - r1)) by (nonlinear_arith);
}

/// The modular inverse by the extended Euclidean algorithm: the one `x` in
/// `[0, modulus)` with `a * x` congruent to 1. It exists exactly where `a` and
/// the modulus share no factor; for modulus 1 the answer is 1.
pub fn mod_inverse(a: &BigInteger, modulus: &BigInteger) -> (r: Result<BigInteger, RsaError>)
    ensures
        match r {
            Ok(x) => modulus@ >= 1 && coprime_to_modulus(a@, modulus@) && (modulus@ == 1 ==> x@
                == 1) && (modulus@ > 1 ==> 0 <= x@ < modulus@ && (a@ * x@) % modulus@ == 1),
            Err(e) => (modulus@ < 1 && e == RsaError::InvalidModulus) || (modulus@ > 1
                && !coprime_to_modulus(a@, modulus@) && e == RsaError::NoInverseExists),
        },
{
    let one = big_from_u64(1);
    if big_lt(modulus, &one) {
        return Err(RsaError::InvalidModulus);
    }
    if big_is_one(modulus) {
        proof {
            lemma_gcd_zero_left(1);
        }
        return Ok(one);
    }
    let mut r0 = modulus.duplicate();
    let mut r1 = reduce(a, modulus);
    let mut s0 = big_from_u64(0);
    let mut s1 = one;
    let ghost mut k0: int = -1;
    let ghost mut k1: int = a@ / modulus@;
    proof {
        lemma_fundamental_div_mod(a@, modulus@);
        lemma_mod_bound(a@, modulus@);
        assert(1 * a@ - a@ % modulus@ == (a@ / modulus@) * modulus@) by (nonlinear_arith)
            requires
                a@ == modulus@ * (a@ / modulus@) + a@ % modulus@,
        ;
    }
    while !big_is_zero(&r1)
        invariant
            modulus@ > 1,
            r0@ >= 0,
            r1@ >= 0,
            spec_gcd(r0@ as nat, r1@ as nat) == spec_gcd(modulus@ as nat, (a@ % modulus@) as nat),
            s0@ * a@ - r0@ == k0 * modulus@,
            s1@ * a@ - r1@ == k1 * modulus@,
        decreases r1@,
    {
        let (q, r2) = big_div_rem(&r0, &r1);
        let qs = big_mul(&q, &s1);
        let s2 = big_sub(&s0, &qs);
        proof {
            lemma_fundamental_div_mod(r0@, r1@);
            lemma_mod_pos_bound(r0@, r1@);
            assert(r0@ / r1@ * r1@ == r1@ * (r0@ / r1@)) by (nonlinear_arith);
            assert(r2@ == r0@ % r1@);
            lemma_coefficient_step(a@, modulus@, q@, s0@, s1@, r0@, r1@, k0, k1);
            k0 = k0 - q@ * k1;
        }
        r0 = r1;
        r1 = r2;
        s0 = s1;
        s1 = s2;
        proof {
            let t = k0;
            k0 = k1;
            k1 = t;
        }
    }
    if !big_is_one(&r0) {
        return Err(RsaError::NoInverseExists);
    }
    let x = reduce(&s0, modulus);
    proof {
        let m = modulus@;
        lemma_mod_bound(s0@, m);
        lemma_mul_mod_noop_right(a@, s0@, m);
        assert(a@ * s0@ == m * k0 + 1) by (nonlinear_arith)
            requires
                s0@ * a@ - 1 == k0 * m,
        ;
        lemma_mod_multiples_vanish(k0, 1, m);
        lemma_small_mod(1, m as nat);
    }
    Ok(x)
}

} // verus!

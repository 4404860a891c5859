//! Byte strings as integers, and encryption and decryption of one integer.

use crate::bigint::{be_value, big_from_bytes_be, big_from_u64, big_lt, big_to_bytes_be, BigInteger};
use crate::error::RsaError;
use crate::keygen::KeyMaterial;
use crate::kernel::{
    lemma_lcm_gcd_product, lemma_lcm_is_common_multiple, lemma_lcm_least, mod_pow, spec_gcd,
    spec_lcm, spec_mod_pow,
};
use vstd::arithmetic::div_mod::{
    lemma_div_pos_is_pos, lemma_fundamental_div_mod, lemma_mod_multiples_vanish,
    lemma_mul_mod_noop_left, lemma_small_mod, lemma_sub_mod_noop,
};
use vstd::arithmetic::power::{
    lemma0_pow, lemma1_pow, lemma_pow1, lemma_pow_adds, lemma_pow_increases, lemma_pow_mod_noop,
    lemma_pow_multiplies, pow,
};
use vstd::prelude::*;

verus! {

/// The integer that `bytes` spell as an unsigned big-endian number.
pub fn encode(bytes: &[u8]) -> (r: BigInteger)
    ensures
        r@ == be_value(bytes@),
{
    big_from_bytes_be(bytes)
}

/// The shortest byte string that spells `x` as an unsigned big-endian
/// number, one zero byte for zero. Leading zero bytes of an encoded string
/// are not recovered. A negative integer spells no byte string.
pub fn decode(x: &BigInteger) -> (r: Result<Vec<u8>, RsaError>)
    ensures
        match r {
            Ok(b) => x@ >= 0 && be_value(b@) == x@ && b@.len() >= 1 && (b@.len() > 1 ==> b@[0]
                != 0),
            Err(e) => x@ < 0 && e == RsaError::ValueTooLarge,
        },
{
    let zero = big_from_u64(0);
    if big_lt(x, &zero) {
        return Err(RsaError::ValueTooLarge);
    }
    Ok(big_to_bytes_be(x))
}

/// The plaintext raised to the public exponent modulo the modulus. The
/// plaintext has to lie in `[0, modulus)`.
pub fn encrypt(plaintext: &BigInteger, public_exponent: &BigInteger, modulus: &BigInteger) -> (r:
    Result<BigInteger, RsaError>)
    requires
        public_exponent@ >= 0,
    ensures
        match r {
            Ok(c) => modulus@ >= 1 && 0 <= plaintext@ < modulus@ && c@ == spec_mod_pow(
                plaintext@,
                public_exponent@ as nat,
                modulus@,
            ),
            Err(e) => (modulus@ < 1 && e == RsaError::InvalidModulus) || (modulus@ >= 1 && !(0
                <= plaintext@ < modulus@) && e == RsaError::MessageTooLarge),
        },
{
    let zero = big_from_u64(0);
    let one = big_from_u64(1);
    if big_lt(modulus, &one) {
        return Err(RsaError::InvalidModulus);
    }
    if big_lt(plaintext, &zero) || !big_lt(plaintext, modulus) {
        return Err(RsaError::MessageTooLarge);
    }
    mod_pow(plaintext, public_exponent, modulus)
}

/// The ciphertext raised to the private exponent modulo the modulus.
pub fn decrypt(ciphertext: &BigInteger, private_exponent: &BigInteger, modulus: &BigInteger) -> (r:
    Result<BigInteger, RsaError>)
    requires
        private_exponent@ >= 0,
    ensures
        match r {
            Ok(p) => modulus@ >= 1 && p@ == spec_mod_pow(
                ciphertext@,
                private_exponent@ as nat,
                modulus@,
            ),
            Err(e) => modulus@ < 1 && e == RsaError::InvalidModulus,
        },
{
    mod_pow(ciphertext, private_exponent, modulus)
}

/// Decrypting with `d` what was encrypted with `e` gives the plaintext
/// raised to `e * d`, reduced modulo the modulus.
pub proof fn lemma_decrypt_of_encrypt(p: int, e: nat, d: nat, n: int)
    requires
        n >= 1,
    ensures
        spec_mod_pow(spec_mod_pow(p, e, n), d, n) == spec_mod_pow(p, e * d, n),
{
    lemma_pow_mod_noop(pow(p, e), d, n);
    lemma_pow_multiplies(p, e, d);
}

/// Where the exponents are inverse to each other modulo `totient`, a
/// plaintext of `[0, n)` whose power to the `totient` is 1 modulo `n` comes
/// back from decrypting its encryption.
pub proof fn lemma_round_trip_of_unit(p: int, e: nat, d: nat, totient: nat, n: int)
    requires
        n > 1,
        totient > 0,
        (e * d) % totient == 1,
        pow(p, totient) % n == 1,
        0 <= p < n,
    ensures
        spec_mod_pow(spec_mod_pow(p, e, n), d, n) == p,
{
    lemma_decrypt_of_encrypt(p, e, d, n);
    let ed = (e * d) as int;
    let t = totient as int;
    let k = ed / t;
    lemma_fundamental_div_mod(ed, t);
    lemma_div_pos_is_pos(ed, t);
    let kn = k as nat;
    assert(e * d == totient * kn + 1);
    lemma_pow_adds(p, totient * kn, 1);
    lemma_pow1(p);
    lemma_pow_multiplies(p, totient, kn);
    lemma_pow_mod_noop(pow(p, totient), kn, n);
    lemma1_pow(kn);
    lemma_small_mod(1, n as nat);
    lemma_mul_mod_noop_left(pow(p, totient * kn), p, n);
    lemma_small_mod(p as nat, n as nat);
}

/// Where `pow(p, t)` is 1 modulo `m`, raising `p` to one more than a
/// multiple of `t` gives `p` modulo `m`.
proof fn lemma_power_of_unit(p: int, t: nat, j: nat, m: int)
    requires
        m > 0,
        pow(p, t) % m == 1,
    ensures
        pow(p, t * j + 1) % m == p % m,
{
    lemma_pow_adds(p, t * j, 1);
    lemma_pow1(p);
    lemma_pow_multiplies(p, t, j);
    lemma_pow_mod_noop(pow(p, t), j, m);
    lemma1_pow(j);
    lemma_mul_mod_noop_left(pow(p, t * j), p, m);
    lemma_mul_mod_noop_left(1, p, m);
}

/// A positive power of a multiple of `m` is a multiple of `m`.
proof fn lemma_power_of_multiple(p: int, e: nat, m: int)
    requires
        m > 0,
        p % m == 0,
        e >= 1,
    ensures
        pow(p, e) % m == 0,
{
    let rest = pow(p, (e - 1) as nat);
    lemma_pow_adds(p, 1, (e - 1) as nat);
    lemma_pow1(p);
    lemma_mul_mod_noop_left(p, rest, m);
    assert(0 * rest == 0);
    lemma_small_mod(0, m as nat);
}

/// Where `l` is a multiple of `m - 1` and `p` is a multiple of `m` or has
/// its power to `m - 1` equal to 1 modulo `m`, raising `p` to one more than
/// a multiple of `l` gives `p` modulo `m`.
proof fn lemma_power_congruent(p: int, m: nat, l: nat, k: nat)
    requires
        m > 1,
        l > 0,
        l % ((m - 1) as nat) == 0,
        p % (m as int) == 0 || pow(p, (m - 1) as nat) % (m as int) == 1,
    ensures
        pow(p, l * k + 1) % (m as int) == p % (m as int),
{
    if p % (m as int) == 0 {
        lemma_power_of_multiple(p, l * k + 1, m as int);
    } else {
        let t = (m - 1) as nat;
        let u = l / t;
        lemma_fundamental_div_mod(l as int, t as int);
        assert(l * k == t * (u * k)) by (nonlinear_arith)
            requires
                l == t * u + 0,
        ;
        lemma_power_of_unit(p, t, u * k, m as int);
    }
}

/// The round trip for two coprime factors: where the exponents are inverse
/// to each other modulo the least common multiple of `a - 1` and `b - 1`,
/// every plaintext of `[0, a * b)` that at each factor is a multiple of it
/// or has its power to the factor's predecessor equal to 1, as Fermat's
/// little theorem gives for a prime factor, comes back from decrypting its
/// encryption.
pub proof fn lemma_round_trip_given_fermat(p: int, e: nat, d: nat, a: nat, b: nat)
    requires
        a > 1,
        b > 1,
        spec_gcd(a, b) == 1,
        (e * d) % spec_lcm((a - 1) as nat, (b - 1) as nat) == 1,
        0 <= p < a * b,
        p % (a as int) == 0 || pow(p, (a - 1) as nat) % (a as int) == 1,
        p % (b as int) == 0 || pow(p, (b - 1) as nat) % (b as int) == 1,
    ensures
        spec_mod_pow(spec_mod_pow(p, e, (a * b) as int), d, (a * b) as int) == p,
{
    let n = (a * b) as int;
    let l = spec_lcm((a - 1) as nat, (b - 1) as nat);
    lemma_lcm_is_common_multiple((a - 1) as nat, (b - 1) as nat);
    lemma_small_mod(0, (a - 1) as nat);
    lemma_small_mod(0, (b - 1) as nat);
    lemma_lcm_least((a - 1) as nat, (b - 1) as nat, 0);
    let ed = e * d;
    let k = ed / l;
    lemma_fundamental_div_mod(ed as int, l as int);
    assert(ed == l * k + 1);
    lemma_power_congruent(p, a, l, k);
    lemma_power_congruent(p, b, l, k);
    let x = pow(p, ed);
    if p == 0 {
        lemma0_pow(ed);
    } else {
        lemma_pow_increases(p as nat, 1, ed);
        lemma_pow1(p);
    }
    let z = x - p;
    assert(z >= 0);
    lemma_sub_mod_noop(x, p, a as int);
    lemma_sub_mod_noop(x, p, b as int);
    lemma_small_mod(0, a);
    lemma_small_mod(0, b);
    lemma_lcm_least(a, b, z as nat);
    lemma_lcm_gcd_product(a, b);
    assert(spec_lcm(a, b) == n) by (nonlinear_arith)
        requires
            spec_lcm(a, b) * 1 == a * b,
            n == a * b,
    ;
    lemma_fundamental_div_mod(z, n);
    lemma_mod_multiples_vanish(z / n, p, n);
    lemma_small_mod(p as nat, n as nat);
    lemma_decrypt_of_encrypt(p, e, d, n);
}

/// The round trip for key material: with coprime factors and a public
/// exponent that is not negative, every plaintext below the modulus that at
/// each factor is a multiple of it or has its power to the factor's
/// predecessor equal to 1 comes back from decrypting its encryption.
pub proof fn lemma_key_round_trip(k: KeyMaterial, p: int)
    requires
        k.wf(),
        k.public_exponent@ >= 0,
        spec_gcd(k.prime_a@ as nat, k.prime_b@ as nat) == 1,
        0 <= p < k.modulus@,
        p % k.prime_a@ == 0 || pow(p, (k.prime_a@ - 1) as nat) % k.prime_a@ == 1,
        p % k.prime_b@ == 0 || pow(p, (k.prime_b@ - 1) as nat) % k.prime_b@ == 1,
    ensures
        spec_mod_pow(
            spec_mod_pow(p, k.public_exponent@ as nat, k.modulus@),
            k.private_exponent@ as nat,
            k.modulus@,
        ) == p,
{
    lemma_round_trip_given_fermat(
        p,
        k.public_exponent@ as nat,
        k.private_exponent@ as nat,
        k.prime_a@ as nat,
        k.prime_b@ as nat,
    );
}

} // verus!

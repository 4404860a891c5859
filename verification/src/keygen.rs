//! Probable primes of a given bit length and the key material derived from two of them.

use crate::bigint::{
    big_add, big_eq, big_from_u64, big_lt, big_mul, big_random_range, big_shl, big_sub,
    BigInteger,
};
use crate::error::RsaError;
use crate::kernel::{coprime_to_modulus, lcm, mod_inverse, spec_lcm};
use crate::primality::{fails_some_base, is_probable_prime, passes_rounds};
use rand::rngs::StdRng;
use vstd::arithmetic::power::{lemma_pow1, lemma_pow_adds, lemma_pow_positive, pow};
use vstd::prelude::*;

verus! {

/// The public exponent of generated keys.
pub const PUBLIC_EXPONENT: u64 = 65537;

/// The bit length of each prime of a key of the usual size.
pub const PRIME_BITS: u32 = 256;

/// How many rounds of the primality test a candidate has to pass.
pub const MILLER_RABIN_ROUNDS: usize = 10;

/// How many candidates a search for one prime may try.
pub const MAX_PRIME_ATTEMPTS: usize = 100000;

/// How many pairs of primes a key generation may try.
pub const MAX_KEYPAIR_ATTEMPTS: usize = 64;

/// Two primes and what is derived from them.
#[derive(Debug)]
pub struct KeyMaterial {
    pub prime_a: BigInteger,
    pub prime_b: BigInteger,
    /// The product of the two primes.
    pub modulus: BigInteger,
    /// The least common multiple of the primes' predecessors.
    pub totient: BigInteger,
    pub public_exponent: BigInteger,
    /// The inverse of the public exponent modulo the totient.
    pub private_exponent: BigInteger,
}

impl KeyMaterial {
    /// The derived fields are what the primes and the public exponent make them.
    pub open spec fn wf(&self) -> bool {
        &&& self.prime_a@ > 1
        &&& self.prime_b@ > 1
        &&& self.modulus@ == self.prime_a@ * self.prime_b@
        &&& self.totient@ == spec_lcm((self.prime_a@ - 1) as nat, (self.prime_b@ - 1) as nat)
        &&& self.totient@ > 1
        &&& coprime_to_modulus(self.public_exponent@, self.totient@)
        &&& 0 <= self.private_exponent@ < self.totient@
        &&& (self.public_exponent@ * self.private_exponent@) % self.totient@ == 1
    }
}

/// Whether `p` is odd and has exactly `bits` binary digits.
pub open spec fn is_odd_of_bit_length(p: int, bits: nat) -> bool {
    bits >= 2 && pow(2, (bits - 1) as nat) <= p < pow(2, bits) && p % 2 == 1
}

/// The odd integer of exactly `bit_length` bits whose bits between the top
/// and the low one spell `middle`.
pub fn candidate_from_middle(bit_length: u32, middle: &BigInteger) -> (c: BigInteger)
    requires
        bit_length >= 2,
        0 <= middle@ < pow(2, (bit_length - 2) as nat),
    ensures
        c@ == pow(2, (bit_length - 1) as nat) + 2 * middle@ + 1,
        is_odd_of_bit_length(c@, bit_length as nat),
{
    let one = big_from_u64(1);
    let top = big_shl(&one, bit_length - 1);
    proof {
        let k = (bit_length - 2) as nat;
        lemma_pow1(2);
        lemma_pow_adds(2, k, 1);
        lemma_pow_adds(2, k + 1, 1);
    }
    let twice = big_add(middle, middle);
    let low = big_add(&twice, &one);
    big_add(&top, &low)
}

/// An odd integer of exactly `bit_length` bits: top and low bit set, the
/// bits between drawn from `rng`.
pub fn random_odd_candidate(bit_length: u32, rng: &mut StdRng) -> (c: BigInteger)
    requires
        bit_length >= 2,
    ensures
        is_odd_of_bit_length(c@, bit_length as nat),
{
    let zero = big_from_u64(0);
    let one = big_from_u64(1);
    let span = big_shl(&one, bit_length - 2);
    proof {
        lemma_pow_positive(2, (bit_length - 2) as nat);
    }
    let middle = big_random_range(rng, &zero, &span);
    candidate_from_middle(bit_length, &middle)
}

/// Whether `p` is an odd integer of `bits` binary digits that is 3 or passed
/// `MILLER_RABIN_ROUNDS` rounds of the primality test.
pub open spec fn is_prime_candidate_that_passed(p: int, bits: nat) -> bool {
    is_odd_of_bit_length(p, bits) && (p <= 3 || passes_rounds(p, MILLER_RABIN_ROUNDS as nat))
}

/// Whether `c` is an odd integer of `bits` binary digits above 3 that fails
/// a round of the primality test with some base.
pub open spec fn is_rejected_candidate(c: int, bits: nat) -> bool {
    is_odd_of_bit_length(c, bits) && c > 3 && fails_some_base(c)
}

/// Whether some odd integer of `bits` binary digits is one that the
/// primality test can reject.
pub open spec fn search_can_fail(bits: nat) -> bool {
    exists|c: int| #[trigger] is_rejected_candidate(c, bits)
}

/// An odd integer of at least 2 bits is at least 3, and 3 if it has 2 bits.
proof fn lemma_candidate_at_least_three(c: int, bits: nat)
    requires
        is_odd_of_bit_length(c, bits),
    ensures
        c >= 3,
        bits == 2 ==> c == 3,
{
    let k = (bits - 2) as nat;
    lemma_pow_positive(2, k);
    lemma_pow1(2);
    lemma_pow_adds(2, k, 1);
    lemma_pow_adds(2, k + 1, 1);
}

/// The search for a probable prime of `bit_length` bits: candidates are
/// drawn and tested until one is accepted or `MAX_PRIME_ATTEMPTS` were
/// rejected. The candidates come back in the order drawn, with whether the
/// last one was accepted; every earlier one was rejected.
pub fn search_prime(bit_length: u32, rng: &mut StdRng) -> (r: (bool, Vec<BigInteger>))
    requires
        bit_length >= 2,
    ensures
        1 <= r.1@.len() <= MAX_PRIME_ATTEMPTS,
        forall|i: int|
            0 <= i < r.1@.len() - 1 ==> is_rejected_candidate(
                (#[trigger] r.1@[i])@,
                bit_length as nat,
            ),
        r.0 ==> is_prime_candidate_that_passed(r.1@.last()@, bit_length as nat),
        !r.0 ==> r.1@.len() == MAX_PRIME_ATTEMPTS && is_rejected_candidate(
            r.1@.last()@,
            bit_length as nat,
        ),
        bit_length == 2 ==> r.0 && r.1@.len() == 1 && r.1@[0]@ == 3,
{
    let mut tried: Vec<BigInteger> = Vec::new();
    while tried.len() < MAX_PRIME_ATTEMPTS
        invariant
            bit_length >= 2,
            tried@.len() <= MAX_PRIME_ATTEMPTS,
            forall|i: int|
                0 <= i < tried@.len() ==> is_rejected_candidate(
                    (#[trigger] tried@[i])@,
                    bit_length as nat,
                ),
            bit_length == 2 ==> tried@.len() == 0,
        decreases MAX_PRIME_ATTEMPTS - tried@.len(),
    {
        let candidate = random_odd_candidate(bit_length, rng);
        proof {
            lemma_candidate_at_least_three(candidate@, bit_length as nat);
        }
        let accepted = is_probable_prime(&candidate, MILLER_RABIN_ROUNDS, rng);
        tried.push(candidate);
        if accepted {
            return (true, tried);
        }
    }
    (false, tried)
}

/// A probable prime of exactly `bit_length` bits: candidates are drawn
/// until one passes the primality test. No such prime exists below 2 bits,
/// and nothing is drawn then; with 2 bits the answer is 3. The search gives
/// up after `MAX_PRIME_ATTEMPTS` candidates, each of them rejected.
pub fn generate_prime(bit_length: u32, rng: &mut StdRng) -> (r: Result<BigInteger, RsaError>)
    ensures
        match r {
            Ok(p) => is_prime_candidate_that_passed(p@, bit_length as nat),
            Err(e) => e == RsaError::PrimeGenerationExhausted && (bit_length < 2
                || search_can_fail(bit_length as nat)),
        },
        bit_length < 2 ==> r is Err && *final(rng) == *old(rng),
        bit_length == 2 ==> r is Ok && r->Ok_0@ == 3,
{
    if bit_length < 2 {
        return Err(RsaError::PrimeGenerationExhausted);
    }
    let (found, mut tried) = search_prime(bit_length, rng);
    if found {
        match tried.pop() {
            Some(p) => Ok(p),
            None => Err(RsaError::PrimeGenerationExhausted),
        }
    } else {
        proof {
            assert(is_rejected_candidate(tried@.last()@, bit_length as nat));
        }
        Err(RsaError::PrimeGenerationExhausted)
    }
}

/// The key material of two primes and a public exponent. It exists exactly
/// where the totient is above 1 and shares no factor with the exponent.
pub fn derive_key(prime_a: BigInteger, prime_b: BigInteger, public_exponent: BigInteger) -> (r:
    Result<KeyMaterial, RsaError>)
    requires
        prime_a@ > 1,
        prime_b@ > 1,
    ensures
        match r {
            Ok(k) => k.wf() && k.prime_a@ == prime_a@ && k.prime_b@ == prime_b@
                && k.public_exponent@ == public_exponent@,
            Err(e) => e == RsaError::NoInverseExists && !(spec_lcm(
                (prime_a@ - 1) as nat,
                (prime_b@ - 1) as nat,
            ) > 1 && coprime_to_modulus(
                public_exponent@,
                spec_lcm((prime_a@ - 1) as nat, (prime_b@ - 1) as nat) as int,
            )),
        },
{
    let one = big_from_u64(1);
    let a1 = big_sub(&prime_a, &one);
    let b1 = big_sub(&prime_b, &one);
    let modulus = big_mul(&prime_a, &prime_b);
    let totient = lcm(&a1, &b1);
    if !big_lt(&one, &totient) {
        return Err(RsaError::NoInverseExists);
    }
    match mod_inverse(&public_exponent, &totient) {
        Ok(private_exponent) => Ok(
            KeyMaterial { prime_a, prime_b, modulus, totient, public_exponent, private_exponent },
        ),
        Err(_) => Err(RsaError::NoInverseExists),
    }
}

/// Whether two primes differ and give key material with the exponent 65537.
pub open spec fn pair_gives_key(a: int, b: int) -> bool {
    &&& a != b
    &&& spec_lcm((a - 1) as nat, (b - 1) as nat) > 1
    &&& coprime_to_modulus(
        PUBLIC_EXPONENT as int,
        spec_lcm((a - 1) as nat, (b - 1) as nat) as int,
    )
}

/// Whether `a` and `b` are candidates of `bits` binary digits that passed
/// the primality test and give no key material.
pub open spec fn is_rejected_pair(a: int, b: int, bits: nat) -> bool {
    &&& is_prime_candidate_that_passed(a, bits)
    &&& is_prime_candidate_that_passed(b, bits)
    &&& !pair_gives_key(a, b)
}

/// The key material of two primes with the exponent 65537, where they
/// differ and their totient is above 1 and shares no factor with it.
pub fn key_from_pair(prime_a: BigInteger, prime_b: BigInteger) -> (r: Option<KeyMaterial>)
    requires
        prime_a@ > 1,
        prime_b@ > 1,
    ensures
        r is Some <==> pair_gives_key(prime_a@, prime_b@),
        match r {
            Some(k) => k.wf() && k.prime_a@ == prime_a@ && k.prime_b@ == prime_b@
                && k.public_exponent@ == PUBLIC_EXPONENT,
            None => true,
        },
{
    if big_eq(&prime_a, &prime_b) {
        return None;
    }
    match derive_key(prime_a, prime_b, big_from_u64(PUBLIC_EXPONENT)) {
        Ok(k) => Some(k),
        Err(_) => None,
    }
}

/// The search for key material: pairs of probable primes of `bit_length`
/// bits are drawn until one gives key material, a search for a prime fails,
/// or `MAX_KEYPAIR_ATTEMPTS` pairs were rejected. The rejected pairs come
/// back in the order drawn.
pub fn search_keypair(bit_length: u32, rng: &mut StdRng) -> (r: (
    Result<KeyMaterial, RsaError>,
    Vec<(BigInteger, BigInteger)>,
))
    ensures
        r.1@.len() <= MAX_KEYPAIR_ATTEMPTS,
        forall|i: int|
            0 <= i < r.1@.len() ==> is_rejected_pair(
                (#[trigger] r.1@[i]).0@,
                r.1@[i].1@,
                bit_length as nat,
            ),
        match r.0 {
            Ok(k) => k.wf() && k.public_exponent@ == PUBLIC_EXPONENT && pair_gives_key(
                k.prime_a@,
                k.prime_b@,
            ) && is_prime_candidate_that_passed(k.prime_a@, bit_length as nat)
                && is_prime_candidate_that_passed(k.prime_b@, bit_length as nat),
            Err(e) => e == RsaError::PrimeGenerationExhausted && (bit_length < 2
                || search_can_fail(bit_length as nat) || r.1@.len() == MAX_KEYPAIR_ATTEMPTS),
        },
        bit_length <= 2 ==> r.0 is Err,
        bit_length < 2 ==> r.1@.len() == 0 && *final(rng) == *old(rng),
{
    let mut rejected: Vec<(BigInteger, BigInteger)> = Vec::new();
    while rejected.len() < MAX_KEYPAIR_ATTEMPTS
        invariant
            rejected@.len() <= MAX_KEYPAIR_ATTEMPTS,
            forall|i: int|
                0 <= i < rejected@.len() ==> is_rejected_pair(
                    (#[trigger] rejected@[i]).0@,
                    rejected@[i].1@,
                    bit_length as nat,
                ),
            bit_length < 2 ==> rejected@.len() == 0 && *rng == *old(rng),
        decreases MAX_KEYPAIR_ATTEMPTS - rejected@.len(),
    {
        let a = match generate_prime(bit_length, rng) {
            Ok(p) => p,
            Err(e) => {
                return (Err(e), rejected);
            },
        };
        let b = match generate_prime(bit_length, rng) {
            Ok(p) => p,
            Err(e) => {
                return (Err(e), rejected);
            },
        };
        proof {
            lemma_candidate_at_least_three(a@, bit_length as nat);
            lemma_candidate_at_least_three(b@, bit_length as nat);
        }
        let pair = (a.duplicate(), b.duplicate());
        match key_from_pair(a, b) {
            Some(k) => {
                return (Ok(k), rejected);
            },
            None => {
                rejected.push(pair);
            },
        }
    }
    (Err(RsaError::PrimeGenerationExhausted), rejected)
}

/// Key material from two distinct probable primes of `bit_length` bits each,
/// with the public exponent 65537. A pair of equal primes, or one whose
/// totient shares a factor with the exponent, is drawn again, up to
/// `MAX_KEYPAIR_ATTEMPTS` pairs. Up to 2 bits there are no two distinct odd
/// primes, and below 2 bits nothing is drawn. It fails only where a search
/// for a prime failed or a pair of accepted primes gave no key material.
pub fn generate_keypair(bit_length: u32, rng: &mut StdRng) -> (r: Result<KeyMaterial, RsaError>)
    ensures
        match r {
            Ok(k) => k.wf() && k.public_exponent@ == PUBLIC_EXPONENT && pair_gives_key(
                k.prime_a@,
                k.prime_b@,
            ) && is_prime_candidate_that_passed(k.prime_a@, bit_length as nat)
                && is_prime_candidate_that_passed(k.prime_b@, bit_length as nat),
            Err(e) => e == RsaError::PrimeGenerationExhausted && (bit_length < 2
                || search_can_fail(bit_length as nat) || exists|a: int, b: int| #[trigger]
                is_rejected_pair(a, b, bit_length as nat)),
        },
        bit_length <= 2 ==> r is Err,
        bit_length < 2 ==> *final(rng) == *old(rng),
{
    let (found, rejected) = search_keypair(bit_length, rng);
    proof {
        if rejected@.len() > 0 {
            assert(is_rejected_pair(rejected@[0].0@, rejected@[0].1@, bit_length as nat));
        }
    }
    found
}

} // verus!

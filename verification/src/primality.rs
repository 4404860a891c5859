//! The Miller-Rabin probabilistic primality test.

use crate::bigint::{
    big_add, big_eq, big_from_u64, big_is_even, big_is_one, big_lt, big_modpow, big_random_range,
    big_shr, big_sub, BigInteger,
};
use crate::fermat::{is_prime, lemma_prime_is_never_rejected};
use rand::rngs::StdRng;
use vstd::arithmetic::div_mod::{lemma_fundamental_div_mod, lemma_small_mod};
use vstd::arithmetic::power::{
    lemma1_pow, lemma_pow0, lemma_pow1, lemma_pow_adds, lemma_pow_increases_converse, lemma_pow_mod_noop,
    lemma_pow_multiplies, lemma_pow_positive, lemma_pow_strictly_increases_converse, pow,
};
use vstd::prelude::*;

verus! {

/// What is left of `m` once every factor 2 is taken out; 0 for 0.
pub open spec fn odd_part(m: nat) -> nat
    decreases m,
{
    if m > 0 && m % 2 == 0 {
        odd_part(m / 2)
    } else {
        m
    }
}

/// How many factors 2 the positive `m` has; 0 for 0.
pub open spec fn two_adicity(m: nat) -> nat
    decreases m,
{
    if m > 0 && m % 2 == 0 {
        1 + two_adicity(m / 2)
    } else {
        0
    }
}

/// The base `a` raised to the odd part of `n - 1` times `2^r`, reduced modulo `n`.
pub open spec fn power_at(n: int, a: int, r: nat) -> int {
    pow(a, odd_part((n - 1) as nat) * (pow(2, r) as nat)) % n
}

/// Whether `n` passes one round with base `a`: the first power is 1, or one
/// of the powers with `r` below the number of factors 2 of `n - 1` (the first
/// power in any case) is `n - 1`.
pub open spec fn is_strong_probable_prime(n: int, a: int) -> bool {
    power_at(n, a, 0) == 1 || exists|r: nat|
        (r == 0 || r < two_adicity((n - 1) as nat)) && #[trigger] power_at(n, a, r) == n - 1
}

/// Whether some base of `[2, n - 2]` lets `n` pass a round.
pub open spec fn passes_some_base(n: int) -> bool {
    exists|a: int| 2 <= a <= n - 2 && #[trigger] is_strong_probable_prime(n, a)
}

/// Whether some base of `[2, n - 2]` makes `n` fail a round.
pub open spec fn fails_some_base(n: int) -> bool {
    exists|a: int| 2 <= a <= n - 2 && !#[trigger] is_strong_probable_prime(n, a)
}

/// A number is its odd part times two to the count of its factors 2, and the
/// odd part of a positive number is odd.
pub proof fn lemma_decomposition(m: nat)
    ensures
        odd_part(m) * pow(2, two_adicity(m)) == m,
        m > 0 ==> odd_part(m) % 2 == 1 && odd_part(m) > 0,
    decreases m,
{
    if m > 0 && m % 2 == 0 {
        lemma_decomposition(m / 2);
        let s = two_adicity(m / 2);
        lemma_pow_adds(2, s, 1);
        lemma_pow1(2);
        lemma_fundamental_div_mod(m as int, 2);
        assert(odd_part(m / 2) * (pow(2, s) * 2) == (odd_part(m / 2) * pow(2, s)) * 2)
            by (nonlinear_arith);
    } else {
        lemma_pow0(2);
    }
}

/// Once a power in the chain is 1, every later one is 1 as well.
proof fn lemma_one_stays(n: int, a: int, r: nat, j: nat)
    requires
        n > 2,
        power_at(n, a, r) == 1,
        j >= r,
    ensures
        power_at(n, a, j) == 1,
{
    let d = odd_part((n - 1) as nat);
    let k = (j - r) as nat;
    lemma_pow_adds(2, r, k);
    lemma_pow_positive(2, r);
    lemma_pow_positive(2, k);
    lemma_pow_positive(2, j);
    let e1 = d * (pow(2, r) as nat);
    let e2 = pow(2, k) as nat;
    assert(d * (pow(2, j) as nat) == e1 * e2) by (nonlinear_arith)
        requires
            pow(2, j) == pow(2, r) * pow(2, k),
            pow(2, r) > 0,
            pow(2, k) > 0,
            pow(2, j) > 0,
            e1 == d * (pow(2, r) as nat),
            e2 == pow(2, k) as nat,
    ;
    lemma_pow_multiplies(a, e1, e2);
    lemma_pow_mod_noop(pow(a, e1), e2, n);
    lemma1_pow(e2);
    lemma_small_mod(1, n as nat);
}

/// The odd part of a positive integer, by halving while it is even.
pub fn odd_part_of(m: &BigInteger) -> (d: BigInteger)
    requires
        m@ > 0,
    ensures
        d@ == odd_part(m@ as nat),
{
    let mut d = m.duplicate();
    while big_is_even(&d)
        invariant
            d@ > 0,
            odd_part(d@ as nat) == odd_part(m@ as nat),
        decreases d@,
    {
        proof {
            lemma_pow1(2);
            lemma_fundamental_div_mod(d@, 2);
        }
        d = big_shr(&d, 1);
    }
    d
}

/// One round of the test on a candidate above 2: whether `n` passes with the
/// base `a`.
pub fn passes_round(n: &BigInteger, a: &BigInteger) -> (ok: bool)
    requires
        n@ > 2,
    ensures
        ok == is_strong_probable_prime(n@, a@),
{
    let one = big_from_u64(1);
    let two = big_from_u64(2);
    let n1 = big_sub(n, &one);
    let d = odd_part_of(&n1);
    let ghost s = two_adicity(n1@ as nat);
    proof {
        lemma_decomposition(n1@ as nat);
        lemma_pow0(2);
        assert(d@ * 1 == d@);
    }
    let mut x = big_modpow(a, &d, n);
    assert(x@ == power_at(n@, a@, 0));
    if big_is_one(&x) || big_eq(&x, &n1) {
        return true;
    }
    let mut doubled = big_add(&d, &d);
    let ghost mut t: int = d@;
    let ghost mut r: nat = 0;
    proof {
        lemma_pow1(2);
    }
    while big_lt(&doubled, &n1)
        invariant
            n@ > 2,
            n1@ == n@ - 1,
            two@ == 2,
            s == two_adicity(n1@ as nat),
            odd_part(n1@ as nat) > 0,
            odd_part(n1@ as nat) * pow(2, s) == n1@,
            t == odd_part(n1@ as nat) * pow(2, r),
            doubled@ == odd_part(n1@ as nat) * pow(2, r + 1),
            doubled@ == 2 * t,
            t > 0,
            x@ == power_at(n@, a@, r),
            power_at(n@, a@, 0) != 1,
            forall|j: nat| j <= r ==> #[trigger] power_at(n@, a@, j) != n@ - 1,
        decreases
            (if doubled@ < n1@ {
                n1@ - doubled@
            } else {
                0
            }),
    {
        let ghost t0 = t;
        x = big_modpow(&x, &two, n);
        doubled = big_add(&doubled, &doubled);
        proof {
            let dd = odd_part(n1@ as nat) as int;
            lemma_pow_positive(2, r);
            assert(dd * pow(2, r) >= 0) by (nonlinear_arith)
                requires
                    dd > 0,
                    pow(2, r) > 0,
            ;
            lemma_pow_mod_noop(pow(a@, t0 as nat), 2, n@);
            lemma_pow_multiplies(a@, t0 as nat, 2);
            t = 2 * t0;
            assert(x@ == pow(a@, t as nat) % n@);
            r = r + 1;
            lemma_pow_adds(2, r, 1);
            lemma_pow1(2);
            lemma_pow_positive(2, r);
            assert(dd * (pow(2, r) * 2) == 2 * (dd * pow(2, r))) by (nonlinear_arith);
            assert(t == dd * pow(2, r));
            assert(t as nat == odd_part(n1@ as nat) * (pow(2, r) as nat));
            assert(x@ == power_at(n@, a@, r));
        }
        if big_is_one(&x) {
            proof {
                assert forall|j: nat| #[trigger] power_at(n@, a@, j) != n@ - 1 by {
                    if j >= r {
                        lemma_one_stays(n@, a@, r, j);
                    }
                }
            }
            return false;
        }
        if big_eq(&x, &n1) {
            proof {
                let dd = odd_part(n1@ as nat) as int;
                assert(pow(2, r) < pow(2, s)) by (nonlinear_arith)
                    requires
                        dd > 0,
                        dd * pow(2, r) < dd * pow(2, s),
                ;
                lemma_pow_strictly_increases_converse(2, r, s);
            }
            return true;
        }
    }
    proof {
        let dd = odd_part(n1@ as nat) as int;
        assert(pow(2, s) <= pow(2, r + 1)) by (nonlinear_arith)
            requires
                dd > 0,
                dd * pow(2, r + 1) >= dd * pow(2, s),
        ;
        lemma_pow_increases_converse(2, s, r + 1);
    }
    false
}

/// Whether `n` passes a round with each of `bases`.
pub open spec fn passes_all(n: int, bases: Seq<BigInteger>) -> bool {
    forall|i: int| 0 <= i < bases.len() ==> is_strong_probable_prime(n, (#[trigger] bases[i])@)
}

/// Whether `bases` are `rounds` bases of `[2, n - 2]` with each of which `n`
/// passes a round.
pub open spec fn is_accepting_run(n: int, rounds: nat, bases: Seq<BigInteger>) -> bool {
    &&& bases.len() == rounds
    &&& forall|i: int| 0 <= i < bases.len() ==> 2 <= (#[trigger] bases[i])@ <= n - 2
    &&& passes_all(n, bases)
}

/// Whether there are `rounds` bases of `[2, n - 2]` with each of which `n`
/// passes a round.
pub open spec fn passes_rounds(n: int, rounds: nat) -> bool {
    exists|bases: Seq<BigInteger>| #[trigger] is_accepting_run(n, rounds, bases)
}

/// Up to `rounds` rounds on a candidate above 3, each with a base drawn from
/// `[2, n - 2]`, stopping at the first base that fails. The verdict comes
/// with the bases in the order drawn: it is whether all of them let `n`
/// pass, and only the last one can be a base that does not.
pub fn miller_rabin_rounds(n: &BigInteger, rounds: usize, rng: &mut StdRng) -> (r: (
    bool,
    Vec<BigInteger>,
))
    requires
        n@ > 3,
    ensures
        r.1@.len() <= rounds,
        forall|i: int| 0 <= i < r.1@.len() ==> 2 <= (#[trigger] r.1@[i])@ <= n@ - 2,
        r.0 == passes_all(n@, r.1@),
        r.0 ==> r.1@.len() == rounds,
        !r.0 ==> r.1@.len() > 0 && passes_all(n@, r.1@.drop_last()),
        rounds == 0 ==> *final(rng) == *old(rng),
{
    let one = big_from_u64(1);
    let two = big_from_u64(2);
    let high = big_sub(n, &one);
    let mut bases: Vec<BigInteger> = Vec::new();
    let mut i: usize = 0;
    while i < rounds
        invariant
            n@ > 3,
            two@ == 2,
            high@ == n@ - 1,
            i <= rounds,
            bases@.len() == i,
            forall|j: int| 0 <= j < bases@.len() ==> 2 <= (#[trigger] bases@[j])@ <= n@ - 2,
            passes_all(n@, bases@),
            i == 0 ==> *rng == *old(rng),
        decreases rounds - i,
    {
        let ghost before = bases@;
        let a = big_random_range(rng, &two, &high);
        let ok = passes_round(n, &a);
        bases.push(a);
        if !ok {
            proof {
                assert(bases@.drop_last() == before);
                assert(!is_strong_probable_prime(n@, bases@[i as int]@));
            }
            return (false, bases);
        }
        i = i + 1;
    }
    (true, bases)
}

/// The Miller-Rabin test with `rounds` random bases from `[2, n - 2]`.
/// Integers below 2 are rejected and 2 and 3 accepted without a round and
/// without a draw. A larger candidate is rejected only on a base with which
/// it fails a round, and accepted only if it passed `rounds` rounds; a
/// prime is always accepted.
pub fn is_probable_prime(n: &BigInteger, rounds: usize, rng: &mut StdRng) -> (ok: bool)
    ensures
        n@ <= 1 ==> !ok,
        n@ == 2 || n@ == 3 ==> ok,
        n@ > 3 && rounds == 0 ==> ok,
        n@ > 3 && !ok ==> fails_some_base(n@),
        n@ > 3 && rounds > 0 && ok ==> passes_some_base(n@),
        n@ > 3 && ok ==> passes_rounds(n@, rounds as nat),
        is_prime(n@) ==> ok,
        n@ < 4 || rounds == 0 ==> *final(rng) == *old(rng),
{
    let two = big_from_u64(2);
    let four = big_from_u64(4);
    if big_lt(n, &two) {
        return false;
    }
    if big_lt(n, &four) {
        return true;
    }
    let (ok, bases) = miller_rabin_rounds(n, rounds, rng);
    proof {
        if is_prime(n@) {
            lemma_prime_is_never_rejected(n@);
        }
        if ok {
            assert(is_accepting_run(n@, rounds as nat, bases@));
        }
        if ok && rounds > 0 {
            assert(is_strong_probable_prime(n@, bases@[0]@));
        }
        if !ok {
            let last = bases@.len() - 1;
            if is_strong_probable_prime(n@, bases@[last]@) {
                assert forall|i: int| 0 <= i < bases@.len() implies is_strong_probable_prime(
                    n@,
                    (#[trigger] bases@[i])@,
                ) by {
                    if i < last {
                        assert(bases@.drop_last()[i] == bases@[i]);
                    }
                }
            }
            assert(!is_strong_probable_prime(n@, bases@[last]@));
        }
    }
    ok
}

} // verus!

//! Fermat's little theorem, by the binomial theorem, and what follows from
//! it for primes: the primality test accepts them, and encryption and
//! decryption with prime factors undo each other.

use crate::codec::lemma_key_round_trip;
use crate::kernel::{
    lemma_gcd_divides, lemma_gcd_greatest, lemma_gcd_scales, spec_gcd, spec_mod_pow,
};
use crate::keygen::KeyMaterial;
use crate::primality::{
    fails_some_base, is_strong_probable_prime, lemma_decomposition, odd_part, power_at,
    two_adicity,
};
use vstd::arithmetic::div_mod::{
    lemma_add_mod_noop, lemma_mod_bound, lemma_mod_multiples_basic, lemma_mul_mod_noop_left,
    lemma_small_mod, lemma_sub_mod_noop,
};
use vstd::arithmetic::power::{
    lemma0_pow, lemma_pow0, lemma_pow1, lemma_pow_adds, lemma_pow_mod_noop, lemma_pow_multiplies,
    lemma_pow_positive, lemma_square_is_pow2, pow,
};
use vstd::prelude::*;

verus! {

/// Whether `q` is above 1 and no integer strictly between 1 and `q` divides it.
pub open spec fn is_prime(q: int) -> bool {
    q > 1 && forall|d: int| 1 < d < q ==> #[trigger] (q % d) != 0
}

/// The binomial coefficient, by Pascal's rule.
pub open spec fn binomial(n: nat, k: nat) -> nat
    decreases n,
{
    if k == 0 {
        1
    } else if n == 0 {
        0
    } else {
        binomial((n - 1) as nat, (k - 1) as nat) + binomial((n - 1) as nat, k)
    }
}

/// The first `k + 1` terms of the binomial expansion of `(a + 1)^n`.
pub open spec fn binomial_sum(a: int, n: nat, k: nat) -> int
    decreases k,
{
    if k == 0 {
        1
    } else {
        binomial_sum(a, n, (k - 1) as nat) + binomial(n, k) * pow(a, k)
    }
}

/// A binomial coefficient with `k` above `n` is 0.
proof fn lemma_binomial_beyond(n: nat, k: nat)
    requires
        k > n,
    ensures
        binomial(n, k) == 0,
    decreases n,
{
    if n > 0 {
        lemma_binomial_beyond((n - 1) as nat, (k - 1) as nat);
        lemma_binomial_beyond((n - 1) as nat, k);
    }
}

/// The binomial coefficient of `n` over `n` is 1.
proof fn lemma_binomial_all(n: nat)
    ensures
        binomial(n, n) == 1,
    decreases n,
{
    if n > 0 {
        lemma_binomial_all((n - 1) as nat);
        lemma_binomial_beyond((n - 1) as nat, n);
    }
}

/// Multiplying a partial binomial sum for `n` by `a + 1` gives the one for
/// `n + 1` and one term more.
proof fn lemma_binomial_step(a: int, n: nat, k: nat)
    ensures
        (a + 1) * binomial_sum(a, n, k) == binomial_sum(a, n + 1, k) + binomial(n, k) * pow(
            a,
            k + 1,
        ),
    decreases k,
{
    if k == 0 {
        lemma_pow1(a);
        assert((a + 1) * 1 == 1 + 1 * a) by (nonlinear_arith);
    } else {
        let j = (k - 1) as nat;
        lemma_binomial_step(a, n, j);
        lemma_pow_adds(a, k, 1);
        lemma_pow1(a);
        let b = binomial_sum(a, n, j);
        let b1 = binomial_sum(a, n + 1, j);
        let c0 = binomial(n, j) as int;
        let c1 = binomial(n, k) as int;
        let p = pow(a, k);
        let p1 = pow(a, k + 1);
        assert(binomial(n + 1, k) == c0 + c1);
        assert((a + 1) * (b + c1 * p) == (b1 + (c0 + c1) * p) + c1 * p1) by (nonlinear_arith)
            requires
                (a + 1) * b == b1 + c0 * p,
                p1 == p * a,
        ;
    }
}

/// The binomial theorem for `(a + 1)^n`.
pub proof fn lemma_binomial_theorem(a: int, n: nat)
    ensures
        pow(a + 1, n) == binomial_sum(a, n, n),
    decreases n,
{
    if n == 0 {
        lemma_pow0(a + 1);
    } else {
        let m = (n - 1) as nat;
        lemma_binomial_theorem(a, m);
        lemma_pow_adds(a + 1, m, 1);
        lemma_pow1(a + 1);
        lemma_binomial_step(a, m, m);
        lemma_binomial_all(m);
        lemma_binomial_all(n);
        assert(pow(a + 1, m) * (a + 1) == (a + 1) * pow(a + 1, m)) by (nonlinear_arith);
    }
}

/// The absorption identity: `k` times `n` over `k` is `n` times `n - 1`
/// over `k - 1`.
proof fn lemma_absorption(n: nat, k: nat)
    requires
        n >= 1,
        k >= 1,
    ensures
        k * binomial(n, k) == n * binomial((n - 1) as nat, (k - 1) as nat),
    decreases n,
{
    let m = (n - 1) as nat;
    let j = (k - 1) as nat;
    if n == 1 {
        if k > 1 {
            lemma_binomial_beyond(0, j);
            lemma_binomial_beyond(0, k);
        }
    } else {
        lemma_absorption(m, k);
        let x = binomial(m, j) as int;
        let y = binomial(m, k) as int;
        let u = binomial((m - 1) as nat, j) as int;
        assert(binomial(n, k) == x + y);
        if k == 1 {
            assert(k * (x + y) == n * x) by (nonlinear_arith)
                requires
                    k == 1,
                    x == 1,
                    k * y == m * u,
                    u == 1,
                    n == m + 1,
            ;
        } else {
            lemma_absorption(m, j);
            let v = binomial((m - 1) as nat, (j - 1) as nat) as int;
            assert(x == v + u);
            assert(k * (x + y) == n * x) by (nonlinear_arith)
                requires
                    k * y == m * u,
                    j * x == m * v,
                    x == v + u,
                    k == j + 1,
                    n == m + 1,
            ;
        }
    }
}

/// A prime shares no factor with a number that it does not divide.
proof fn lemma_prime_is_coprime(q: nat, x: nat)
    requires
        is_prime(q as int),
        x % q != 0,
    ensures
        spec_gcd(q, x) == 1,
{
    lemma_gcd_divides(q, x);
    let g = spec_gcd(q, x);
    if g != 1 {
        if g > q {
            lemma_small_mod(q, g);
        }
        if g < q {
            assert((q as int) % (g as int) != 0);
        }
    }
}

/// Euclid's lemma: a prime that divides a product divides one of the factors.
pub proof fn lemma_prime_divides_factor(q: nat, x: nat, y: nat)
    requires
        is_prime(q as int),
        (x * y) % q == 0,
        x % q != 0,
    ensures
        y % q == 0,
{
    if y == 0 {
        lemma_small_mod(0, q);
    } else {
        lemma_prime_is_coprime(q, x);
        lemma_gcd_scales(y, q, x);
        lemma_mod_multiples_basic(y as int, q as int);
        assert(y * x == x * y) by (nonlinear_arith);
        lemma_gcd_greatest(y * q, y * x, q);
        assert(y * 1 == y);
    }
}

/// A prime divides its binomial coefficients other than the first and the last.
proof fn lemma_binomial_divisible(q: nat, k: nat)
    requires
        is_prime(q as int),
        0 < k < q,
    ensures
        binomial(q, k) % q == 0,
{
    lemma_absorption(q, k);
    let c = binomial(q, k);
    let d = binomial((q - 1) as nat, (k - 1) as nat);
    lemma_mod_multiples_basic(d as int, q as int);
    assert(d * q == q * d) by (nonlinear_arith);
    lemma_small_mod(k, q);
    lemma_prime_divides_factor(q, k, c);
}

/// Modulo a prime `q`, every partial binomial sum for `q` short of the last
/// term is 1.
proof fn lemma_binomial_sum_mod(a: int, q: nat, k: nat)
    requires
        is_prime(q as int),
        k < q,
    ensures
        binomial_sum(a, q, k) % (q as int) == 1,
    decreases k,
{
    lemma_small_mod(1, q);
    if k > 0 {
        lemma_binomial_sum_mod(a, q, (k - 1) as nat);
        lemma_binomial_divisible(q, k);
        let c = binomial(q, k) as int;
        let p = pow(a, k);
        lemma_mul_mod_noop_left(c, p, q as int);
        assert(0 * p == 0);
        lemma_small_mod(0, q);
        lemma_add_mod_noop(binomial_sum(a, q, (k - 1) as nat), c * p, q as int);
    }
}

/// Modulo a prime `q`, the power of `a + 1` to `q` is 1 plus the power of
/// `a` to `q`.
proof fn lemma_power_of_successor(a: int, q: nat)
    requires
        is_prime(q as int),
    ensures
        pow(a + 1, q) % (q as int) == (1 + pow(a, q)) % (q as int),
{
    lemma_binomial_theorem(a, q);
    lemma_binomial_sum_mod(a, q, (q - 1) as nat);
    lemma_binomial_all(q);
    let b = binomial_sum(a, q, (q - 1) as nat);
    assert(binomial_sum(a, q, q) == b + 1 * pow(a, q));
    lemma_add_mod_noop(b, pow(a, q), q as int);
    lemma_add_mod_noop(1, pow(a, q), q as int);
    lemma_small_mod(1, q);
}

/// For a prime `q`, the power of `a` to `q` is `a` modulo `q`.
pub proof fn lemma_prime_power(a: nat, q: nat)
    requires
        is_prime(q as int),
    ensures
        pow(a as int, q) % (q as int) == a % q,
    decreases a,
{
    if a == 0 {
        lemma0_pow(q);
    } else {
        let b = (a - 1) as nat;
        lemma_prime_power(b, q);
        lemma_power_of_successor(b as int, q);
        lemma_add_mod_noop(1, pow(b as int, q), q as int);
        lemma_add_mod_noop(1, b as int, q as int);
    }
}

/// Fermat's little theorem: for a prime `q` and an `a` that it does not
/// divide, the power of `a` to `q - 1` is 1 modulo `q`.
pub proof fn lemma_fermat_little(a: nat, q: nat)
    requires
        is_prime(q as int),
        a % q != 0,
    ensures
        pow(a as int, (q - 1) as nat) % (q as int) == 1,
{
    let e = (q - 1) as nat;
    let r = pow(a as int, e);
    lemma_prime_power(a, q);
    lemma_pow_adds(a as int, e, 1);
    lemma_pow1(a as int);
    if a == 0 {
        lemma_small_mod(0, q);
    }
    lemma_pow_positive(a as int, e);
    let y = (r - 1) as nat;
    assert(a * y == pow(a as int, q) - a) by (nonlinear_arith)
        requires
            pow(a as int, q) == r * a,
            y == r - 1,
    ;
    lemma_sub_mod_noop(pow(a as int, q), a as int, q as int);
    lemma_small_mod(0, q);
    lemma_prime_divides_factor(q, a, y);
    lemma_add_mod_noop(y as int, 1, q as int);
    lemma_small_mod(1, q);
}

/// Each power in the chain of a round is the square of the one before it.
proof fn lemma_power_at_squares(n: int, a: int, r: nat)
    requires
        n > 0,
    ensures
        power_at(n, a, r + 1) == (power_at(n, a, r) * power_at(n, a, r)) % n,
{
    let d = odd_part((n - 1) as nat);
    let t = d * (pow(2, r) as nat);
    lemma_pow_positive(2, r);
    lemma_pow_positive(2, r + 1);
    lemma_pow_adds(2, r, 1);
    lemma_pow1(2);
    assert(d * (pow(2, r + 1) as nat) == t * 2) by (nonlinear_arith)
        requires
            pow(2, r + 1) == pow(2, r) * 2,
            pow(2, r) > 0,
            t == d * (pow(2, r) as nat),
    ;
    lemma_pow_multiplies(a, t, 2);
    lemma_pow_mod_noop(pow(a, t), 2, n);
    lemma_square_is_pow2(power_at(n, a, r));
}

/// For a prime above 2, a chain of powers that reaches 1 starts with 1 or
/// passes through `n - 1` just before.
proof fn lemma_chain_reaches(n: nat, a: int, r: nat)
    requires
        is_prime(n as int),
        n > 2,
        r <= two_adicity((n - 1) as nat),
        power_at(n as int, a, r) == 1,
    ensures
        is_strong_probable_prime(n as int, a),
    decreases r,
{
    if r > 0 {
        let j = (r - 1) as nat;
        let x = power_at(n as int, a, j);
        lemma_power_at_squares(n as int, a, j);
        lemma_mod_bound(pow(a, odd_part((n - 1) as nat) * (pow(2, j) as nat)), n as int);
        if x == 1 {
            lemma_chain_reaches(n, a, j);
        } else if x == 0 {
            assert(x * x == 0) by (nonlinear_arith)
                requires
                    x == 0,
            ;
            lemma_small_mod(0, n);
        } else {
            let u = (x - 1) as nat;
            let v = (x + 1) as nat;
            assert(u * v == x * x - 1) by (nonlinear_arith)
                requires
                    u == x - 1,
                    v == x + 1,
            ;
            lemma_sub_mod_noop(x * x, 1, n as int);
            lemma_small_mod(1, n);
            lemma_small_mod(0, n);
            lemma_small_mod(u, n);
            lemma_prime_divides_factor(n, u, v);
            if v < n {
                lemma_small_mod(v, n);
            }
            assert(power_at(n as int, a, j) == n - 1);
        }
    }
}

/// A prime above 2 passes a round of the primality test with every base
/// that it does not divide.
pub proof fn lemma_prime_passes_every_base(n: nat, a: nat)
    requires
        is_prime(n as int),
        n > 2,
        a % n != 0,
    ensures
        is_strong_probable_prime(n as int, a as int),
{
    let s = two_adicity((n - 1) as nat);
    lemma_decomposition((n - 1) as nat);
    lemma_fermat_little(a, n);
    lemma_pow_positive(2, s);
    assert(power_at(n as int, a as int, s) == 1);
    lemma_chain_reaches(n, a as int, s);
}

/// No base of `[2, n - 2]` makes a prime above 2 fail a round.
pub proof fn lemma_prime_is_never_rejected(n: int)
    requires
        is_prime(n),
        n > 2,
    ensures
        !fails_some_base(n),
{
    assert forall|a: int| 2 <= a <= n - 2 implies #[trigger] is_strong_probable_prime(n, a) by {
        lemma_small_mod(a as nat, n as nat);
        lemma_prime_passes_every_base(n as nat, a as nat);
    }
}

/// The round trip for prime factors: with key material whose two factors
/// are distinct primes and whose public exponent is not negative, every
/// plaintext below the modulus comes back from decrypting its encryption.
pub proof fn lemma_prime_key_round_trip(k: KeyMaterial, p: int)
    requires
        k.wf(),
        k.public_exponent@ >= 0,
        is_prime(k.prime_a@),
        is_prime(k.prime_b@),
        k.prime_a@ != k.prime_b@,
        0 <= p < k.modulus@,
    ensures
        spec_mod_pow(
            spec_mod_pow(p, k.public_exponent@ as nat, k.modulus@),
            k.private_exponent@ as nat,
            k.modulus@,
        ) == p,
{
    let a = k.prime_a@ as nat;
    let b = k.prime_b@ as nat;
    if a > b {
        lemma_small_mod(b, a);
    } else {
        assert((b as int) % (a as int) != 0);
    }
    lemma_prime_is_coprime(a, b);
    if p % (a as int) != 0 {
        lemma_fermat_little(p as nat, a);
    }
    if p % (b as int) != 0 {
        lemma_fermat_little(p as nat, b);
    }
    lemma_key_round_trip(k, p);
}

} // verus!

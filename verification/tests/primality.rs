use naive_rsa::bigint::BigInteger;
use naive_rsa::primality::{is_probable_prime, miller_rabin_rounds, odd_part_of, passes_round};
use num_bigint::BigInt;
use rand::rngs::StdRng;
use rand::SeedableRng;

fn big(text: &str) -> BigInteger {
    let parsed = BigInt::parse_bytes(text.as_bytes(), 10).unwrap();
    BigInteger::from_signed_bytes_be(parsed.to_signed_bytes_be())
}

fn wrap(x: &BigInt) -> BigInteger {
    BigInteger::from_signed_bytes_be(x.to_signed_bytes_be())
}

fn val(x: &BigInteger) -> BigInt {
    BigInt::from_signed_bytes_be(x.as_signed_bytes_be())
}

fn probable(text: &str) -> bool {
    let mut rng = StdRng::seed_from_u64(20240117);
    is_probable_prime(&big(text), 10, &mut rng)
}

#[test]
fn odd_part_strips_the_factors_two() {
    assert_eq!(val(&odd_part_of(&big("96"))), BigInt::from(3));
    assert_eq!(val(&odd_part_of(&big("560"))), BigInt::from(35));
    assert_eq!(val(&odd_part_of(&big("7"))), BigInt::from(7));
    assert_eq!(val(&odd_part_of(&big("1"))), BigInt::from(1));
    assert_eq!(val(&odd_part_of(&big("18446744073709551616"))), BigInt::from(1));
}

#[test]
fn a_prime_passes_every_round() {
    for a in 2..12 {
        assert!(passes_round(&big("13"), &BigInteger::from_u64(a)));
    }
    for a in 2..96 {
        assert!(passes_round(&big("97"), &BigInteger::from_u64(a)));
    }
}

#[test]
fn a_round_tells_strong_pseudoprimes_by_base() {
    assert!(passes_round(&big("2047"), &big("2")));
    assert!(!passes_round(&big("2047"), &big("3")));
    assert!(!passes_round(&big("561"), &big("2")));
    assert!(!passes_round(&big("9"), &big("2")));
    assert!(passes_round(&big("9"), &big("8")));
}

#[test]
fn a_round_on_an_even_candidate() {
    assert!(!passes_round(&big("4"), &big("2")));
    assert!(!passes_round(&big("100"), &big("7")));
}

#[test]
fn known_primes_are_accepted() {
    for p in ["2", "3", "5", "97", "7919"] {
        assert!(probable(p), "{}", p);
    }
}

#[test]
fn a_wide_prime_is_accepted() {
    let p = (BigInt::from(1) << 256) - BigInt::from(189);
    let mut rng = StdRng::seed_from_u64(7);
    assert!(is_probable_prime(&wrap(&p), 10, &mut rng));
    let curve = BigInt::parse_bytes(
        b"ffffffff00000001000000000000000000000000ffffffffffffffffffffffff",
        16,
    )
    .unwrap();
    assert!(is_probable_prime(&wrap(&curve), 10, &mut rng));
}

#[test]
fn known_composites_are_rejected() {
    for c in ["4", "100", "561", "9", "15", "2047", "3215031751"] {
        assert!(!probable(c), "{}", c);
    }
}

#[test]
fn a_product_of_two_wide_primes_is_rejected() {
    let a = (BigInt::from(1) << 128) - BigInt::from(159);
    let b = (BigInt::from(1) << 127) - BigInt::from(1);
    let mut rng = StdRng::seed_from_u64(11);
    assert!(is_probable_prime(&wrap(&a), 10, &mut rng));
    assert!(is_probable_prime(&wrap(&b), 10, &mut rng));
    assert!(!is_probable_prime(&wrap(&(a * b)), 10, &mut rng));
}

#[test]
fn integers_below_two_are_rejected() {
    for c in ["1", "0", "-1", "-7"] {
        assert!(!probable(c), "{}", c);
    }
}

#[test]
fn without_rounds_a_candidate_above_three_is_accepted() {
    let mut rng = StdRng::seed_from_u64(1);
    assert!(is_probable_prime(&big("100"), 0, &mut rng));
    assert!(!is_probable_prime(&big("1"), 0, &mut rng));
}

#[test]
fn small_candidates_are_decided_without_a_draw() {
    let mut rng = StdRng::seed_from_u64(99);
    let before = rng.clone();
    for c in ["-7", "0", "1", "2", "3"] {
        is_probable_prime(&big(c), 10, &mut rng);
    }
    assert!(is_probable_prime(&big("91"), 0, &mut rng));
    assert!(rng == before);
    assert!(is_probable_prime(&big("97"), 10, &mut rng));
    assert!(rng != before);
}

#[test]
fn rounds_on_a_prime_draw_every_base() {
    let mut rng = StdRng::seed_from_u64(5);
    let n = big("97");
    let (ok, bases) = miller_rabin_rounds(&n, 10, &mut rng);
    assert!(ok);
    assert_eq!(bases.len(), 10);
    for a in &bases {
        assert!(val(a) >= BigInt::from(2) && val(a) <= BigInt::from(95));
        assert!(passes_round(&n, a));
    }
}

#[test]
fn rounds_on_a_composite_stop_at_the_first_failing_base() {
    for seed in 0..10u64 {
        let mut rng = StdRng::seed_from_u64(seed);
        let n = big("2047");
        let (ok, bases) = miller_rabin_rounds(&n, 10, &mut rng);
        assert!(!ok);
        assert!(!bases.is_empty() && bases.len() <= 10);
        let (last, earlier) = bases.split_last().unwrap();
        assert!(!passes_round(&n, last));
        for a in earlier {
            assert!(passes_round(&n, a));
        }
        for a in &bases {
            assert!(val(a) >= BigInt::from(2) && val(a) <= BigInt::from(2045));
        }
    }
}

#[test]
fn no_rounds_draw_no_base() {
    let mut rng = StdRng::seed_from_u64(5);
    let before = rng.clone();
    let (ok, bases) = miller_rabin_rounds(&big("100"), 0, &mut rng);
    assert!(ok);
    assert!(bases.is_empty());
    assert!(rng == before);
}

#[test]
fn the_verdict_is_that_of_the_rounds() {
    for text in ["97", "561", "7919", "3215031751", "100"] {
        let mut first = StdRng::seed_from_u64(8);
        let mut second = StdRng::seed_from_u64(8);
        let (ok, _) = miller_rabin_rounds(&big(text), 10, &mut first);
        assert_eq!(is_probable_prime(&big(text), 10, &mut second), ok);
        assert!(first == second);
    }
}

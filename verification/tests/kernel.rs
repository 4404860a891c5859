use naive_rsa::bigint::BigInteger;
use naive_rsa::error::RsaError;
use naive_rsa::kernel::{gcd, lcm, mod_inverse, mod_pow, reduce};
use num_bigint::BigInt;

fn big(text: &str) -> BigInteger {
    let parsed = BigInt::parse_bytes(text.as_bytes(), 10).unwrap();
    BigInteger::from_signed_bytes_be(parsed.to_signed_bytes_be())
}

fn val(x: &BigInteger) -> BigInt {
    BigInt::from_signed_bytes_be(x.as_signed_bytes_be())
}

fn num(v: i64) -> BigInt {
    BigInt::from(v)
}

#[test]
fn from_u64_holds_the_value() {
    assert_eq!(val(&BigInteger::from_u64(0)), num(0));
    assert_eq!(val(&BigInteger::from_u64(65537)), num(65537));
    assert_eq!(val(&BigInteger::from_u64(u64::MAX)), BigInt::from(u64::MAX));
}

#[test]
fn signed_bytes_spell_negative_values() {
    let minus_one = BigInteger::from_signed_bytes_be(vec![0xff]);
    assert_eq!(val(&minus_one), num(-1));
    assert!(minus_one.less_than(&BigInteger::from_u64(0)));
    let padded = BigInteger::from_signed_bytes_be(vec![0, 0, 0xff]);
    assert!(padded.equals(&BigInteger::from_u64(255)));
    assert!(!padded.equals(&minus_one));
    assert!(BigInteger::from_signed_bytes_be(vec![]).equals(&BigInteger::from_u64(0)));
}

#[test]
fn duplicate_keeps_the_value() {
    let x = big("-123456789012345678901234567890");
    assert_eq!(val(&x.duplicate()), val(&x));
}

#[test]
fn less_than_orders_by_value() {
    assert!(big("-5").less_than(&big("3")));
    assert!(!big("3").less_than(&big("3")));
    assert!(!big("340282366920938463463374607431768211456").less_than(&big("7")));
}

#[test]
fn gcd_of_small_numbers() {
    assert_eq!(val(&gcd(&big("48"), &big("18"))), num(6));
    assert_eq!(val(&gcd(&big("18"), &big("48"))), num(6));
    assert_eq!(val(&gcd(&big("17"), &big("780"))), num(1));
}

#[test]
fn gcd_with_zero_is_the_other_argument() {
    assert_eq!(val(&gcd(&big("0"), &big("12345"))), num(12345));
    assert_eq!(val(&gcd(&big("12345"), &big("0"))), num(12345));
    assert_eq!(val(&gcd(&big("0"), &big("0"))), num(0));
}

#[test]
fn gcd_of_wide_numbers() {
    let a = big("340282366920938463463374607431768211456");
    let b = big("18446744073709551616");
    assert_eq!(val(&gcd(&a, &b)), val(&b));
}

#[test]
fn lcm_of_small_numbers() {
    assert_eq!(val(&lcm(&big("4"), &big("6"))), num(12));
    assert_eq!(val(&lcm(&big("60"), &big("52"))), num(780));
    assert_eq!(val(&lcm(&big("7"), &big("7"))), num(7));
}

#[test]
fn lcm_with_zero_is_zero() {
    assert_eq!(val(&lcm(&big("0"), &big("5"))), num(0));
    assert_eq!(val(&lcm(&big("5"), &big("0"))), num(0));
    assert_eq!(val(&lcm(&big("0"), &big("0"))), num(0));
}

#[test]
fn lcm_times_gcd_is_the_product() {
    let pairs = [("12", "18"), ("60", "52"), ("1", "1"), ("97", "7919"), ("1000000007", "998244353")];
    for (a, b) in pairs {
        let l = val(&lcm(&big(a), &big(b)));
        let g = val(&gcd(&big(a), &big(b)));
        assert_eq!(l * g, val(&big(a)) * val(&big(b)));
    }
}

#[test]
fn reduce_lands_in_the_modulus_range() {
    assert_eq!(val(&reduce(&big("-7"), &big("3"))), num(2));
    assert_eq!(val(&reduce(&big("7"), &big("3"))), num(1));
    assert_eq!(val(&reduce(&big("-6"), &big("3"))), num(0));
    assert_eq!(val(&reduce(&big("2"), &big("3"))), num(2));
}

#[test]
fn mod_pow_known_values() {
    assert_eq!(val(&mod_pow(&big("4"), &big("13"), &big("497")).unwrap()), num(445));
    assert_eq!(val(&mod_pow(&big("65"), &big("17"), &big("3233")).unwrap()), num(2790));
    assert_eq!(val(&mod_pow(&big("2"), &big("10"), &big("1000000")).unwrap()), num(1024));
}

#[test]
fn mod_pow_with_exponent_zero_is_one() {
    assert_eq!(val(&mod_pow(&big("5"), &big("0"), &big("7")).unwrap()), num(1));
    assert_eq!(val(&mod_pow(&big("0"), &big("0"), &big("2")).unwrap()), num(1));
    assert_eq!(val(&mod_pow(&big("-9"), &big("0"), &big("3233")).unwrap()), num(1));
}

#[test]
fn mod_pow_with_modulus_one_is_zero() {
    assert_eq!(val(&mod_pow(&big("5"), &big("3"), &big("1")).unwrap()), num(0));
    assert_eq!(val(&mod_pow(&big("0"), &big("0"), &big("1")).unwrap()), num(0));
    assert_eq!(val(&mod_pow(&big("-4"), &big("11"), &big("1")).unwrap()), num(0));
}

#[test]
fn mod_pow_reduces_a_negative_base() {
    assert_eq!(val(&mod_pow(&big("-2"), &big("3"), &big("7")).unwrap()), num(6));
    assert_eq!(val(&mod_pow(&big("-2"), &big("2"), &big("7")).unwrap()), num(4));
}

#[test]
fn mod_pow_agrees_with_the_big_integer_crate() {
    let base = BigInt::parse_bytes(b"123456789012345678901234567890123456789", 10).unwrap();
    let exponent = BigInt::parse_bytes(b"987654321098765432109876543210", 10).unwrap();
    let modulus = BigInt::parse_bytes(b"340282366920938463463374607431768211297", 10).unwrap();
    let got = mod_pow(
        &big("123456789012345678901234567890123456789"),
        &big("987654321098765432109876543210"),
        &big("340282366920938463463374607431768211297"),
    )
    .unwrap();
    assert_eq!(val(&got), base.modpow(&exponent, &modulus));
}

#[test]
fn mod_pow_refuses_a_modulus_below_one() {
    assert_eq!(mod_pow(&big("2"), &big("3"), &big("0")).unwrap_err(), RsaError::InvalidModulus);
    assert_eq!(mod_pow(&big("2"), &big("3"), &big("-5")).unwrap_err(), RsaError::InvalidModulus);
}

#[test]
fn mod_inverse_known_values() {
    assert_eq!(val(&mod_inverse(&big("17"), &big("780")).unwrap()), num(413));
    assert_eq!(val(&mod_inverse(&big("3"), &big("11")).unwrap()), num(4));
    assert_eq!(val(&mod_inverse(&big("271"), &big("383")).unwrap()), num(106));
    assert_eq!(val(&mod_inverse(&big("1"), &big("2")).unwrap()), num(1));
}

#[test]
fn mod_inverse_times_argument_is_one() {
    let cases = [("17", "780"), ("65537", "3120"), ("7", "40"), ("1000", "7919"), ("-3", "11")];
    for (a, m) in cases {
        let x = val(&mod_inverse(&big(a), &big(m)).unwrap());
        let m = val(&big(m));
        assert!(x >= num(0) && x < m);
        assert_eq!(((val(&big(a)) * x) % &m + &m) % &m, num(1));
    }
}

#[test]
fn mod_inverse_of_a_negative_or_wide_argument() {
    assert_eq!(val(&mod_inverse(&big("-3"), &big("11")).unwrap()), num(7));
    assert_eq!(val(&mod_inverse(&big("14"), &big("11")).unwrap()), num(4));
}

#[test]
fn mod_inverse_without_an_inverse() {
    assert_eq!(mod_inverse(&big("6"), &big("9")).unwrap_err(), RsaError::NoInverseExists);
    assert_eq!(mod_inverse(&big("0"), &big("7")).unwrap_err(), RsaError::NoInverseExists);
    assert_eq!(mod_inverse(&big("65537"), &big("131074")).unwrap_err(), RsaError::NoInverseExists);
}

#[test]
fn mod_inverse_with_modulus_one_and_below() {
    assert_eq!(val(&mod_inverse(&big("5"), &big("1")).unwrap()), num(1));
    assert_eq!(mod_inverse(&big("5"), &big("0")).unwrap_err(), RsaError::InvalidModulus);
    assert_eq!(mod_inverse(&big("5"), &big("-7")).unwrap_err(), RsaError::InvalidModulus);
}

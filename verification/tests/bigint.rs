use sutra::bigint::BigInt;

fn big(s: &str) -> BigInt {
    BigInt::parse_decimal(s).expect("a decimal literal")
}

fn factorial(n: i64) -> BigInt {
    let mut acc = BigInt::from_i64(1);
    for k in 1..=n {
        acc = acc.mul(&BigInt::from_i64(k));
    }
    acc
}

#[test]
fn zero_is_canonical() {
    let z = BigInt::zero();
    assert!(z.is_zero());
    assert_eq!(z.to_decimal_string(), "0");
    assert!(big("-0").is_zero());
    assert!(!big("-0").is_negative());
    assert!(big("000").is_zero());
    assert!(big("-0") == BigInt::zero());
}

#[test]
fn i64_round_trip_at_the_edges() {
    for n in [0i64, 1, -1, 42, -42, i64::MAX, i64::MIN, 4294967296, -4294967296] {
        assert_eq!(BigInt::from_i64(n).to_i64(), Some(n));
        assert_eq!(BigInt::from_i64(n).to_decimal_string(), n.to_string());
    }
    assert_eq!(big("9223372036854775808").to_i64(), None);
    assert_eq!(big("-9223372036854775809").to_i64(), None);
    assert_eq!(big("-9223372036854775808").to_i64(), Some(i64::MIN));
}

#[test]
fn parse_decimal_rejects_non_digits() {
    assert!(BigInt::parse_decimal("").is_none());
    assert!(BigInt::parse_decimal("-").is_none());
    assert!(BigInt::parse_decimal("+5").is_none());
    assert!(BigInt::parse_decimal("12a").is_none());
    assert!(BigInt::parse_decimal(" 1").is_none());
    assert!(BigInt::parse_decimal("--1").is_none());
    assert!(BigInt::parse_decimal("४२").is_none());
    assert_eq!(big("-0012").to_decimal_string(), "-12");
}

#[test]
fn overflow_of_i64_is_exact() {
    let max = BigInt::from_i64(i64::MAX);
    let one = BigInt::from_i64(1);
    assert_eq!(max.add(&one).to_decimal_string(), "9223372036854775808");
    let min = BigInt::from_i64(i64::MIN);
    assert_eq!(min.sub(&one).to_decimal_string(), "-9223372036854775809");
    assert_eq!(min.neg().to_decimal_string(), "9223372036854775808");
    assert_eq!(
        big("1000000000000000000000").mul(&BigInt::from_i64(2)).to_decimal_string(),
        "2000000000000000000000"
    );
}

#[test]
fn hundred_factorial() {
    assert_eq!(factorial(20).to_decimal_string(), "2432902008176640000");
    assert_eq!(
        factorial(100).to_decimal_string(),
        "9332621544394415268169923885626670049071596826438162146859296389\
521759999322991560894146397615651828625369792082722375825118521091686400\
0000000000000000000000"
    );
}

#[test]
fn factorial_quotient_and_remainder() {
    let (q, r) = factorial(21).div_rem(&factorial(20)).unwrap();
    assert_eq!(q.to_decimal_string(), "21");
    assert!(r.is_zero());
    let (_, r30) = factorial(30).div_rem(&BigInt::from_i64(7)).unwrap();
    assert!(r30.is_zero());
    assert!(factorial(25) != factorial(25).add(&BigInt::from_i64(1)));
    assert!(factorial(30) > factorial(29));
}

#[test]
fn division_truncates_toward_zero() {
    let cases = [(7i64, 2i64), (-7, 2), (7, -2), (-7, -2), (6, 3), (-1, 5), (0, -3)];
    for (a, b) in cases {
        let (q, r) = BigInt::from_i64(a).div_rem(&BigInt::from_i64(b)).unwrap();
        assert_eq!(q.to_i64(), Some(a / b), "{} / {}", a, b);
        assert_eq!(r.to_i64(), Some(a % b), "{} % {}", a, b);
    }
    assert!(BigInt::from_i64(5).div_rem(&BigInt::zero()).is_none());
}

#[test]
fn large_division_recombines() {
    let a = big("-123456789012345678901234567890123456789");
    let b = big("98765432109876543210");
    let (q, r) = a.div_rem(&b).unwrap();
    assert_eq!(q.to_decimal_string(), "-1249999988609375000");
    assert_eq!(r.to_decimal_string(), "-15297067891529706789");
    assert_eq!(q.mul(&b).add(&r).to_decimal_string(), a.to_decimal_string());
}

#[test]
fn print_then_parse_is_identity() {
    for s in ["0", "7", "-7", "4294967295", "4294967296", "-18446744073709551616", "1000000000"] {
        let x = big(s);
        assert_eq!(x.to_decimal_string(), s);
        assert!(big(&x.to_decimal_string()) == x);
    }
}

#[test]
fn ordering_and_equality_follow_the_value() {
    let a = BigInt::from_i64(-5);
    let b = BigInt::from_i64(3);
    assert!(a < b);
    assert!(b > a);
    assert!(a.cmp(&b) == std::cmp::Ordering::Less);
    assert!(big("-5") == a);
    assert!(big("18446744073709551616") > big("18446744073709551615"));
    assert!(big("-18446744073709551616") < big("-18446744073709551615"));
}

#[test]
fn limbs_are_little_endian() {
    let x = big("18446744073709551617");
    assert_eq!(x.limbs(), &[1u32, 0, 1]);
    assert!(!x.is_negative());
    assert!(x.neg().is_negative());
    assert_eq!(BigInt::zero().limbs().len(), 0);
}

use num_bigint::BigInt;
use shamir_recover::error::SecretError;
use shamir_recover::secret::{
    generate_secret, interpolate_at_zero, is_digit_string, parse_value, recover_secret, EncodedShare,
};

fn bigs(v: &[i64]) -> Vec<BigInt> {
    v.iter().map(|&i| BigInt::from(i)).collect()
}

fn share(base: u32, value: &str) -> EncodedShare {
    EncodedShare { base, value: value.to_string() }
}

#[test]
fn four_shares_threshold_three() {
    let x = bigs(&[1, 2, 3, 4]);
    let y = bigs(&[602, 1139, 1676, 2213]);
    assert_eq!(generate_secret(&x, &y, 3).unwrap(), BigInt::from(65));
}

#[test]
fn share_order_does_not_change_secret() {
    let x = bigs(&[3, 1, 2]);
    let y = bigs(&[1676, 602, 1139]);
    assert_eq!(generate_secret(&x, &y, 3).unwrap(), BigInt::from(65));
    let x = bigs(&[4, 2, 3, 1]);
    let y = bigs(&[2213, 1139, 1676, 602]);
    assert_eq!(generate_secret(&x, &y, 4).unwrap(), BigInt::from(65));
}

#[test]
fn duplicate_index_fails() {
    let x = bigs(&[1, 2, 1]);
    let y = bigs(&[602, 1139, 602]);
    assert_eq!(generate_secret(&x, &y, 3).unwrap_err(), SecretError::DuplicateIndex);
    let f = interpolate_at_zero(&x, &y, 3);
    assert_eq!(f.unwrap_err(), SecretError::DuplicateIndex);
}

#[test]
fn duplicate_beyond_threshold_is_ignored() {
    let x = bigs(&[1, 2, 3, 1]);
    let y = bigs(&[602, 1139, 1676, 602]);
    assert_eq!(generate_secret(&x, &y, 3).unwrap(), BigInt::from(65));
}

#[test]
fn non_integral_value_keeps_denominator() {
    let x = bigs(&[1, 3]);
    let y = bigs(&[1, 2]);
    let f = interpolate_at_zero(&x, &y, 2).unwrap();
    assert_eq!(f.num, BigInt::from(1));
    assert_eq!(f.den, BigInt::from(2));
    assert_eq!(generate_secret(&x, &y, 2).unwrap(), BigInt::from(1));
}

#[test]
fn no_shares_gives_zero() {
    let f = interpolate_at_zero(&[], &[], 0).unwrap();
    assert_eq!(f.num, BigInt::from(0));
    assert_eq!(f.den, BigInt::from(1));
}

#[test]
fn single_share_is_constant() {
    let x = bigs(&[5]);
    let y = bigs(&[-42]);
    assert_eq!(generate_secret(&x, &y, 1).unwrap(), BigInt::from(-42));
}

#[test]
fn parse_value_reads_bases() {
    assert_eq!(parse_value(2, "1011").unwrap(), BigInt::from(11));
    assert_eq!(parse_value(16, "ff").unwrap(), BigInt::from(255));
    assert_eq!(parse_value(16, "FF").unwrap(), BigInt::from(255));
    assert_eq!(parse_value(36, "z").unwrap(), BigInt::from(35));
    assert_eq!(parse_value(10, "0042").unwrap(), BigInt::from(42));
}

#[test]
fn parse_value_rejects_bad_digit() {
    assert_eq!(parse_value(2, "102").unwrap_err(), SecretError::InvalidDigitForBase);
    assert_eq!(parse_value(10, "12a").unwrap_err(), SecretError::InvalidDigitForBase);
    assert_eq!(parse_value(10, "").unwrap_err(), SecretError::InvalidDigitForBase);
}

#[test]
fn parse_value_rejects_bad_base() {
    assert_eq!(parse_value(1, "0").unwrap_err(), SecretError::InvalidBase);
    assert_eq!(parse_value(37, "1").unwrap_err(), SecretError::InvalidBase);
}

fn ten_shares() -> Vec<EncodedShare> {
    vec![
        share(6, "13444211440455345511"),
        share(15, "aed7015a346d63"),
        share(15, "6aeeb69631c227c"),
        share(16, "e1b5e05623d881f"),
        share(8, "316034514573652620673"),
        share(3, "2122212201122002221120200210011020220200"),
        share(3, "20120221122211000100210021102001201112121"),
        share(6, "20220554335330240002224253"),
        share(12, "45153788322a1255483"),
        share(7, "1101613130313526312514143"),
    ]
}

#[test]
fn ten_shares_in_mixed_bases() {
    let secret = recover_secret(7, &ten_shares()).unwrap();
    assert_eq!(secret, BigInt::from(79836264049851i64));
}

#[test]
fn too_few_shares_rejected() {
    let shares = vec![share(10, "602"), share(10, "1139")];
    assert_eq!(recover_secret(3, &shares).unwrap_err(), SecretError::InsufficientShares);
}

#[test]
fn recover_from_decimal_shares() {
    let shares = vec![share(10, "602"), share(10, "1139"), share(10, "1676"), share(10, "2213")];
    assert_eq!(recover_secret(3, &shares).unwrap(), BigInt::from(65));
}

#[test]
fn recover_reports_bad_share() {
    let shares = vec![share(10, "602"), share(2, "1139"), share(10, "1676")];
    assert_eq!(recover_secret(3, &shares).unwrap_err(), SecretError::InvalidDigitForBase);
    let shares = vec![share(10, "602"), share(40, "1"), share(10, "1676")];
    assert_eq!(recover_secret(3, &shares).unwrap_err(), SecretError::InvalidBase);
}

#[test]
fn parse_value_rejects_signs_and_separators() {
    assert_eq!(parse_value(10, "1_0").unwrap_err(), SecretError::InvalidDigitForBase);
    assert_eq!(parse_value(10, "-5").unwrap_err(), SecretError::InvalidDigitForBase);
    assert_eq!(parse_value(10, "+5").unwrap_err(), SecretError::InvalidDigitForBase);
    assert_eq!(parse_value(10, "5\u{e9}").unwrap_err(), SecretError::InvalidDigitForBase);
}

#[test]
fn is_digit_string_checks_each_character() {
    assert!(is_digit_string("0123456789", 10));
    assert!(is_digit_string("aZ", 36));
    assert!(!is_digit_string("a", 10));
    assert!(!is_digit_string("", 10));
}

#[test]
fn recover_reports_first_bad_share() {
    let shares = vec![share(10, "602"), share(10, ""), share(40, "1")];
    assert_eq!(recover_secret(3, &shares).unwrap_err(), SecretError::InvalidDigitForBase);
    let shares = vec![share(40, "1"), share(10, "x"), share(10, "1676")];
    assert_eq!(recover_secret(3, &shares).unwrap_err(), SecretError::InvalidBase);
    let shares = vec![share(10, "602"), share(10, "11_39"), share(10, "1676")];
    assert_eq!(recover_secret(3, &shares).unwrap_err(), SecretError::InvalidDigitForBase);
}

//! Behaviour of the byte-level parsers for sensor readings and
//! configured options.

use fancurve::parse::ParseError;
use fancurve::parse::parse_fixed;
use fancurve::parse::parse_step_list;
use fancurve::parse::parse_temperature;

#[test]
fn fixed_integers() {
    assert_eq!(parse_fixed(b"50"), Ok(50_000));
    assert_eq!(parse_fixed(b"0"), Ok(0));
    assert_eq!(parse_fixed(b"0047"), Ok(47_000));
    assert_eq!(parse_fixed(b"-80"), Ok(-80_000));
    assert_eq!(parse_fixed(b"+12"), Ok(12_000));
}

#[test]
fn fixed_fractions() {
    assert_eq!(parse_fixed(b"1.5"), Ok(1_500));
    assert_eq!(parse_fixed(b"-0.25"), Ok(-250));
    assert_eq!(parse_fixed(b"0.001"), Ok(1));
    assert_eq!(parse_fixed(b"2.75"), Ok(2_750));
    assert_eq!(parse_fixed(b"+3.100"), Ok(3_100));
}

#[test]
fn fixed_malformed() {
    assert_eq!(parse_fixed(b""), Err(ParseError));
    assert_eq!(parse_fixed(b"abc"), Err(ParseError));
    assert_eq!(parse_fixed(b"-"), Err(ParseError));
    assert_eq!(parse_fixed(b"1."), Err(ParseError));
    assert_eq!(parse_fixed(b".5"), Err(ParseError));
    assert_eq!(parse_fixed(b"1..2"), Err(ParseError));
    assert_eq!(parse_fixed(b"1.2345"), Err(ParseError));
    assert_eq!(parse_fixed(b"1,5"), Err(ParseError));
    assert_eq!(parse_fixed(b" 5"), Err(ParseError));
}

#[test]
fn fixed_range_limits() {
    assert_eq!(parse_fixed(b"1000000"), Ok(1_000_000_000));
    assert_eq!(parse_fixed(b"-1000000"), Ok(-1_000_000_000));
    assert_eq!(parse_fixed(b"1000000.001"), Err(ParseError));
    assert_eq!(parse_fixed(b"1000001"), Err(ParseError));
    assert_eq!(parse_fixed(b"99999999999999999999"), Err(ParseError));
}

#[test]
fn temperature_readings() {
    assert_eq!(parse_temperature(b"45000\n"), Ok(45_000));
    assert_eq!(parse_temperature(b"45000"), Ok(45_000));
    assert_eq!(parse_temperature(b"-5000\n"), Ok(-5_000));
    assert_eq!(parse_temperature(b"+250"), Ok(250));
    assert_eq!(parse_temperature(b"0000123"), Ok(123));
}

#[test]
fn temperature_malformed() {
    assert_eq!(parse_temperature(b""), Err(ParseError));
    assert_eq!(parse_temperature(b"\n"), Err(ParseError));
    assert_eq!(parse_temperature(b"45.5"), Err(ParseError));
    assert_eq!(parse_temperature(b"45000\n\n"), Err(ParseError));
    assert_eq!(parse_temperature(b"45 000"), Err(ParseError));
    assert_eq!(parse_temperature(b"x45000"), Err(ParseError));
}

#[test]
fn temperature_32_bit_limits() {
    assert_eq!(parse_temperature(b"2147483647"), Ok(2_147_483_647));
    assert_eq!(parse_temperature(b"-2147483648"), Ok(-2_147_483_648));
    assert_eq!(parse_temperature(b"2147483648"), Err(ParseError));
    assert_eq!(parse_temperature(b"-2147483649"), Err(ParseError));
}

#[test]
fn step_lists() {
    assert_eq!(
        parse_step_list(b"50,60,80"),
        Ok(vec![50_000, 60_000, 80_000])
    );
    assert_eq!(
        parse_step_list(b"30 70 100"),
        Ok(vec![30_000, 70_000, 100_000])
    );
    assert_eq!(parse_step_list(b"1.5,-2.5"), Ok(vec![1_500, -2_500]));
    assert_eq!(parse_step_list(b"42"), Ok(vec![42_000]));
}

#[test]
fn step_lists_malformed() {
    assert_eq!(parse_step_list(b""), Err(ParseError));
    assert_eq!(parse_step_list(b"50,,60"), Err(ParseError));
    // A comma followed by a space leaves an empty piece in between.
    assert_eq!(parse_step_list(b"50, 60"), Err(ParseError));
    assert_eq!(parse_step_list(b"50,abc"), Err(ParseError));
    assert_eq!(parse_step_list(b"50,60,"), Err(ParseError));
    assert_eq!(parse_step_list(b"50,1000001"), Err(ParseError));
}

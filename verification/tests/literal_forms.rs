//! Tests of the literal machinery: integer parsing and printing, float
//! canonicalization.
use atscript::literals::{bool_to_chars, float_canonical, int_to_chars, parse_int};

fn chars(s: &str) -> Vec<char> {
    s.chars().collect()
}

#[test]
fn parses_plain_integers() {
    assert_eq!(parse_int(&chars("0")), Some(0));
    assert_eq!(parse_int(&chars("42")), Some(42));
    assert_eq!(parse_int(&chars("+7")), Some(7));
    assert_eq!(parse_int(&chars("-45")), Some(-45));
    assert_eq!(parse_int(&chars("007")), Some(7));
}

#[test]
fn parses_integer_bounds() {
    assert_eq!(parse_int(&chars("9223372036854775807")), Some(i64::MAX));
    assert_eq!(parse_int(&chars("-9223372036854775808")), Some(i64::MIN));
    assert_eq!(parse_int(&chars("9223372036854775808")), None);
    assert_eq!(parse_int(&chars("-9223372036854775809")), None);
}

#[test]
fn rejects_non_integers() {
    assert_eq!(parse_int(&chars("")), None);
    assert_eq!(parse_int(&chars("+")), None);
    assert_eq!(parse_int(&chars("3.5")), None);
    assert_eq!(parse_int(&chars("a1")), None);
    assert_eq!(parse_int(&chars("1 ")), None);
}

#[test]
fn prints_integers() {
    assert_eq!(int_to_chars(0), chars("0"));
    assert_eq!(int_to_chars(5), chars("5"));
    assert_eq!(int_to_chars(-45), chars("-45"));
    assert_eq!(int_to_chars(i64::MAX), chars("9223372036854775807"));
    assert_eq!(int_to_chars(i64::MIN), chars("-9223372036854775808"));
}

#[test]
fn integer_print_matches_parse() {
    for n in [0i64, 1, -1, 10, 99, -100, 123456789, i64::MAX, i64::MIN] {
        assert_eq!(parse_int(&int_to_chars(n)), Some(n));
    }
}

#[test]
fn canonicalizes_floats() {
    assert_eq!(float_canonical(&chars("3.5")), Some(chars("3.5")));
    assert_eq!(float_canonical(&chars("3.50")), Some(chars("3.5")));
    assert_eq!(float_canonical(&chars(".5")), Some(chars("0.5")));
    assert_eq!(float_canonical(&chars("3.")), Some(chars("3")));
    assert_eq!(float_canonical(&chars("007.10")), Some(chars("7.1")));
    assert_eq!(float_canonical(&chars("-0.0")), Some(chars("-0")));
    assert_eq!(float_canonical(&chars("+2.5")), Some(chars("2.5")));
    assert_eq!(float_canonical(&chars("42")), Some(chars("42")));
}

#[test]
fn rejects_non_floats() {
    assert_eq!(float_canonical(&chars("")), None);
    assert_eq!(float_canonical(&chars(".")), None);
    assert_eq!(float_canonical(&chars("-")), None);
    assert_eq!(float_canonical(&chars("1e3")), None);
    assert_eq!(float_canonical(&chars("1.2.3")), None);
    assert_eq!(float_canonical(&chars("a.5")), None);
}

#[test]
fn prints_booleans() {
    assert_eq!(bool_to_chars(true), chars("true"));
    assert_eq!(bool_to_chars(false), chars("false"));
}

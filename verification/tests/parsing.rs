use std::str::FromStr;

use mandelbrot::parse::{parse_pair, split_pair, FromDecimal};
use num::Complex;

fn parse_float_pair(s: &str, separator: char) -> Option<(f64, f64)> {
    let (left, right) = split_pair(s, separator)?;
    match (f64::from_str(left), f64::from_str(right)) {
        (Ok(l), Ok(r)) => Some((l, r)),
        _ => None,
    }
}

fn parse_complex(s: &str) -> Option<Complex<f64>> {
    match parse_float_pair(s, ',') {
        Some((re, im)) => Some(Complex { re, im }),
        None => None,
    }
}

#[test]
fn test_parse_pair() {
    assert_eq!(parse_pair::<i32>("", ','), None);
    assert_eq!(parse_pair::<i32>("10,", ','), None);
    assert_eq!(parse_pair::<i32>(",10", ','), None);
    assert_eq!(parse_pair::<i32>("10,20", ','), Some((10, 20)));
    assert_eq!(parse_pair::<i32>("10,20xy", ','), None);
    assert_eq!(parse_float_pair("0.5x", 'x'), None);
    assert_eq!(parse_float_pair("0.5x1.5", 'x'), Some((0.5, 1.5)));
}

#[test]
fn test_parse_complex() {
    assert_eq!(parse_complex("1.25,-0.0625"), Some(Complex { re: 1.25, im: -0.0625 }));
    assert_eq!(parse_complex(",-0.0625"), None);
}

#[test]
fn parse_pair_reads_window_dimensions() {
    assert_eq!(parse_pair::<usize>("1000x750", 'x'), Some((1000, 750)));
    assert_eq!(parse_pair::<usize>("400x600", 'x'), Some((400, 600)));
    assert_eq!(parse_pair::<usize>("0x0", 'x'), Some((0, 0)));
    assert_eq!(parse_pair::<usize>("1000", 'x'), None);
    assert_eq!(parse_pair::<usize>("1000x", 'x'), None);
    assert_eq!(parse_pair::<usize>("x750", 'x'), None);
    assert_eq!(parse_pair::<usize>("1000x750x3", 'x'), None);
    assert_eq!(parse_pair::<usize>("1000 x750", 'x'), None);
    assert_eq!(parse_pair::<usize>("-1x5", 'x'), None);
}

#[test]
fn split_pair_cuts_at_the_first_separator() {
    assert_eq!(split_pair("", ','), None);
    assert_eq!(split_pair("abc", ','), None);
    assert_eq!(split_pair(",", ','), Some(("", "")));
    assert_eq!(split_pair("a,b", ','), Some(("a", "b")));
    assert_eq!(split_pair("a,b,c", ','), Some(("a", "b,c")));
    assert_eq!(split_pair(",,", ','), Some(("", ",")));
    assert_eq!(split_pair("10,20xy", 'x'), Some(("10,20", "y")));
}

#[test]
fn split_pair_counts_characters_not_bytes() {
    assert_eq!(split_pair("é→ü", '→'), Some(("é", "ü")));
    assert_eq!(split_pair("日本語x1", 'x'), Some(("日本語", "1")));
    assert_eq!(split_pair("1é2", 'é'), Some(("1", "2")));
}

#[test]
fn unsigned_numbers_follow_the_standard_reading() {
    let texts = [
        "", "+", "-", "0", "00", "007", "+5", "-5", "-0", "++5", "+-5", "5+", " 5", "5 ", "1_000",
        "12a", "a12", "٣", "18446744073709551615", "18446744073709551616",
        "000000000000000000000000000018446744073709551615", "99999999999999999999999999",
        "4294967295", "4294967296", "1.5", "0x10",
    ];
    for text in texts {
        assert_eq!(usize::from_decimal(text), usize::from_str(text).ok(), "{:?}", text);
    }
    assert_eq!(usize::from_decimal("18446744073709551615"), Some(usize::MAX));
    assert_eq!(usize::from_decimal("+42"), Some(42));
    assert_eq!(usize::from_decimal("18446744073709551616"), None);
}

#[test]
fn signed_numbers_follow_the_standard_reading() {
    let texts = [
        "", "+", "-", "0", "-0", "+0", "007", "-007", "+5", "-5", "--5", "+-5", "-+5", "5-", " 5",
        "-5 ", "12a", "-a", "2147483647", "2147483648", "-2147483648", "-2147483649",
        "+2147483647", "+2147483648", "00000000002147483647", "-00000000002147483648",
        "99999999999999999999", "-99999999999999999999", "1e3", "٣",
    ];
    for text in texts {
        assert_eq!(i32::from_decimal(text), i32::from_str(text).ok(), "{:?}", text);
    }
    assert_eq!(i32::from_decimal("2147483647"), Some(i32::MAX));
    assert_eq!(i32::from_decimal("-2147483648"), Some(i32::MIN));
    assert_eq!(i32::from_decimal("2147483648"), None);
    assert_eq!(i32::from_decimal("-2147483649"), None);
    assert_eq!(i32::from_decimal("-17"), Some(-17));
}

#[test]
fn parse_pair_takes_signs_where_the_type_has_them() {
    assert_eq!(parse_pair::<i32>("-10,+20", ','), Some((-10, 20)));
    assert_eq!(parse_pair::<i32>("-10--20", '-'), None);
    assert_eq!(parse_pair::<i32>("10-20", '-'), Some((10, 20)));
    assert_eq!(parse_pair::<i32>("10--20", '-'), Some((10, -20)));
    assert_eq!(parse_pair::<usize>("+10,+20", ','), Some((10, 20)));
    assert_eq!(parse_pair::<usize>("10,-20", ','), None);
}

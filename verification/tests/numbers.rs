use std::num::IntErrorKind;
use xdcc_search::decimal::{scale, DecimalError};
use xdcc_search::integer::{parse, IntegerError};
use xdcc_search::text::{
    ascii_lower, chars_of, is_digit, join, is_space, reads_as, same_text, scan_run,
    scan_run_back, slice, trim, CharClass,
};

fn chars(text: &str) -> Vec<char> {
    text.chars().collect()
}

fn text(chars: Vec<char>) -> String {
    chars.into_iter().collect()
}

#[test]
fn should_parse_integers() {
    assert_eq!(parse(&chars("0")), Ok(0));
    assert_eq!(parse(&chars("42")), Ok(42));
    assert_eq!(parse(&chars("+42")), Ok(42));
    assert_eq!(parse(&chars("0000000000000000000000042")), Ok(42));
    assert_eq!(parse(&chars("18446744073709551615")), Ok(u64::MAX));
}

#[test]
fn shouldnt_parse_what_is_no_integer() {
    assert_eq!(parse(&chars("")), Err(IntegerError::Empty));
    assert_eq!(parse(&chars("+")), Err(IntegerError::InvalidDigit));
    assert_eq!(parse(&chars("-")), Err(IntegerError::InvalidDigit));
    assert_eq!(parse(&chars("-1")), Err(IntegerError::InvalidDigit));
    assert_eq!(parse(&chars("++1")), Err(IntegerError::InvalidDigit));
    assert_eq!(parse(&chars("1+")), Err(IntegerError::InvalidDigit));
    assert_eq!(parse(&chars("12a")), Err(IntegerError::InvalidDigit));
    assert_eq!(parse(&chars("18446744073709551616")), Err(IntegerError::Overflow));
    assert_eq!(parse(&chars("184467440737095516150")), Err(IntegerError::Overflow));
}

#[test]
fn should_parse_integers_as_the_standard_library_does() {
    let samples = [
        "", "0", "7", "+7", "-7", "+", "-", "++7", "+-7", "7+", "007", " 7", "7 ", "7_000", "0x7",
        "1e3", "1.0", "18446744073709551615", "18446744073709551616", "+18446744073709551615",
        "00000000000000000000018446744073709551615", "99999999999999999999a",
        "9999999999999999999a", "a99999999999999999999", "99999999999999999999999999",
        "\u{663}", "1\u{663}", "٣٣",
    ];
    for sample in samples {
        let expected = match sample.parse::<u64>() {
            Ok(n) => Ok(n),
            Err(error) => Err(match error.kind() {
                IntErrorKind::Empty => IntegerError::Empty,
                IntErrorKind::InvalidDigit => IntegerError::InvalidDigit,
                IntErrorKind::PosOverflow => IntegerError::Overflow,
                other => panic!("unexpected kind {other:?} for {sample:?}"),
            }),
        };
        assert_eq!(parse(&chars(sample)), expected, "for {sample:?}");
    }
}

#[test]
fn should_scale_decimal_numbers() {
    assert_eq!(scale(&chars("1.2"), 1048576), Ok(1258291));
    assert_eq!(scale(&chars("114012.3"), 1024), Ok(116748595));
    assert_eq!(scale(&chars("0.5"), 1), Ok(0));
    assert_eq!(scale(&chars("0.5"), 2), Ok(1));
    assert_eq!(scale(&chars("0.5"), 3), Ok(1));
    assert_eq!(scale(&chars("0.33333333333333333333333333333333333"), 3), Ok(0));
    assert_eq!(scale(&chars("0.33333333333333333333333333333333334"), 3), Ok(1));
    assert_eq!(scale(&chars("123456789"), 0), Ok(0));
    assert_eq!(scale(&chars("1"), u64::MAX), Ok(u64::MAX));
    assert_eq!(scale(&chars("0.5"), u64::MAX), Ok(u64::MAX / 2));
    assert_eq!(scale(&chars("1.000000000000000000001"), u64::MAX), Ok(u64::MAX));
    assert_eq!(scale(&chars("2"), u64::MAX), Ok(u64::MAX));
    assert_eq!(scale(&chars("0.00000000000000000001"), u64::MAX), Ok(0));
    assert_eq!(scale(&chars("0.0000000000000000001"), u64::MAX), Ok(1));
    assert_eq!(scale(&chars("000000000000000000000000000001.5"), 2), Ok(3));
    assert_eq!(scale(&chars("12345678901234567890"), 1), Ok(12345678901234567890));
    assert_eq!(scale(&chars("9007199254740993"), 1), Ok(9007199254740993));
}

#[test]
fn should_scale_numbers_with_exponents() {
    assert_eq!(scale(&chars("1e0"), 7), Ok(7));
    assert_eq!(scale(&chars("1e19"), 1), Ok(10_000_000_000_000_000_000));
    assert_eq!(scale(&chars("1e20"), 1), Ok(u64::MAX));
    assert_eq!(scale(&chars("1.8446744073709551615e19"), 1), Ok(u64::MAX));
    assert_eq!(scale(&chars("1.8446744073709551614e19"), 1), Ok(u64::MAX - 1));
    assert_eq!(scale(&chars("0.000000000000000000001e21"), 5), Ok(5));
    assert_eq!(scale(&chars("123456e-3"), 1), Ok(123));
    assert_eq!(scale(&chars("123456E-6"), 100), Ok(12));
    assert_eq!(scale(&chars("123456e-7"), 100), Ok(1));
    assert_eq!(scale(&chars("123456e-30"), u64::MAX), Ok(0));
    assert_eq!(scale(&chars("5e-1"), 2), Ok(1));
    assert_eq!(scale(&chars("5.e1"), 2), Ok(100));
    assert_eq!(scale(&chars(".5e1"), 2), Ok(10));
    assert_eq!(scale(&chars("0e36893488147419103233"), 9), Ok(0));
    assert_eq!(scale(&chars("1e36893488147419103233"), 9), Ok(u64::MAX));
    assert_eq!(scale(&chars("1e-36893488147419103233"), 9), Ok(0));
    assert_eq!(scale(&chars("1e00000000000000000000000000000000000001"), 9), Ok(90));
}

#[test]
fn should_scale_signs_and_words() {
    assert_eq!(scale(&chars("+1.5"), 2), Ok(3));
    assert_eq!(scale(&chars("-1.5"), 2), Ok(0));
    assert_eq!(scale(&chars("-0"), 2), Ok(0));
    assert_eq!(scale(&chars("nan"), 2), Ok(0));
    assert_eq!(scale(&chars("NaN"), 2), Ok(0));
    assert_eq!(scale(&chars("-nan"), 2), Ok(0));
    assert_eq!(scale(&chars("inf"), 2), Ok(u64::MAX));
    assert_eq!(scale(&chars("+INF"), 2), Ok(u64::MAX));
    assert_eq!(scale(&chars("-inf"), 2), Ok(0));
    assert_eq!(scale(&chars("infinity"), 0), Ok(u64::MAX));
    assert_eq!(scale(&chars("-Infinity"), 2), Ok(0));
}

#[test]
fn shouldnt_scale_what_is_no_number() {
    assert_eq!(scale(&chars(""), 1), Err(DecimalError::Empty));
    let samples = [
        "+", "-", ".", "+.", "e", "e1", ".e1", "1e", "1e+", "1e-", "1e1.5", "1.2.3", "1,5", " 1",
        "1 ", "1_0", "0x10", "in", "infinit", "infinityy", "nann", "na", "--1", "+-1", "1e--1",
        "ı", "1\u{663}", "\u{ff11}", "i\u{307}nf",
    ];
    for sample in samples {
        assert_eq!(scale(&chars(sample), 1), Err(DecimalError::Invalid), "for {sample:?}");
    }
}

#[test]
fn should_accept_the_numbers_that_the_standard_library_accepts() {
    let samples = [
        "", "0", "1", "1.", ".1", ".", "1.5", "+1.5", "-1.5", "1e5", "1E5", "1e+5", "1e-5", "1e",
        "e5", "1.e5", ".e5", ".5e5", "inf", "INF", "Inf", "iNf", "infinity", "INFINITY", "nan",
        "NAN", "NaN", "+nan", "-inf", "+infinity", "infinit", "in", "1_0", " 1", "1 ", "0x1",
        "1f", "1.5f64", "++1", "1e1e1", "1..2", "12345678901234567890", "0.1e-2", "−1",
    ];
    for sample in samples {
        let ours = scale(&chars(sample), 1);
        match sample.parse::<f64>() {
            Ok(float) if float.abs() < 9e15 || !float.is_finite() => {
                assert_eq!(ours, Ok(float as u64), "for {sample:?}")
            }
            Ok(_) => assert!(ours.is_ok(), "for {sample:?}"),
            Err(error) => {
                let expected = if error == "".parse::<f64>().unwrap_err() {
                    DecimalError::Empty
                } else {
                    DecimalError::Invalid
                };
                assert_eq!(ours, Err(expected), "for {sample:?}");
            }
        }
    }
}

#[test]
fn should_scale_with_exponents_at_the_limit() {
    assert_eq!(scale(&chars("1e36893488147419103231"), 1), Ok(u64::MAX));
    assert_eq!(scale(&chars("1e36893488147419103232"), 1), Ok(u64::MAX));
    assert_eq!(scale(&chars("1e99999999999999999999999"), 1), Ok(u64::MAX));
    assert_eq!(scale(&chars("0.0e99999999999999999999999"), 1), Ok(0));
    assert_eq!(scale(&chars("1e-36893488147419103231"), u64::MAX), Ok(0));
    assert_eq!(scale(&chars("1e-99999999999999999999999"), u64::MAX), Ok(0));
    assert_eq!(scale(&chars("1e1x"), 1), Err(DecimalError::Invalid));
}

#[test]
fn should_scale_around_the_point() {
    assert_eq!(scale(&chars("1.2"), 1048576), Ok(1258291));
    assert_eq!(scale(&chars("12"), 3), Ok(36));
    assert_eq!(scale(&chars("12e2"), 3), Ok(3600));
    assert_eq!(scale(&chars("12e-2"), 100), Ok(12));
    assert_eq!(scale(&chars("12e-3"), 100), Ok(1));
    assert_eq!(scale(&chars("12e-4"), 100), Ok(0));
    assert_eq!(scale(&chars("12e-19"), u64::MAX), Ok(22));
    assert_eq!(scale(&chars("12e-20"), u64::MAX), Ok(2));
    assert_eq!(scale(&chars("12e-21"), u64::MAX), Ok(0));
    assert_eq!(scale(&chars("1e19"), 1), Ok(10_000_000_000_000_000_000));
    assert_eq!(scale(&chars("2e19"), 1), Ok(u64::MAX));
    assert_eq!(scale(&chars("0.00000000000000000001e39"), 1), Ok(10_000_000_000_000_000_000));
}

#[test]
fn should_tell_characters_apart() {
    assert!(is_digit('0') && is_digit('9'));
    assert!(!is_digit('/') && !is_digit(':') && !is_digit('\u{663}'));
    for c in ['\t', '\n', '\u{b}', '\u{c}', '\r', ' ', '\u{85}', '\u{a0}', '\u{1680}'] {
        assert!(is_space(c));
    }
    for code in 0..0x11_0000u32 {
        if let Some(c) = char::from_u32(code) {
            assert_eq!(is_space(c), c.is_whitespace(), "for {code:#x}");
            assert_eq!(ascii_lower(c), c.to_ascii_lowercase(), "for {code:#x}");
            assert_eq!(is_digit(c), c.is_ascii_digit(), "for {code:#x}");
            assert_eq!(CharClass::Numeric.holds(c), c.is_ascii_digit() || c == '.');
        }
    }
}

#[test]
fn should_find_runs_and_trim() {
    let v = chars("  12.5kB/s \u{3000}");
    assert_eq!(scan_run(&v, 0, CharClass::Space), 2);
    assert_eq!(scan_run(&v, 2, CharClass::Digit), 4);
    assert_eq!(scan_run(&v, 2, CharClass::Numeric), 6);
    assert_eq!(scan_run(&v, 6, CharClass::Numeric), 6);
    assert_eq!(scan_run(&v, v.len(), CharClass::Space), v.len());
    assert_eq!(scan_run_back(&v, v.len(), CharClass::Space), 10);
    assert_eq!(scan_run_back(&v, 6, CharClass::Numeric), 2);
    assert_eq!(scan_run_back(&v, 0, CharClass::Space), 0);
    assert_eq!(text(trim(&v)), "12.5kB/s");
    assert_eq!(text(trim(&chars(" \t\n "))), "");
    assert_eq!(text(trim(&chars(""))), "");
    assert_eq!(text(trim(&chars("a b"))), "a b");
    for sample in ["", " ", " a ", "\u{a0}a\u{2003}b\u{3000}", "\u{feff}a", "\u{200b}a "] {
        assert_eq!(text(trim(&chars(sample))), sample.trim());
    }
}

#[test]
fn should_copy_and_compare_texts() {
    assert_eq!(chars_of("a\u{e9}\u{1f600}b"), chars("a\u{e9}\u{1f600}b"));
    assert_eq!(chars_of(""), chars(""));
    assert_eq!(slice(&chars("abcdef"), 2, 4), chars("cd"));
    assert_eq!(slice(&chars("abcdef"), 3, 3), chars(""));
    assert_eq!(join(&chars("ab"), &chars("cd")), chars("abcd"));
    assert!(same_text(&chars("abc"), &chars("abc")));
    assert!(!same_text(&chars("abc"), &chars("abd")));
    assert!(!same_text(&chars("abc"), &chars("ab")));
    assert!(reads_as(&chars("NaN"), &chars("nan")));
    assert!(!reads_as(&chars("nan"), &chars("NaN")));
    assert!(!reads_as(&chars("nann"), &chars("nan")));
}

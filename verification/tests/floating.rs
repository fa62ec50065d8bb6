//! The decoders read numbers exactly. A reading through `f64` rounds the
//! number to 53 bits first, so the two agree wherever that rounding cannot
//! reach the whole part of the product, and never differ by more than the
//! rounding does. These tests hold the decoders against such a reading on
//! texts drawn from the alphabet of each field.
use std::num::{IntErrorKind, ParseFloatError, ParseIntError};
use xdcc_search::decimal::DecimalError;
use xdcc_search::integer::IntegerError;
use xdcc_search::sunxdcc::{
    decode_downloads, decode_filesize, decode_packnum, decode_speed, DecodingError,
};

#[derive(Debug, PartialEq)]
enum Fault {
    Format,
    Float(DecimalError),
    Int(IntegerError),
}

fn fault_of(error: DecodingError) -> Fault {
    match error {
        DecodingError::InvalidFormat { .. } => Fault::Format,
        DecodingError::InvalidFloat { error, .. } => Fault::Float(error),
        DecodingError::InvalidInt { error, .. } => Fault::Int(error),
    }
}

fn float_fault(error: ParseFloatError) -> Fault {
    if error == "".parse::<f64>().unwrap_err() {
        Fault::Float(DecimalError::Empty)
    } else {
        Fault::Float(DecimalError::Invalid)
    }
}

fn int_fault(error: ParseIntError) -> Fault {
    match error.kind() {
        IntErrorKind::Empty => Fault::Int(IntegerError::Empty),
        IntErrorKind::InvalidDigit => Fault::Int(IntegerError::InvalidDigit),
        IntErrorKind::PosOverflow => Fault::Int(IntegerError::Overflow),
        other => panic!("an unsigned number cannot give {other:?}"),
    }
}

fn power_of_letter(letter: char) -> Option<i32> {
    match letter.to_ascii_lowercase() {
        '0'..='9' => Some(0),
        'k' => Some(1),
        'm' => Some(2),
        'g' => Some(3),
        't' => Some(4),
        'p' => Some(5),
        _ => None,
    }
}

fn floating_filesize(text: &str) -> Result<f64, Fault> {
    let inner = text
        .strip_prefix('[')
        .and_then(|rest| rest.strip_suffix(']'))
        .ok_or(Fault::Format)?;
    let last = inner.chars().last().ok_or(Fault::Format)?;
    let power = power_of_letter(last).ok_or(Fault::Format)?;
    let number = if last.is_ascii_digit() {
        inner
    } else {
        &inner[..inner.len() - 1]
    };
    let number: f64 = number.trim().parse().map_err(float_fault)?;
    Ok(number * 1024f64.powi(power))
}

fn floating_speed(text: &str) -> Result<f64, Fault> {
    let count = text
        .chars()
        .take_while(|c| c.is_numeric() || *c == '.')
        .count();
    let (number, unit) = text.split_at_checked(count).ok_or(Fault::Format)?;
    let power = ["B/s", "kB/s", "MB/s", "GB/s", "TB/s", "PB/s"]
        .iter()
        .position(|known| *known == unit)
        .ok_or(Fault::Format)?;
    let number: f64 = number.parse().map_err(float_fault)?;
    Ok(number * 1024f64.powi(power as i32))
}

fn std_downloads(text: &str) -> Result<u64, Fault> {
    let number = text.strip_suffix('x').ok_or(Fault::Format)?;
    number.parse().map_err(int_fault)
}

fn std_packnum(text: &str) -> Result<u64, Fault> {
    let number = text.strip_prefix('#').ok_or(Fault::Format)?;
    number.parse().map_err(int_fault)
}

/// Below a thousand million the rounding never reaches the whole part of
/// the texts that are drawn here; above it the two may differ by what
/// the rounding of the number amounts to in the product.
fn assert_agree(exact: Result<u64, DecodingError>, floating: Result<f64, Fault>, text: &str) {
    match (exact.map_err(fault_of), floating) {
        (Ok(exact), Ok(product)) => {
            let rounded = product as u64;
            if !product.is_finite() || product.abs() < 1e9 {
                assert_eq!(exact, rounded, "for {text:?}");
            } else {
                let apart = exact.abs_diff(rounded) as f64;
                assert!(apart <= product.abs() * 1e-15 + 1.0, "for {text:?}");
            }
        }
        (Err(exact), Err(floating)) => assert_eq!(exact, floating, "for {text:?}"),
        (exact, floating) => panic!("for {text:?}: {exact:?}, but {floating:?}"),
    }
}

struct Draw(u64);

impl Draw {
    fn next(&mut self) -> u64 {
        self.0 ^= self.0 << 13;
        self.0 ^= self.0 >> 7;
        self.0 ^= self.0 << 17;
        self.0
    }

    fn text(&mut self, pool: &[&str], longest: u64) -> String {
        let mut text = String::new();
        for _ in 0..self.next() % (longest + 1) {
            text.push_str(pool[(self.next() % pool.len() as u64) as usize]);
        }
        text
    }
}

#[test]
fn should_decode_filesize_as_a_floating_point_reading_does() {
    let pool = [
        "[", "]", "0", "1", "2", "5", "9", "00", "99999", ".", "k", "M", "g", "T", "p", "R", "x",
        "e", "E", "+", "-", " ", "\t", "\u{a0}", "\u{3000}", "\u{663}", "\u{b2}", "\u{212a}",
        "inf", "nan", "infinity",
    ];
    let mut draw = Draw(0x9e37_79b9_7f4a_7c15);
    for round in 0..200_000u32 {
        let mut text = draw.text(&pool, 6);
        if round % 4 != 0 {
            text.insert(0, '[');
        }
        if round % 5 != 0 {
            text.push(']');
        }
        assert_agree(decode_filesize(text.clone()), floating_filesize(&text), &text);
    }
}

#[test]
fn should_decode_speed_as_a_floating_point_reading_does() {
    let pool = [
        "0", "1", "2", "5", "9", "99999", ".", "k", "M", "G", "T", "P", "B", "/", "s", "B/s",
        "kB/s", "MB/s", "e", "+", "-", " ", "\u{a0}", "\u{663}", "\u{b2}", "\u{bd}", "inf",
    ];
    let units = ["B/s", "kB/s", "MB/s", "GB/s", "TB/s", "PB/s"];
    let mut draw = Draw(0x1234_5678_8765_4321);
    for round in 0..200_000u32 {
        let mut text = draw.text(&pool, 5);
        if round % 3 != 0 {
            text.push_str(&draw.text(&units, 0));
            text.push_str(units[(draw.next() % 6) as usize]);
        }
        assert_agree(decode_speed(text.clone()), floating_speed(&text), &text);
    }
}

#[test]
fn should_decode_whole_numbers_as_the_standard_library_does() {
    let pool = [
        "0", "1", "2", "5", "9", "0000000", "99999999", "18446744073709551615",
        "18446744073709551616", ".", "x", "#", "a", " ", "+", "-", "\u{663}",
    ];
    let mut draw = Draw(0xdead_beef_cafe_f00d);
    for _ in 0..100_000u32 {
        let text = draw.text(&pool, 5);
        for text in [format!("{text}x"), format!("#{text}"), text] {
            let downloads = decode_downloads(text.clone()).map_err(fault_of);
            assert_eq!(downloads, std_downloads(&text), "for {text:?}");
            let packnum = decode_packnum(text.clone()).map_err(fault_of);
            assert_eq!(packnum, std_packnum(&text), "for {text:?}");
        }
    }
}

#[test]
fn should_differ_from_floating_point_only_in_the_last_place() {
    let text = "[2.199999p]";
    assert_eq!(decode_filesize(text.into()).unwrap(), 2476978669153865);
    assert_eq!(floating_filesize(text).unwrap() as u64, 2476978669153866);
    let text = "[9007199254740993]";
    assert_eq!(decode_filesize(text.into()).unwrap(), 9007199254740993);
    assert_eq!(floating_filesize(text).unwrap() as u64, 9007199254740992);
}

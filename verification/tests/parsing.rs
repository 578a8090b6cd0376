use mpint::memory::{AllocError, BoundedWords, WordArray, WordVec};
use mpint::string::{digit_value, limb_capacity, parse_digits, parse_unsigned_radix, ParseIntError};
use mpint::uint::UnsignedInteger;

const MAX: u64 = u64::MAX;

fn parse(s: &str, radix: u32) -> Result<Vec<u64>, ParseIntError<AllocError>> {
    let n: UnsignedInteger<WordVec> = parse_unsigned_radix(s, radix)?;
    Ok(n.words().iter().map(|w| w.0).collect())
}

#[test]
fn parse_zero_gives_zero() {
    let n: UnsignedInteger<WordVec> = parse_unsigned_radix("0", 10).unwrap();
    assert!(n.is_zero());
    assert_eq!(n.words().len(), 0);
}

#[test]
fn parse_one_gives_one() {
    let n: UnsignedInteger<WordVec> = parse_unsigned_radix("1", 10).unwrap();
    assert!(n.is_one());
}

#[test]
fn parse_decimal_numbers() {
    assert_eq!(parse("7", 10).unwrap(), vec![7]);
    assert_eq!(parse("12345", 10).unwrap(), vec![12345]);
    assert_eq!(parse("18446744073709551615", 10).unwrap(), vec![MAX]);
    assert_eq!(parse("18446744073709551616", 10).unwrap(), vec![0, 1]);
    assert_eq!(parse("340282366920938463463374607431768211455", 10).unwrap(), vec![MAX, MAX]);
    assert_eq!(parse("340282366920938463463374607431768211456", 10).unwrap(), vec![0, 0, 1]);
}

#[test]
fn parse_skips_leading_zeros() {
    assert_eq!(parse("000", 10).unwrap(), Vec::<u64>::new());
    assert_eq!(parse("007", 10).unwrap(), vec![7]);
    assert_eq!(parse("0000000000000000000000000000000000001", 16).unwrap(), vec![1]);
}

#[test]
fn parse_accepts_one_plus_sign() {
    assert_eq!(parse("+42", 10).unwrap(), vec![42]);
    assert_eq!(parse("+0", 10).unwrap(), Vec::<u64>::new());
}

#[test]
fn parse_rejects_second_sign() {
    assert!(matches!(
        parse("++1", 10),
        Err(ParseIntError::InvalidDigit { digit: '+', radix: 10 })
    ));
    assert!(matches!(
        parse("+-1", 10),
        Err(ParseIntError::InvalidDigit { digit: '-', radix: 10 })
    ));
}

#[test]
fn parse_other_radixes() {
    assert_eq!(parse("101", 2).unwrap(), vec![5]);
    assert_eq!(parse("777", 8).unwrap(), vec![511]);
    assert_eq!(parse("ff", 16).unwrap(), vec![255]);
    assert_eq!(parse("FF", 16).unwrap(), vec![255]);
    assert_eq!(parse("zz", 36).unwrap(), vec![1295]);
    assert_eq!(parse("Zz", 36).unwrap(), vec![1295]);
    assert_eq!(parse("ffffffffffffffff", 16).unwrap(), vec![MAX]);
    assert_eq!(parse("10000000000000000", 16).unwrap(), vec![0, 1]);
    assert_eq!(parse("123456789abcdef0fedcba9876543210", 16).unwrap(), vec![
        0xfedcba9876543210,
        0x123456789abcdef0
    ]);
}

#[test]
fn parse_binary_fills_limbs_exactly() {
    let ones = "1".repeat(128);
    assert_eq!(parse(&ones, 2).unwrap(), vec![MAX, MAX]);
    let next = format!("1{}", "0".repeat(128));
    assert_eq!(parse(&next, 2).unwrap(), vec![0, 0, 1]);
}

#[test]
fn parse_rejects_minus_sign() {
    assert!(matches!(parse("-5", 10), Err(ParseIntError::ForbiddenNegative)));
    assert!(matches!(parse("-", 10), Err(ParseIntError::ForbiddenNegative)));
    assert!(matches!(parse("-x", 10), Err(ParseIntError::ForbiddenNegative)));
}

#[test]
fn parse_rejects_empty_string() {
    assert!(matches!(parse("", 10), Err(ParseIntError::EmptyString)));
    assert!(matches!(parse("+", 10), Err(ParseIntError::EmptyString)));
}

#[test]
fn parse_rejects_invalid_digit() {
    assert!(matches!(
        parse("1g", 16),
        Err(ParseIntError::InvalidDigit { digit: 'g', radix: 16 })
    ));
    assert!(matches!(parse("12", 2), Err(ParseIntError::InvalidDigit { digit: '2', radix: 2 })));
    assert!(matches!(parse("9a", 10), Err(ParseIntError::InvalidDigit { digit: 'a', radix: 10 })));
    assert!(matches!(parse("1 2", 10), Err(ParseIntError::InvalidDigit { digit: ' ', radix: 10 })));
    assert!(matches!(
        parse("1_000", 10),
        Err(ParseIntError::InvalidDigit { digit: '_', radix: 10 })
    ));
}

#[test]
fn parse_reports_first_invalid_digit() {
    assert!(matches!(
        parse("12x4y", 10),
        Err(ParseIntError::InvalidDigit { digit: 'x', radix: 10 })
    ));
}

#[test]
fn parse_rejects_characters_outside_ascii() {
    assert!(matches!(
        parse("1\u{e9}", 10),
        Err(ParseIntError::InvalidDigit { digit: '\u{e9}', radix: 10 })
    ));
    assert!(matches!(
        parse("+\u{663}", 10),
        Err(ParseIntError::InvalidDigit { digit: '\u{663}', radix: 10 })
    ));
}

#[test]
fn parse_reports_storage_failure() {
    let long = "f".repeat(33);
    let r: Result<UnsignedInteger<BoundedWords<2>>, _> = parse_unsigned_radix(&long, 16);
    assert!(matches!(r, Err(ParseIntError::AllocFailed { cause: AllocError::AllocFailed })));
    let short = "f".repeat(32);
    let n: UnsignedInteger<BoundedWords<2>> = parse_unsigned_radix(&short, 16).unwrap();
    assert_eq!(n.words().len(), 2);
}

#[test]
fn parse_result_fits_planned_capacity() {
    let cases: [(&str, u32); 6] = [
        ("ffffffffffffffff", 16),
        ("18446744073709551616", 10),
        ("zzzzzzzzzzzzzzzzzzzzzzzzzzzzzzzz", 36),
        ("1111111111111111111111111111111111111111111111111111111111111111", 2),
        ("0", 7),
        ("+999999999999999999999999999999", 10),
    ];
    for (s, radix) in cases {
        let digits = s.strip_prefix('+').unwrap_or(s);
        let planned = limb_capacity(digits.len(), radix).unwrap();
        let n: UnsignedInteger<WordVec> = parse_unsigned_radix(s, radix).unwrap();
        assert!(n.words().len() <= planned);
        assert!(n.as_word_array().capacity() >= planned);
    }
}

#[test]
fn from_str_radix_parses() {
    let n = UnsignedInteger::<WordVec>::from_str_radix("+ff", 16).unwrap();
    assert_eq!(n.words()[0].0, 255);
    assert!(matches!(
        UnsignedInteger::<WordVec>::from_str_radix("-1", 10),
        Err(ParseIntError::ForbiddenNegative)
    ));
}

#[test]
fn parse_digits_uses_given_storage() {
    let words = WordVec::with_capacity(1).unwrap();
    let n = parse_digits(words, "255", 10).unwrap();
    assert_eq!(n.words()[0].0, 255);
    let words = WordVec::with_capacity(1).unwrap();
    assert!(matches!(
        parse_digits(words, "2 5", 10),
        Err(ParseIntError::InvalidDigit { digit: ' ', radix: 10 })
    ));
}

#[test]
fn parse_digits_of_nothing_is_zero() {
    let n = parse_digits(WordVec::empty(), "", 10).unwrap();
    assert!(n.is_zero());
}

#[test]
fn digit_values() {
    assert_eq!(digit_value('0'), Some(0));
    assert_eq!(digit_value('9'), Some(9));
    assert_eq!(digit_value('a'), Some(10));
    assert_eq!(digit_value('A'), Some(10));
    assert_eq!(digit_value('f'), Some(15));
    assert_eq!(digit_value('g'), Some(16));
    assert_eq!(digit_value('z'), Some(35));
    assert_eq!(digit_value('Z'), Some(35));
    assert_eq!(digit_value('/'), None);
    assert_eq!(digit_value(':'), None);
    assert_eq!(digit_value('@'), None);
    assert_eq!(digit_value('['), None);
    assert_eq!(digit_value('`'), None);
    assert_eq!(digit_value('{'), None);
    assert_eq!(digit_value('-'), None);
    assert_eq!(digit_value('\u{e9}'), None);
}

#[test]
fn limb_capacity_rounds_bits_up_to_limbs() {
    assert_eq!(limb_capacity(0, 10), Some(0));
    assert_eq!(limb_capacity(1, 10), Some(1));
    assert_eq!(limb_capacity(16, 10), Some(1));
    assert_eq!(limb_capacity(17, 10), Some(2));
    assert_eq!(limb_capacity(64, 2), Some(1));
    assert_eq!(limb_capacity(65, 2), Some(2));
    assert_eq!(limb_capacity(16, 16), Some(1));
    assert_eq!(limb_capacity(17, 16), Some(2));
    assert_eq!(limb_capacity(32, 36), Some(3));
    assert_eq!(limb_capacity(1000, 36), Some(94));
}

#[test]
fn limb_capacity_guards_against_overflow() {
    assert_eq!(limb_capacity(usize::MAX, 2), Some(usize::MAX / 64 + 1));
    if usize::BITS == 64 {
        assert_eq!(limb_capacity(usize::MAX, 3), None);
        assert_eq!(limb_capacity(usize::MAX, 36), None);
        assert_eq!(limb_capacity(usize::MAX / 6 + 1, 36), None);
        assert_eq!(limb_capacity(usize::MAX / 6, 36), Some((usize::MAX / 6 * 6) / 64 + 1));
    }
}

#[test]
fn storage_error_becomes_parse_error() {
    let e: ParseIntError<AllocError> = AllocError::AllocFailed.into();
    assert!(matches!(e, ParseIntError::AllocFailed { cause: AllocError::AllocFailed }));
    let e = ParseIntError::from(AllocError::CapacityOverflow);
    assert!(matches!(e, ParseIntError::AllocFailed { cause: AllocError::CapacityOverflow }));
}

fn to_limbs(mut v: u128) -> Vec<u64> {
    let mut limbs = Vec::new();
    while v > 0 {
        limbs.push(v as u64);
        v >>= 64;
    }
    limbs
}

fn in_radix(mut v: u128, radix: u32) -> String {
    let mut digits = Vec::new();
    loop {
        digits.push(std::char::from_digit((v % radix as u128) as u32, radix).unwrap());
        v /= radix as u128;
        if v == 0 {
            break;
        }
    }
    digits.iter().rev().collect()
}

#[test]
fn parse_agrees_with_wide_arithmetic() {
    let mut values = vec![0, 1, MAX as u128, MAX as u128 + 1, u128::MAX, 1 << 127];
    let mut state: u128 = 0x9e37_79b9_7f4a_7c15_2545_f491_4f6c_dd1d;
    for i in 0..25 {
        state = state.wrapping_mul(0x5851_f42d_4c95_7f2d_1405_7b7e_f767_814f).wrapping_add(i);
        values.push(state);
        values.push(state >> 70);
    }
    for radix in 2..=36 {
        for &v in &values {
            let text = in_radix(v, radix);
            assert_eq!(parse(&text, radix).unwrap(), to_limbs(v));
            assert_eq!(parse(&text.to_uppercase(), radix).unwrap(), to_limbs(v));
        }
    }
}

use numerals::errors::NumeralError;
use numerals::number_formatting::format_number;

#[test]
fn test_format_number_with_str() {
    assert_eq!(format_number("12345", "").unwrap(), "012_345"); // default group size = 3
    assert_eq!(format_number("12345", "4").unwrap(), "0001_2345");
    assert_eq!(format_number("1.23456", "4").unwrap(), "0001_decimal_point_2345_6000");
    assert_eq!(format_number("-1234", "").unwrap(), "negative_001_234");
}

#[test]
fn test_format_number_with_usize() {
    assert_eq!(format_number("12345", 3).unwrap(), "012_345"); // explicit usize 3
    assert_eq!(format_number("12345", 4).unwrap(), "0001_2345");
    assert_eq!(format_number("1.23456", 4).unwrap(), "0001_decimal_point_2345_6000");
    assert_eq!(format_number("-1234", 3).unwrap(), "negative_001_234");
}

#[test]
fn test_format_number_with_zero_usize_fails() {
    assert_eq!(format_number("12345", 0).unwrap_err(), NumeralError::InvalidGroupSize);
}

#[test]
fn test_format_number_with_zero_str_fails() {
    assert_eq!(format_number("12345", "0").unwrap_err(), NumeralError::InvalidGroupSize);
}

#[test]
fn test_format_number_negative_group_size_fails() {
    assert_eq!(format_number("12345", "-1").unwrap_err(), NumeralError::InvalidGroupSize);
}

#[test]
fn test_format_number_non_numeric_group_size_fails() {
    assert_eq!(format_number("12345", "three").unwrap_err(), NumeralError::InvalidGroupSize);
    assert_eq!(format_number("12345", "2.5").unwrap_err(), NumeralError::InvalidGroupSize);
}

#[test]
fn test_format_number_zero_is_group_of_zeros() {
    assert_eq!(format_number("0", 1).unwrap(), "0");
    assert_eq!(format_number("0", 3).unwrap(), "000");
    assert_eq!(format_number("0", 5).unwrap(), "00000");
}

#[test]
fn test_format_number_plus_sign_is_dropped() {
    assert_eq!(format_number("+5", "").unwrap(), format_number("5", "").unwrap());
    assert_eq!(format_number("+5", "").unwrap(), "005");
    assert!(!format_number("+5", "").unwrap().contains('+'));
}

#[test]
fn test_format_number_negative_marks_same_body() {
    let plain = format_number("1234", 3).unwrap();
    let marked = format_number("-1234", 3).unwrap();
    assert_eq!(marked, format!("negative_{}", plain));
}

#[test]
fn test_format_number_trims_whitespace() {
    assert_eq!(format_number("  12345 \t", "").unwrap(), "012_345");
}

#[test]
fn test_format_number_fraction_pads_right() {
    assert_eq!(format_number("7.1", 3).unwrap(), "007_decimal_point_100");
    assert_eq!(format_number("3.14159", 2).unwrap(), "03_decimal_point_14_15_90");
}

#[test]
fn test_format_number_empty_parts_count_as_zero() {
    assert_eq!(format_number(".5", 3).unwrap(), "000_decimal_point_500");
    assert_eq!(format_number("2.", 3).unwrap(), "002_decimal_point_000");
    assert_eq!(format_number("", 3).unwrap(), "000");
}

#[test]
fn test_format_number_round_trip_ungrouping() {
    // Strip the separators and markers, reparse, and compare against the
    // zero-padded value that was formatted.
    let out = format_number("98765", 4).unwrap();
    assert_eq!(out, "0009_8765");
    let ungrouped: String = out.chars().filter(|c| *c != '_').collect();
    assert_eq!(ungrouped, "00098765");
    assert_eq!(ungrouped.parse::<u64>().unwrap(), 98765);

    let out = format_number("-12.9", 2).unwrap();
    let body = out.strip_prefix("negative_").unwrap();
    let (int_part, frac_part) = body.split_once("_decimal_point_").unwrap();
    let int_digits: String = int_part.chars().filter(|c| *c != '_').collect();
    let frac_digits: String = frac_part.chars().filter(|c| *c != '_').collect();
    assert_eq!(int_digits, "12");
    assert_eq!(frac_digits, "90");
}

#[test]
fn test_format_number_invalid_numeral_fails() {
    assert_eq!(format_number("12a45", "").unwrap_err(), NumeralError::InvalidNumeral);
    assert_eq!(format_number("--5", "").unwrap_err(), NumeralError::InvalidNumeral);
    // One more digit than u128 can hold.
    assert_eq!(
        format_number("3402823669209384634633746074317682114550", "").unwrap_err(),
        NumeralError::InvalidNumeral
    );
}

#[test]
fn test_format_number_fraction_kept_as_written() {
    // Only the first dot splits; later characters stay in the fractional
    // part exactly as written, padded but never validated.
    assert_eq!(format_number("1.2.3", 3).unwrap(), "001_decimal_point_2.3");
}

#[test]
fn test_format_number_sign_alone_counts_as_zero() {
    assert_eq!(format_number("-", 3).unwrap(), "negative_000");
    assert_eq!(format_number("+", 3).unwrap(), "000");
}

#[test]
fn test_format_number_inner_whitespace_fails() {
    assert_eq!(format_number("- 5", 3).unwrap_err(), NumeralError::InvalidNumeral);
}

#[test]
fn test_format_number_u128_max_fits() {
    let out = format_number("340282366920938463463374607431768211455", 3).unwrap();
    assert_eq!(out, "340_282_366_920_938_463_463_374_607_431_768_211_455");
}

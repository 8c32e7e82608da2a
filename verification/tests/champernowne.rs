use numerals::errors::NumeralError;
use numerals::number_theory_functions::champernowne;

#[test]
fn test_champernowne_base10() {
    assert_eq!(
        champernowne(50, 10).unwrap(),
        "0.1234567891011121314151617181920212223242526272829303132333435363738394041424344454647484950"
    );
}

#[test]
fn test_champernowne_empty_string_defaults_to_10() {
    assert_eq!(
        champernowne(50, "").unwrap(),
        "0.1234567891011121314151617181920212223242526272829303132333435363738394041424344454647484950"
    );
}

#[test]
fn test_champernowne_base2() {
    assert_eq!(
        champernowne(50, 2).unwrap(),
        "0.110111001011101111000100110101011110011011110111110000100011001010011101001010110110101111100011001110101101111100111011111011111100000100001100010100011100100100101100110100111101000101001101010101011101100101101101110101111110000110001110010"
    );
}

#[test]
fn test_champernowne_short_expansions() {
    assert_eq!(champernowne(10, "").unwrap(), "0.12345678910");
    assert_eq!(champernowne(10, 2).unwrap(), "0.11011100101110111100010011010");
    assert_eq!(champernowne(10, "10").unwrap(), "0.12345678910");
    assert_eq!(champernowne(0, 10).unwrap(), "0.");
}

#[test]
fn test_champernowne_prefix_extension() {
    // Each cut-off extends the previous one by the next numeral.
    let shorter = champernowne(11, 10).unwrap();
    let longer = champernowne(12, 10).unwrap();
    assert!(longer.starts_with(&shorter));
    assert_eq!(&longer[shorter.len()..], "12");
}

#[test]
fn test_champernowne_base36_digits() {
    // 10 is "A" in base 36, 35 is "Z", 36 is "10".
    assert_eq!(champernowne(10, 36).unwrap(), "0.123456789A");
    let long = champernowne(36, 36).unwrap();
    assert!(long.ends_with("Z10"));
}

#[test]
fn test_champernowne_base0_fails() {
    assert_eq!(champernowne(50, 0).unwrap_err(), NumeralError::BaseOutOfRange);
}

#[test]
fn test_champernowne_base1_fails() {
    assert_eq!(champernowne(50, 1).unwrap_err(), NumeralError::BaseOutOfRange);
}

#[test]
fn test_champernowne_base37_fails() {
    assert_eq!(champernowne(50, 37).unwrap_err(), NumeralError::BaseOutOfRange);
    assert_eq!(champernowne(50, 100).unwrap_err(), NumeralError::BaseOutOfRange);
}

#[test]
fn test_champernowne_negative_base_fails() {
    assert_eq!(champernowne(50, "-2").unwrap_err(), NumeralError::InvalidBase);
}

#[test]
fn test_champernowne_float_string_fails() {
    assert_eq!(champernowne(50, "2.5").unwrap_err(), NumeralError::InvalidBase);
}

#[test]
fn test_champernowne_owned_string_base() {
    assert_eq!(
        champernowne(10, String::from("2")).unwrap(),
        "0.11011100101110111100010011010"
    );
    assert_eq!(champernowne(10, String::new()).unwrap(), "0.12345678910");
    assert_eq!(
        champernowne(10, String::from("x")).unwrap_err(),
        NumeralError::InvalidBase
    );
}

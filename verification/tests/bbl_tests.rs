use bbl_portfolios::bbl::{BBL, BBLParseError};
use std::cmp::Ordering;
use std::str::FromStr;

#[test]
fn test_to_string_works() {
    assert_eq!(BBL::new(1, 5099, 39).format(), "1050990039");
}

#[test]
fn test_from_str_raises_invalid_length_err() {
    assert_eq!(BBL::from_str("1"), Err(BBLParseError::InvalidLength));
}

#[test]
fn test_from_str_raises_parse_int_err() {
    let err = Err(BBLParseError::InvalidInt);
    assert_eq!(BBL::from_str("a234567890"), err);
    assert_eq!(BBL::from_str("1a34567890"), err);
    assert_eq!(BBL::from_str("123456789a"), err);
}

#[test]
fn test_from_str_works() {
    assert_eq!(BBL::from_str("1050990039"), Ok(BBL::new(1, 5099, 39)));
}

#[test]
fn test_ord_works() {
    let bbl = BBL::new(1, 5099, 39);
    assert!(BBL::new(2, 5099, 39) > bbl); // Boro is greater
    assert!(BBL::new(1, 5100, 39) > bbl); // Block is greater
    assert!(BBL::new(1, 5099, 40) > bbl); // Lot is greater
    assert_eq!(BBL::new(1, 5099, 39).cmp(&bbl), Ordering::Equal);
}

#[test]
fn test_format_then_parse_round_trip() {
    let cases = vec![
        BBL::new(1, 5099, 39),
        BBL::new(0, 0, 0),
        BBL::new(9, 99999, 9999),
        BBL::new(3, 7, 1),
    ];
    for bbl in cases {
        assert_eq!(BBL::parse(&bbl.format()), Ok(bbl));
    }
}

#[test]
fn test_parse_then_format_round_trip() {
    let cases = vec!["1050990039", "0000000000", "9999999999", "2003340056"];
    for s in cases {
        assert_eq!(BBL::parse(s).unwrap().format(), s);
    }
}

#[test]
fn test_parse_rejects_non_canonical_text() {
    assert_eq!(BBL::parse("1+12340039"), Err(BBLParseError::InvalidInt));
    assert_eq!(BBL::parse(" 050990039"), Err(BBLParseError::InvalidInt));
    assert_eq!(BBL::parse("10509900390"), Err(BBLParseError::InvalidLength));
    assert_eq!(BBL::parse(""), Err(BBLParseError::InvalidLength));
}

#[test]
fn test_format_pads_with_zeros() {
    assert_eq!(BBL::new(2, 1, 7).format(), "2000010007");
    assert_eq!(BBL::new(0, 0, 0).format(), "0000000000");
}

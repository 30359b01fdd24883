use rfc_index::numbers::{decimal_digits, padded_decimal, parse_u64};
use rfc_index::store::{metadata_file_number, metadata_filename};
use rfc_index::text::string_of;

fn parse(s: &str) -> Option<u64> {
    parse_u64(s)
}

#[test]
fn parse_reads_decimal_numbers() {
    assert_eq!(parse("0"), Some(0));
    assert_eq!(parse("0050"), Some(50));
    assert_eq!(parse("2071"), Some(2071));
    assert_eq!(parse("+12"), Some(12));
    assert_eq!(parse("18446744073709551615"), Some(u64::MAX));
}

#[test]
fn parse_refuses_what_is_no_number() {
    assert_eq!(parse(""), None);
    assert_eq!(parse("+"), None);
    assert_eq!(parse("-1"), None);
    assert_eq!(parse("12a"), None);
    assert_eq!(parse(" 12"), None);
    assert_eq!(parse("++1"), None);
    assert_eq!(parse("18446744073709551616"), None);
    assert_eq!(parse("99999999999999999999999"), None);
}

#[test]
fn parse_agrees_with_std() {
    for s in ["", "+", "7", "+7", "007", "1x", "x1", "18446744073709551615", "18446744073709551616", "٣"] {
        assert_eq!(parse(s), s.parse::<u64>().ok(), "input {:?}", s);
    }
}

#[test]
fn decimal_writes_numbers() {
    assert_eq!(string_of(&decimal_digits(0)), "0");
    assert_eq!(string_of(&decimal_digits(9)), "9");
    assert_eq!(string_of(&decimal_digits(10)), "10");
    assert_eq!(string_of(&decimal_digits(2071)), "2071");
    assert_eq!(string_of(&decimal_digits(u64::MAX)), "18446744073709551615");
}

#[test]
fn padded_decimal_fills_with_zeros() {
    assert_eq!(string_of(&padded_decimal(5, 4)), "0005");
    assert_eq!(string_of(&padded_decimal(50, 4)), "0050");
    assert_eq!(string_of(&padded_decimal(1234, 4)), "1234");
    assert_eq!(string_of(&padded_decimal(12345, 4)), "12345");
    assert_eq!(string_of(&padded_decimal(7, 0)), "7");
}

#[test]
fn metadata_filename_is_the_padded_number() {
    assert_eq!(metadata_filename(50), "metadata/0050.json");
    assert_eq!(metadata_filename(0), "metadata/0000.json");
    assert_eq!(metadata_filename(2071), "metadata/2071.json");
    assert_eq!(metadata_filename(123456), "metadata/123456.json");
    assert_eq!(metadata_filename(50), format!("{}/{:0>4}.json", "metadata", 50));
}

#[test]
fn file_number_is_read_before_the_first_dot() {
    assert_eq!(metadata_file_number("0050.json"), Some(50));
    assert_eq!(metadata_file_number("2071.json.bak"), Some(2071));
    assert_eq!(metadata_file_number("12"), Some(12));
    assert_eq!(metadata_file_number("tags.json"), None);
    assert_eq!(metadata_file_number(".json"), None);
    assert_eq!(metadata_file_number(""), None);
}

#[test]
fn file_number_of_a_record_file_is_its_number() {
    for n in [0u64, 1, 50, 999, 1000, 9999, 10000, 18446744073709551615] {
        let path = metadata_filename(n);
        let name = path.strip_prefix("metadata/").unwrap();
        assert_eq!(metadata_file_number(name), Some(n));
    }
}

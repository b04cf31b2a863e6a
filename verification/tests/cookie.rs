use beluga::cookie::{format_cookie, parse_id, DICT_COOKIE_NAME};
use beluga::server::{dict_id_of, RequestError};

#[test]
fn cookie_name_is_dict_id() {
    assert_eq!(DICT_COOKIE_NAME, "dict_id");
}

#[test]
fn parse_id_reads_decimal_numbers() {
    assert_eq!(parse_id("0"), Some(0));
    assert_eq!(parse_id("1"), Some(1));
    assert_eq!(parse_id("42"), Some(42));
    assert_eq!(parse_id("007"), Some(7));
    assert_eq!(parse_id("+5"), Some(5));
    assert_eq!(parse_id("+0"), Some(0));
    assert_eq!(parse_id("4294967295"), Some(u32::MAX));
    assert_eq!(parse_id("0000000000000000000004294967295"), Some(u32::MAX));
}

#[test]
fn parse_id_refuses_what_is_no_id() {
    assert_eq!(parse_id(""), None);
    assert_eq!(parse_id("+"), None);
    assert_eq!(parse_id("-"), None);
    assert_eq!(parse_id("-1"), None);
    assert_eq!(parse_id("-0"), None);
    assert_eq!(parse_id("++1"), None);
    assert_eq!(parse_id("1+"), None);
    assert_eq!(parse_id(" 1"), None);
    assert_eq!(parse_id("1 "), None);
    assert_eq!(parse_id("1_000"), None);
    assert_eq!(parse_id("0x10"), None);
    assert_eq!(parse_id("1.0"), None);
    assert_eq!(parse_id("abc"), None);
    assert_eq!(parse_id("١٢"), None);
    assert_eq!(parse_id("4294967296"), None);
    assert_eq!(parse_id("99999999999999999999999999"), None);
    assert_eq!(parse_id("18446744073709551617"), None);
}

#[test]
fn parse_id_agrees_with_the_standard_parser() {
    let samples = [
        "", "0", "1", "+1", "-1", "+", "-", "12a", "a12", "00", "+00012", "4294967295",
        "4294967296", "42949672950", "429496729", " 7", "7 ", "٣", "1e3", "１２", "+-1", "３",
        "184467440737095516160", "0000000000000000000000000000001",
    ];
    for sample in samples {
        assert_eq!(parse_id(sample), sample.parse::<u32>().ok(), "for {:?}", sample);
    }
    for n in (0..2000u32).chain([65535, 65536, 999_999_999, 1_000_000_000, u32::MAX - 1, u32::MAX]) {
        assert_eq!(parse_id(&n.to_string()), Some(n));
    }
}

#[test]
fn format_cookie_writes_the_id_in_decimal() {
    assert_eq!(format_cookie(0), "dict_id=0");
    assert_eq!(format_cookie(1), "dict_id=1");
    assert_eq!(format_cookie(9), "dict_id=9");
    assert_eq!(format_cookie(10), "dict_id=10");
    assert_eq!(format_cookie(1905), "dict_id=1905");
    assert_eq!(format_cookie(u32::MAX), "dict_id=4294967295");
}

#[test]
fn id_written_to_a_cookie_is_read_back() {
    for id in (0..3000u32).chain([99_999, 100_000, 1 << 31, u32::MAX - 1, u32::MAX]) {
        let cookie = format_cookie(id);
        assert_eq!(cookie, format!("dict_id={}", id));
        let value = &cookie["dict_id=".len()..];
        assert_eq!(parse_id(value), Some(id));
    }
}

#[test]
fn request_without_cookie_finds_nothing() {
    assert_eq!(dict_id_of(None), Err(RequestError::NotFound));
}

#[test]
fn request_with_a_cookie_that_names_no_id_is_wrong() {
    assert_eq!(dict_id_of(Some("")), Err(RequestError::BadClientInput));
    assert_eq!(dict_id_of(Some("en")), Err(RequestError::BadClientInput));
    assert_eq!(dict_id_of(Some("-3")), Err(RequestError::BadClientInput));
    assert_eq!(dict_id_of(Some("4294967296")), Err(RequestError::BadClientInput));
}

#[test]
fn request_with_a_cookie_names_its_dictionary() {
    assert_eq!(dict_id_of(Some("3")), Ok(3));
    assert_eq!(dict_id_of(Some("+3")), Ok(3));
    assert_eq!(dict_id_of(Some("0")), Ok(0));
}

use altc_gui::decimal::{decimal_string, parse_u8, push_decimal};

#[test]
fn parse_u8_reads_plain_numbers() {
    assert_eq!(parse_u8("0"), Some(0));
    assert_eq!(parse_u8("10"), Some(10));
    assert_eq!(parse_u8("12"), Some(12));
    assert_eq!(parse_u8("255"), Some(255));
}

#[test]
fn parse_u8_accepts_plus_sign_and_leading_zeros() {
    assert_eq!(parse_u8("+7"), Some(7));
    assert_eq!(parse_u8("007"), Some(7));
    assert_eq!(parse_u8("+000255"), Some(255));
}

#[test]
fn parse_u8_rejects_malformed_text() {
    assert_eq!(parse_u8(""), None);
    assert_eq!(parse_u8("+"), None);
    assert_eq!(parse_u8("-"), None);
    assert_eq!(parse_u8("-1"), None);
    assert_eq!(parse_u8("-0"), None);
    assert_eq!(parse_u8("++1"), None);
    assert_eq!(parse_u8(" 1"), None);
    assert_eq!(parse_u8("1 "), None);
    assert_eq!(parse_u8("1a"), None);
    assert_eq!(parse_u8("١٢"), None);
}

#[test]
fn parse_u8_rejects_overflow() {
    assert_eq!(parse_u8("256"), None);
    assert_eq!(parse_u8("1000"), None);
    assert_eq!(parse_u8("99999999999999999999999"), None);
}

#[test]
fn parse_u8_agrees_with_std() {
    let mut samples: Vec<String> = (0..400).map(|n: u32| n.to_string()).collect();
    for s in ["", "+", "-", "+12", "-12", "0x1", "1_0", "01", "+0", "a", "12a", "2 5", "٣", "+-1"] {
        samples.push(s.to_string());
    }
    for s in samples {
        assert_eq!(parse_u8(&s), s.parse::<u8>().ok(), "on {:?}", s);
    }
}

#[test]
fn decimal_string_writes_like_to_string() {
    assert_eq!(decimal_string(0), "0");
    assert_eq!(decimal_string(7), "7");
    assert_eq!(decimal_string(10), "10");
    assert_eq!(decimal_string(1234567890), "1234567890");
    assert_eq!(decimal_string(u64::MAX), u64::MAX.to_string());
    for n in 0..2000u64 {
        assert_eq!(decimal_string(n), n.to_string());
    }
}

#[test]
fn push_decimal_appends() {
    let mut s = String::from("line ");
    push_decimal(&mut s, 42);
    assert_eq!(s, "line 42");
}

#[test]
fn decimal_text_of_a_byte_reads_back() {
    for n in 0..=255u8 {
        assert_eq!(parse_u8(&decimal_string(n as u64)), Some(n));
    }
}

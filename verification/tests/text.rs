use liveness::text::{
    find_first, find_last, next_field, parse_decimal, parse_hex_group, parse_octet, same_text,
};

#[test]
fn finds_first_and_last() {
    assert_eq!(find_first(b"a:b:c", b':'), 1);
    assert_eq!(find_first(b"abc", b':'), 3);
    assert_eq!(find_first(b"", b':'), 0);
    assert_eq!(find_last(b"a:b:c", b':'), Some(3));
    assert_eq!(find_last(b":", b':'), Some(0));
    assert_eq!(find_last(b"abc", b':'), None);
    assert_eq!(find_last(b"", b':'), None);
}

#[test]
fn cuts_fields() {
    let (field, rest) = next_field(b"10.20", b'.');
    assert_eq!(field, b"10");
    assert_eq!(rest, Some(&b"20"[..]));
    let (field, rest) = next_field(b"20", b'.');
    assert_eq!(field, b"20");
    assert_eq!(rest, None);
    let (field, rest) = next_field(b".", b'.');
    assert_eq!(field, b"");
    assert_eq!(rest, Some(&b""[..]));
    let (field, rest) = next_field(b"", b'.');
    assert_eq!(field, b"");
    assert_eq!(rest, None);
}

#[test]
fn reads_decimal_numbers() {
    assert_eq!(parse_decimal(b"0", 65535), Some(0));
    assert_eq!(parse_decimal(b"3000", 65535), Some(3000));
    assert_eq!(parse_decimal(b"65535", 65535), Some(65535));
    assert_eq!(parse_decimal(b"65536", 65535), None);
    assert_eq!(parse_decimal(b"0000000000000000000001", 65535), Some(1));
    assert_eq!(parse_decimal(b"4294967295", u32::MAX), Some(u32::MAX));
    assert_eq!(parse_decimal(b"4294967296", u32::MAX), None);
    assert_eq!(parse_decimal(b"42949672950", u32::MAX), None);
    assert_eq!(parse_decimal(b"", 65535), None);
    assert_eq!(parse_decimal(b"12a", 65535), None);
    assert_eq!(parse_decimal(b"-1", 65535), None);
    assert_eq!(parse_decimal(b"1", 0), None);
    assert_eq!(parse_decimal(b"0", 0), Some(0));
}

#[test]
fn reads_octets() {
    assert_eq!(parse_octet(b"0"), Some(0));
    assert_eq!(parse_octet(b"7"), Some(7));
    assert_eq!(parse_octet(b"10"), Some(10));
    assert_eq!(parse_octet(b"255"), Some(255));
    assert_eq!(parse_octet(b"256"), None);
    assert_eq!(parse_octet(b"00"), None);
    assert_eq!(parse_octet(b"007"), None);
    assert_eq!(parse_octet(b"1000"), None);
    assert_eq!(parse_octet(b""), None);
    assert_eq!(parse_octet(b"1f"), None);
}

#[test]
fn reads_hex_groups() {
    assert_eq!(parse_hex_group(b"0"), Some(0));
    assert_eq!(parse_hex_group(b"f"), Some(15));
    assert_eq!(parse_hex_group(b"F"), Some(15));
    assert_eq!(parse_hex_group(b"10"), Some(16));
    assert_eq!(parse_hex_group(b"0001"), Some(1));
    assert_eq!(parse_hex_group(b"ffff"), Some(0xffff));
    assert_eq!(parse_hex_group(b"AbCd"), Some(0xabcd));
    assert_eq!(parse_hex_group(b"00000"), None);
    assert_eq!(parse_hex_group(b""), None);
    assert_eq!(parse_hex_group(b"g"), None);
    assert_eq!(parse_hex_group(b"1.2"), None);
}

#[test]
fn compares_text() {
    assert!(same_text("GET", "GET"));
    assert!(same_text("", ""));
    assert!(!same_text("GET", "GE"));
    assert!(!same_text("GET", "GEt"));
    assert!(!same_text("", "x"));
    assert!(same_text("h\u{e9}", "h\u{e9}"));
    assert!(!same_text("h\u{e9}", "h\u{e8}"));
}

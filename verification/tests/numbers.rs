use fraud_detector::numbers::{parse_ascii_u32, parse_milli_bytes, parse_milli_strict, parse_u32_bytes};

#[test]
fn u32_digits_wrap() {
    assert_eq!(parse_u32_bytes(b"42"), Some(42));
    assert_eq!(parse_u32_bytes(b""), None);
    assert_eq!(parse_u32_bytes(b"4x"), None);
    assert_eq!(parse_u32_bytes(b"4294967296"), Some(0));
    assert_eq!(parse_u32_bytes(b"4294967295"), Some(u32::MAX));
}

#[test]
fn ascii_u32_is_checked() {
    assert_eq!(parse_ascii_u32(b"5411"), Some(5411));
    assert_eq!(parse_ascii_u32(b""), Some(0));
    assert_eq!(parse_ascii_u32(b"4294967296"), None);
    assert_eq!(parse_ascii_u32(b"54a1"), None);
}

#[test]
fn decimals_to_thousandths() {
    assert_eq!(parse_milli_bytes(b"41.12"), Some(41120));
    assert_eq!(parse_milli_bytes(b"1.5"), Some(1500));
    assert_eq!(parse_milli_bytes(b"0"), Some(0));
    assert_eq!(parse_milli_bytes(b"-3.0"), Some(0));
    assert_eq!(parse_milli_bytes(b"29.2331"), Some(29233));
    assert_eq!(parse_milli_bytes(b"0.0005"), Some(1));
    assert_eq!(parse_milli_bytes(b"0.0004999"), Some(0));
    assert_eq!(parse_milli_bytes(b"5."), Some(5000));
    assert_eq!(parse_milli_bytes(b".25"), Some(250));
    assert_eq!(parse_milli_bytes(b"-"), Some(0));
    assert_eq!(parse_milli_bytes(b"99999999999"), Some(u32::MAX));
    assert_eq!(parse_milli_bytes(b""), None);
    assert_eq!(parse_milli_bytes(b"1e3"), None);
    assert_eq!(parse_milli_bytes(b"1.2.3"), None);
}

#[test]
fn strict_decimals_refuse_overflow() {
    assert_eq!(parse_milli_strict(b"41.12"), Some(41120));
    assert_eq!(parse_milli_strict(b"123456789012345678901"), None);
    assert_eq!(parse_milli_strict(b"1.12345678901234567890"), None);
    assert_eq!(parse_milli_strict(b"1.1234567890123456789"), Some(1123));
}

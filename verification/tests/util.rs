use strand_match::error::ExtractError;
use strand_match::parse_u32_hex;

#[test]
fn hexstring() {
    assert_eq!(parse_u32_hex("0x52ac0").ok(), Some(338624));
    assert_eq!(parse_u32_hex("0X52ac0").ok(), Some(338624));
    assert_eq!(parse_u32_hex("42").ok(), Some(66));
    assert_eq!(parse_u32_hex("poopoo").ok(), None);
}

#[test]
fn hex_bounds() {
    assert_eq!(parse_u32_hex("0").ok(), Some(0));
    assert_eq!(parse_u32_hex("ffffffff").ok(), Some(u32::MAX));
    assert_eq!(parse_u32_hex("0xffffffff").ok(), Some(u32::MAX));
    assert_eq!(parse_u32_hex("00000000ffffffff").ok(), Some(u32::MAX));
    // one past the 32-bit range
    assert_eq!(parse_u32_hex("100000000").ok(), None);
}

#[test]
fn hex_rejects() {
    assert_eq!(parse_u32_hex(""), Err(ExtractError::MalformedHex));
    assert_eq!(parse_u32_hex("0x"), Err(ExtractError::MalformedHex));
    assert_eq!(parse_u32_hex("0X"), Err(ExtractError::MalformedHex));
    assert_eq!(parse_u32_hex("-1"), Err(ExtractError::MalformedHex));
    assert_eq!(parse_u32_hex("+42"), Err(ExtractError::MalformedHex));
    assert_eq!(parse_u32_hex("12 34"), Err(ExtractError::MalformedHex));
    assert_eq!(parse_u32_hex("0xg"), Err(ExtractError::MalformedHex));
}

#[test]
fn hex_case_and_prefix() {
    assert_eq!(parse_u32_hex("AbCdEf").ok(), Some(0xabcdef));
    // the marker is only stripped at the very start
    assert_eq!(parse_u32_hex("0x0x1").ok(), None);
    // "0" then "x" only counts as a marker when both are present
    assert_eq!(parse_u32_hex("0a").ok(), Some(10));
}

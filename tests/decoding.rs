use can_tracetool::decode::{decode_hex_bytes, parse_identifier, timestamp_text, PayloadError};

#[test]
fn empty_payload_decodes_to_no_bytes() {
    assert_eq!(decode_hex_bytes(""), Ok(vec![]));
}

#[test]
fn single_byte_payload() {
    assert_eq!(decode_hex_bytes("00"), Ok(vec![0x00]));
}

#[test]
fn two_byte_payload_keeps_order() {
    assert_eq!(decode_hex_bytes("1A2B"), Ok(vec![0x1A, 0x2B]));
}

#[test]
fn mixed_case_payload() {
    assert_eq!(decode_hex_bytes("fF0a"), Ok(vec![0xFF, 0x0A]));
}

#[test]
fn eight_byte_payload_is_the_maximum() {
    assert_eq!(
        decode_hex_bytes("1122334455667788"),
        Ok(vec![0x11, 0x22, 0x33, 0x44, 0x55, 0x66, 0x77, 0x88])
    );
}

#[test]
fn odd_length_payload_is_rejected() {
    assert_eq!(decode_hex_bytes("1"), Err(PayloadError::OddLength));
    assert_eq!(decode_hex_bytes("123"), Err(PayloadError::OddLength));
}

#[test]
fn too_long_payload_is_rejected() {
    assert_eq!(decode_hex_bytes("112233445566778899"), Err(PayloadError::TooLong));
}

#[test]
fn non_hex_payload_is_rejected() {
    assert_eq!(decode_hex_bytes("1G"), Err(PayloadError::InvalidDigit));
    assert_eq!(decode_hex_bytes("12 4"), Err(PayloadError::InvalidDigit));
}

#[test]
fn non_ascii_payload_is_rejected() {
    assert_eq!(decode_hex_bytes("\u{e9}a"), Err(PayloadError::InvalidDigit));
}

#[test]
fn identifier_with_and_without_prefix() {
    assert_eq!(parse_identifier("123"), Some(0x123));
    assert_eq!(parse_identifier("0x123"), Some(0x123));
}

#[test]
fn identifier_limit_is_29_bits() {
    assert_eq!(parse_identifier("1FFFFFFF"), Some(0x1FFF_FFFF));
    assert_eq!(parse_identifier("0x1fffffff"), Some(0x1FFF_FFFF));
    assert_eq!(parse_identifier("20000000"), None);
    assert_eq!(parse_identifier("0x20000000"), None);
    assert_eq!(parse_identifier("FFFFFFFFFF"), None);
}

#[test]
fn identifier_edge_texts() {
    assert_eq!(parse_identifier(""), None);
    assert_eq!(parse_identifier("0x"), None);
    assert_eq!(parse_identifier("0X123"), None);
    assert_eq!(parse_identifier("0x0x1"), None);
    assert_eq!(parse_identifier("-1"), None);
    assert_eq!(parse_identifier("+1A"), Some(0x1A));
    assert_eq!(parse_identifier("00000000000000000007"), Some(7));
}

#[test]
fn timestamp_parentheses_are_optional() {
    assert_eq!(timestamp_text("(1234.5)").as_str(), "1234.5");
    assert_eq!(timestamp_text("1234.5").as_str(), "1234.5");
}

#[test]
fn timestamp_parentheses_need_not_match() {
    assert_eq!(timestamp_text("((0.25").as_str(), "0.25");
    assert_eq!(timestamp_text("0.25)()").as_str(), "0.25");
    assert_eq!(timestamp_text("()").as_str(), "");
}

use axochat::auth::encode_sha1_bytes;
use axochat::error::ClientError;
use axochat::message::validate_message;

#[test]
fn all_zero_bytes_encode_as_single_zero() {
    let bytes = [0u8; 20];
    assert_eq!(encode_sha1_bytes(&bytes), "0");
}

#[test]
fn low_nibble_first_byte_trims_leading_zero() {
    let mut bytes = [0u8; 20];
    bytes[0] = 0x0f;
    let expected = format!("f{}", "0".repeat(38));
    assert_eq!(encode_sha1_bytes(&bytes), expected);
}

#[test]
fn high_nibble_kept_when_nonzero() {
    let mut bytes = [0u8; 20];
    bytes[0] = 0x70;
    let expected = format!("70{}", "0".repeat(38));
    assert_eq!(encode_sha1_bytes(&bytes), expected);
}

#[test]
fn interior_zero_nibbles_are_kept() {
    let mut bytes = [0u8; 20];
    bytes[0] = 0x12;
    bytes[1] = 0x34;
    let expected = format!("1234{}", "0".repeat(36));
    assert_eq!(encode_sha1_bytes(&bytes), expected);
}

#[test]
fn encoder_is_deterministic() {
    let mut bytes = [0u8; 20];
    for (i, b) in bytes.iter_mut().enumerate() {
        *b = (i * 13 % 251) as u8;
    }
    assert_eq!(encode_sha1_bytes(&bytes), encode_sha1_bytes(&bytes.clone()));
}

#[test]
fn encoding_never_starts_with_zero_unless_zero() {
    let mut bytes = [0u8; 20];
    for first in [0x01u8, 0x10, 0x7f, 0x80, 0xff] {
        bytes[0] = first;
        let s = encode_sha1_bytes(&bytes);
        if s != "0" {
            assert!(!s.starts_with('0'), "encoding {s} starts with 0");
        }
    }
}

#[test]
fn empty_message_is_rejected() {
    let r = validate_message(&String::new(), 100);
    assert_eq!(r, Some(ClientError::EmptyMessage));
}

#[test]
fn message_at_max_length_is_accepted() {
    let content = "a".repeat(100);
    assert_eq!(validate_message(&content, 100), None);
}

#[test]
fn message_over_max_length_is_rejected() {
    let content = "a".repeat(101);
    assert_eq!(validate_message(&content, 100), Some(ClientError::MessageTooLong));
}

#[test]
fn first_invalid_character_is_named() {
    let content = String::from("ok\u{7}then\u{1}");
    assert_eq!(
        validate_message(&content, 100),
        Some(ClientError::InvalidCharacter('\u{7}'))
    );
}

#[test]
fn newline_and_tab_are_rejected() {
    assert_eq!(
        validate_message(&String::from("a\nb"), 100),
        Some(ClientError::InvalidCharacter('\n'))
    );
    assert_eq!(
        validate_message(&String::from("a\tb"), 100),
        Some(ClientError::InvalidCharacter('\t'))
    );
}

#[test]
fn ordinary_unicode_text_is_accepted() {
    assert_eq!(validate_message(&String::from("héllo wörld ≥≤"), 100), None);
}

#[test]
fn error_messages_describe_each_variant() {
    assert_eq!(ClientError::NotLoggedIn.message(), "not logged in");
    assert_eq!(ClientError::RateLimited.message(), "rate limited");
    assert_eq!(
        ClientError::InvalidCharacter('\n').message(),
        "message contained invalid character: `\\n`"
    );
    assert_eq!(
        ClientError::InvalidCharacter('\u{7}').message(),
        "message contained invalid character: `\\u{7}`"
    );
    assert_eq!(
        ClientError::InvalidCharacter('\u{9f}').message(),
        "message contained invalid character: `\\u{9f}`"
    );
}

#[test]
fn escaping_matches_the_standard_rendering() {
    for ch in ['\n', '\t', '\r', '\\', '\'', '"', 'a', '\u{0}', '\u{7}', '\u{9f}', '\u{1f600}'] {
        let escaped: String = ch.escape_default().collect();
        assert_eq!(
            ClientError::InvalidCharacter(ch).message(),
            format!("message contained invalid character: `{escaped}`")
        );
    }
}

use cuutruyen_drm::codec::encode_base64;
use cuutruyen_drm::error::DrmError;
use cuutruyen_drm::layout::RowBlock;
use cuutruyen_drm::layout::decode_drm;
use cuutruyen_drm::layout::decode_xor_cipher;

/// Builds the transport form of a clear descriptor: XOR with the fixed
/// key (the transform is its own inverse), then base64.
fn obfuscate(clear: &[u8]) -> Vec<u8> {
    encode_base64(&decode_xor_cipher(clear))
}

#[test]
fn descriptor_without_magic_yields_bad_magic() {
    assert_eq!(decode_drm(b"bm90YSNkcm0=").unwrap_err(), DrmError::BadMagic);
}

#[test]
fn descriptor_two_blocks_in_order() {
    let token = obfuscate(b"#v4|0-120|120-80");
    assert_eq!(String::from_utf8(token.clone()).unwrap(), "EEcATQUUAwQFTwQKCRoBAw==");
    let blocks = decode_drm(&token).unwrap();
    assert_eq!(blocks, vec![RowBlock { dy: 0, height: 120 }, RowBlock { dy: 120, height: 80 }]);
}

#[test]
fn descriptor_skips_malformed_field() {
    let token = obfuscate(b"#v4|0-50|foo-60|60-30");
    let blocks = decode_drm(&token).unwrap();
    assert_eq!(blocks, vec![RowBlock { dy: 0, height: 50 }, RowBlock { dy: 60, height: 30 }]);
}

#[test]
fn descriptor_with_embedded_newlines_decodes() {
    let mut token = obfuscate(b"#v4|0-120|120-80");
    token.insert(4, b'\n');
    token.insert(9, b'\r');
    let blocks = decode_drm(&token).unwrap();
    assert_eq!(blocks.len(), 2);
    assert_eq!(blocks[0], RowBlock { dy: 0, height: 120 });
}

#[test]
fn descriptor_with_no_blocks_is_truncated_input() {
    let token = obfuscate(b"#v4|");
    assert_eq!(decode_drm(&token).unwrap_err(), DrmError::TruncatedInput);
}

#[test]
fn descriptor_all_fields_malformed_is_truncated_input() {
    let token = obfuscate(b"#v4|a-b|x--1|");
    assert_eq!(decode_drm(&token).unwrap_err(), DrmError::TruncatedInput);
}

#[test]
fn descriptor_numeric_overflow_is_integer_parse_failure() {
    let token = obfuscate(b"#v4|99999999999-1");
    assert_eq!(decode_drm(&token).unwrap_err(), DrmError::IntegerParseFailure);
}

#[test]
fn descriptor_values_at_i32_bounds_parse() {
    let token = obfuscate(b"#v4|2147483647-0|+12-2147483647");
    let blocks = decode_drm(&token).unwrap();
    assert_eq!(
        blocks,
        vec![
            RowBlock { dy: 2147483647, height: 0 },
            RowBlock { dy: 12, height: 2147483647 },
        ]
    );
}

#[test]
fn descriptor_just_over_i32_max_fails() {
    let token = obfuscate(b"#v4|2147483648-0");
    assert_eq!(decode_drm(&token).unwrap_err(), DrmError::IntegerParseFailure);
}

#[test]
fn descriptor_with_invalid_utf8_is_malformed() {
    assert_eq!(decode_drm(b"zM7Lzg==").unwrap_err(), DrmError::MalformedEncoding);
}

#[test]
fn descriptor_with_alien_base64_byte_is_malformed() {
    assert_eq!(decode_drm(b"EE*cAT").unwrap_err(), DrmError::MalformedEncoding);
}

#[test]
fn descriptor_field_with_empty_half_is_skipped() {
    let token = obfuscate(b"#v4|5-|0-9");
    let blocks = decode_drm(&token).unwrap();
    assert_eq!(blocks, vec![RowBlock { dy: 0, height: 9 }]);
}

#[test]
fn xor_cipher_is_self_inverse_on_descriptor_text() {
    let clear = b"#v4|0-1|2-3".to_vec();
    let once = decode_xor_cipher(&clear);
    assert_ne!(once, clear);
    assert_eq!(decode_xor_cipher(&once), clear);
}

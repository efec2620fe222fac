use cuutruyen_drm::codec::decode_b64;
use cuutruyen_drm::codec::decode_base64;
use cuutruyen_drm::codec::encode_base64;
use cuutruyen_drm::codec::rotate_byte_left;
use cuutruyen_drm::codec::rotate_byte_right;
use cuutruyen_drm::codec::shift_inplace;
use cuutruyen_drm::codec::unshift_inplace;
use cuutruyen_drm::codec::xor_with_repeating_key;
use cuutruyen_drm::error::DrmError;

#[test]
fn base64_decodes_known_vector() {
    assert_eq!(decode_base64(b"aGk=").unwrap(), b"hi".to_vec());
    assert_eq!(
        decode_base64(b"aGVsbG8gd29ybGRzIQ==").unwrap(),
        b"hello worlds!".to_vec()
    );
}

#[test]
fn base64_decodes_unpadded_input() {
    assert_eq!(decode_base64(b"aGk").unwrap(), b"hi".to_vec());
    assert_eq!(decode_b64(b"aGk").unwrap(), b"hi".to_vec());
}

#[test]
fn base64_skips_embedded_whitespace() {
    assert_eq!(decode_base64(b"aG\nVs\r\tbG8g d29ybGRzIQ==").unwrap(), b"hello worlds!".to_vec());
}

#[test]
fn base64_rejects_alien_byte() {
    assert_eq!(decode_base64(b"aG*k").unwrap_err(), DrmError::MalformedEncoding);
    assert_eq!(decode_b64(b"aG*k").unwrap_err(), DrmError::MalformedEncoding);
}

#[test]
fn base64_empty_input_decodes_empty() {
    assert_eq!(decode_base64(b"").unwrap(), Vec::<u8>::new());
}

#[test]
fn base64_encodes_known_vector() {
    assert_eq!(encode_base64(b"hi"), b"aGk=".to_vec());
    assert_eq!(encode_base64(b"hello worlds!"), b"aGVsbG8gd29ybGRzIQ==".to_vec());
    assert_eq!(encode_base64(b""), Vec::<u8>::new());
}

#[test]
fn base64_round_trips_every_length_mod_three() {
    let samples: [&[u8]; 6] = [
        b"",
        b"\x00",
        b"\xff\x00",
        b"abc",
        b"\x01\x02\x03\x04",
        b"the quick brown fox jumps over the lazy dog \xde\xad\xbe\xef",
    ];
    for s in samples {
        let encoded = encode_base64(s);
        assert_eq!(decode_base64(&encoded).unwrap(), s.to_vec());
    }
}

#[test]
fn xor_with_key_is_self_inverse() {
    let key: [u8; 16] = [9, 8, 7, 6, 5, 4, 3, 2, 1, 0, 11, 12, 13, 14, 15, 16];
    let data: Vec<u8> = (0u8..=255).collect();
    let once = xor_with_repeating_key(&data, &key);
    assert_ne!(once, data);
    let twice = xor_with_repeating_key(&once, &key);
    assert_eq!(twice, data);
}

#[test]
fn xor_applies_key_bytewise() {
    let key: [u8; 16] = [1; 16];
    let out = xor_with_repeating_key(&[0x00, 0x01, 0xfe], &key);
    assert_eq!(out, vec![0x01, 0x00, 0xff]);
}

#[test]
fn rotate_right_then_left_restores_byte() {
    for b in [0u8, 1, 0x35, 0x80, 0xab, 0xff] {
        for s in 0u8..=17 {
            assert_eq!(rotate_byte_left(rotate_byte_right(b, s), s), b);
            assert_eq!(rotate_byte_right(rotate_byte_left(b, s), s), b);
        }
    }
}

#[test]
fn rotate_right_known_values() {
    assert_eq!(rotate_byte_right(0b1000_0000, 1), 0b0100_0000);
    assert_eq!(rotate_byte_right(0b0000_0001, 1), 0b1000_0000);
    assert_eq!(rotate_byte_right(0xab, 8), 0xab);
    assert_eq!(rotate_byte_right(0xab, 13), rotate_byte_right(0xab, 5));
}

#[test]
fn unshift_subtracts_with_wraparound() {
    let mut buf = vec![5u8, 0, 255, 7];
    unshift_inplace(&mut buf, 7);
    assert_eq!(buf, vec![254u8, 249, 248, 0]);
}

#[test]
fn shift_zero_is_identity() {
    let mut buf = vec![1u8, 2, 3];
    unshift_inplace(&mut buf, 0);
    assert_eq!(buf, vec![1u8, 2, 3]);
    shift_inplace(&mut buf, 0);
    assert_eq!(buf, vec![1u8, 2, 3]);
}

#[test]
fn shift_after_unshift_restores_buffer() {
    for shift in [0u8, 1, 5, 128, 255] {
        let original: Vec<u8> = (0u8..=255).collect();
        let mut buf = original.clone();
        unshift_inplace(&mut buf, shift);
        shift_inplace(&mut buf, shift);
        assert_eq!(buf, original);
    }
}

use aes_gcm::Aes256Gcm;
use aes_gcm::Nonce;
use aes_gcm::aead::Aead;
use aes_gcm::aead::KeyInit;
use cuutruyen_drm::codec::encode_base64;
use cuutruyen_drm::codec::shift_inplace;
use cuutruyen_drm::error::DrmError;
use cuutruyen_drm::keywrap::unwrap_key;
use cuutruyen_drm::keywrap::unwrap_key_with_master_internal;
use cuutruyen_drm::payload::decrypt_data_with_wrapped_key;
use cuutruyen_drm::payload::decrypt_payload;
use cuutruyen_drm::secret::get_master_key_bytes;
use cuutruyen_drm::secret::get_shift_value;

/// Encrypts `plain` under `key` and returns the raw blob the service
/// would produce: nonce followed by ciphertext-plus-tag.
fn seal(key: &[u8; 32], nonce: &[u8; 12], plain: &[u8]) -> Vec<u8> {
    let cipher = Aes256Gcm::new_from_slice(key).unwrap();
    let ct = cipher.encrypt(Nonce::from_slice(nonce), plain).unwrap();
    let mut blob = nonce.to_vec();
    blob.extend_from_slice(&ct);
    blob
}

/// Applies the transport layers to a raw blob: additive shift, then
/// base64 text.
fn to_token(mut blob: Vec<u8>) -> Vec<u8> {
    shift_inplace(&mut blob, get_shift_value());
    encode_base64(&blob)
}

fn data_key() -> [u8; 32] {
    let mut k = [0u8; 32];
    for (i, b) in k.iter_mut().enumerate() {
        *b = (7 * i + 3) as u8;
    }
    k
}

fn wrapped_key_token() -> Vec<u8> {
    let master = get_master_key_bytes();
    to_token(seal(&master, &[2u8; 12], &data_key()))
}

const URL: &str = "https://example.com/images/0042.jpg";

fn payload_token() -> Vec<u8> {
    to_token(seal(&data_key(), &[9u8; 12], URL.as_bytes()))
}

#[test]
fn composite_decrypts_wrapped_payload() {
    let url = decrypt_data_with_wrapped_key(&wrapped_key_token(), &payload_token()).unwrap();
    assert_eq!(url, URL);
}

#[test]
fn unwrap_key_recovers_data_key() {
    let key = unwrap_key(&wrapped_key_token(), get_shift_value()).unwrap();
    assert_eq!(key, data_key().to_vec());
}

#[test]
fn unwrap_key_flipped_bit_is_authentication_failure() {
    let master = get_master_key_bytes();
    let blob = seal(&master, &[2u8; 12], &data_key());
    // Flip every single bit of the ciphertext-plus-tag region in turn.
    for byte_idx in 12..blob.len() {
        for bit in 0..8 {
            let mut tampered = blob.clone();
            tampered[byte_idx] ^= 1 << bit;
            let r = unwrap_key(&to_token(tampered), get_shift_value());
            assert_eq!(r.unwrap_err(), DrmError::AuthenticationFailure);
        }
    }
}

#[test]
fn payload_flipped_bit_is_authentication_failure() {
    let blob = seal(&data_key(), &[9u8; 12], URL.as_bytes());
    for byte_idx in 12..blob.len() {
        for bit in 0..8 {
            let mut tampered = blob.clone();
            tampered[byte_idx] ^= 1 << bit;
            let r = decrypt_payload(&to_token(tampered), &data_key(), get_shift_value());
            assert_eq!(r.unwrap_err(), DrmError::AuthenticationFailure);
        }
    }
}

#[test]
fn unwrap_of_31_byte_key_is_invalid_key_material() {
    let master = get_master_key_bytes();
    let token = to_token(seal(&master, &[4u8; 12], &[0xaa; 31]));
    assert_eq!(unwrap_key(&token, get_shift_value()).unwrap_err(), DrmError::InvalidKeyMaterial);
}

#[test]
fn unwrap_of_33_byte_key_is_invalid_key_material() {
    let master = get_master_key_bytes();
    let token = to_token(seal(&master, &[4u8; 12], &[0xbb; 33]));
    assert_eq!(unwrap_key(&token, get_shift_value()).unwrap_err(), DrmError::InvalidKeyMaterial);
}

#[test]
fn truncated_wrapped_key_is_truncated_input() {
    // 27 bytes after shift removal: one short of nonce plus tag.
    let token = to_token(vec![0u8; 27]);
    assert_eq!(unwrap_key(&token, get_shift_value()).unwrap_err(), DrmError::TruncatedInput);
    assert_eq!(
        unwrap_key_with_master_internal(vec![0u8; 27]).unwrap_err(),
        DrmError::TruncatedInput
    );
}

#[test]
fn shortest_well_formed_garbage_fails_authentication() {
    // 28 bytes pass the length gate and reach the cipher, which rejects them.
    assert_eq!(
        unwrap_key_with_master_internal(vec![0u8; 28]).unwrap_err(),
        DrmError::AuthenticationFailure
    );
}

#[test]
fn short_payload_is_truncated_input() {
    // 11 bytes after shift removal: one short of the nonce alone.
    let token = to_token(vec![0u8; 11]);
    let r = decrypt_payload(&token, &data_key(), get_shift_value());
    assert_eq!(r.unwrap_err(), DrmError::TruncatedInput);
}

#[test]
fn non_utf8_plaintext_is_malformed_encoding() {
    let token = to_token(seal(&data_key(), &[9u8; 12], &[0xff, 0xfe, 0x80]));
    let r = decrypt_payload(&token, &data_key(), get_shift_value());
    assert_eq!(r.unwrap_err(), DrmError::MalformedEncoding);
}

#[test]
fn bad_base64_in_either_token_is_malformed_encoding() {
    let r = decrypt_data_with_wrapped_key(b"not*base64", &payload_token());
    assert_eq!(r.unwrap_err(), DrmError::MalformedEncoding);
    let r = decrypt_data_with_wrapped_key(&wrapped_key_token(), b"not*base64");
    assert_eq!(r.unwrap_err(), DrmError::MalformedEncoding);
}

#[test]
fn wrong_wrapped_key_fails_before_payload_is_touched() {
    // A wrapped key sealed under the data key instead of the master
    // secret cannot authenticate.
    let token = to_token(seal(&data_key(), &[2u8; 12], &data_key()));
    let r = decrypt_data_with_wrapped_key(&token, &payload_token());
    assert_eq!(r.unwrap_err(), DrmError::AuthenticationFailure);
}

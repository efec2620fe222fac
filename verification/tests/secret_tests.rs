use cuutruyen_drm::secret::get_master_key_bytes;
use cuutruyen_drm::secret::get_shift_value;
use cuutruyen_drm::secret::ror_byte;

#[test]
fn master_key_is_32_bytes_and_stable_across_calls() {
    let a = get_master_key_bytes();
    let b = get_master_key_bytes();
    assert_eq!(a.len(), 32);
    assert_eq!(a, b);
}

#[test]
fn master_key_matches_derotated_constant() {
    let expected: [u8; 32] = [
        0xc2, 0x40, 0xf1, 0xde, 0x0b, 0xc4, 0x87, 0x86, 0xce, 0x45, 0x92, 0xc6, 0xf6, 0xe4, 0x91,
        0x8d, 0xd1, 0x7d, 0x72, 0xfb, 0xde, 0x19, 0x22, 0x33, 0x06, 0xa7, 0xfe, 0xfa, 0xda, 0xa4,
        0x78, 0x19,
    ];
    assert_eq!(get_master_key_bytes(), expected);
}

#[test]
fn shift_value_is_the_compiled_in_constant() {
    assert_eq!(get_shift_value(), 5);
    assert_eq!(get_shift_value(), get_shift_value());
}

#[test]
fn ror_byte_rotates_within_eight_bits() {
    assert_eq!(ror_byte(0b0000_0001, 1), 0b1000_0000);
    assert_eq!(ror_byte(0x58, 5), 0xc2);
    assert_eq!(ror_byte(0x77, 0), 0x77);
    assert_eq!(ror_byte(0x77, 8), 0x77);
}

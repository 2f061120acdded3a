use actor_cache::compute::hash_id;
use actor_cache::routed::{u64_dec_bytes, RoutedKey};

#[test]
fn test_u64_decimal_rendering() {
    assert_eq!(u64_dec_bytes(0), b"0".to_vec());
    assert_eq!(u64_dec_bytes(7), b"7".to_vec());
    assert_eq!(u64_dec_bytes(10), b"10".to_vec());
    assert_eq!(u64_dec_bytes(90210), b"90210".to_vec());
    assert_eq!(
        u64_dec_bytes(u64::MAX),
        b"18446744073709551615".to_vec()
    );
}

#[test]
fn test_i32_render_matches_display_form() {
    assert_eq!((-123i32).render_bytes(), b"-123".to_vec());
    assert_eq!(0i32.render_bytes(), b"0".to_vec());
    assert_eq!(42i32.render_bytes(), b"42".to_vec());
    assert_eq!(i32::MIN.render_bytes(), b"-2147483648".to_vec());
    assert_eq!(i32::MAX.render_bytes(), b"2147483647".to_vec());
}

#[test]
fn test_string_render_is_its_utf8() {
    assert_eq!("a".to_string().render_bytes(), b"a".to_vec());
    assert_eq!("key-7".to_string().render_bytes(), b"key-7".to_vec());
    assert_eq!("".to_string().render_bytes(), Vec::<u8>::new());
}

#[test]
fn test_hash_id_known_checksum() {
    // the classic CRC-16/XMODEM check value: the checksum of "123456789"
    // is 0x31C3
    assert_eq!(hash_id("123456789", u16::MAX), 0x31C3 % u16::MAX);
    assert_eq!(hash_id("123456789", 3), (0x31C3 % 3) as u16);
}

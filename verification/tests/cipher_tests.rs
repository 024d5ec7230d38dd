use notepad_core::cipher::{derive_key, xor_encrypt_decrypt};

#[test]
fn xor_is_its_own_inverse() {
    let key = b"NOTEPAD_SECRET_KEY_2025".to_vec();
    let data = b"some note content, with bytes beyond the key length...............".to_vec();
    let once = xor_encrypt_decrypt(&data, &key);
    assert_ne!(once, data);
    let twice = xor_encrypt_decrypt(&once, &key);
    assert_eq!(twice, data);
}

#[test]
fn xor_empty_input_is_empty() {
    let key = vec![1u8, 2, 3];
    assert_eq!(xor_encrypt_decrypt(&[], &key), Vec::<u8>::new());
}

#[test]
fn xor_exact_values() {
    assert_eq!(xor_encrypt_decrypt(&[1, 2, 3], &[1]), vec![0, 3, 2]);
    assert_eq!(xor_encrypt_decrypt(&[0x0f, 0xf0], &[0xff, 0x0f]), vec![0xf0, 0xff]);
}

#[test]
fn derive_key_matches_sha256_of_concatenation() {
    let expected: [u8; 32] = [
        0xba, 0x78, 0x16, 0xbf, 0x8f, 0x01, 0xcf, 0xea, 0x41, 0x41, 0x40, 0xde, 0x5d, 0xae,
        0x22, 0x23, 0xb0, 0x03, 0x61, 0xa3, 0x96, 0x17, 0x7a, 0x9c, 0xb4, 0x10, 0xff, 0x61,
        0xf2, 0x00, 0x15, 0xad,
    ];
    assert_eq!(derive_key(b"abc", None), expected.to_vec());
    assert_eq!(derive_key(b"a", Some(b"bc")), expected.to_vec());
    assert_eq!(derive_key(b"abc", Some(b"")), expected.to_vec());
}

#[test]
fn derive_key_is_32_bytes_and_context_sensitive() {
    let a = derive_key(b"NOTEPAD_SECRET_KEY_2025", None);
    let b = derive_key(b"NOTEPAD_SECRET_KEY_2025", Some(b"alice"));
    assert_eq!(a.len(), 32);
    assert_eq!(b.len(), 32);
    assert_ne!(a, b);
}

use notepad_core::cipher::derive_key;
use notepad_core::text::{decrypt_text, encrypt_text};

fn test_key() -> Vec<u8> {
    derive_key(b"NOTEPAD_SECRET_KEY_2025", None)
}

#[test]
fn encrypt_then_decrypt_returns_original() {
    let key = test_key();
    let encrypted = encrypt_text("hi", &key);
    assert_eq!(decrypt_text(&encrypted, &key), "hi");
}

#[test]
fn encrypted_text_carries_the_marker() {
    let key = test_key();
    let encrypted = encrypt_text("hi", &key);
    assert!(encrypted.starts_with("LOCKED:"));
    assert_ne!(encrypted, "hi");
}

#[test]
fn decrypt_of_malformed_input_returns_it_unchanged() {
    let key = test_key();
    assert_eq!(decrypt_text("not-valid-codec-@@@", &key), "not-valid-codec-@@@");
    assert_eq!(decrypt_text("LOCKED:@@@@", &key), "LOCKED:@@@@");
    assert_eq!(decrypt_text("abc", &key), "abc");
}

#[test]
fn decrypt_of_undecipherable_body_is_empty() {
    // "AAAA" decodes to three zero bytes; a 0xff keystream turns them
    // into bytes that are not valid UTF-8.
    assert_eq!(decrypt_text("LOCKED:AAAA", &[0xff]), "");
}

#[test]
fn text_round_trip_edge_cases() {
    let key = test_key();
    for text in ["", "a", "hé🙂llo", "line one\nline two", "LOCKED:already"] {
        let encrypted = encrypt_text(text, &key);
        assert_eq!(decrypt_text(&encrypted, &key), text);
    }
}

#[test]
fn encrypt_with_single_byte_key() {
    let key = vec![0x5a];
    let encrypted = encrypt_text("abc", &key);
    assert_eq!(decrypt_text(&encrypted, &key), "abc");
}

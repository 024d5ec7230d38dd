use notepad_core::cipher::derive_key;
use notepad_core::store::{decode_note_bytes, NoteStore};

fn test_store() -> NoteStore {
    NoteStore::new(derive_key(b"NOTEPAD_SECRET_KEY_2025", None))
}

#[test]
fn save_then_load_returns_content() {
    let mut store = test_store();
    assert!(store.save_note_to_disk("MyNote", "hello"));
    assert_eq!(store.load_note_from_disk("MyNote"), "hello");
}

#[test]
fn save_rejects_unsanitizable_title() {
    let mut store = test_store();
    assert!(!store.save_note_to_disk("!!!", "content"));
    assert_eq!(store.list_note_titles(), Vec::<String>::new());
}

#[test]
fn list_is_sorted() {
    let mut store = test_store();
    assert!(store.save_note_to_disk("A", "x"));
    assert!(store.save_note_to_disk("B", "y"));
    assert_eq!(store.list_note_titles(), vec!["A", "B"]);

    let mut reversed = test_store();
    assert!(reversed.save_note_to_disk("B", "y"));
    assert!(reversed.save_note_to_disk("A", "x"));
    assert_eq!(reversed.list_note_titles(), vec!["A", "B"]);
}

#[test]
fn delete_then_load_is_empty_and_delete_is_idempotent() {
    let mut store = test_store();
    assert!(store.save_note_to_disk("A", "x"));
    store.delete_note_from_disk("A");
    assert_eq!(store.load_note_from_disk("A"), "");
    store.delete_note_from_disk("A");
    assert_eq!(store.load_note_from_disk("A"), "");
}

#[test]
fn save_overwrites_same_title() {
    let mut store = test_store();
    assert!(store.save_note_to_disk("A", "first"));
    assert!(store.save_note_to_disk("A", "second"));
    assert_eq!(store.load_note_from_disk("A"), "second");
    assert_eq!(store.list_note_titles(), vec!["A"]);
}

#[test]
fn titles_sharing_a_sanitized_form_collide() {
    let mut store = test_store();
    assert!(store.save_note_to_disk("My Note!", "one"));
    assert!(store.save_note_to_disk("My Note?", "two"));
    assert_eq!(store.load_note_from_disk("My Note"), "two");
    assert_eq!(store.list_note_titles(), vec!["My Note"]);
}

#[test]
fn load_of_unknown_title_is_empty() {
    let store = test_store();
    assert_eq!(store.load_note_from_disk("Missing"), "");
    assert_eq!(store.load_note_from_disk("!!!"), "");
}

#[test]
fn unicode_content_survives_a_round_trip() {
    let mut store = test_store();
    assert!(store.save_note_to_disk("Note", "héllo wörld ☂"));
    assert_eq!(store.load_note_from_disk("Note"), "héllo wörld ☂");
}

#[test]
fn decode_note_bytes_inverts_the_cipher() {
    let key = derive_key(b"NOTEPAD_SECRET_KEY_2025", None);
    let encrypted = notepad_core::cipher::xor_encrypt_decrypt(b"hello", &key);
    assert_eq!(decode_note_bytes(&encrypted, &key), "hello");
}

#[test]
fn decode_note_bytes_of_invalid_utf8_is_empty() {
    assert_eq!(decode_note_bytes(&[0xff], &[0x00]), "");
}

use notepad_core::codec::{base64_decode, base64_encode};

fn pad_count(s: &str) -> usize {
    s.chars().filter(|c| *c == '=').count()
}

#[test]
fn encode_known_vectors() {
    assert_eq!(base64_encode(b"Man"), "TWFu");
    assert_eq!(base64_encode(b"Ma"), "TWE=");
    assert_eq!(base64_encode(b"M"), "TQ==");
    assert_eq!(base64_encode(b""), "");
    assert_eq!(base64_encode(b"hello world"), "aGVsbG8gd29ybGQ=");
}

#[test]
fn encode_padding_counts() {
    assert_eq!(pad_count(&base64_encode(b"M")), 2);
    assert_eq!(pad_count(&base64_encode(b"Ma")), 1);
    assert_eq!(pad_count(&base64_encode(b"Man")), 0);
    assert_eq!(pad_count(&base64_encode(b"Man!")), 2);
    assert_eq!(base64_encode(b"M").len(), 4);
    assert_eq!(base64_encode(b"Ma").len(), 4);
    assert_eq!(base64_encode(b"Man").len(), 4);
    assert_eq!(base64_encode(b"Man!").len(), 8);
}

#[test]
fn decode_known_vectors() {
    assert_eq!(base64_decode("TWFu").unwrap(), b"Man");
    assert_eq!(base64_decode("TWE=").unwrap(), b"Ma");
    assert_eq!(base64_decode("TQ==").unwrap(), b"M");
    assert_eq!(base64_decode("").unwrap(), b"");
    assert_eq!(base64_decode("+/+/").unwrap(), vec![0xfb, 0xff, 0xbf]);
}

#[test]
fn decode_rejects_bad_length() {
    let e = base64_decode("abc").unwrap_err();
    assert_eq!(e, "Invalid base64 length");
    assert!(base64_decode("TWFuX").is_err());
}

#[test]
fn decode_rejects_bad_character() {
    let e = base64_decode("a@c=").unwrap_err();
    assert_eq!(e, "Invalid base64 character");
    assert!(base64_decode("TW$u").is_err());
    assert!(base64_decode("====").is_err());
}

#[test]
fn decode_padding_group_in_middle() {
    assert_eq!(base64_decode("TQ==TWFu").unwrap(), b"MMan");
}

#[test]
fn round_trip_many_lengths() {
    for n in 0..40usize {
        let bytes: Vec<u8> = (0..n).map(|i| (i * 37 + 11) as u8).collect();
        let encoded = base64_encode(&bytes);
        assert_eq!(encoded.len() % 4, 0);
        assert_eq!(base64_decode(&encoded).unwrap(), bytes);
    }
}

#[test]
fn round_trip_all_byte_values() {
    let bytes: Vec<u8> = (0..=255u8).collect();
    assert_eq!(base64_decode(&base64_encode(&bytes)).unwrap(), bytes);
}

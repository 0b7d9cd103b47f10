use polling_places::codec::{decode_utf16le, encode_utf16le, strip_bom};

fn cv(s: &str) -> Vec<char> {
    s.chars().collect()
}

#[test]
fn round_trip_ascii() {
    let s = cv("hello, polling places");
    let bytes = encode_utf16le(&s);
    let back = decode_utf16le(&bytes).unwrap();
    assert_eq!(back, s);
}

#[test]
fn round_trip_wide_and_astral() {
    let s = cv("Zürich – 選挙 📊 done");
    let bytes = encode_utf16le(&s);
    let back = decode_utf16le(&bytes).unwrap();
    assert_eq!(back, s);
}

#[test]
fn round_trip_empty() {
    let s: Vec<char> = Vec::new();
    let bytes = encode_utf16le(&s);
    assert!(bytes.is_empty());
    let back = decode_utf16le(&bytes).unwrap();
    assert!(back.is_empty());
}

#[test]
fn encode_is_little_endian() {
    let bytes = encode_utf16le(&cv("A"));
    assert_eq!(bytes, vec![0x41u8, 0x00u8]);
}

#[test]
fn astral_char_uses_surrogate_pair() {
    // U+1F389 = D83C DF89 in UTF-16.
    let bytes = encode_utf16le(&cv("🎉"));
    assert_eq!(bytes, vec![0x3C, 0xD8, 0x89, 0xDF]);
}

#[test]
fn odd_length_is_malformed() {
    assert!(decode_utf16le(&[0x41u8, 0x00, 0x42]).is_err());
}

#[test]
fn lone_high_surrogate_is_malformed() {
    // D800 with no low surrogate after it.
    assert!(decode_utf16le(&[0x00u8, 0xD8, 0x41, 0x00]).is_err());
    // and at the very end of the stream.
    assert!(decode_utf16le(&[0x41u8, 0x00, 0x00, 0xD8]).is_err());
}

#[test]
fn lone_low_surrogate_is_malformed() {
    assert!(decode_utf16le(&[0x00u8, 0xDC]).is_err());
}

#[test]
fn strip_bom_removes_leading_marker() {
    let with_bom: Vec<u8> = vec![0xFF, 0xFE, 0x41, 0x00];
    assert_eq!(strip_bom(&with_bom), &[0x41u8, 0x00][..]);
    let without: Vec<u8> = vec![0x41, 0x00];
    assert_eq!(strip_bom(&without), &[0x41u8, 0x00][..]);
    let short: Vec<u8> = vec![0xFF];
    assert_eq!(strip_bom(&short), &[0xFFu8][..]);
}

use ferris::wire::{build_frame, decode_header, decode_payload, encode_request, encode_response};

fn bincode_str(s: &str) -> Vec<u8> {
    bincode::encode_to_vec(s.to_string(), bincode::config::standard()).unwrap()
}

#[test]
fn encode_request_matches_bincode_encoding() {
    let frame = encode_request(0, &"foo".to_string(), Some(&"bar".to_string())).unwrap();
    let kb = bincode_str("foo");
    let vb = bincode_str("bar");
    let mut expected = vec![0u8, kb.len() as u8, vb.len() as u8];
    expected.extend_from_slice(&kb);
    expected.extend_from_slice(&vb);
    assert_eq!(frame, expected);
}

#[test]
fn encode_request_without_value_has_zero_length() {
    let frame = encode_request(1, &"foo".to_string(), None).unwrap();
    let kb = bincode_str("foo");
    let mut expected = vec![1u8, kb.len() as u8, 0u8];
    expected.extend_from_slice(&kb);
    assert_eq!(frame, expected);
}

#[test]
fn decode_header_reads_three_fields() {
    let h = decode_header(&[2u8, 10, 20]);
    assert_eq!(h.command, 2);
    assert_eq!(h.keysize, 10);
    assert_eq!(h.valuesize, 20);
}

#[test]
fn decode_payload_round_trips() {
    let kb = bincode_str("foo");
    let vb = bincode_str("bar");
    let mut body = kb.clone();
    body.extend_from_slice(&vb);
    let (key, value) = decode_payload(&body, kb.len() as u8, vb.len() as u8).unwrap();
    assert_eq!(key, "foo");
    assert_eq!(value, Some("bar".to_string()));
}

#[test]
fn decode_payload_with_empty_value_slice() {
    let kb = bincode_str("foo");
    let (key, value) = decode_payload(&kb, kb.len() as u8, 0).unwrap();
    assert_eq!(key, "foo");
    // a zero-length slice does not decode as a string
    assert_eq!(value, None);
}

#[test]
fn decode_payload_too_short_fails() {
    let kb = bincode_str("foo");
    assert!(decode_payload(&kb, kb.len() as u8, 5).is_none());
}

#[test]
fn decode_payload_bad_key_fails() {
    // length prefix claims 200 bytes follow; they do not
    let body = vec![200u8, 1, 2, 3];
    assert!(decode_payload(&body, 4, 0).is_none());
}

#[test]
fn build_frame_boundary_at_255() {
    let k255 = vec![9u8; 255];
    let v = vec![1u8; 3];
    let frame = build_frame(0, &k255, &v).unwrap();
    assert_eq!(frame.len(), 3 + 255 + 3);
    assert_eq!(frame[1], 255);
    let k256 = vec![9u8; 256];
    assert!(build_frame(0, &k256, &v).is_none());
}

// bincode's standard configuration spends one byte on lengths up to 250
// and three bytes from 251 up, so a 252-character ASCII key encodes to
// exactly 255 bytes, and a 253-character key to 256.
#[test]
fn key_of_255_encoded_bytes_is_accepted() {
    let key = "a".repeat(252);
    assert_eq!(bincode_str(&key).len(), 255);
    let frame = encode_request(2, &key, None).unwrap();
    assert_eq!(frame[1], 255);
    assert_eq!(frame.len(), 3 + 255);
}

#[test]
fn key_of_256_encoded_bytes_is_rejected() {
    let key = "a".repeat(253);
    assert_eq!(bincode_str(&key).len(), 256);
    assert!(encode_request(2, &key, None).is_none());
}

#[test]
fn value_of_255_encoded_bytes_is_accepted_and_256_rejected() {
    let ok = "b".repeat(252);
    let too_big = "b".repeat(253);
    assert!(encode_request(0, &"k".to_string(), Some(&ok)).is_some());
    assert!(encode_request(0, &"k".to_string(), Some(&too_big)).is_none());
}

#[test]
fn encode_response_prefixes_length() {
    let vb = bincode_str("bar");
    let resp = encode_response(&vb).unwrap();
    assert_eq!(resp[0] as usize, vb.len());
    assert_eq!(&resp[1..], &vb[..]);
    let big = vec![0u8; 256];
    assert!(encode_response(&big).is_none());
}

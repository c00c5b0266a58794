use std::collections::BTreeMap;

use neo_live::TextUpdate;

fn payload(frame: &[u8]) -> &[u8] {
    let n = u32::from_be_bytes([frame[0], frame[1], frame[2], frame[3]]) as usize;
    assert_eq!(frame.len(), 4 + n);
    &frame[4..]
}

fn reference_payload(text: &str) -> Vec<u8> {
    let mut map = BTreeMap::new();
    map.insert("text", text);
    rmp_serde::to_vec_named(&map).unwrap()
}

#[test]
fn encode_exact_bytes() {
    let frame = TextUpdate::new("hi".to_owned()).encode().unwrap();
    assert_eq!(
        frame,
        vec![0, 0, 0, 9, 0x81, 0xa4, b't', b'e', b'x', b't', 0xa2, b'h', b'i']
    );
}

#[test]
fn encode_matches_msgpack_map() {
    for len in [0usize, 1, 31, 32, 255, 256, 65535, 65536, 70000] {
        let text = "x".repeat(len);
        let frame = TextUpdate::new(text.clone()).encode().unwrap();
        assert_eq!(payload(&frame), reference_payload(&text).as_slice());
        let back: BTreeMap<String, String> = rmp_serde::from_slice(payload(&frame)).unwrap();
        assert_eq!(back.get("text"), Some(&text));
    }
}

#[test]
fn round_trip_various_texts() {
    for text in ["", "hello", "testing! robux", "héllo wörld ✓ 🎉", &"long ".repeat(20000)] {
        let update = TextUpdate::new(text.to_owned());
        let frame = update.encode().unwrap();
        let decoded = TextUpdate::decode(payload(&frame)).unwrap();
        assert_eq!(decoded, update);
        assert_eq!(decoded.text(), text);
    }
}

#[test]
fn decode_reads_reference_encoding() {
    let bytes = reference_payload("real data");
    let decoded = TextUpdate::decode(&bytes).unwrap();
    assert_eq!(decoded.text(), "real data");
}

#[test]
fn decode_rejects_garbage() {
    assert_eq!(TextUpdate::decode(b"this is not valid msgpack"), None);
    assert_eq!(TextUpdate::decode(b""), None);
    // wrong key
    assert_eq!(TextUpdate::decode(&[0x81, 0xa4, b't', b'e', b'x', b'x', 0xa0]), None);
    // length in the header disagrees with the bytes that follow
    assert_eq!(TextUpdate::decode(&[0x81, 0xa4, b't', b'e', b'x', b't', 0xa3, b'h', b'i']), None);
    // trailing byte
    assert_eq!(
        TextUpdate::decode(&[0x81, 0xa4, b't', b'e', b'x', b't', 0xa1, b'h', b'i']),
        None
    );
    // invalid UTF-8 in the text
    assert_eq!(TextUpdate::decode(&[0x81, 0xa4, b't', b'e', b'x', b't', 0xa1, 0xff]), None);
    // the text as binary data
    assert_eq!(TextUpdate::decode(&[0x81, 0xa4, b't', b'e', b'x', b't', 0xc4, 1, b'h']), None);
    // a map of two entries
    assert_eq!(TextUpdate::decode(&[0x82, 0xa4, b't', b'e', b'x', b't', 0xa0, 0xa1, b'k', 0xa0]), None);
    // an array of one element that is not a string
    assert_eq!(TextUpdate::decode(&[0x91, 0x01]), None);
}

#[test]
fn decode_accepts_every_header_width() {
    let hi = Some(TextUpdate::new("hi".to_owned()));
    let key = [b't', b'e', b'x', b't'];
    let mut bodies: Vec<Vec<u8>> = Vec::new();
    for key_header in [vec![0xa4], vec![0xd9, 4], vec![0xda, 0, 4], vec![0xdb, 0, 0, 0, 4]] {
        for value_header in [vec![0xa2], vec![0xd9, 2], vec![0xda, 0, 2], vec![0xdb, 0, 0, 0, 2]] {
            let mut b = key_header.clone();
            b.extend_from_slice(&key);
            b.extend_from_slice(&value_header);
            b.extend_from_slice(b"hi");
            bodies.push(b);
        }
    }
    for body in &bodies {
        for map_header in [vec![0x81], vec![0xde, 0, 1], vec![0xdf, 0, 0, 0, 1]] {
            let mut b = map_header.clone();
            b.extend_from_slice(body);
            assert_eq!(TextUpdate::decode(&b), hi, "{:x?}", b);
        }
    }
    for array_header in [vec![0x91], vec![0xdc, 0, 1], vec![0xdd, 0, 0, 0, 1]] {
        for value_header in [vec![0xa2], vec![0xd9, 2], vec![0xda, 0, 2], vec![0xdb, 0, 0, 0, 2]] {
            let mut b = array_header.clone();
            b.extend_from_slice(&value_header);
            b.extend_from_slice(b"hi");
            assert_eq!(TextUpdate::decode(&b), hi, "{:x?}", b);
        }
    }
}

#[test]
fn decode_reads_array_form_from_reference_encoder() {
    let bytes = rmp_serde::to_vec(&("compact".to_owned(),)).unwrap();
    assert_eq!(TextUpdate::decode(&bytes).unwrap().text(), "compact");
    let long = "z".repeat(300);
    let bytes = rmp_serde::to_vec(&(long.clone(),)).unwrap();
    assert_eq!(TextUpdate::decode(&bytes).unwrap().text(), &long);
}

#[test]
fn encode_then_revalidate_is_unchanged() {
    let frame = TextUpdate::new("héllo".to_owned()).encode().unwrap();
    assert_eq!(neo_live::relay::revalidate(payload(&frame)), Some(frame.clone()));
}

#[test]
fn text_and_equality() {
    let a = TextUpdate::new("bait".to_owned());
    assert_eq!(a.text(), "bait");
    assert_eq!(a, TextUpdate::new("bait".to_owned()));
    assert_ne!(a, TextUpdate::new("survivor".to_owned()));
}

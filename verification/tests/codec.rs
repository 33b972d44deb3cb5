use telephone_pictionary::codec::decode;
use telephone_pictionary::codec::encode;
use telephone_pictionary::game::Entry;
use telephone_pictionary::game::GameError;

fn same_entries(a: &[Entry], b: &[Entry]) -> bool {
    a.len() == b.len()
        && a.iter().zip(b.iter()).all(|(x, y)| match (x, y) {
            (Entry::Phrase(p), Entry::Phrase(q)) => p == q,
            (Entry::Drawing(v), Entry::Drawing(w)) => v == w,
            _ => false,
        })
}

#[test]
fn encode_phrase_exact_bytes() {
    let entries = vec![Entry::Phrase(String::from("A"))];
    let bytes = encode(&entries);
    assert_eq!(bytes, vec![0, 1, 0, 0, 0, 0, 0, 0, 0, 0x41]);
}

#[test]
fn encode_drawing_exact_bytes() {
    let entries = vec![Entry::Drawing(vec![7, 8])];
    let bytes = encode(&entries);
    assert_eq!(bytes, vec![1, 2, 0, 0, 0, 0, 0, 0, 0, 7, 8]);
}

#[test]
fn encode_empty_sequence_is_empty() {
    let entries: Vec<Entry> = vec![];
    assert_eq!(encode(&entries), Vec::<u8>::new());
}

#[test]
fn round_trip_preserves_every_byte() {
    let entries = vec![
        Entry::Phrase(String::from("a caf\u{e9}\nwith two lines")),
        Entry::Drawing(vec![0x89, 0x50, 0x4e, 0x47, 0, 255, 13]),
        Entry::Phrase(String::from("")),
        Entry::Drawing(vec![]),
    ];
    let bytes = encode(&entries);
    let back = decode(&bytes).expect("a fresh encoding must decode");
    assert!(same_entries(&back, &entries));
}

#[test]
fn decode_empty_input_is_empty_sequence() {
    let r = decode(&[]).expect("empty input is the empty sequence");
    assert_eq!(r.len(), 0);
}

#[test]
fn decode_rejects_unknown_tag() {
    let bytes = [2, 0, 0, 0, 0, 0, 0, 0, 0];
    assert_eq!(decode(&bytes).unwrap_err(), GameError::DecodeFailure);
}

#[test]
fn decode_rejects_truncated_header() {
    assert_eq!(decode(&[0]).unwrap_err(), GameError::DecodeFailure);
    assert_eq!(decode(&[0, 1, 0, 0]).unwrap_err(), GameError::DecodeFailure);
}

#[test]
fn decode_rejects_truncated_payload() {
    let bytes = [1, 5, 0, 0, 0, 0, 0, 0, 0, 1, 2];
    assert_eq!(decode(&bytes).unwrap_err(), GameError::DecodeFailure);
}

#[test]
fn decode_rejects_invalid_utf8_phrase() {
    let bytes = [0, 1, 0, 0, 0, 0, 0, 0, 0, 0xff];
    assert_eq!(decode(&bytes).unwrap_err(), GameError::DecodeFailure);
}

#[test]
fn decode_rejects_trailing_garbage() {
    let mut bytes = encode(&vec![Entry::Drawing(vec![5])]);
    bytes.push(9);
    assert_eq!(decode(&bytes).unwrap_err(), GameError::DecodeFailure);
}

#[test]
fn decode_multibyte_phrase_reproduces_the_text() {
    let bytes = [0, 2, 0, 0, 0, 0, 0, 0, 0, 0xc3, 0xa9];
    let back = decode(&bytes).expect("two valid UTF-8 payload bytes");
    assert_eq!(back.len(), 1);
    assert!(matches!(&back[0], Entry::Phrase(p) if p == "\u{e9}"));
}

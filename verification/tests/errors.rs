use fieldwire::entry::DecodeError;
use fieldwire::types::{Document, Person};

const TAG_UINT: u8 = 1;
const TAG_TEXT: u8 = 2;
const TAG_PEOPLE: u8 = 3;

fn push_u64_le(out: &mut Vec<u8>, x: u64) {
    out.extend_from_slice(&x.to_le_bytes());
}

fn push_str_le(out: &mut Vec<u8>, s: &str) {
    push_u64_le(out, s.len() as u64);
    out.extend_from_slice(s.as_bytes());
}

fn small_document() -> Document {
    Document {
        id: 5,
        name: "n".to_owned(),
        authors: vec![Person {
            id: 1,
            name: "Alice".to_owned(),
            email: "alice@example.com".to_owned(),
        }],
        content: "x".to_owned(),
    }
}

#[test]
fn empty_buffer_is_truncated() {
    assert_eq!(fieldwire::fixed_le::decode(&[]).unwrap_err(), DecodeError::Truncated);
    assert_eq!(fieldwire::fixed_be::decode(&[]).unwrap_err(), DecodeError::Truncated);
    assert_eq!(fieldwire::tagged_index::decode(&[]).unwrap_err(), DecodeError::Truncated);
    assert_eq!(fieldwire::tagged_keyed::decode(&[]).unwrap_err(), DecodeError::Truncated);
}

#[test]
fn cut_buffer_is_truncated() {
    let d = small_document();
    let mut bytes = fieldwire::fixed_le::encode(&d);
    bytes.truncate(bytes.len() - 1);
    assert_eq!(fieldwire::fixed_le::decode(&bytes).unwrap_err(), DecodeError::Truncated);
}

#[test]
fn trailing_input_is_fatal_on_every_backend() {
    let d = small_document();
    for (enc, dec) in [
        (
            fieldwire::fixed_le::encode as fn(&Document) -> Vec<u8>,
            fieldwire::fixed_le::decode as fn(&[u8]) -> Result<Document, DecodeError>,
        ),
        (fieldwire::fixed_be::encode, fieldwire::fixed_be::decode),
        (fieldwire::tagged_index::encode, fieldwire::tagged_index::decode),
        (fieldwire::tagged_keyed::encode, fieldwire::tagged_keyed::decode),
    ] {
        let mut bytes = enc(&d);
        bytes.push(0);
        assert_eq!(dec(&bytes).unwrap_err(), DecodeError::TrailingInput);
    }
}

#[test]
fn wrong_declared_count_is_an_arity_error() {
    let d = small_document();
    let mut bytes = fieldwire::tagged_index::encode(&d);
    assert_eq!(bytes[0], 4);
    bytes[0] = 3;
    assert_eq!(fieldwire::tagged_index::decode(&bytes).unwrap_err(), DecodeError::WrongFieldCount);
}

#[test]
fn unexpected_tag_is_malformed() {
    let d = small_document();
    let mut bytes = fieldwire::tagged_index::encode(&d);
    assert_eq!(bytes[1], TAG_UINT);
    bytes[1] = 9;
    assert_eq!(fieldwire::tagged_index::decode(&bytes).unwrap_err(), DecodeError::Malformed);
}

#[test]
fn invalid_text_bytes_are_malformed() {
    let mut bytes = Vec::new();
    push_u64_le(&mut bytes, 5);
    push_u64_le(&mut bytes, 1);
    bytes.push(0xff);
    assert_eq!(fieldwire::fixed_le::decode(&bytes).unwrap_err(), DecodeError::Malformed);
}

#[test]
fn unknown_field_name_is_fatal() {
    let mut bytes = vec![1u8];
    push_str_le(&mut bytes, "bogus");
    bytes.push(TAG_UINT);
    push_u64_le(&mut bytes, 7);
    assert_eq!(fieldwire::tagged_keyed::decode(&bytes).unwrap_err(), DecodeError::UnknownField);
}

#[test]
fn missing_fields_are_fatal() {
    let bytes = vec![0u8];
    assert_eq!(fieldwire::tagged_keyed::decode(&bytes).unwrap_err(), DecodeError::MissingField);
}

#[test]
fn wrongly_kinded_value_is_a_type_error() {
    let mut bytes = vec![1u8];
    push_str_le(&mut bytes, "id");
    bytes.push(TAG_TEXT);
    push_str_le(&mut bytes, "x");
    assert_eq!(fieldwire::tagged_keyed::decode(&bytes).unwrap_err(), DecodeError::TypeMismatch);
}

#[test]
fn key_order_does_not_matter() {
    let mut bytes = vec![4u8];
    push_str_le(&mut bytes, "content");
    bytes.push(TAG_TEXT);
    push_str_le(&mut bytes, "x");
    push_str_le(&mut bytes, "authors");
    bytes.push(TAG_PEOPLE);
    push_u64_le(&mut bytes, 0);
    push_str_le(&mut bytes, "name");
    bytes.push(TAG_TEXT);
    push_str_le(&mut bytes, "n");
    push_str_le(&mut bytes, "id");
    bytes.push(TAG_UINT);
    push_u64_le(&mut bytes, 5);

    let d = fieldwire::tagged_keyed::decode(&bytes).unwrap();
    assert_eq!(d.id, 5);
    assert_eq!(d.name, "n");
    assert!(d.authors.is_empty());
    assert_eq!(d.content, "x");
}

#[test]
fn last_occurrence_of_a_repeated_key_wins() {
    let mut bytes = vec![5u8];
    push_str_le(&mut bytes, "id");
    bytes.push(TAG_UINT);
    push_u64_le(&mut bytes, 1);
    push_str_le(&mut bytes, "name");
    bytes.push(TAG_TEXT);
    push_str_le(&mut bytes, "n");
    push_str_le(&mut bytes, "authors");
    bytes.push(TAG_PEOPLE);
    push_u64_le(&mut bytes, 0);
    push_str_le(&mut bytes, "content");
    bytes.push(TAG_TEXT);
    push_str_le(&mut bytes, "x");
    push_str_le(&mut bytes, "id");
    bytes.push(TAG_UINT);
    push_u64_le(&mut bytes, 2);

    let d = fieldwire::tagged_keyed::decode(&bytes).unwrap();
    assert_eq!(d.id, 2);
}

#[test]
fn lenient_decode_leaves_trailing_input_to_the_caller() {
    let d = small_document();
    let encoded = fieldwire::tagged_keyed::encode(&d);
    let mut bytes = encoded.clone();
    bytes.extend_from_slice(b"extra");

    assert_eq!(fieldwire::tagged_keyed::decode(&bytes).unwrap_err(), DecodeError::TrailingInput);

    let (decoded, used) = fieldwire::tagged_keyed::decode_prefix(&bytes).unwrap();
    assert_eq!(decoded, d);
    assert_eq!(used, encoded.len());
    assert_eq!(&bytes[used..], b"extra");

    let le = fieldwire::fixed_le::encode(&d);
    let mut le_bytes = le.clone();
    le_bytes.push(9);
    let (le_decoded, le_used) = fieldwire::fixed_le::decode_prefix(&le_bytes).unwrap();
    assert_eq!(le_decoded, d);
    assert_eq!(le_used, le.len());
}

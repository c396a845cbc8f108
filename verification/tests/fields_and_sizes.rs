use fieldwire::entry::DecodeError;
use fieldwire::fields::{
    document_field_from_name, person_field_from_name, DocumentField, PersonField,
};
use fieldwire::types::{generate_data, make_sample_data, Document};

#[test]
fn person_field_names_resolve_exactly() {
    assert!(matches!(person_field_from_name("id"), Some(PersonField::Id)));
    assert!(matches!(person_field_from_name("name"), Some(PersonField::Name)));
    assert!(matches!(person_field_from_name("email"), Some(PersonField::Email)));
    assert!(person_field_from_name("Email").is_none());
    assert!(person_field_from_name("").is_none());
    assert!(person_field_from_name("authors").is_none());
}

#[test]
fn document_field_names_resolve_exactly() {
    assert!(matches!(document_field_from_name("id"), Some(DocumentField::Id)));
    assert!(matches!(document_field_from_name("name"), Some(DocumentField::Name)));
    assert!(matches!(document_field_from_name("authors"), Some(DocumentField::Authors)));
    assert!(matches!(document_field_from_name("content"), Some(DocumentField::Content)));
    assert!(document_field_from_name("email").is_none());
    assert!(document_field_from_name("contents").is_none());
}

#[test]
fn field_ordinals_follow_declared_order() {
    assert_eq!(PersonField::Id.ordinal(), 0);
    assert_eq!(PersonField::Name.ordinal(), 1);
    assert_eq!(PersonField::Email.ordinal(), 2);
    assert_eq!(DocumentField::Id.ordinal(), 0);
    assert_eq!(DocumentField::Name.ordinal(), 1);
    assert_eq!(DocumentField::Authors.ordinal(), 2);
    assert_eq!(DocumentField::Content.ordinal(), 3);
    assert_eq!(DocumentField::Authors.name(), "authors");
    assert_eq!(DocumentField::Content.name(), "content");
}

#[test]
fn sample_data_has_the_fixed_shape() {
    let d = make_sample_data(32);
    assert_eq!(d.id, 829472904);
    assert_eq!(d.name, "stuff.txt");
    assert_eq!(d.authors.len(), 2);
    assert_eq!(d.authors[0].id, 1);
    assert_eq!(d.authors[0].name, "Alice");
    assert_eq!(d.authors[0].email, "alice@example.com");
    assert_eq!(d.authors[1].id, 2);
    assert_eq!(d.authors[1].name, "Bob");
    assert_eq!(d.authors[1].email, "bob@example.com");
    assert_eq!(d.content.chars().count(), 32);
}

#[test]
fn generated_payload_has_the_requested_length() {
    assert_eq!(generate_data(0).len(), 0);
    assert_eq!(generate_data(17).chars().count(), 17);
    assert!(generate_data(17).is_ascii());
}

fn sizes_for<E: Fn(&Document) -> Vec<u8>>(enc: E) -> Vec<usize> {
    [0usize, 10, 1000]
        .iter()
        .map(|n| {
            let d = make_sample_data(*n);
            enc(&d).len()
        })
        .collect()
}

#[test]
fn encoded_size_grows_with_the_content_payload() {
    for sizes in [
        sizes_for(fieldwire::fixed_le::encode),
        sizes_for(fieldwire::fixed_be::encode),
        sizes_for(fieldwire::tagged_index::encode),
        sizes_for(fieldwire::tagged_keyed::encode),
    ] {
        assert!(sizes[0] <= sizes[1] && sizes[1] <= sizes[2]);
    }
}

#[test]
fn every_error_has_a_label() {
    let all = [
        DecodeError::UnknownField,
        DecodeError::MissingField,
        DecodeError::WrongFieldCount,
        DecodeError::TrailingInput,
        DecodeError::Truncated,
        DecodeError::TypeMismatch,
        DecodeError::Malformed,
    ];
    for e in all {
        assert!(!e.label().is_empty());
    }
    assert_eq!(DecodeError::UnknownField.label(), "unknown field");
}

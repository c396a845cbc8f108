use fieldwire::entry::Entry;
use fieldwire::fields::PersonField;
use fieldwire::key_codec::{person_from_pairs, PersonCursor};
use fieldwire::index_codec::{person_build_indexed, person_emit_indexed};
use fieldwire::types::{generate_data, make_sample_data, Document, Person};

fn scenario_document() -> Document {
    let alice = Person {
        id: 1,
        name: "Alice".to_owned(),
        email: "alice@example.com".to_owned(),
    };
    let bob = Person { id: 2, name: "Bob".to_owned(), email: "bob@example.com".to_owned() };
    Document {
        id: 829472904,
        name: "stuff.txt".to_owned(),
        authors: vec![alice, bob],
        content: String::new(),
    }
}

#[test]
fn scenario_round_trips_on_every_backend() {
    let d = scenario_document();
    assert_eq!(d, fieldwire::fixed_le::decode(&fieldwire::fixed_le::encode(&d)).unwrap());
    assert_eq!(d, fieldwire::fixed_be::decode(&fieldwire::fixed_be::encode(&d)).unwrap());
    assert_eq!(d, fieldwire::tagged_index::decode(&fieldwire::tagged_index::encode(&d)).unwrap());
    assert_eq!(d, fieldwire::tagged_keyed::decode(&fieldwire::tagged_keyed::encode(&d)).unwrap());
}

#[test]
fn large_random_content_round_trips() {
    let mut d = make_sample_data(1024 * 1024);
    d.content = generate_data(1024 * 1024);
    assert_eq!(d, fieldwire::fixed_le::decode(&fieldwire::fixed_le::encode(&d)).unwrap());
    assert_eq!(d, fieldwire::tagged_keyed::decode(&fieldwire::tagged_keyed::encode(&d)).unwrap());
}

#[test]
fn empty_author_list_round_trips() {
    let d = Document {
        id: 7,
        name: "empty.txt".to_owned(),
        authors: Vec::new(),
        content: "abc".to_owned(),
    };
    assert_eq!(d, fieldwire::fixed_le::decode(&fieldwire::fixed_le::encode(&d)).unwrap());
    assert_eq!(d, fieldwire::fixed_be::decode(&fieldwire::fixed_be::encode(&d)).unwrap());
    assert_eq!(d, fieldwire::tagged_index::decode(&fieldwire::tagged_index::encode(&d)).unwrap());
    assert_eq!(d, fieldwire::tagged_keyed::decode(&fieldwire::tagged_keyed::encode(&d)).unwrap());
}

#[test]
fn backends_differ_in_layout() {
    let d = scenario_document();
    let le = fieldwire::fixed_le::encode(&d);
    let be = fieldwire::fixed_be::encode(&d);
    let ti = fieldwire::tagged_index::encode(&d);
    let tk = fieldwire::tagged_keyed::encode(&d);
    assert_ne!(le, be);
    assert_ne!(le, ti);
    assert_ne!(ti, tk);
}

#[test]
fn person_cursor_walks_fields_in_order_then_stops() {
    let p = Person { id: 9, name: "Ada".to_owned(), email: "ada@example.com".to_owned() };
    let mut cur = PersonCursor::new(&p);

    let (f0, e0) = cur.next().unwrap();
    assert_eq!(f0.ordinal(), 0);
    assert_eq!(f0.name(), "id");
    assert!(matches!(e0, Entry::Uint(9)));

    let (f1, e1) = cur.next().unwrap();
    assert_eq!(f1.name(), "name");
    assert!(matches!(e1, Entry::Text(s) if s == "Ada"));

    let (f2, e2) = cur.next().unwrap();
    assert_eq!(f2.name(), "email");
    assert!(matches!(e2, Entry::Text(s) if s == "ada@example.com"));

    assert!(cur.next().is_none());
    assert!(cur.next().is_none());
}

#[test]
fn index_build_inverts_index_emit() {
    let p = Person { id: 42, name: "Eve".to_owned(), email: "eve@example.com".to_owned() };
    let (count, fields) = person_emit_indexed(&p);
    assert_eq!(count, 3);
    assert_eq!(fields.len(), 3);
    assert!(matches!(fields[0].0, PersonField::Id));
    let entries: Vec<Entry> = fields.into_iter().map(|fe| fe.1).collect();
    let rebuilt = person_build_indexed(entries).unwrap();
    assert_eq!(p, rebuilt);
}

#[test]
fn key_pairs_accumulate_in_any_order() {
    let pairs = vec![
        ("email".to_owned(), Entry::Text("ada@example.com".to_owned())),
        ("id".to_owned(), Entry::Uint(9)),
        ("name".to_owned(), Entry::Text("Ada".to_owned())),
    ];
    let p = person_from_pairs(&pairs).unwrap();
    assert_eq!(p.id, 9);
    assert_eq!(p.name, "Ada");
    assert_eq!(p.email, "ada@example.com");
}

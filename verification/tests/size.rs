use fieldwire::types::{make_sample_data, Document};

fn compute_size<E, D>(encode: E, decode: D) -> (usize, usize)
where
    E: Fn(&Document) -> Vec<u8>,
    D: Fn(&[u8]) -> Document,
{
    let small = make_sample_data(0);
    let big = make_sample_data(1024 * 1024);

    let small_encoded = encode(&small);
    let big_encoded = encode(&big);

    assert_eq!(small, decode(&small_encoded));
    assert_eq!(big, decode(&big_encoded));

    (small_encoded.len(), big_encoded.len())
}

fn print_size(sizes: (usize, usize)) {
    println!("    small: {}", sizes.0);
    println!("    big:   {}", sizes.1);
}

#[test]
fn size() {
    println!("");
    println!("rustc_serialize + CBOR");
    print_size(compute_size(fieldwire::tagged_index::encode, |b| {
        fieldwire::tagged_index::decode(b).unwrap()
    }));

    println!("rustc_serialize + bincode");
    print_size(compute_size(fieldwire::fixed_le::encode, |b| {
        fieldwire::fixed_le::decode(b).unwrap()
    }));

    println!("serde + bincode");
    print_size(compute_size(fieldwire::tagged_keyed::encode, |b| {
        fieldwire::tagged_keyed::decode(b).unwrap()
    }));

    println!("rustc_serialize + rmp");
    print_size(compute_size(fieldwire::fixed_be::encode, |b| {
        fieldwire::fixed_be::decode(b).unwrap()
    }));
}

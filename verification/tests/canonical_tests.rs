use domino::canonical::{build_canonical_params, bytes_le};

fn pairs(ps: &[(&str, &str)]) -> Vec<(Vec<u8>, Vec<u8>)> {
    ps.iter()
        .map(|(k, v)| (k.as_bytes().to_vec(), v.as_bytes().to_vec()))
        .collect()
}

#[test]
fn sorts_pairs_by_key_regardless_of_insertion_order() {
    let expected = b"a=1&b=2&c=3".to_vec();
    assert_eq!(build_canonical_params(&pairs(&[("b", "2"), ("a", "1"), ("c", "3")])), expected);
    assert_eq!(build_canonical_params(&pairs(&[("c", "3"), ("b", "2"), ("a", "1")])), expected);
    assert_eq!(build_canonical_params(&pairs(&[("a", "1"), ("b", "2"), ("c", "3")])), expected);
}

#[test]
fn encodes_keys_and_values() {
    let out = build_canonical_params(&pairs(&[("k y", "v/1")]));
    assert_eq!(out, b"k%20y=v%2F1".to_vec());
}

#[test]
fn ties_on_key_break_by_encoded_value() {
    let out = build_canonical_params(&pairs(&[("a", "2"), ("a", "1")]));
    assert_eq!(out, b"a=1&a=2".to_vec());
}

#[test]
fn empty_list_gives_empty_string() {
    let out = build_canonical_params(&Vec::new());
    assert_eq!(out, Vec::<u8>::new());
}

#[test]
fn byte_order_is_lexicographic() {
    assert!(bytes_le(&b"a".to_vec(), &b"b".to_vec()));
    assert!(bytes_le(&b"a".to_vec(), &b"a".to_vec()));
    assert!(!bytes_le(&b"b".to_vec(), &b"a".to_vec()));
    assert!(bytes_le(&b"a".to_vec(), &b"ab".to_vec()));
    assert!(!bytes_le(&b"ab".to_vec(), &b"a".to_vec()));
    assert!(bytes_le(&b"".to_vec(), &b"a".to_vec()));
}

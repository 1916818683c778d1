//! Tests of the hashing layer: word hashes, pairwise combination, and the
//! hex encoding, checked against the keccak-hash crate directly.

use merkle_tree::hasher::{hash_combination, hash_words, keccak_256};

/// Hex-encodes a digest the same way the library promises to, using only
/// std, so the two implementations can be compared.
fn reference_keccak_hex(input: &str) -> String {
    let mut out = [0u8; 32];
    keccak_hash::keccak_256(input.as_bytes(), &mut out);
    out.iter().map(|b| format!("{:02x}", b)).collect::<String>()
}

#[test]
fn keccak_256_matches_reference_implementation() {
    for word in ["", "a", "hello", "Merkle tree", "<pad>"] {
        assert_eq!(keccak_256(word), reference_keccak_hex(word));
    }
}

#[test]
fn keccak_256_of_empty_string_is_the_known_digest() {
    assert_eq!(
        keccak_256(""),
        "c5d2460186f7233c927e7db2dcc703c0e500b653ca82273b7bfad8045d85a470"
    );
}

#[test]
fn keccak_256_of_a_is_the_known_digest() {
    assert_eq!(
        keccak_256("a"),
        "3ac225168df54212a25c1c01fd35bebfea408fdac2e31ddd6f80a4bbf9a5f1cb"
    );
}

#[test]
fn keccak_256_is_lowercase_hex_of_length_64() {
    let hash = keccak_256("word");
    assert_eq!(hash.len(), 64);
    assert!(hash.chars().all(|c| c.is_ascii_hexdigit() && !c.is_ascii_uppercase()));
}

#[test]
fn keccak_256_is_deterministic() {
    assert_eq!(keccak_256("same input"), keccak_256("same input"));
}

#[test]
fn hash_words_maps_each_word_in_order() {
    let hashes = hash_words(vec!["a", "b", "a"]);
    assert_eq!(hashes.len(), 3);
    assert_eq!(hashes[0], keccak_256("a"));
    assert_eq!(hashes[1], keccak_256("b"));
    assert_eq!(hashes[2], keccak_256("a"));
}

#[test]
fn hash_combination_hashes_the_text_concatenation() {
    let left = keccak_256("a");
    let right = keccak_256("b");
    let combined = hash_combination(&left, &right);
    assert_eq!(combined, keccak_256(&format!("{}{}", left, right)));
}

#[test]
fn hash_combination_is_order_sensitive() {
    let a = keccak_256("a");
    let b = keccak_256("b");
    assert_ne!(hash_combination(&a, &b), hash_combination(&b, &a));
}

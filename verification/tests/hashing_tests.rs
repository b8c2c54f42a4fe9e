use sync_rs::hashing::{to_hex, ContentHasher, CHUNK_SIZE};
use sync_rs::sync_engine::calculate_hash;

#[test]
fn hash_of_hi_is_its_sha256_in_hex() {
    assert_eq!(
        calculate_hash(b"hi"),
        "8f434346648f6b96df89dda901c5176b10a6d83961dd3c1ac88b59b2dc327aa4"
    );
}

#[test]
fn hash_of_empty_content() {
    assert_eq!(
        calculate_hash(b""),
        "e3b0c44298fc1c149afbf4c8996fb92427ae41e4649b934ca495991b7852b855"
    );
}

#[test]
fn hash_of_content_longer_than_two_chunks() {
    let data: Vec<u8> = (0..20000u32).map(|i| ((i * 7 + 3) % 256) as u8).collect();
    assert_eq!(
        calculate_hash(&data),
        "576358d0914fe2133920b1c1f46867d49959124d425af9434f431548791cca79"
    );
}

#[test]
fn hash_of_content_of_exactly_one_chunk() {
    assert_eq!(CHUNK_SIZE, 8192);
    let data: Vec<u8> = (0..8192u32).map(|i| (i % 251) as u8).collect();
    assert_eq!(
        calculate_hash(&data),
        "25df2449b2e5a35fea14e02a7158e283801a1069c9f84631b9a9dacb2f809a7f"
    );
}

#[test]
fn hash_of_content_one_byte_over_a_chunk() {
    let data: Vec<u8> = (0..8193u32).map(|i| (i % 251) as u8).collect();
    assert_eq!(
        calculate_hash(&data),
        "7e3691790cd64b19d4edb1a80e988214515abeb53aa0f34ffbfe4b4bf405d120"
    );
}

#[test]
fn hash_has_64_lower_case_hex_digits() {
    let hash = calculate_hash(b"anything");
    assert_eq!(hash.len(), 64);
    assert!(hash.chars().all(|c| c.is_ascii_digit() || ('a'..='f').contains(&c)));
}

#[test]
fn hasher_does_not_care_how_the_input_is_cut() {
    let mut hasher = ContentHasher::new();
    hasher.update(b"hello");
    hasher.update(b"");
    hasher.update(b" ");
    hasher.update(b"world");
    assert_eq!(
        hasher.finalize(),
        "b94d27b9934d3e08a52e52d7da7dabfac484efe37a5380ee9088f7ace2efcde9"
    );
    assert_eq!(calculate_hash(b"hello world"), calculate_hash(b"hello world"));
}

#[test]
fn fresh_hasher_gives_the_hash_of_nothing() {
    assert_eq!(ContentHasher::new().finalize(), calculate_hash(b""));
}

#[test]
fn update_changes_the_hash() {
    let mut hasher = ContentHasher::new();
    hasher.update(b"hi");
    assert_ne!(hasher.finalize(), calculate_hash(b""));
}

#[test]
fn to_hex_writes_two_digits_per_byte() {
    assert_eq!(to_hex(&[]), "");
    assert_eq!(to_hex(&[0x00]), "00");
    assert_eq!(to_hex(&[10, 20, 30]), "0a141e");
    assert_eq!(to_hex(&[0xff, 0x0f, 0xf0, 0x9a]), "ff0ff09a");
}

#[test]
fn to_hex_covers_every_digit() {
    assert_eq!(to_hex(&[0x01, 0x23, 0x45, 0x67, 0x89, 0xab, 0xcd, 0xef]), "0123456789abcdef");
}

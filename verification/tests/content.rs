use phonia::content::{content_hash, HASH_CHUNK};
use phonia::wav::BytesReader;

#[test]
fn content_hash_is_the_blake3_hex_digest() {
    let digest = content_hash(&BytesReader::new(b"foo".to_vec())).unwrap();
    assert_eq!(digest, blake3::hash(b"foo").to_hex().to_string());
    assert_eq!(digest.len(), 64);
    assert!(digest.chars().all(|c| c.is_ascii_hexdigit() && !c.is_ascii_uppercase()));
}

#[test]
fn hashing_in_chunks_equals_hashing_at_once() {
    let data: Vec<u8> = (0..(2 * HASH_CHUNK + 12_345)).map(|i| (i * 31 % 251) as u8).collect();
    let digest = content_hash(&BytesReader::new(data.clone())).unwrap();
    assert_eq!(digest, blake3::hash(&data).to_hex().to_string());
}

#[test]
fn the_empty_source_has_the_empty_digest() {
    let digest = content_hash(&BytesReader::new(Vec::new())).unwrap();
    assert_eq!(digest, blake3::hash(&[]).to_hex().to_string());
    assert_ne!(digest, content_hash(&BytesReader::new(vec![0])).unwrap());
}

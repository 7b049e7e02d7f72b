use file_dedup::file::FileRecord;
use file_dedup::hashing::{hash_bytes, hash_file, hex_encode, hex_number, HashAlgorithm};

fn record(path: &str, content: Option<&[u8]>) -> FileRecord {
    FileRecord {
        path: path.to_string(),
        size: content.map(|c| c.len() as u64),
        content: content.map(|c| c.to_vec()),
    }
}

#[test]
fn test_hash_file_sha256() {
    let file = record("test_sha256.txt", Some(b"hello rust"));
    let result = hash_file(&file, HashAlgorithm::Sha256);
    assert!(result.is_some());
    assert_eq!(
        result.unwrap(),
        "e8c73ac958a87f17906b092bd99f37038788ee23b271574aad6d5bf1c76cc61c"
    );
}

#[test]
fn test_hash_file_blake3() {
    let file = record("test_blake3.txt", Some(b"hello rust"));
    let result = hash_file(&file, HashAlgorithm::Blake3);
    assert!(result.is_some());
    let digest = result.unwrap();
    assert_eq!(digest.len(), 64);
    assert!(digest.chars().all(|c| c.is_ascii_digit() || ('a'..='f').contains(&c)));
    assert_ne!(digest, hash_bytes(b"hello rust", HashAlgorithm::Sha256));
}

#[test]
fn test_hash_file_xxhash() {
    let file = record("test_xxhash.txt", Some(b"hello rust"));
    let result = hash_file(&file, HashAlgorithm::XxHash);
    assert!(result.is_some());
    let digest = result.unwrap();
    assert!(!digest.is_empty() && digest.len() <= 16);
    assert!(digest.chars().all(|c| c.is_ascii_digit() || ('a'..='f').contains(&c)));
}

#[test]
fn test_hash_file_nonexistent() {
    let file = record("non_existent_file.txt", None);
    let result = hash_file(&file, HashAlgorithm::Sha256);
    assert!(result.is_none());
}

#[test]
fn unreadable_file_has_no_digest_under_any_algorithm() {
    let file = record("gone.bin", None);
    assert!(hash_file(&file, HashAlgorithm::Blake3).is_none());
    assert!(hash_file(&file, HashAlgorithm::XxHash).is_none());
}

#[test]
fn sha256_of_nothing() {
    assert_eq!(
        hash_bytes(b"", HashAlgorithm::Sha256),
        "e3b0c44298fc1c149afbf4c8996fb92427ae41e4649b934ca495991b7852b855"
    );
}

#[test]
fn blake3_of_nothing() {
    assert_eq!(
        hash_bytes(b"", HashAlgorithm::Blake3),
        "af1349b9f5f9a1a6a0404dea36dcc9499bcb25c9adc112b7cc9a93cae41f3262"
    );
}

#[test]
fn xxhash_of_nothing() {
    assert_eq!(hash_bytes(b"", HashAlgorithm::XxHash), "ef46db3751d8e999");
}

#[test]
fn xxhash_digest_has_no_leading_zero() {
    // XXH64 of the single byte 42 is 0x0a9edecebeb03ae4.
    assert_eq!(hash_bytes(&[42], HashAlgorithm::XxHash), "a9edecebeb03ae4");
}

#[test]
fn xxhash_of_several_bytes() {
    assert_eq!(hash_bytes(b"Hello, world!\0", HashAlgorithm::XxHash), "7b06c531ea43e89f");
}

#[test]
fn equal_content_gives_equal_digest_whatever_the_path() {
    let a = record("a/one.txt", Some(b"same bytes"));
    let b = record("b/two.dat", Some(b"same bytes"));
    for algo in [HashAlgorithm::Sha256, HashAlgorithm::Blake3, HashAlgorithm::XxHash] {
        assert_eq!(hash_file(&a, algo), hash_file(&b, algo));
    }
}

#[test]
fn different_content_gives_different_digest() {
    let a = record("a.txt", Some(b"duplicate content"));
    let b = record("b.txt", Some(b"unique content"));
    for algo in [HashAlgorithm::Sha256, HashAlgorithm::Blake3, HashAlgorithm::XxHash] {
        assert_ne!(hash_file(&a, algo), hash_file(&b, algo));
    }
}

#[test]
fn hex_encode_writes_two_lowercase_digits_a_byte() {
    assert_eq!(hex_encode(&[]), "");
    assert_eq!(hex_encode(&[0x00]), "00");
    assert_eq!(hex_encode(&[0x0f, 0xf0, 0xab, 0x09]), "0ff0ab09");
    assert_eq!(hex_encode(&[0xff, 0x10]), "ff10");
}

#[test]
fn hex_number_drops_leading_zeros() {
    assert_eq!(hex_number(0), "0");
    assert_eq!(hex_number(9), "9");
    assert_eq!(hex_number(10), "a");
    assert_eq!(hex_number(16), "10");
    assert_eq!(hex_number(255), "ff");
    assert_eq!(hex_number(4096), "1000");
    assert_eq!(hex_number(u64::MAX), "ffffffffffffffff");
    assert_eq!(hex_number(0x0a9e_dece_beb0_3ae4), "a9edecebeb03ae4");
}

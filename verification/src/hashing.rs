//! The hasher: content digests as lowercase hexadecimal text.

use crate::file::FileRecord;
use crate::path::text_view;
use sha2::{Digest, Sha256};
use std::hash::Hasher;
use twox_hash::XxHash64;
use vstd::prelude::*;

verus! {

/// The digest algorithms on offer.
#[derive(Clone, Copy, Debug, PartialEq, Eq, Structural)]
pub enum HashAlgorithm {
    /// SHA-256, a cryptographic digest.
    Sha256,
    /// BLAKE3, a tree digest.
    Blake3,
    /// XXH64 with seed 0, a fast digest without cryptographic strength.
    XxHash,
}

/// The bytes that `sha2::Sha256::digest` computes for `data`.
pub uninterp spec fn sha256_of(data: Seq<u8>) -> Seq<u8>;

/// The bytes of the hash that `blake3::hash` computes for `data`.
pub uninterp spec fn blake3_of(data: Seq<u8>) -> Seq<u8>;

/// The number that a `twox_hash::XxHash64` with seed 0 gives after it was fed
/// `data` in one write.
pub uninterp spec fn xxhash64_of(data: Seq<u8>) -> u64;

/// The lowercase hexadecimal digit for a value below 16.
pub open spec fn hex_digit(value: int) -> char {
    seq![
        '0',
        '1',
        '2',
        '3',
        '4',
        '5',
        '6',
        '7',
        '8',
        '9',
        'a',
        'b',
        'c',
        'd',
        'e',
        'f',
    ][value]
}

/// Two digits for each byte, the high half first.
pub open spec fn hex_of_bytes(bytes: Seq<u8>) -> Seq<char> {
    Seq::new(
        2 * bytes.len(),
        |i: int|
            if i % 2 == 0 {
                hex_digit(bytes[i / 2] as int / 16)
            } else {
                hex_digit(bytes[i / 2] as int % 16)
            },
    )
}

/// The digits of `value` in base 16 without leading zeros; `0` for zero.
pub open spec fn hex_of_number(value: nat) -> Seq<char>
    decreases value,
{
    if value < 16 {
        seq![hex_digit(value as int)]
    } else {
        hex_of_number(value / 16).push(hex_digit(value as int % 16))
    }
}

/// The digest text of `data` under `algo`.
pub open spec fn digest_of(algo: HashAlgorithm, data: Seq<u8>) -> Seq<char> {
    match algo {
        HashAlgorithm::Sha256 => hex_of_bytes(sha256_of(data)),
        HashAlgorithm::Blake3 => hex_of_bytes(blake3_of(data)),
        HashAlgorithm::XxHash => hex_of_number(xxhash64_of(data) as nat),
    }
}

/// The digest text of a file: that of its content, and none where the
/// content could not be read.
pub open spec fn file_digest(file: FileRecord, algo: HashAlgorithm) -> Option<Seq<char>> {
    match file.content {
        Some(content) => Some(digest_of(algo, content@)),
        None => None,
    }
}

/// Calls `sha2::Sha256::digest` and copies the output array into a vector.
///
/// Taken on trust: that the output depends on the data alone. `sha256_of`
/// only gives it a name.
#[verifier::external_body]
fn sha256_digest(data: &[u8]) -> (digest: Vec<u8>)
    ensures
        digest@ == sha256_of(data@),
{
    Sha256::digest(data).to_vec()
}

/// Calls `blake3::hash` and copies the bytes of the hash into a vector.
///
/// Taken on trust: that the hash depends on the data alone. `blake3_of` only
/// gives it a name.
#[verifier::external_body]
fn blake3_digest(data: &[u8]) -> (digest: Vec<u8>)
    ensures
        digest@ == blake3_of(data@),
{
    blake3::hash(data).as_bytes().to_vec()
}

/// Feeds `data` to a default `twox_hash::XxHash64`, whose seed is 0, and
/// returns what it finishes with.
///
/// Taken on trust: that the number depends on the data alone. `xxhash64_of`
/// only gives it a name.
#[verifier::external_body]
fn xxhash64_value(data: &[u8]) -> (hash: u64)
    ensures
        hash == xxhash64_of(data@),
{
    let mut hasher = XxHash64::default();
    hasher.write(data);
    hasher.finish()
}

/// The one-character text of a hexadecimal digit.
fn digit_text(value: u8) -> (text: &'static str)
    requires
        value < 16,
    ensures
        text@ == seq![hex_digit(value as int)],
{
    proof {
        reveal_strlit("0");
        reveal_strlit("1");
        reveal_strlit("2");
        reveal_strlit("3");
        reveal_strlit("4");
        reveal_strlit("5");
        reveal_strlit("6");
        reveal_strlit("7");
        reveal_strlit("8");
        reveal_strlit("9");
        reveal_strlit("a");
        reveal_strlit("b");
        reveal_strlit("c");
        reveal_strlit("d");
        reveal_strlit("e");
        reveal_strlit("f");
    }
    let text = match value {
        0 => "0",
        1 => "1",
        2 => "2",
        3 => "3",
        4 => "4",
        5 => "5",
        6 => "6",
        7 => "7",
        8 => "8",
        9 => "9",
        10 => "a",
        11 => "b",
        12 => "c",
        13 => "d",
        14 => "e",
        _ => "f",
    };
    assert(text@ =~= seq![hex_digit(value as int)]);
    text
}

/// Encodes `bytes` in lowercase hexadecimal, two digits a byte.
pub fn hex_encode(bytes: &[u8]) -> (text: String)
    ensures
        text@ == hex_of_bytes(bytes@),
{
    let mut text = String::new();
    let mut i: usize = 0;
    while i < bytes.len()
        invariant
            i <= bytes.len(),
            text@ == hex_of_bytes(bytes@.take(i as int)),
        decreases bytes.len() - i,
    {
        let byte = bytes[i];
        let ghost before = text@;
        text.append(digit_text(byte / 16));
        text.append(digit_text(byte % 16));
        assert(text@ =~= hex_of_bytes(bytes@.take(i + 1))) by {
            assert(text@ == before + seq![hex_digit(byte as int / 16)] + seq![
                hex_digit(byte as int % 16),
            ]);
        }
        i += 1;
    }
    assert(bytes@.take(bytes.len() as int) == bytes@);
    text
}

/// Appends the base-16 digits of `value` to `text`.
fn append_hex_number(text: &mut String, value: u64)
    ensures
        final(text)@ == old(text)@ + hex_of_number(value as nat),
    decreases value,
{
    if value >= 16 {
        append_hex_number(text, value / 16);
    }
    text.append(digit_text((value % 16) as u8));
}

/// Writes `value` in lowercase hexadecimal without leading zeros.
pub fn hex_number(value: u64) -> (text: String)
    ensures
        text@ == hex_of_number(value as nat),
{
    let mut text = String::new();
    append_hex_number(&mut text, value);
    text
}

/// The digest text of `data` under `algo`.
pub fn hash_bytes(data: &[u8], algo: HashAlgorithm) -> (digest: String)
    ensures
        digest@ == digest_of(algo, data@),
{
    match algo {
        HashAlgorithm::Sha256 => hex_encode(sha256_digest(data).as_slice()),
        HashAlgorithm::Blake3 => hex_encode(blake3_digest(data).as_slice()),
        HashAlgorithm::XxHash => hex_number(xxhash64_value(data)),
    }
}

/// The digest text of a file's content, or `None` where the content could
/// not be read.
pub fn hash_file(file: &FileRecord, algo: HashAlgorithm) -> (digest: Option<String>)
    ensures
        text_view(digest) == file_digest(*file, algo),
{
    match &file.content {
        Some(content) => Some(hash_bytes(content.as_slice(), algo)),
        None => None,
    }
}

/// Files with the same content have the same digest, whatever the algorithm
/// and whatever else differs between them.
pub proof fn lemma_equal_content_equal_digest(a: FileRecord, b: FileRecord, algo: HashAlgorithm)
    requires
        a.content matches Some(x) && b.content matches Some(y) && x@ == y@,
    ensures
        file_digest(a, algo) == file_digest(b, algo),
        file_digest(a, algo) is Some,
{
}

/// Different values below 16 have different digits.
pub proof fn lemma_hex_digit_injective(x: int, y: int)
    requires
        0 <= x < 16,
        0 <= y < 16,
        hex_digit(x) == hex_digit(y),
    ensures
        x == y,
{
}

/// The hexadecimal text of a byte string tells the byte string: different
/// byte strings have different texts.
pub proof fn lemma_hex_of_bytes_injective(a: Seq<u8>, b: Seq<u8>)
    requires
        hex_of_bytes(a) == hex_of_bytes(b),
    ensures
        a == b,
{
    let ta = hex_of_bytes(a);
    let tb = hex_of_bytes(b);
    assert(ta.len() == 2 * a.len() && tb.len() == 2 * b.len());
    assert forall|i: int| 0 <= i < a.len() implies a[i] == b[i] by {
        let x = a[i] as int;
        let y = b[i] as int;
        assert(ta[2 * i] == hex_digit(x / 16) && tb[2 * i] == hex_digit(y / 16));
        assert(ta[2 * i + 1] == hex_digit(x % 16) && tb[2 * i + 1] == hex_digit(y % 16));
        lemma_hex_digit_injective(x / 16, y / 16);
        lemma_hex_digit_injective(x % 16, y % 16);
    }
    assert(a =~= b);
}

/// A number below 16 has one digit, and a greater number more than one.
pub proof fn lemma_hex_of_number_len(value: nat)
    ensures
        hex_of_number(value).len() >= 1,
        hex_of_number(value).len() == 1 <==> value < 16,
    decreases value,
{
    if value >= 16 {
        lemma_hex_of_number_len(value / 16);
    }
}

/// The hexadecimal text of a number tells the number: different numbers
/// have different texts.
pub proof fn lemma_hex_of_number_injective(x: nat, y: nat)
    requires
        hex_of_number(x) == hex_of_number(y),
    ensures
        x == y,
    decreases x,
{
    lemma_hex_of_number_len(x);
    lemma_hex_of_number_len(y);
    if x < 16 {
        assert(hex_of_number(x)[0] == hex_digit(x as int));
        assert(hex_of_number(y)[0] == hex_digit(y as int));
        lemma_hex_digit_injective(x as int, y as int);
    } else {
        let tx = hex_of_number(x / 16);
        let ty = hex_of_number(y / 16);
        assert(hex_of_number(x).drop_last() =~= tx);
        assert(hex_of_number(y).drop_last() =~= ty);
        assert(hex_of_number(x).last() == hex_digit(x as int % 16));
        assert(hex_of_number(y).last() == hex_digit(y as int % 16));
        lemma_hex_of_number_injective(x / 16, y / 16);
        lemma_hex_digit_injective(x as int % 16, y as int % 16);
    }
}

} // verus!

//! Image similarity: the Hamming distance between the perceptual hashes of
//! two images.

use img_hash::image::GrayImage;
use img_hash::{HashAlg, HasherConfig};
use vstd::prelude::*;

verus! {

/// A raster image in 8-bit grayscale, row by row.
///
/// It has at least one pixel, and one byte for each pixel.
pub struct LumaImage {
    width: u32,
    height: u32,
    luma: Vec<u8>,
}

/// What an image holds, as plain mathematics.
pub struct ImageView {
    pub width: nat,
    pub height: nat,
    pub luma: Seq<u8>,
}

/// The bytes of the hash that an `img_hash` hasher, configured for the mean
/// algorithm and otherwise left at its defaults, computes for the grayscale
/// image of the given width, height and pixels.
pub uninterp spec fn mean_hash_of(width: nat, height: nat, luma: Seq<u8>) -> Seq<u8>;

/// The number of bits that are set in `byte`.
pub open spec fn bit_count(byte: u8) -> nat {
    ((byte & 1) + ((byte >> 1) & 1) + ((byte >> 2) & 1) + ((byte >> 3) & 1) + ((byte >> 4) & 1) + ((
    byte >> 5) & 1) + ((byte >> 6) & 1) + ((byte >> 7) & 1)) as nat
}

/// The number of bits in which the first `n` bytes of `a` and of `b` differ.
pub open spec fn differing_bits(a: Seq<u8>, b: Seq<u8>, n: nat) -> nat
    decreases n,
{
    if n == 0 {
        0
    } else {
        differing_bits(a, b, (n - 1) as nat) + bit_count(a[n - 1] ^ b[n - 1])
    }
}

/// The length of the shorter of two byte strings.
pub open spec fn common_len(a: Seq<u8>, b: Seq<u8>) -> nat {
    if a.len() <= b.len() {
        a.len()
    } else {
        b.len()
    }
}

/// The Hamming distance of two byte strings: the number of bits in which
/// they differ, over the length that both have.
pub open spec fn hamming(a: Seq<u8>, b: Seq<u8>) -> nat {
    differing_bits(a, b, common_len(a, b))
}

/// The perceptual hash of an image.
pub open spec fn perceptual_hash(image: ImageView) -> Seq<u8> {
    mean_hash_of(image.width, image.height, image.luma)
}

/// The image score of two images: the Hamming distance of their hashes.
pub open spec fn image_score(first: ImageView, second: ImageView) -> nat {
    hamming(perceptual_hash(first), perceptual_hash(second))
}

impl LumaImage {
    #[verifier::type_invariant]
    spec fn well_formed(&self) -> bool {
        &&& self.width > 0
        &&& self.height > 0
        &&& self.luma@.len() == self.width * self.height
    }

    /// Width, height and pixels.
    pub closed spec fn view(&self) -> ImageView {
        ImageView { width: self.width as nat, height: self.height as nat, luma: self.luma@ }
    }

    /// An image of `width` by `height` pixels, where `luma` holds exactly one
    /// byte for each of them and there is at least one.
    pub fn new(width: u32, height: u32, luma: Vec<u8>) -> (image: Option<LumaImage>)
        ensures
            image is Some <==> width > 0 && height > 0 && luma@.len() == width * height,
            image matches Some(i) ==> i@ == (ImageView {
                width: width as nat,
                height: height as nat,
                luma: luma@,
            }),
    {
        if width == 0 || height == 0 {
            return None;
        }
        assert(width * height <= u64::MAX) by (nonlinear_arith)
            requires
                width <= u32::MAX,
                height <= u32::MAX,
        ;
        let pixels: u64 = (width as u64) * (height as u64);
        if luma.len() as u64 != pixels {
            return None;
        }
        Some(LumaImage { width, height, luma })
    }

    /// The number of pixels in a row.
    pub fn width(&self) -> (width: u32)
        ensures
            width == self@.width,
    {
        self.width
    }

    /// The number of rows.
    pub fn height(&self) -> (height: u32)
        ensures
            height == self@.height,
    {
        self.height
    }
}

/// Builds an `img_hash` hasher with `HasherConfig::new`, `hash_alg` set to
/// the mean algorithm and `to_hasher`, and hashes the image with
/// `hash_image`. The hash size is left at 8 by 8 bits, so the hash has 8 bytes.
///
/// Taken on trust: that the hash depends on the width, the height and the
/// pixels alone, and that it has 8 bytes. `mean_hash_of` only gives it a
/// name. An image without pixels is kept out, because the hasher cannot
/// scale it.
#[verifier::external_body]
fn mean_hash(image: &LumaImage) -> (hash: Vec<u8>)
    requires
        image.well_formed(),
    ensures
        hash@ == mean_hash_of(image@.width, image@.height, image@.luma),
        hash@.len() == 8,
{
    let gray = GrayImage::from_raw(image.width, image.height, image.luma.clone()).unwrap();
    let hasher = HasherConfig::new().hash_alg(HashAlg::Mean).to_hasher();
    hasher.hash_image(&gray).as_bytes().to_vec()
}

/// The number of bits that are set in `byte`.
fn count_bits(byte: u8) -> (n: u32)
    ensures
        n == bit_count(byte),
        n <= 8,
{
    assert((byte & 1) <= 1 && ((byte >> 1) & 1) <= 1 && ((byte >> 2) & 1) <= 1 && ((byte >> 3) & 1)
        <= 1 && ((byte >> 4) & 1) <= 1 && ((byte >> 5) & 1) <= 1 && ((byte >> 6) & 1) <= 1 && ((byte
        >> 7) & 1) <= 1) by (bit_vector);
    let b0: u8 = byte & 1;
    let b1: u8 = (byte >> 1) & 1;
    let b2: u8 = (byte >> 2) & 1;
    let b3: u8 = (byte >> 3) & 1;
    let b4: u8 = (byte >> 4) & 1;
    let b5: u8 = (byte >> 5) & 1;
    let b6: u8 = (byte >> 6) & 1;
    let b7: u8 = (byte >> 7) & 1;
    (b0 + b1 + b2 + b3 + b4 + b5 + b6 + b7) as u32
}

/// The Hamming distance of two byte strings, over the length that both have.
pub fn hamming_distance(a: &[u8], b: &[u8]) -> (distance: u32)
    requires
        8 * common_len(a@, b@) <= u32::MAX,
    ensures
        distance == hamming(a@, b@),
{
    let n = if a.len() <= b.len() {
        a.len()
    } else {
        b.len()
    };
    let mut distance: u32 = 0;
    let mut i: usize = 0;
    while i < n
        invariant
            i <= n,
            n == common_len(a@, b@),
            8 * n <= u32::MAX,
            distance == differing_bits(a@, b@, i as nat),
            distance <= 8 * i,
        decreases n - i,
    {
        distance = distance + count_bits(a[i] ^ b[i]);
        i += 1;
    }
    distance
}

/// The Hamming distance between the perceptual hashes of two images.
///
/// The smaller the score, the more alike the images look; images with the
/// same hash score 0.
pub fn compare_images(first: &LumaImage, second: &LumaImage) -> (score: u32)
    ensures
        score == image_score(first@, second@),
        score <= 64,
{
    proof {
        use_type_invariant(first);
        use_type_invariant(second);
    }
    let a = mean_hash(first);
    let b = mean_hash(second);
    proof {
        lemma_differing_bits_bound(a@, b@, 8);
    }
    hamming_distance(a.as_slice(), b.as_slice())
}

/// The first `n` bytes differ in at most 8 bits each.
pub proof fn lemma_differing_bits_bound(a: Seq<u8>, b: Seq<u8>, n: nat)
    ensures
        differing_bits(a, b, n) <= 8 * n,
    decreases n,
{
    if n > 0 {
        lemma_differing_bits_bound(a, b, (n - 1) as nat);
        let x = a[n - 1] ^ b[n - 1];
        assert((x & 1) <= 1 && ((x >> 1) & 1) <= 1 && ((x >> 2) & 1) <= 1 && ((x >> 3) & 1) <= 1 && ((
        x >> 4) & 1) <= 1 && ((x >> 5) & 1) <= 1 && ((x >> 6) & 1) <= 1 && ((x >> 7) & 1) <= 1)
            by (bit_vector);
    }
}

/// The number of differing bits does not depend on the order of the two
/// byte strings.
pub proof fn lemma_differing_bits_symmetric(a: Seq<u8>, b: Seq<u8>, n: nat)
    ensures
        differing_bits(a, b, n) == differing_bits(b, a, n),
    decreases n,
{
    if n > 0 {
        lemma_differing_bits_symmetric(a, b, (n - 1) as nat);
        let x = a[n - 1];
        let y = b[n - 1];
        assert(x ^ y == y ^ x) by (bit_vector);
    }
}

/// The Hamming distance does not depend on the order of the two byte strings.
pub proof fn lemma_hamming_symmetric(a: Seq<u8>, b: Seq<u8>)
    ensures
        hamming(a, b) == hamming(b, a),
{
    lemma_differing_bits_symmetric(a, b, common_len(a, b));
}

/// A byte without a set bit is 0, and 0 has no set bit.
pub proof fn lemma_bit_count_zero(byte: u8)
    ensures
        bit_count(byte) == 0 <==> byte == 0,
{
    assert((byte & 1) == 0 && ((byte >> 1) & 1) == 0 && ((byte >> 2) & 1) == 0 && ((byte >> 3) & 1)
        == 0 && ((byte >> 4) & 1) == 0 && ((byte >> 5) & 1) == 0 && ((byte >> 6) & 1) == 0 && ((byte
        >> 7) & 1) == 0 <==> byte == 0) by (bit_vector);
}

/// The first `n` bytes differ in no bit exactly when they are the same.
pub proof fn lemma_differing_bits_zero(a: Seq<u8>, b: Seq<u8>, n: nat)
    requires
        n <= a.len(),
        n <= b.len(),
    ensures
        differing_bits(a, b, n) == 0 <==> a.take(n as int) == b.take(n as int),
    decreases n,
{
    if n == 0 {
        assert(a.take(0) =~= b.take(0));
    } else {
        let m = (n - 1) as nat;
        lemma_differing_bits_zero(a, b, m);
        let x = a[n - 1];
        let y = b[n - 1];
        lemma_bit_count_zero(x ^ y);
        assert(x ^ y == 0 <==> x == y) by (bit_vector);
        if differing_bits(a, b, n) == 0 {
            assert(a.take(n as int) =~= a.take(m as int).push(x));
            assert(b.take(n as int) =~= b.take(m as int).push(y));
        }
        if a.take(n as int) == b.take(n as int) {
            assert(a.take(m as int) =~= a.take(n as int).take(m as int));
            assert(b.take(m as int) =~= b.take(n as int).take(m as int));
            assert(a.take(n as int)[n - 1] == x);
            assert(b.take(n as int)[n - 1] == y);
        }
    }
}

/// Two byte strings of one length have Hamming distance 0 exactly when they
/// are the same.
pub proof fn lemma_hamming_zero(a: Seq<u8>, b: Seq<u8>)
    requires
        a.len() == b.len(),
    ensures
        hamming(a, b) == 0 <==> a == b,
{
    lemma_differing_bits_zero(a, b, a.len());
    assert(a.take(a.len() as int) == a);
    assert(b.take(b.len() as int) == b);
}

/// The image score does not depend on the order of the two images.
pub proof fn lemma_image_score_symmetric(first: ImageView, second: ImageView)
    ensures
        image_score(first, second) == image_score(second, first),
{
    lemma_hamming_symmetric(perceptual_hash(first), perceptual_hash(second));
}

/// An image scores 0 against itself.
pub proof fn lemma_image_score_of_same(image: ImageView)
    ensures
        image_score(image, image) == 0,
{
    lemma_hamming_zero(perceptual_hash(image), perceptual_hash(image));
}

} // verus!

//! Hashing an item to a 128-bit value.

use vstd::prelude::*;
use vstd::arithmetic::power2::{pow2, lemma_pow2_adds, lemma_pow2_strictly_increases, lemma2_to64};
use vstd::utf8::encode_utf8;

verus! {

/// The MD5 digest of `data`, as the `md5` crate computes it.
pub uninterp spec fn md5_digest(data: Seq<u8>) -> Seq<u8>;

/// Calls `md5::compute` on `data` and hands out the sixteen bytes of the
/// digest. Assumed, not proved: the bytes are a function of `data` alone,
/// named `md5_digest`.
#[verifier::external_body]
fn md5_compute(data: &[u8]) -> (digest: [u8; 16])
    ensures
        digest@ == md5_digest(data@),
{
    md5::compute(data).0
}

/// The number that `bytes` spell in base 256, least significant byte first.
pub open spec fn le_value(bytes: Seq<u8>) -> nat
    decreases bytes.len(),
{
    if bytes.len() == 0 {
        0
    } else {
        bytes[0] as nat + 256 * le_value(bytes.skip(1))
    }
}

/// Little-endian values of `n` bytes stay below `2^(8n)`.
pub proof fn lemma_le_value_bound(bytes: Seq<u8>)
    ensures
        le_value(bytes) < pow2(8 * bytes.len()),
    decreases bytes.len(),
{
    lemma2_to64();
    if bytes.len() > 0 {
        let rest = bytes.skip(1);
        lemma_le_value_bound(rest);
        lemma_pow2_adds(8, 8 * rest.len());
        assert(bytes[0] as nat + 256 * le_value(rest) < 256 * pow2(8 * rest.len()))
            by (nonlinear_arith)
            requires
                bytes[0] < 256,
                le_value(rest) < pow2(8 * rest.len()),
        ;
    }
}

/// The 128-bit hash of `data`: its MD5 digest read as a little-endian number.
pub open spec fn hash_of(data: Seq<u8>) -> u128 {
    le_value(md5_digest(data)) as u128
}

/// The 128-bit hash of a text: the hash of its UTF-8 encoding.
pub open spec fn text_hash(text: Seq<char>) -> u128 {
    hash_of(encode_utf8(text))
}

/// The hashes of a sequence of texts, in the same order.
pub open spec fn text_hashes(texts: Seq<Seq<char>>) -> Seq<u128> {
    Seq::new(texts.len(), |i: int| text_hash(texts[i]))
}

/// Reads sixteen bytes as a little-endian number.
pub fn le_u128(bytes: &[u8; 16]) -> (value: u128)
    ensures
        value == le_value(bytes@),
{
    let mut value: u128 = 0;
    let mut i: usize = 16;
    proof {
        assert(bytes@.skip(16) =~= Seq::<u8>::empty());
        lemma2_to64();
    }
    while i > 0
        invariant
            i <= 16,
            bytes@.len() == 16,
            value == le_value(bytes@.skip(i as int)),
        decreases i,
    {
        i = i - 1;
        proof {
            let tail = bytes@.skip(i as int);
            assert(tail.skip(1) =~= bytes@.skip(i + 1));
            assert(tail[0] == bytes@[i as int]);
            let rest = tail.skip(1);
            lemma_le_value_bound(rest);
            if rest.len() < 15 {
                lemma_pow2_strictly_increases(8 * rest.len(), 120);
            }
            lemma2_to64();
            lemma_pow2_adds(8, 120);
            lemma_pow2_adds(64, 64);
            assert(value * 256 + 255 < pow2(128)) by (nonlinear_arith)
                requires
                    value < pow2(8 * rest.len()),
                    pow2(8 * rest.len()) <= pow2(120),
                    256 * pow2(120) == pow2(128),
            ;
        }
        value = value * 256 + bytes[i] as u128;
    }
    proof {
        assert(bytes@.skip(0) =~= bytes@);
    }
    value
}

/// Hashes `data` to 128 bits.
pub fn hash_bytes(data: &[u8]) -> (h: u128)
    ensures
        h == hash_of(data@),
{
    let digest = md5_compute(data);
    proof {
        lemma_le_value_bound(digest@);
        lemma2_to64();
        lemma_pow2_adds(64, 64);
    }
    le_u128(&digest)
}

} // verus!

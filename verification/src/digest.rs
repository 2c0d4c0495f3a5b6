//! BLAKE3 content digests, computed incrementally, and the choice of which
//! bytes of a file a quick sample digest covers.

use vstd::prelude::*;

verus! {

/// blake3's incremental hasher, carried through as an opaque value.
#[verifier::external_type_specification]
#[verifier::external_body]
pub struct ExHasher(blake3::Hasher);

/// The 32-byte BLAKE3 hash of `data`, as `blake3::hash` computes it.
pub uninterp spec fn blake3_digest(data: Seq<u8>) -> Seq<u8>;

/// The bytes a `blake3::Hasher` has been fed since it was created.
pub uninterp spec fn absorbed(hasher: blake3::Hasher) -> Seq<u8>;

/// `blake3::Hasher::new`: a hasher that has been fed nothing yet.
#[verifier::external_body]
fn hasher_new() -> (h: blake3::Hasher)
    ensures
        absorbed(h) == Seq::<u8>::empty(),
{
    blake3::Hasher::new()
}

/// `blake3::Hasher::update`: feeds `data` after what the hasher was fed before.
#[verifier::external_body]
fn hasher_update(h: &mut blake3::Hasher, data: &[u8])
    ensures
        absorbed(*final(h)) == absorbed(*old(h)) + data@,
{
    h.update(data);
}

/// `blake3::Hasher::finalize`: the BLAKE3 hash of everything fed so far, which
/// the crate documents to equal `blake3::hash` of the concatenated input. The
/// result is taken as its 32 raw bytes.
#[verifier::external_body]
fn hasher_finalize(h: &blake3::Hasher) -> (r: [u8; 32])
    ensures
        r@ == blake3_digest(absorbed(*h)),
{
    *h.finalize().as_bytes()
}

/// An incremental BLAKE3 hasher whose view is the bytes fed so far.
pub struct ContentHasher {
    hasher: blake3::Hasher,
}

impl View for ContentHasher {
    type V = Seq<u8>;

    closed spec fn view(&self) -> Seq<u8> {
        absorbed(self.hasher)
    }
}

impl ContentHasher {
    /// A hasher that has been fed nothing.
    pub fn new() -> (r: Self)
        ensures
            r@ == Seq::<u8>::empty(),
    {
        ContentHasher { hasher: hasher_new() }
    }

    /// Feeds `chunk` after the bytes fed before.
    pub fn update(&mut self, chunk: &[u8])
        ensures
            final(self)@ == old(self)@ + chunk@,
    {
        hasher_update(&mut self.hasher, chunk);
    }

    /// The BLAKE3 digest of all bytes fed so far.
    pub fn finalize(&self) -> (r: [u8; 32])
        ensures
            r@ == blake3_digest(self@),
    {
        hasher_finalize(&self.hasher)
    }
}

/// Number of bytes read from each end of a file for its sample digest.
pub const SAMPLE_SIZE: u64 = 65536;

/// A file this small is hashed whole even for sampling: its two end samples
/// would cover all of it anyway.
pub fn samples_whole_file(size: u64) -> (r: bool)
    ensures
        r == (size <= 2 * SAMPLE_SIZE),
{
    size <= 2 * SAMPLE_SIZE
}

/// The sample digest of a larger file: the digest of its first sample followed
/// by its last sample.
pub fn sample_digest(head: &[u8], tail: &[u8]) -> (r: [u8; 32])
    ensures
        r@ == blake3_digest(head@ + tail@),
{
    let mut h = ContentHasher::new();
    h.update(head);
    h.update(tail);
    proof {
        assert(Seq::<u8>::empty() + head@ == head@);
    }
    h.finalize()
}

/// The BLAKE3 digest of a byte string.
pub fn digest_of(data: &[u8]) -> (r: [u8; 32])
    ensures
        r@ == blake3_digest(data@),
{
    let mut h = ContentHasher::new();
    h.update(data);
    proof {
        assert(Seq::<u8>::empty() + data@ == data@);
    }
    h.finalize()
}

/// Eight bytes, most significant first, read as one number.
pub open spec fn be_word(b0: u8, b1: u8, b2: u8, b3: u8, b4: u8, b5: u8, b6: u8, b7: u8) -> u64 {
    (b0 as u64) << 56u64 | (b1 as u64) << 48u64 | (b2 as u64) << 40u64 | (b3 as u64) << 32u64
        | (b4 as u64) << 24u64 | (b5 as u64) << 16u64 | (b6 as u64) << 8u64 | (b7 as u64)
}

/// The word that bytes `8k .. 8k + 8` of a digest form.
pub open spec fn digest_word(d: Seq<u8>, k: int) -> u64 {
    be_word(d[8 * k], d[8 * k + 1], d[8 * k + 2], d[8 * k + 3], d[8 * k + 4], d[8 * k + 5], d[8 * k + 6], d[8 * k + 7])
}

/// A digest as four numbers.
pub open spec fn digest_words(d: Seq<u8>) -> (u64, u64, u64, u64) {
    (digest_word(d, 0), digest_word(d, 1), digest_word(d, 2), digest_word(d, 3))
}

proof fn lemma_be_word_injective(
    a0: u8, a1: u8, a2: u8, a3: u8, a4: u8, a5: u8, a6: u8, a7: u8,
    b0: u8, b1: u8, b2: u8, b3: u8, b4: u8, b5: u8, b6: u8, b7: u8,
)
    by (bit_vector)
    requires
        (a0 as u64) << 56u64 | (a1 as u64) << 48u64 | (a2 as u64) << 40u64 | (a3 as u64) << 32u64
            | (a4 as u64) << 24u64 | (a5 as u64) << 16u64 | (a6 as u64) << 8u64 | (a7 as u64)
        == (b0 as u64) << 56u64 | (b1 as u64) << 48u64 | (b2 as u64) << 40u64 | (b3 as u64) << 32u64
            | (b4 as u64) << 24u64 | (b5 as u64) << 16u64 | (b6 as u64) << 8u64 | (b7 as u64),
    ensures
        a0 == b0 && a1 == b1 && a2 == b2 && a3 == b3 && a4 == b4 && a5 == b5 && a6 == b6 && a7 == b7,
{
}

proof fn lemma_word_bytes(a: Seq<u8>, b: Seq<u8>, k: int)
    requires
        0 <= k < 4,
        a.len() == 32,
        b.len() == 32,
        digest_word(a, k) == digest_word(b, k),
    ensures
        a[8 * k] == b[8 * k] && a[8 * k + 1] == b[8 * k + 1] && a[8 * k + 2] == b[8 * k + 2]
            && a[8 * k + 3] == b[8 * k + 3] && a[8 * k + 4] == b[8 * k + 4] && a[8 * k + 5] == b[8 * k + 5]
            && a[8 * k + 6] == b[8 * k + 6] && a[8 * k + 7] == b[8 * k + 7],
{
    lemma_be_word_injective(
        a[8 * k], a[8 * k + 1], a[8 * k + 2], a[8 * k + 3], a[8 * k + 4], a[8 * k + 5], a[8 * k + 6], a[8 * k + 7],
        b[8 * k], b[8 * k + 1], b[8 * k + 2], b[8 * k + 3], b[8 * k + 4], b[8 * k + 5], b[8 * k + 6], b[8 * k + 7],
    );
}

/// Two 32-byte digests are equal exactly when their words are.
pub proof fn lemma_digest_words_injective(a: Seq<u8>, b: Seq<u8>)
    requires
        a.len() == 32,
        b.len() == 32,
    ensures
        digest_words(a) == digest_words(b) <==> a == b,
{
    if digest_words(a) == digest_words(b) {
        assert forall|i: int| 0 <= i < 32 implies a[i] == b[i] by {
            let k = i / 8;
            assert(0 <= k < 4);
            lemma_word_bytes(a, b, k);
            assert(i == 8 * k || i == 8 * k + 1 || i == 8 * k + 2 || i == 8 * k + 3 || i == 8 * k + 4
                || i == 8 * k + 5 || i == 8 * k + 6 || i == 8 * k + 7);
        }
        assert(a =~= b);
    }
}

/// The digest as four numbers, for ordering and comparing digests.
pub fn digest_words_of(d: &[u8; 32]) -> (r: (u64, u64, u64, u64))
    ensures
        r == digest_words(d@),
{
    (word_at(d, 0), word_at(d, 1), word_at(d, 2), word_at(d, 3))
}

fn word_at(d: &[u8; 32], k: usize) -> (r: u64)
    requires
        k < 4,
    ensures
        r == digest_word(d@, k as int),
{
    let i = 8 * k;
    (d[i] as u64) << 56u64 | (d[i + 1] as u64) << 48u64 | (d[i + 2] as u64) << 40u64 | (d[i + 3] as u64) << 32u64
        | (d[i + 4] as u64) << 24u64 | (d[i + 5] as u64) << 16u64 | (d[i + 6] as u64) << 8u64 | (d[i + 7] as u64)
}

} // verus!

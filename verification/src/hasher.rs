//! Streaming SHA-256 fingerprints of file content.

use sha2::Digest;
use vstd::prelude::*;

verus! {

/// An incremental fingerprint computation. Content is fed in chunks of any
/// size; the fingerprint depends on the bytes alone, not on how they were
/// cut.
///
/// The state is the `sha2` crate's `Sha256`; the verifier sees none of it.
#[verifier::external_body]
pub struct Hasher {
    state: sha2::Sha256,
}

/// The SHA-256 digest of a byte string.
pub uninterp spec fn sha256(data: Seq<u8>) -> Seq<u8>;

/// The bytes that a computation has taken in so far, in order.
pub uninterp spec fn absorbed(hasher: Hasher) -> Seq<u8>;

/// The sixteen lower-case hexadecimal digits.
pub open spec fn hex_digits() -> Seq<char> {
    seq!['0', '1', '2', '3', '4', '5', '6', '7', '8', '9', 'a', 'b', 'c', 'd', 'e', 'f']
}

/// The lower-case hexadecimal rendering of a byte string: two digits for
/// each byte, the high half first.
pub open spec fn lower_hex(bytes: Seq<u8>) -> Seq<char> {
    Seq::new(
        2 * bytes.len(),
        |i: int|
            if i % 2 == 0 {
                hex_digits()[(bytes[i / 2] / 16) as int]
            } else {
                hex_digits()[(bytes[i / 2] % 16) as int]
            },
    )
}

/// The fingerprint of a content: its SHA-256 digest in lower-case
/// hexadecimal.
pub open spec fn hex_digest(data: Seq<u8>) -> Seq<char> {
    lower_hex(sha256(data))
}

/// Whether a character is one of `0`-`9`, `a`-`f`.
pub open spec fn is_lower_hex(c: char) -> bool {
    ('0' <= c && c <= '9') || ('a' <= c && c <= 'f')
}

/// The number of characters of every fingerprint.
pub const DIGEST_HEX_LEN: usize = 64;

/// Whether a string has the shape of a fingerprint: 64 lower-case
/// hexadecimal digits.
pub open spec fn is_fingerprint(s: Seq<char>) -> bool {
    &&& s.len() == DIGEST_HEX_LEN
    &&& forall|i: int| 0 <= i < s.len() ==> is_lower_hex(#[trigger] s[i])
}

/// `sha2::Sha256::new`: a state that has taken in nothing.
#[verifier::external_body]
fn sha256_start() -> (hasher: Hasher)
    ensures
        absorbed(hasher) == Seq::<u8>::empty(),
{
    Hasher { state: sha2::Sha256::new() }
}

/// `sha2::Digest::update` on a `Sha256`: the chunk is appended to what the
/// state has taken in.
#[verifier::external_body]
fn sha256_absorb(hasher: &mut Hasher, chunk: &[u8])
    ensures
        absorbed(*final(hasher)) == absorbed(*old(hasher)) + chunk@,
{
    hasher.state.update(chunk);
}

/// `sha2::Digest::finalize` on a `Sha256`, rendered with `{:x}`, which is the
/// `LowerHex` of `generic_array::GenericArray`: the digest of everything the
/// state has taken in, two lower-case hexadecimal digits for each of its 32
/// bytes, the high half of a byte first.
#[verifier::external_body]
fn sha256_finish(hasher: Hasher) -> (hex: String)
    ensures
        hex@ == lower_hex(sha256(absorbed(hasher))),
        hex@.len() == 64,
{
    format!("{:x}", hasher.state.finalize())
}

/// A hexadecimal rendering has two characters for each byte, all of them
/// lower-case hexadecimal digits.
pub proof fn lemma_lower_hex_shape(bytes: Seq<u8>)
    ensures
        lower_hex(bytes).len() == 2 * bytes.len(),
        forall|i: int|
            0 <= i < lower_hex(bytes).len() ==> is_lower_hex(#[trigger] lower_hex(bytes)[i]),
{
    assert forall|i: int| 0 <= i < lower_hex(bytes).len() implies is_lower_hex(
        #[trigger] lower_hex(bytes)[i],
    ) by {
        let b = bytes[i / 2];
        let d: int = if i % 2 == 0 {
            (b / 16) as int
        } else {
            (b % 16) as int
        };
        assert(0 <= d < 16);
        assert(lower_hex(bytes)[i] == hex_digits()[d]);
        assert(forall|k: int| 0 <= k < 16 ==> is_lower_hex(#[trigger] hex_digits()[k]));
    }
}

impl View for Hasher {
    type V = Seq<u8>;

    /// The content fed so far.
    open spec fn view(&self) -> Seq<u8> {
        absorbed(*self)
    }
}

impl Hasher {
    /// A computation that has seen no content yet.
    pub fn new() -> (hasher: Self)
        ensures
            hasher@ == Seq::<u8>::empty(),
    {
        sha256_start()
    }

    /// Feeds the next chunk of content.
    pub fn update(&mut self, chunk: &[u8])
        ensures
            final(self)@ == old(self)@ + chunk@,
    {
        sha256_absorb(self, chunk);
    }

    /// Ends the computation and returns the fingerprint of all the content
    /// that was fed.
    pub fn finalize(self) -> (digest: String)
        ensures
            digest@ == hex_digest(self@),
            is_fingerprint(digest@),
    {
        let ghost fed = self@;
        let digest = sha256_finish(self);
        proof {
            lemma_lower_hex_shape(sha256(fed));
        }
        digest
    }
}

} // verus!

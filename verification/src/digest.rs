//! Fixed-width cryptographic digests. SHA3-256 is the one supported
//! algorithm: 32 bytes, compared and ordered lexicographically.

use vstd::prelude::*;

use sha3::Digest as _;

use crate::bytes::{bytes_eq, clone_bytes};

verus! {

/// Width in bytes of a SHA3-256 digest.
pub const DIGEST_SIZE: usize = 32;

/// The SHA3-256 digest of a byte sequence. The hash itself is computed by an
/// outside implementation; this library relies only on the result being a
/// 32-byte function of the input bytes alone, the same on every host and run.
pub uninterp spec fn sha3_256_of(input: Seq<u8>) -> Seq<u8>;

/// Relies on `sha3::Sha3_256` (through `digest::Digest::digest`): the result
/// is the 32-byte SHA3-256 hash of the input, a function of the bytes alone.
#[verifier::external_body]
fn sha3_256(input: &Vec<u8>) -> (r: Vec<u8>)
    ensures
        r@ == sha3_256_of(input@),
        r@.len() == DIGEST_SIZE,
{
    sha3::Sha3_256::digest(input.as_slice()).to_vec()
}

/// A SHA3-256 digest: exactly [`DIGEST_SIZE`] bytes.
#[derive(Debug)]
pub struct Sha3Digest {
    bytes: Vec<u8>,
}

impl View for Sha3Digest {
    type V = Seq<u8>;

    closed spec fn view(&self) -> Seq<u8> {
        self.bytes@
    }
}

impl Sha3Digest {
    /// Every digest value carries exactly [`DIGEST_SIZE`] bytes.
    #[verifier::type_invariant]
    pub closed spec fn inv(self) -> bool {
        self.bytes@.len() == DIGEST_SIZE
    }

    /// What the invariant says of the public view: the digest is full width.
    pub proof fn lemma_full_width(&self)
        requires
            self.inv(),
        ensures
            self@.len() == DIGEST_SIZE,
    {
    }

    /// Builds a digest value from its raw bytes.
    pub fn from_bytes(bytes: &Vec<u8>) -> (r: Sha3Digest)
        requires
            bytes@.len() == DIGEST_SIZE,
        ensures
            r@ == bytes@,
    {
        Sha3Digest { bytes: clone_bytes(bytes) }
    }

    /// The raw bytes of the digest.
    pub fn as_bytes(&self) -> (r: &Vec<u8>)
        ensures
            r@ == self@,
            r@.len() == DIGEST_SIZE,
    {
        proof {
            use_type_invariant(self);
        }
        &self.bytes
    }

    /// Hashes `input` with SHA3-256.
    pub fn hash_bytes(input: &Vec<u8>) -> (r: Sha3Digest)
        ensures
            r@ == sha3_256_of(input@),
    {
        let bytes = sha3_256(input);
        Sha3Digest { bytes }
    }

    /// Three-way lexicographic comparison of two digests; digests compare
    /// equal exactly when their bytes do.
    pub fn compare(&self, other: &Sha3Digest) -> (r: i8)
        ensures
            r < 0 <==> crate::bytes::lex_lt(self@, other@),
            r == 0 <==> self@ == other@,
            r > 0 <==> crate::bytes::lex_lt(other@, self@),
    {
        crate::bytes::bytes_cmp(&self.bytes, &other.bytes)
    }

    /// An explicit copy of the digest value.
    pub fn duplicate(&self) -> (r: Sha3Digest)
        ensures
            r@ == self@,
    {
        proof {
            use_type_invariant(self);
        }
        Sha3Digest { bytes: clone_bytes(&self.bytes) }
    }
}

impl PartialEq for Sha3Digest {
    fn eq(&self, other: &Sha3Digest) -> (r: bool) {
        bytes_eq(&self.bytes, &other.bytes)
    }
}

impl Eq for Sha3Digest {}

impl vstd::std_specs::cmp::PartialEqSpecImpl for Sha3Digest {
    open spec fn obeys_eq_spec() -> bool {
        true
    }

    open spec fn eq_spec(&self, other: &Sha3Digest) -> bool {
        self@ == other@
    }
}

} // verus!

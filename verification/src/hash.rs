use vstd::prelude::*;
use sha1::Digest;

verus! {

/// The hash algorithm that seals an index file: the trailer is a digest over
/// every byte that precedes it, and object ids have the digest's width.
#[derive(Clone, Copy, Debug, PartialEq, Eq, Structural)]
pub enum HashKind {
    Sha1,
    Sha256,
}

impl HashKind {
    /// The width of a digest of this kind, in bytes.
    pub open spec fn spec_len(self) -> int {
        match self {
            HashKind::Sha1 => 20,
            HashKind::Sha256 => 32,
        }
    }

    /// The width of a digest of this kind, in bytes.
    pub fn len(self) -> (n: usize)
        ensures
            n == self.spec_len(),
    {
        match self {
            HashKind::Sha1 => 20,
            HashKind::Sha256 => 32,
        }
    }
}

/// The SHA-1 digest of a byte sequence.
pub uninterp spec fn sha1_of(bytes: Seq<u8>) -> Seq<u8>;

/// The SHA-256 digest of a byte sequence.
pub uninterp spec fn sha256_of(bytes: Seq<u8>) -> Seq<u8>;

/// The digest of a byte sequence under the given algorithm.
pub open spec fn hash_of(kind: HashKind, bytes: Seq<u8>) -> Seq<u8> {
    match kind {
        HashKind::Sha1 => sha1_of(bytes),
        HashKind::Sha256 => sha256_of(bytes),
    }
}

/// Relies on `sha1::Sha1` through `digest::Digest::digest`: the digest is a
/// pure function of the input bytes and is always 20 bytes wide.
#[verifier::external_body]
fn sha1_digest(data: &[u8]) -> (r: Vec<u8>)
    ensures
        r@ == sha1_of(data@),
        r@.len() == 20,
{
    sha1::Sha1::digest(data).to_vec()
}

/// Relies on `sha2::Sha256` through `digest::Digest::digest`: the digest is a
/// pure function of the input bytes and is always 32 bytes wide.
#[verifier::external_body]
fn sha256_digest(data: &[u8]) -> (r: Vec<u8>)
    ensures
        r@ == sha256_of(data@),
        r@.len() == 32,
{
    sha2::Sha256::digest(data).to_vec()
}

/// Computes the checksum of `data` under `kind`, as written in an index
/// file's trailer.
pub fn compute_checksum(kind: HashKind, data: &[u8]) -> (r: Vec<u8>)
    ensures
        r@ == hash_of(kind, data@),
        r@.len() == kind.spec_len(),
{
    match kind {
        HashKind::Sha1 => sha1_digest(data),
        HashKind::Sha256 => sha256_digest(data),
    }
}

} // verus!

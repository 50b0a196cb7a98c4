//! The digests that identify archives, files and records.
use sha1::Digest as _;
use vstd::prelude::*;

verus! {

/// The SHA-1 digest of a run of bytes.
pub uninterp spec fn sha1_digest(bytes: Seq<u8>) -> Seq<u8>;

/// The byte at a place of the SHA-256 digest of a run of bytes.
pub uninterp spec fn sha256_byte(bytes: Seq<u8>, at: int) -> u8;

/// The SHA-256 digest of a run of bytes.
pub closed spec fn sha256_digest(bytes: Seq<u8>) -> Seq<u8> {
    Seq::new(32, |at: int| sha256_byte(bytes, at))
}

/// Every SHA-256 digest has thirty-two bytes.
pub proof fn sha256_digests_have_one_length(bytes: Seq<u8>)
    ensures
        sha256_digest(bytes).len() == 32,
{
}

/// `sha1::Sha1::digest`: twenty bytes that depend on the input alone.
#[verifier::external_body]
pub(crate) fn sha1_of(bytes: &[u8]) -> (result: Vec<u8>)
    ensures
        result@ == sha1_digest(bytes@),
        result@.len() == 20,
{
    sha1::Sha1::digest(bytes).to_vec()
}

/// `sha2::Sha256::digest`: thirty-two bytes, each of which depends on the input
/// alone.
#[verifier::external_body]
fn sha256_bytes(bytes: &[u8]) -> (result: Vec<u8>)
    ensures
        result@ == Seq::new(32, |at: int| sha256_byte(bytes@, at)),
{
    sha2::Sha256::digest(bytes).to_vec()
}

pub(crate) fn sha256_of(bytes: &[u8]) -> (result: Vec<u8>)
    ensures
        result@ == sha256_digest(bytes@),
        result@.len() == 32,
{
    sha256_bytes(bytes)
}

/// Whether two runs of bytes are equal.
pub fn same_bytes(left: &[u8], right: &[u8]) -> (result: bool)
    ensures
        result == (left@ == right@),
{
    if left.len() != right.len() {
        return false;
    }
    let mut at: usize = 0;
    while at < left.len()
        invariant
            at <= left@.len(),
            left@.len() == right@.len(),
            forall|i: int| 0 <= i < at ==> left@[i] == right@[i],
        decreases left.len() - at,
    {
        if left[at] != right[at] {
            return false;
        }
        at += 1;
    }
    assert(left@ =~= right@);
    true
}

} // verus!

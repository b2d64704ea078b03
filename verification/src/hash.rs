//! SHA-1, the digest by which pieces and the metadata are identified.

use vstd::prelude::*;

verus! {

/// The SHA-1 digest of `data`, as the `sha1` crate computes it.
pub uninterp spec fn sha1_hash(data: Seq<u8>) -> Seq<u8>;

/// Calls `sha1::Sha1::digest` (the one-shot form of `Digest`). Not proved:
/// that the twenty bytes which come back are the SHA-1 digest of `data`,
/// which is a function of the bytes of `data` alone.
#[verifier::external_body]
pub(crate) fn sha1_digest(data: &[u8]) -> (digest: [u8; 20])
    ensures
        digest@ == sha1_hash(data@),
{
    <sha1::Sha1 as sha1::Digest>::digest(data).into()
}

/// Whether two digests are the same twenty bytes.
pub fn digest_equal(a: &[u8; 20], b: &[u8; 20]) -> (r: bool)
    ensures
        r == (a@ == b@),
{
    let mut i: usize = 0;
    while i < 20
        invariant
            i <= 20,
            forall|j: int| 0 <= j < i ==> a@[j] == b@[j],
        decreases 20 - i,
    {
        if a[i] != b[i] {
            return false;
        }
        i += 1;
    }
    assert(a@ =~= b@);
    true
}

/// The twenty bytes of `bytes` from `at` on.
pub fn digest_at(bytes: &[u8], at: usize) -> (out: [u8; 20])
    requires
        at + 20 <= bytes.len(),
    ensures
        out@ == bytes@.subrange(at as int, at + 20),
{
    let mut out: [u8; 20] = [0u8; 20];
    let mut i: usize = 0;
    while i < 20
        invariant
            i <= 20,
            at + 20 <= bytes.len(),
            forall|j: int| 0 <= j < i ==> out@[j] == bytes@[at + j],
        decreases 20 - i,
    {
        out[i] = bytes[at + i];
        i += 1;
    }
    assert(out@ =~= bytes@.subrange(at as int, at + 20));
    out
}

/// Whether the SHA-1 digest of `data` is `expected`.
pub fn sha1_matches(data: &[u8], expected: &[u8; 20]) -> (r: bool)
    ensures
        r == (sha1_hash(data@) == expected@),
{
    let digest = sha1_digest(data);
    digest_equal(&digest, expected)
}

/// The SHA-1 digest of `data`.
pub fn sha1_of(data: &[u8]) -> (digest: [u8; 20])
    ensures
        digest@ == sha1_hash(data@),
{
    sha1_digest(data)
}

} // verus!

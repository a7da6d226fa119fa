//! The cryptographic digest used by the protocol: SHA-1 over piece data and
//! over the raw info dictionary.

use vstd::prelude::*;

verus! {

/// The 20-byte SHA-1 digest of a byte sequence.  The digest is a function
/// of the bytes alone; nothing else is assumed of it.
pub uninterp spec fn sha1_of(data: Seq<u8>) -> Seq<u8>;

/// Relies on the sha1 crate's `Sha1` hasher (`new`, `update`, `finalize`):
/// it computes the 20-byte SHA-1 digest of the input, depending on the
/// input bytes alone.
#[verifier::external_body]
pub fn sha1_digest(data: &[u8]) -> (r: Vec<u8>)
    ensures
        r@ == sha1_of(data@),
        r@.len() == 20,
{
    let mut hasher = <sha1::Sha1 as sha1::Digest>::new();
    sha1::Digest::update(&mut hasher, data);
    sha1::Digest::finalize(hasher).to_vec()
}

} // verus!

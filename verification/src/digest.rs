//! The digest primitive: SHA-256 over a string's bytes.
//!
//! The digest itself is an external collaborator; the library names its
//! result and trusts one thin wrapper around it.  Everything downstream of
//! the wrapper is verified against that name.

use sha2::Digest;
use sha2::Sha256;
use vstd::prelude::*;

verus! {

/// The SHA-256 digest of the UTF-8 bytes of a character sequence: a pure
/// function of the characters alone.
pub uninterp spec fn sha256_chars(s: Seq<char>) -> Seq<u8>;

/// Relies on `sha2::Sha256::digest`: SHA-256 of the string's UTF-8 bytes,
/// a deterministic function of its input with a 32-byte output.
#[verifier::external_body]
pub(crate) fn sha256_of_str(s: &str) -> (r: Vec<u8>)
    ensures
        r@ == sha256_chars(s@),
        r@.len() == 32,
{
    Sha256::digest(s.as_bytes()).to_vec()
}

} // verus!

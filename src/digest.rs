//! Content digests: the lowercase hexadecimal SHA-1 of an object's text.

use vstd::prelude::*;

verus! {

/// The lowercase hexadecimal SHA-1 digest of the UTF-8 bytes of a text.
pub uninterp spec fn sha1_hex(s: Seq<char>) -> Seq<char>;

/// Forty lowercase hexadecimal digits.
pub open spec fn is_hex_digest(d: Seq<char>) -> bool {
    &&& d.len() == 40
    &&& forall|i: int|
        0 <= i < d.len() ==> ('0' <= #[trigger] d[i] <= '9' || 'a' <= d[i] <= 'f')
}

/// Relies on `chksum_sha1::hash` and `Digest::to_hex_lowercase`: the SHA-1
/// of the text's bytes, written as forty lowercase hexadecimal digits.
#[verifier::external_body]
pub(crate) fn digest_of(s: &str) -> (r: String)
    ensures
        r@ == sha1_hex(s@),
        is_hex_digest(r@),
{
    chksum_sha1::hash(s).to_hex_lowercase()
}

} // verus!

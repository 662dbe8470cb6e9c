//! Content digests: every object is identified by the SHA-1 digest of its
//! bytes, rendered as lowercase hexadecimal.
use vstd::prelude::*;

verus! {

/// The SHA-1 digest of a byte sequence, rendered as lowercase hexadecimal.
/// The digest is a function of the bytes alone; nothing further is assumed
/// about its value.
pub uninterp spec fn sha1_hex_of(data: Seq<u8>) -> Seq<char>;

/// Relies on `sha1::Sha1` through the `digest` crate's `Digest::digest`: the
/// digest of a byte slice is a function of the bytes alone, and the 20-byte
/// SHA-1 digest rendered as lowercase hexadecimal (`{:x}`) is 40 characters.
#[verifier::external_body]
pub(crate) fn sha1_hex(data: &Vec<u8>) -> (r: String)
    ensures
        r@ == sha1_hex_of(data@),
        r@.len() == 40,
{
    let digest = <sha1::Sha1 as sha1::Digest>::digest(data.as_slice());
    format!("{:x}", digest)
}

} // verus!

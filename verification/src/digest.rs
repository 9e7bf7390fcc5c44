use vstd::prelude::*;
use vstd::utf8::encode_utf8;
use crate::canon::{obj_text, preimage, strip};
use crate::text::{hex_of, hex_string};
use crate::value::{entries_of, members_ok, CanonError, Value};

verus! {

/// The digest that the cryptographic hash assigns to a byte sequence.  The
/// result depends on the bytes alone; nothing further is assumed of it.
pub uninterp spec fn content_hash_of(bytes: Seq<u8>) -> Seq<u8>;

/// Relies on blake3::hash: a 32-byte digest that is a function of the input
/// bytes alone.
#[verifier::external_body]
fn content_hash(bytes: &[u8]) -> (r: Vec<u8>)
    ensures
        r@ == content_hash_of(bytes@),
        r@.len() == 32,
{
    blake3::hash(bytes).as_bytes().to_vec()
}

/// The identifier of an entry: the lowercase hexadecimal rendering of the
/// digest of the UTF-8 bytes of its canonical preimage.
pub open spec fn identifier_of(entry: Value) -> Seq<char> {
    hex_of(content_hash_of(encode_utf8(obj_text(strip(entries_of(entry))))))
}

/// Compute the externally observable identifier of an entry: canonicalize
/// the entry with its top-level `attestations` members removed, hash the
/// canonical string's UTF-8 bytes, and render the digest as lowercase
/// hexadecimal, two digits per byte.
///
/// Fails exactly as [`preimage`] does: a non-object entry is rejected as
/// `InvalidEntryShape`, and a kept number without a signed 64-bit integer
/// representation as `NonCanonicalNumber`.
pub fn identify(entry: &Value) -> (r: Result<String, CanonError>)
    ensures
        match r {
            Ok(h) => (*entry) is Object && members_ok(strip(entries_of(*entry))) && h@
                == identifier_of(*entry),
            Err(e) => if (*entry) is Object {
                !members_ok(strip(entries_of(*entry))) && e == CanonError::NonCanonicalNumber
            } else {
                e == CanonError::InvalidEntryShape
            },
        },
{
    match preimage(entry) {
        Ok(p) => {
            let digest = content_hash(p.as_str().as_bytes());
            Ok(hex_string(&digest))
        },
        Err(e) => Err(e),
    }
}

} // verus!

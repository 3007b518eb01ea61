//! Content digests and identifier generation.
//!
//! Every entity in the tree carries a digest of its own fields together with
//! the digests of its children. The digest itself is computed by an outside
//! cryptographic hash; its value is given a name, `blake3_hex_of`, and the
//! rest of the library reasons about digests only through that name.

use vstd::prelude::*;

verus! {

/// The lowercase hexadecimal digest that the blake3 hash assigns to a byte
/// string. The digest is a function of the input bytes alone.
pub uninterp spec fn blake3_hex_of(data: Seq<u8>) -> Seq<u8>;

/// Relies on `blake3::hash` and `blake3::Hash::to_hex`: the digest is a pure
/// function of the input bytes, rendered as 64 lowercase hexadecimal bytes.
#[verifier::external_body]
pub fn blake3_hex(data: &[u8]) -> (r: Vec<u8>)
    ensures
        r@ == blake3_hex_of(data@),
        r@.len() == 64,
{
    blake3::hash(data).to_hex().as_bytes().to_vec()
}

/// Relies on `uuid::Uuid::new_v4`: a freshly generated random identifier,
/// 16 bytes long. Nothing is promised of its value.
#[verifier::external_body]
pub fn generate_id() -> (r: Vec<u8>)
    ensures
        r@.len() == 16,
{
    uuid::Uuid::new_v4().as_bytes().to_vec()
}

} // verus!

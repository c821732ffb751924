//! Trusted bindings to the cryptographic primitives the protocol rests on:
//! SHA-256 digests (sha2) and ECDSA signatures over secp256k1 (secp256k1).
//! Keys, digests and signatures cross this boundary as plain bytes: secret
//! keys as 32 bytes, digests as 32 bytes, signatures in 64-byte compact form,
//! public keys in 33-byte compressed form.

use sha2::Digest;
use vstd::prelude::*;

verus! {

/// The SHA-256 digest of a byte sequence: a function of the bytes alone.
pub uninterp spec fn sha256_of(data: Seq<u8>) -> Seq<u8>;

/// Whether bytes form a valid secp256k1 secret key: 32 bytes holding a
/// nonzero scalar below the curve order.
pub uninterp spec fn secret_key_ok(key: Seq<u8>) -> bool;

/// The compressed public key derived from a valid secret key.
pub uninterp spec fn public_key_of(key: Seq<u8>) -> Seq<u8>;

/// The compact ECDSA signature produced for a 32-byte digest under a valid
/// secret key (RFC 6979 makes signing deterministic).
pub uninterp spec fn signature_of(digest: Seq<u8>, key: Seq<u8>) -> Seq<u8>;

/// Whether a compact signature verifies for a 32-byte digest under a
/// compressed public key.
pub uninterp spec fn signature_valid(digest: Seq<u8>, signature: Seq<u8>, public_key: Seq<u8>) -> bool;

/// Relies on sha2's Sha256: the digest is 32 bytes and depends on the input
/// bytes alone.
#[verifier::external_body]
pub(crate) fn sha256(data: &[u8]) -> (r: Vec<u8>)
    ensures
        r@ == sha256_of(data@),
        r@.len() == 32,
{
    sha2::Sha256::digest(data).to_vec()
}

/// Relies on secp256k1's SecretKey::from_byte_array, ecdsa::sign and
/// Signature::serialize_compact: parsing the key succeeds exactly for a valid
/// 32-byte scalar; signing is deterministic (RFC 6979), so the compact
/// signature is a function of the digest and the key alone; and the produced
/// signature verifies for that digest under the key's public key.
#[verifier::external_body]
pub(crate) fn sign_digest(digest: &[u8], key: &[u8]) -> (r: Option<Vec<u8>>)
    requires
        digest@.len() == 32,
    ensures
        r is Some <==> secret_key_ok(key@),
        r matches Some(sig) ==> {
            &&& sig@ == signature_of(digest@, key@)
            &&& sig@.len() == 64
            &&& signature_valid(digest@, sig@, public_key_of(key@))
        },
{
    let kb: [u8; 32] = match key.try_into() {
        Ok(k) => k,
        Err(_) => return None,
    };
    let sk = match secp256k1::SecretKey::from_byte_array(kb) {
        Ok(k) => k,
        Err(_) => return None,
    };
    let db: [u8; 32] = digest.try_into().expect("digest is 32 bytes");
    let msg = secp256k1::Message::from_digest(db);
    Some(secp256k1::ecdsa::sign(msg, &sk).serialize_compact().to_vec())
}

/// Relies on secp256k1's ecdsa::verify (with Signature::from_compact and
/// PublicKey::from_slice): whether a compact signature verifies for a 32-byte
/// digest under a compressed public key is a function of those bytes alone;
/// malformed signature or key bytes never verify.
#[verifier::external_body]
pub(crate) fn verify_digest_signature(digest: &[u8], signature: &[u8], public_key: &[u8]) -> (r: bool)
    requires
        digest@.len() == 32,
    ensures
        r == signature_valid(digest@, signature@, public_key@),
{
    let db: [u8; 32] = digest.try_into().expect("digest is 32 bytes");
    let msg = secp256k1::Message::from_digest(db);
    let sig = match secp256k1::ecdsa::Signature::from_compact(signature) {
        Ok(s) => s,
        Err(_) => return false,
    };
    let pk = match secp256k1::PublicKey::from_slice(public_key) {
        Ok(p) => p,
        Err(_) => return false,
    };
    secp256k1::ecdsa::verify(&sig, msg, &pk).is_ok()
}

} // verus!

use ed25519_dalek::{Keypair, PublicKey, SecretKey, Signature, Signer, Verifier};
use hmac::{Hmac, Mac};
use sha2::{Digest, Sha256};
use std::convert::TryFrom;
use vstd::prelude::*;

verus! {

/// The SHA-256 digest of a byte sequence.
pub uninterp spec fn sha256_of(data: Seq<u8>) -> Seq<u8>;

/// The HMAC-SHA-256 of `data` under `key`.
pub uninterp spec fn hmac_of(key: Seq<u8>, data: Seq<u8>) -> Seq<u8>;

/// The ed25519 public key that belongs to a 32-byte secret key.
pub uninterp spec fn public_key_of(secret: Seq<u8>) -> Seq<u8>;

/// The ed25519 signature of `message` under a 32-byte secret key.
pub uninterp spec fn signature_of(secret: Seq<u8>, message: Seq<u8>) -> Seq<u8>;

/// Whether `signature` is a valid ed25519 signature of `message` by `public_key`.
pub uninterp spec fn signature_valid(public_key: Seq<u8>, message: Seq<u8>, signature: Seq<u8>) -> bool;

/// Relies on sha2's `Sha256::digest`: the digest depends on the bytes alone.
#[verifier::external_body]
pub(crate) fn digest_sha_256(data: &[u8]) -> (r: [u8; 32])
    ensures
        r@ == sha256_of(data@),
{
    Sha256::digest(data).into()
}

/// Relies on hmac's `Hmac<Sha256>`, which takes a key of any length: the MAC
/// depends on the key and the data alone.
#[verifier::external_body]
pub(crate) fn create_hmac(data: &[u8], key: &[u8]) -> (r: [u8; 32])
    ensures
        r@ == hmac_of(key@, data@),
{
    let mut mac = <Hmac<Sha256> as Mac>::new_from_slice(key).unwrap();
    mac.update(data);
    mac.finalize().into_bytes().into()
}

/// Relies on ed25519-dalek's `PublicKey::from(&SecretKey)`; a secret key of 32
/// bytes is always accepted.
#[verifier::external_body]
pub(crate) fn derive_public_key(secret: &[u8; 32]) -> (r: [u8; 32])
    ensures
        r@ == public_key_of(secret@),
{
    let secret = SecretKey::from_bytes(secret).unwrap();
    PublicKey::from(&secret).to_bytes()
}

/// Relies on ed25519-dalek's `Keypair::sign`, deterministic for a key and a message.
#[verifier::external_body]
pub(crate) fn sign(secret: &[u8; 32], message: &[u8]) -> (r: [u8; 64])
    ensures
        r@ == signature_of(secret@, message@),
{
    let secret = SecretKey::from_bytes(secret).unwrap();
    let public = PublicKey::from(&secret);
    let keypair = Keypair { secret, public };
    keypair.sign(message).to_bytes()
}

/// Relies on ed25519-dalek's `PublicKey::from_bytes` and `Verifier::verify`: a
/// key or signature that does not parse is not valid.
#[verifier::external_body]
pub(crate) fn verify_signature(public_key: &[u8; 32], message: &[u8], signature: &[u8]) -> (r: bool)
    ensures
        r == signature_valid(public_key@, message@, signature@),
{
    match (PublicKey::from_bytes(public_key), Signature::try_from(signature)) {
        (Ok(key), Ok(sig)) => key.verify(message, &sig).is_ok(),
        _ => false,
    }
}

} // verus!

//! The primitives the exchange stands on, each behind one function: SHA-256, HMAC, the
//! AES-256 counter keystream, X25519, Ed25519 and the system's randomness. What a primitive
//! computes is given a name; beside the names stand only the facts that the exchange needs.

use aes::Aes256;
use ctr::cipher::{KeyIvInit, StreamCipher, StreamCipherSeek};
use ctr::Ctr128BE;
use ed25519_dalek::{Signature, Signer, SigningKey, Verifier, VerifyingKey};
use hmac::{Hmac, Mac};
use sha2::{Digest, Sha256};
use x25519_dalek::{PublicKey, StaticSecret};
use vstd::prelude::*;

verus! {

/// The SHA-256 digest of `data`.
pub uninterp spec fn sha256(data: Seq<u8>) -> [u8; 32];

/// The HMAC of `data` under `key`, with SHA-256.
pub uninterp spec fn hmac_sha256(key: Seq<u8>, data: Seq<u8>) -> [u8; 32];

/// The byte at `index` of the keystream that AES-256 in counter mode makes of `key`, counting
/// in blocks from `iv`.
pub uninterp spec fn aes256_ctr(key: Seq<u8>, iv: Seq<u8>, index: nat) -> u8;

/// The X25519 public key of `secret`.
pub uninterp spec fn x25519_public(secret: Seq<u8>) -> [u8; 32];

/// What X25519 makes of `secret` and the peer's public key.
pub uninterp spec fn x25519_shared(secret: Seq<u8>, peer: Seq<u8>) -> [u8; 32];

/// The Ed25519 public key of the secret `seed`.
pub uninterp spec fn ed25519_public(seed: Seq<u8>) -> [u8; 32];

/// The Ed25519 signature over `message` with the secret `seed`.
pub uninterp spec fn ed25519_signature(seed: Seq<u8>, message: Seq<u8>) -> [u8; 64];

/// Whether `public` decodes to a point of the curve.
pub uninterp spec fn ed25519_point(public: Seq<u8>) -> bool;

/// Whether `signature` over `message` holds against `public`.
pub uninterp spec fn ed25519_holds(public: Seq<u8>, message: Seq<u8>, signature: Seq<u8>) -> bool;

/// `Sha256::digest` of sha2: the digest of the bytes.
#[verifier::external_body]
pub(crate) fn digest(data: &[u8]) -> (out: [u8; 32])
    ensures
        out == sha256(data@),
{
    Sha256::digest(data).into()
}

/// `Mac::finalize` of hmac, for `Hmac<Sha256>`: the code over the bytes under the key.
/// `new_from_slice` takes a key of any length.
#[verifier::external_body]
pub(crate) fn authenticate(key: &[u8], data: &[u8]) -> (out: [u8; 32])
    ensures
        out == hmac_sha256(key@, data@),
{
    let mut mac = Hmac::<Sha256>::new_from_slice(key).expect("HMAC takes a key of any length");
    mac.update(data);
    mac.finalize().into_bytes().into()
}

/// `Mac::verify_slice` of hmac, for `Hmac<Sha256>`: whether `tag` is the code over the bytes
/// under the key, compared in constant time.
#[verifier::external_body]
pub(crate) fn authentic(key: &[u8], data: &[u8], tag: &[u8]) -> (agrees: bool)
    ensures
        agrees == (tag@ == hmac_sha256(key@, data@)@),
{
    let mut mac = Hmac::<Sha256>::new_from_slice(key).expect("HMAC takes a key of any length");
    mac.update(data);
    mac.verify_slice(tag).is_ok()
}

/// `apply_keystream` of ctr's `Ctr128BE<Aes256>`, from the byte `position` of the keystream on:
/// every byte is combined with its keystream byte by exclusive or.
#[verifier::external_body]
pub(crate) fn apply_keystream(
    key: &[u8; 32],
    iv: &[u8; 16],
    position: u128,
    data: &[u8],
) -> (out: Vec<u8>)
    ensures
        out@ == Seq::new(data@.len(), |i: int| data@[i] ^ aes256_ctr(key@, iv@, (position + i) as nat)),
{
    let mut out = data.to_vec();
    let mut cipher = Ctr128BE::<Aes256>::new(key.into(), iv.into());
    cipher.seek(position);
    cipher.apply_keystream(&mut out);
    out
}

/// `PublicKey::from` of x25519-dalek: the public key of a secret.
#[verifier::external_body]
pub(crate) fn exchange_public(secret: &[u8; 32]) -> (public: [u8; 32])
    ensures
        public == x25519_public(secret@),
{
    PublicKey::from(&StaticSecret::from(*secret)).to_bytes()
}

/// `StaticSecret::diffie_hellman` of x25519-dalek: what the secret and the peer's public key
/// make together. Where the peer's public key is that of another secret, that secret makes the
/// same of this one's public key: the two ends agree.
#[verifier::external_body]
pub(crate) fn exchange_shared(secret: &[u8; 32], peer: &[u8; 32]) -> (shared: [u8; 32])
    ensures
        shared == x25519_shared(secret@, peer@),
        forall|other: Seq<u8>|
            other.len() == 32 && *peer == #[trigger] x25519_public(other) ==> shared
                == x25519_shared(other, x25519_public(secret@)@),
{
    StaticSecret::from(*secret).diffie_hellman(&PublicKey::from(*peer)).to_bytes()
}

/// `SigningKey::verifying_key` of ed25519-dalek: the public key of a seed, which is always a
/// point of the curve.
#[verifier::external_body]
pub(crate) fn signing_public(seed: &[u8; 32]) -> (public: [u8; 32])
    ensures
        public == ed25519_public(seed@),
        ed25519_point(public@),
{
    SigningKey::from_bytes(seed).verifying_key().to_bytes()
}

/// `Signer::sign` of ed25519-dalek: the signature over the message with the seed, which holds
/// against the seed's public key.
#[verifier::external_body]
pub(crate) fn sign(seed: &[u8; 32], message: &[u8]) -> (signature: [u8; 64])
    ensures
        signature == ed25519_signature(seed@, message@),
        ed25519_holds(ed25519_public(seed@)@, message@, signature@),
{
    SigningKey::from_bytes(seed).sign(message).to_bytes()
}

/// `VerifyingKey::from_bytes` of ed25519-dalek: whether the bytes decode to a public key.
#[verifier::external_body]
pub(crate) fn on_curve(public: &[u8; 32]) -> (decodes: bool)
    ensures
        decodes == ed25519_point(public@),
{
    VerifyingKey::from_bytes(public).is_ok()
}

/// `Verifier::verify` of ed25519-dalek: whether the signature over the message holds against
/// the public key. Bytes that are no public key hold nothing.
#[verifier::external_body]
pub(crate) fn verify(public: &[u8; 32], message: &[u8], signature: &[u8; 64]) -> (holds: bool)
    ensures
        holds == (ed25519_point(public@) && ed25519_holds(public@, message@, signature@)),
{
    match VerifyingKey::from_bytes(public) {
        Ok(key) => key.verify(message, &Signature::from_bytes(signature)).is_ok(),
        Err(_) => false,
    }
}

/// `getrandom` of getrandom: `count` bytes of the system's randomness, or nothing where the
/// system draws none. Nothing is said of what the bytes are.
#[verifier::external_body]
pub(crate) fn draw(count: usize) -> (drawn: Option<Vec<u8>>)
    ensures
        drawn matches Some(bytes) ==> bytes@.len() == count,
{
    let mut bytes = vec![0u8; count];
    match getrandom::getrandom(&mut bytes) {
        Ok(()) => Some(bytes),
        Err(_) => None,
    }
}

} // verus!

//! The cryptographic primitives, each one call into its crate.
//!
//! Nothing here is proved: every contract states what the crate documents of the call, over a name
//! for its result. The rest of the library is verified against these contracts.

use chacha20poly1305::aead::{Aead, AeadCore, KeyInit, OsRng, Payload};
use chacha20poly1305::{XChaCha20Poly1305, XNonce};
use hkdf::Hkdf;
use hmac::{Hmac, Mac};
use rand_core::RngCore;
use sha2::{Digest, Sha256};
use vstd::prelude::*;
use zeroize::Zeroize;

verus! {

/// The longest message XChaCha20-Poly1305 can be asked to seal: the blocks of key stream left once
/// the first has been spent on the authenticator's key.
pub const MAX_MESSAGE: u64 = 274877906816;

/// The bytes of authentication tag that sealing adds.
pub const TAG_LEN: u64 = 16;

/// The 32 bytes HKDF-SHA256 expands from a key and an info string, with no salt.
pub uninterp spec fn hkdf_sha256(ikm: Seq<u8>, info: Seq<u8>) -> Seq<u8>;

/// The SHA-256 digest of some bytes.
pub uninterp spec fn sha256_of(data: Seq<u8>) -> Seq<u8>;

/// The HMAC-SHA256 tag of some bytes under a key.
pub uninterp spec fn hmac_sha256(key: Seq<u8>, data: Seq<u8>) -> Seq<u8>;

/// What XChaCha20-Poly1305 makes of a message: the ciphertext followed by its tag.
pub uninterp spec fn sealed_bytes(
    key: Seq<u8>,
    nonce: Seq<u8>,
    aad: Seq<u8>,
    msg: Seq<u8>,
) -> Seq<u8>;

/// What XChaCha20-Poly1305 reads back from a ciphertext: the message, or nothing where the tag
/// does not match.
pub uninterp spec fn opened_bytes(
    key: Seq<u8>,
    nonce: Seq<u8>,
    aad: Seq<u8>,
    ct: Seq<u8>,
) -> Option<Seq<u8>>;

/// `hkdf::Hkdf::<Sha256>::new` without a salt, then `expand` to 32 bytes, a length it never
/// refuses. Claims that the result depends on the key and the info string alone.
#[verifier::external_body]
pub(crate) fn hkdf(ikm: &[u8], info: &[u8]) -> (out: [u8; 32])
    ensures
        out@ == hkdf_sha256(ikm@, info@),
{
    let mut out = [0u8; 32];
    Hkdf::<Sha256>::new(None, ikm).expand(info, &mut out).expect("32 bytes is a valid HKDF length");
    out
}

/// `sha2::Sha256::digest`. Claims that the digest depends on the data alone.
#[verifier::external_body]
pub(crate) fn sha256(data: &[u8]) -> (out: [u8; 32])
    ensures
        out@ == sha256_of(data@),
{
    Sha256::digest(data).into()
}

/// `hmac::Hmac::<Sha256>`, which takes a key of any length. Claims that the tag depends on the key
/// and the data alone.
#[verifier::external_body]
pub(crate) fn hmac(key: &[u8], data: &[u8]) -> (out: [u8; 32])
    ensures
        out@ == hmac_sha256(key@, data@),
{
    let mac = <Hmac<Sha256> as Mac>::new_from_slice(key).expect("HMAC accepts any key length");
    mac.chain_update(data).finalize().into_bytes().into()
}

/// `aead::Aead::encrypt` of `XChaCha20Poly1305`, on a message its key stream can cover. Claims that
/// it succeeds, that the result depends on the arguments alone and is the tag longer than the
/// message, and that opening it under the same key, nonce and associated data gives the message.
#[verifier::external_body]
pub(crate) fn aead_seal(key: &[u8; 32], nonce: &[u8; 24], aad: &[u8], msg: &[u8]) -> (ct: Vec<u8>)
    requires
        msg@.len() <= MAX_MESSAGE,
    ensures
        ct@ == sealed_bytes(key@, nonce@, aad@, msg@),
        ct@.len() == msg@.len() + TAG_LEN,
        opened_bytes(key@, nonce@, aad@, ct@) == Some(msg@),
{
    XChaCha20Poly1305::new(key.into())
        .encrypt(XNonce::from_slice(nonce), Payload { msg, aad })
        .expect("the message is within the cipher's limit")
}

/// `aead::Aead::decrypt` of `XChaCha20Poly1305`, on a ciphertext its key stream can cover. Claims
/// that whether it opens, and to what, depends on the arguments alone, and that what opens is a
/// message and its tag.
#[verifier::external_body]
pub(crate) fn aead_open(key: &[u8; 32], nonce: &[u8; 24], aad: &[u8], ct: &[u8]) -> (r: Option<
    Vec<u8>,
>)
    requires
        ct@.len() <= MAX_MESSAGE + TAG_LEN,
    ensures
        match r {
            Some(msg) => opened_bytes(key@, nonce@, aad@, ct@) == Some(msg@) && ct@.len()
                == msg@.len() + TAG_LEN,
            None => opened_bytes(key@, nonce@, aad@, ct@) is None,
        },
{
    XChaCha20Poly1305::new(key.into())
        .decrypt(XNonce::from_slice(nonce), Payload { msg: ct, aad })
        .ok()
}

/// `aead::AeadCore::generate_nonce` of `XChaCha20Poly1305`: 24 bytes from the operating system.
/// Claims nothing of which bytes they are.
#[verifier::external_body]
pub(crate) fn fresh_nonce() -> (nonce: [u8; 24]) {
    XChaCha20Poly1305::generate_nonce(&mut OsRng).into()
}

/// `rand_core::RngCore::fill_bytes` of the operating system's generator: 32 bytes. Claims nothing
/// of which bytes they are.
#[verifier::external_body]
pub(crate) fn fresh_key() -> (key: [u8; 32]) {
    let mut key = [0u8; 32];
    OsRng.fill_bytes(&mut key);
    key
}

/// `zeroize::Zeroize::zeroize` of a byte array. Claims that every byte is zero afterwards.
#[verifier::external_body]
pub(crate) fn wipe(key: &mut [u8; 32])
    ensures
        forall|i: int| 0 <= i < 32 ==> final(key)@[i] == 0,
    opens_invariants none
    no_unwind
{
    key.zeroize();
}

} // verus!

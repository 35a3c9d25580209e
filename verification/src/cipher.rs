//! Authenticated encryption of a payload under a key and a nonce.

use aes_gcm::aead::{Aead, KeyInit};
use aes_gcm::{Aes256Gcm, Nonce};
use vstd::prelude::*;

use crate::limits::{KEY_LEN, MAX_SEALED_LEN, NONCE_LEN, TAG_LEN};

verus! {

/// Declares `aes_gcm::Error`, the error of the aes-gcm crate, as an opaque
/// value that is only handed on. Nothing is claimed of it.
#[verifier::external_type_specification]
#[verifier::external_body]
pub struct ExAeadError(aes_gcm::Error);

/// The tag did not verify: the key is wrong or the payload was altered.
#[derive(Clone, Copy, Debug, PartialEq, Eq, Structural)]
pub struct AuthFailure;

/// The ciphertext and tag that AES-256-GCM gives for a plaintext, with no
/// associated data.
pub uninterp spec fn aes256gcm_sealed(key: Seq<u8>, nonce: Seq<u8>, plaintext: Seq<u8>) -> Seq<u8>;

/// The plaintext that AES-256-GCM recovers from a sealed payload, or `None`
/// where it rejects the payload.
pub uninterp spec fn aes256gcm_opened(key: Seq<u8>, nonce: Seq<u8>, sealed: Seq<u8>) -> Option<
    Seq<u8>,
>;

/// Calls `Aes256Gcm::new_from_slice`, `Nonce::from_slice` and `Aead::encrypt`
/// of the aes-gcm crate. Trusted: a plaintext of at most 2^36 bytes is always
/// sealed; the result depends on key, nonce and plaintext alone, is sixteen
/// bytes longer than the plaintext, and opens to the plaintext again under
/// the same key and nonce.
#[verifier::external_body]
fn aes256gcm_encrypt(key: &[u8], nonce: &[u8], plaintext: &[u8]) -> (r: Result<
    Vec<u8>,
    aes_gcm::Error,
>)
    requires
        key@.len() == 32,
        nonce@.len() == 12,
        plaintext@.len() + 16 <= isize::MAX,
    ensures
        plaintext@.len() <= 0x10_0000_0000 ==> r is Ok,
        r matches Ok(sealed) ==> {
            &&& sealed@ == aes256gcm_sealed(key@, nonce@, plaintext@)
            &&& sealed@.len() == plaintext@.len() + 16
            &&& aes256gcm_opened(key@, nonce@, sealed@) == Some(plaintext@)
        },
{
    let cipher = Aes256Gcm::new_from_slice(key).map_err(|_| aes_gcm::Error)?;
    cipher.encrypt(Nonce::from_slice(nonce), plaintext)
}

/// Calls `Aes256Gcm::new_from_slice`, `Nonce::from_slice` and `Aead::decrypt`
/// of the aes-gcm crate. Trusted: whether the payload is accepted, and the
/// plaintext then, depend on key, nonce and payload alone; an accepted
/// payload is sixteen bytes longer than its plaintext.
#[verifier::external_body]
fn aes256gcm_decrypt(key: &[u8], nonce: &[u8], sealed: &[u8]) -> (r: Result<
    Vec<u8>,
    aes_gcm::Error,
>)
    requires
        key@.len() == 32,
        nonce@.len() == 12,
    ensures
        r is Ok <==> aes256gcm_opened(key@, nonce@, sealed@) is Some,
        r matches Ok(plaintext) ==> {
            &&& aes256gcm_opened(key@, nonce@, sealed@) == Some(plaintext@)
            &&& plaintext@.len() + 16 == sealed@.len()
        },
{
    let cipher = Aes256Gcm::new_from_slice(key).map_err(|_| aes_gcm::Error)?;
    cipher.decrypt(Nonce::from_slice(nonce), sealed)
}

/// Seals a plaintext under a key and a nonce: the ciphertext, then its tag.
///
/// The nonce must never have been used before under the same key.
pub fn seal(key: &[u8], nonce: &[u8], plaintext: &[u8]) -> (r: Option<Vec<u8>>)
    requires
        key@.len() == KEY_LEN,
        nonce@.len() == NONCE_LEN,
    ensures
        r is Some <==> plaintext@.len() + TAG_LEN <= MAX_SEALED_LEN,
        r matches Some(sealed) ==> {
            &&& sealed@ == aes256gcm_sealed(key@, nonce@, plaintext@)
            &&& sealed@.len() == plaintext@.len() + TAG_LEN
            &&& aes256gcm_opened(key@, nonce@, sealed@) == Some(plaintext@)
        },
{
    if plaintext.len() > MAX_SEALED_LEN - TAG_LEN {
        return None;
    }
    match aes256gcm_encrypt(key, nonce, plaintext) {
        Ok(sealed) => Some(sealed),
        Err(_) => None,
    }
}

/// Opens a sealed payload under a key and a nonce.
///
/// It fails whenever the tag does not verify, whether the key is wrong or
/// the payload was altered: the two cannot be told apart.
pub fn open(key: &[u8], nonce: &[u8], sealed: &[u8]) -> (r: Result<Vec<u8>, AuthFailure>)
    requires
        key@.len() == KEY_LEN,
        nonce@.len() == NONCE_LEN,
    ensures
        match r {
            Ok(plaintext) => {
                &&& aes256gcm_opened(key@, nonce@, sealed@) == Some(plaintext@)
                &&& plaintext@.len() + TAG_LEN == sealed@.len()
            },
            Err(_) => aes256gcm_opened(key@, nonce@, sealed@) is None,
        },
{
    match aes256gcm_decrypt(key, nonce, sealed) {
        Ok(plaintext) => Ok(plaintext),
        Err(_) => Err(AuthFailure),
    }
}

} // verus!

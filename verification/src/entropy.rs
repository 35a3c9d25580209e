//! Fresh random bytes from the operating system.

use rand::rngs::OsRng;
use rand::RngCore;
use vstd::prelude::*;

use crate::limits::{NONCE_LEN, SALT_LEN};

verus! {

/// Declares `rand::Error`, the error of the rand crate, as an opaque value
/// that is only handed on. Nothing is claimed of it.
#[verifier::external_type_specification]
#[verifier::external_body]
pub struct ExRandError(rand::Error);

/// Calls `RngCore::try_fill_bytes` of the rand crate on its `OsRng`.
/// Trusted: the buffer keeps its length. Nothing is claimed of the bytes,
/// nor of whether the system can supply them.
#[verifier::external_body]
fn os_random_fill(buf: &mut Vec<u8>) -> (r: Result<(), rand::Error>)
    ensures
        final(buf)@.len() == old(buf)@.len(),
{
    OsRng.try_fill_bytes(buf)
}

/// What a draw comes to, given what the system answered: the buffer where it
/// was filled, nothing where the system could not supply the bytes.
pub fn drawn(buf: Vec<u8>, outcome: Result<(), rand::Error>) -> (r: Option<Vec<u8>>)
    ensures
        outcome is Ok ==> r == Some(buf),
        outcome is Err ==> r is None,
{
    match outcome {
        Ok(()) => Some(buf),
        Err(_) => None,
    }
}

/// Draws a salt, or `None` where the system cannot supply the bytes.
///
/// Whether the system can is for the system to decide: nothing is promised
/// of that, nor of the bytes but their number.
pub fn fresh_salt() -> (r: Option<Vec<u8>>)
    ensures
        r matches Some(bytes) ==> bytes@.len() == SALT_LEN,
{
    let mut buf: Vec<u8> = vec![0u8; SALT_LEN];
    let outcome = os_random_fill(&mut buf);
    drawn(buf, outcome)
}

/// Draws a nonce, or `None` where the system cannot supply the bytes.
///
/// Whether the system can is for the system to decide: nothing is promised
/// of that, nor of the bytes but their number.
pub fn fresh_nonce() -> (r: Option<Vec<u8>>)
    ensures
        r matches Some(bytes) ==> bytes@.len() == NONCE_LEN,
{
    let mut buf: Vec<u8> = vec![0u8; NONCE_LEN];
    let outcome = os_random_fill(&mut buf);
    drawn(buf, outcome)
}

} // verus!

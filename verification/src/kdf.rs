//! Key derivation: a password and a salt are stretched into a cipher key.

use argon2::{Algorithm, Argon2, Params, Version};
use vstd::prelude::*;

use crate::limits::KEY_LEN;

verus! {

/// Declares `argon2::Error`, the error of the argon2 crate, as an opaque
/// value that is only handed on. Nothing is claimed of it.
#[verifier::external_type_specification]
#[verifier::external_body]
pub struct ExArgon2Error(argon2::Error);

/// The three cost parameters of the key-stretching function.
#[derive(Clone, Copy, Debug, PartialEq, Eq, Structural)]
pub struct KdfCost {
    /// Memory, in kibibytes.
    pub memory_kib: u32,
    /// Passes over the memory.
    pub iterations: u32,
    /// Degree of parallelism.
    pub lanes: u32,
}

/// The most memory that a cost may ask for, in kibibytes.
pub const MAX_MEMORY_KIB: u32 = 0x10_0000;

/// Why no key was derived.
#[derive(Clone, Copy, Debug, PartialEq, Eq, Structural)]
pub enum KdfError {
    /// The cost parameters are not a valid configuration.
    InvalidCost,
    /// The password is longer, or the salt shorter or longer, than the function takes.
    InputLength,
}

/// The bytes that Argon2id (version 0x13, no secret, no associated data) gives
/// for these costs, password and salt, `out_len` of them.
pub uninterp spec fn argon2id_key(
    memory_kib: u32,
    iterations: u32,
    lanes: u32,
    password: Seq<u8>,
    salt: Seq<u8>,
    out_len: nat,
) -> Seq<u8>;

/// Whether the stretching function takes a password and a salt of these lengths.
pub open spec fn kdf_takes(password: Seq<u8>, salt: Seq<u8>) -> bool {
    &&& password.len() <= 0xFFFF_FFFF
    &&& 8 <= salt.len() <= 0xFFFF_FFFF
}

/// The key that a password and a salt give under a cost.
pub open spec fn derived_key(cost: KdfCost, password: Seq<u8>, salt: Seq<u8>) -> Seq<u8> {
    argon2id_key(cost.memory_kib, cost.iterations, cost.lanes, password, salt, KEY_LEN as nat)
}

impl KdfCost {
    /// A configuration that the stretching function accepts and whose memory
    /// can be allocated on every supported machine.
    pub open spec fn is_valid(self) -> bool {
        &&& 8 <= self.memory_kib <= MAX_MEMORY_KIB
        &&& 1 <= self.iterations
        &&& 1 <= self.lanes
        &&& 8 * self.lanes <= self.memory_kib
    }

    /// The cost that stored records are sealed under: 128 MiB, four passes, one lane.
    pub fn standard() -> (cost: KdfCost)
        ensures
            cost == (KdfCost { memory_kib: 131072, iterations: 4, lanes: 1 }),
            cost.is_valid(),
    {
        KdfCost { memory_kib: 131072, iterations: 4, lanes: 1 }
    }

    /// A lighter cost, that of the blob table: 64 MiB, three passes, one lane.
    pub fn moderate() -> (cost: KdfCost)
        ensures
            cost == (KdfCost { memory_kib: 65536, iterations: 3, lanes: 1 }),
            cost.is_valid(),
    {
        KdfCost { memory_kib: 65536, iterations: 3, lanes: 1 }
    }

    /// Tells whether the configuration is valid.
    pub fn check(&self) -> (ok: bool)
        ensures
            ok == self.is_valid(),
    {
        8 <= self.memory_kib && self.memory_kib <= MAX_MEMORY_KIB && 1 <= self.iterations && 1
            <= self.lanes && self.lanes <= self.memory_kib / 8
    }
}

/// Calls `Params::new`, `Argon2::new` and `Argon2::hash_password_into` of the
/// argon2 crate. Trusted: for a valid cost the call fails exactly when the
/// password is longer than 2^32 - 1 bytes or the salt is shorter than 8 or
/// longer than 2^32 - 1 bytes; on success the buffer keeps its length and
/// holds the Argon2id output, which depends on the arguments alone.
#[verifier::external_body]
fn argon2id_fill(cost: KdfCost, password: &[u8], salt: &[u8], out: &mut Vec<u8>) -> (r: Result<
    (),
    argon2::Error,
>)
    requires
        cost.is_valid(),
        4 <= old(out)@.len() <= 64,
    ensures
        r is Ok <==> kdf_takes(password@, salt@),
        final(out)@.len() == old(out)@.len(),
        r is Ok ==> final(out)@ == argon2id_key(
            cost.memory_kib,
            cost.iterations,
            cost.lanes,
            password@,
            salt@,
            old(out)@.len(),
        ),
{
    let params = Params::new(cost.memory_kib, cost.iterations, cost.lanes, None)?;
    let hasher = Argon2::new(Algorithm::Argon2id, Version::V0x13, params);
    hasher.hash_password_into(password, salt, out)
}

/// Derives the 32-byte key for a password and a salt.
///
/// It fails only for a cost that is no valid configuration, or for a password
/// or salt whose length the stretching function does not take. The same cost,
/// password and salt always give the same key.
pub fn derive_key(cost: &KdfCost, password: &[u8], salt: &[u8]) -> (r: Result<Vec<u8>, KdfError>)
    ensures
        match r {
            Ok(key) => {
                &&& cost.is_valid()
                &&& kdf_takes(password@, salt@)
                &&& key@.len() == KEY_LEN
                &&& key@ == derived_key(*cost, password@, salt@)
            },
            Err(KdfError::InvalidCost) => !cost.is_valid(),
            Err(KdfError::InputLength) => cost.is_valid() && !kdf_takes(password@, salt@),
        },
{
    if !cost.check() {
        return Err(KdfError::InvalidCost);
    }
    let mut key: Vec<u8> = vec![0u8; KEY_LEN];
    match argon2id_fill(*cost, password, salt, &mut key) {
        Ok(()) => Ok(key),
        Err(_) => Err(KdfError::InputLength),
    }
}

} // verus!

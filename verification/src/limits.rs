//! The fixed sizes and thresholds of the store.

use vstd::prelude::*;

verus! {

/// Bytes of salt drawn for each seal.
pub const SALT_LEN: usize = 16;

/// Bytes of nonce drawn for each seal.
pub const NONCE_LEN: usize = 12;

/// Bytes of the derived key.
pub const KEY_LEN: usize = 32;

/// Bytes of authentication tag that follow the ciphertext.
pub const TAG_LEN: usize = 16;

/// Failed opens after which an identifier is locked.
pub const FAILURE_THRESHOLD: u32 = 5;

/// Seconds that a lockout lasts.
pub const LOCKOUT_SECONDS: u64 = 900;

/// The longest plaintext that can be sealed, in bytes.
pub const MAX_PLAINTEXT_LEN: usize = 0x4000_0000;

/// The longest sealed payload that a record can hold, in bytes: the longest
/// plaintext, its witness and the tag.
pub const MAX_SEALED_LEN: usize = 0x4000_0040;

/// The separator between the fields of a stored line.
pub const FIELD_SEPARATOR: u8 = 124;

/// The byte that ends a stored line.
pub const LINE_FEED: u8 = 10;

/// The byte that may precede a line feed and is not part of the line.
pub const CARRIAGE_RETURN: u8 = 13;

} // verus!

use rustdatabasen::blob_table::{append_entry, check_entry, encrypt_entry};
use rustdatabasen::cipher;
use rustdatabasen::kdf::KdfCost;
use rustdatabasen::limits::{MAX_PLAINTEXT_LEN, MAX_SEALED_LEN, TAG_LEN};
use rustdatabasen::store::{check_sealable, RecordStore, SealError};

#[test]
fn a_plaintext_over_the_limit_is_refused() {
    assert_eq!(MAX_PLAINTEXT_LEN, 1 << 30);
    assert_eq!(MAX_SEALED_LEN, (1 << 30) + 64);
    let big = "a".repeat(MAX_SEALED_LEN - TAG_LEN + 1);
    assert_eq!(cipher::seal(&[1u8; 32], &[2u8; 12], big.as_bytes()), None);
    let mut out = b"kept".to_vec();
    assert!(!append_entry(&mut out, b"id", &[1u8; 32], &[3u8; 16], &[2u8; 12], big.as_bytes()));
    assert_eq!(out, b"kept".to_vec());
    let mut store =
        RecordStore::with_cost(KdfCost { memory_kib: 8, iterations: 1, lanes: 1 }).unwrap();
    assert_eq!(store.seal("id", "pw", &big), Err(SealError::PayloadTooLarge));
    assert_eq!(store.seal("a|b", "pw", &big), Err(SealError::InvalidIdentifier));
    assert_eq!(store.len(), 0);
    assert_eq!(encrypt_entry("id", "pw", &big), Err(SealError::PayloadTooLarge));
    assert_eq!(check_entry("pw", &big), Some(SealError::PayloadTooLarge));
    assert_eq!(check_entry("pw", &big[..MAX_SEALED_LEN - TAG_LEN]), None);
    assert_eq!(check_entry("", ""), None);
    assert_eq!(
        check_sealable("id", "pw", &big[..MAX_PLAINTEXT_LEN + 1]),
        Some(SealError::PayloadTooLarge)
    );
    assert_eq!(check_sealable("id", "pw", &big[..MAX_PLAINTEXT_LEN]), None);
    assert_eq!(check_sealable("id", "pw", ""), None);
    assert_eq!(check_sealable("i\nd", "pw", ""), Some(SealError::InvalidIdentifier));
}

use std::collections::hash_map::DefaultHasher;
use std::hash::{Hash, Hasher};

use rustdatabasen::cipher;
use rustdatabasen::guard::BruteForceGuard;
use rustdatabasen::kdf::{derive_key, KdfCost};
use rustdatabasen::record::Record;
use rustdatabasen::store::OpenError;
use rustdatabasen::witness::{
    attach_witness, check_witness, digest_of, split_witness, WitnessError,
};

fn std_hash(password: &str) -> u64 {
    let mut hasher = DefaultHasher::new();
    password.hash(&mut hasher);
    hasher.finish()
}

#[test]
fn the_digest_is_the_standard_hash_of_the_password() {
    for password in ["", "a", "correct-horse", "lösenord", "with\u{ff}byte"] {
        assert_eq!(digest_of(password), std_hash(password));
    }
    assert_ne!(digest_of("a"), digest_of("b"));
}

#[test]
fn the_witness_stands_in_front_of_the_plaintext() {
    assert_eq!(attach_witness(0, b"text"), b"PWD:0|text".to_vec());
    assert_eq!(
        attach_witness(18446744073709551615, b""),
        b"PWD:18446744073709551615|".to_vec()
    );
    assert_eq!(attach_witness(1234567890, b"a|b"), b"PWD:1234567890|a|b".to_vec());
}

#[test]
fn what_was_attached_is_read_again() {
    for digest in [0u64, 7, 10, 99, 100, 4294967296, u64::MAX] {
        let data = attach_witness(digest, b"plain|text\n");
        assert_eq!(split_witness(&data), Some((digest, b"plain|text\n".to_vec())));
        assert_eq!(check_witness(digest, &data), Ok(b"plain|text\n".to_vec()));
        assert_eq!(check_witness(digest ^ 1, &data), Err(WitnessError::Mismatch));
    }
}

#[test]
fn payloads_without_a_readable_witness_are_missing_it() {
    for data in [
        &b""[..],
        b"PWD",
        b"PWD:",
        b"PWD:12",
        b"pwd:12|x",
        b" PWD:12|x",
        b"PWD:|x",
        b"PWD:12a|x",
        b"PWD: 12|x",
        b"PWD:-1|x",
        b"PWD:18446744073709551616|x",
        b"PWD:+|x",
        b"12|x",
    ] {
        assert_eq!(split_witness(data), None);
        assert_eq!(check_witness(12, data), Err(WitnessError::Missing));
    }
}

#[test]
fn repeated_markers_a_plus_sign_and_leading_zeros_are_read() {
    assert_eq!(split_witness(b"PWD:PWD:12|x"), Some((12, b"x".to_vec())));
    assert_eq!(split_witness(b"PWD:+12|x"), Some((12, b"x".to_vec())));
    assert_eq!(split_witness(b"PWD:0012|"), Some((12, Vec::new())));
    assert_eq!(split_witness(b"PWD:12||"), Some((12, b"|".to_vec())));
}

fn record_with_payload(password: &str, data: &[u8]) -> Record {
    let cost = KdfCost { memory_kib: 8, iterations: 1, lanes: 1 };
    let salt = vec![1u8; 16];
    let nonce = vec![2u8; 12];
    let key = derive_key(&cost, password.as_bytes(), &salt).unwrap();
    let sealed_payload = cipher::seal(&key, &nonce, data).unwrap();
    Record { identifier: b"id".to_vec(), salt, nonce, sealed_payload, guard: BruteForceGuard::new() }
}

#[test]
fn a_payload_without_witness_is_of_another_format() {
    let cost = KdfCost { memory_kib: 8, iterations: 1, lanes: 1 };
    let mut record = record_with_payload("pw", b"no witness here");
    record.guard = BruteForceGuard { attempt_count: 2, last_failure_time: 5, lockout_until: 0 };
    assert_eq!(record.open(&cost, "pw", 9), Err(OpenError::FormatError));
    assert_eq!(
        record.guard,
        BruteForceGuard { attempt_count: 2, last_failure_time: 5, lockout_until: 0 }
    );
}

#[test]
fn a_payload_that_is_no_text_is_of_another_format() {
    let cost = KdfCost { memory_kib: 8, iterations: 1, lanes: 1 };
    let data = attach_witness(digest_of("pw"), &[0xff, 0xfe]);
    let mut record = record_with_payload("pw", &data);
    assert_eq!(record.open(&cost, "pw", 9), Err(OpenError::FormatError));
    assert_eq!(record.guard, BruteForceGuard::new());
}

#[test]
fn a_witness_of_another_password_counts_as_a_failure() {
    let cost = KdfCost { memory_kib: 8, iterations: 1, lanes: 1 };
    let data = attach_witness(digest_of("other"), b"text");
    let mut record = record_with_payload("pw", &data);
    assert_eq!(record.open(&cost, "pw", 9), Err(OpenError::WrongPassword(4)));
    assert_eq!(
        record.guard,
        BruteForceGuard { attempt_count: 1, last_failure_time: 9, lockout_until: 0 }
    );
}

#[test]
fn an_expired_lockout_is_cleared_even_when_the_format_is_foreign() {
    let cost = KdfCost { memory_kib: 8, iterations: 1, lanes: 1 };
    let mut record = record_with_payload("pw", b"no witness here");
    record.guard = BruteForceGuard { attempt_count: 5, last_failure_time: 5, lockout_until: 905 };
    assert_eq!(record.open(&cost, "pw", 904), Err(OpenError::LockedOut(1)));
    assert_eq!(record.open(&cost, "pw", 905), Err(OpenError::FormatError));
    assert_eq!(record.guard, BruteForceGuard::new());
}

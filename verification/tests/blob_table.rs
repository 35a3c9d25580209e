use base64::engine::general_purpose::STANDARD;
use base64::Engine;
use rustdatabasen::blob_table::{
    append_entry, decrypt_entries, derive_argon2_key, encrypt_entry, encrypt_entry_with,
    encrypt_lines, has_verifier, open_blob, read_blob, verifier_if_missing,
    verify_password_for_identifier, BlobError,
};

fn text(bytes: Vec<u8>) -> String {
    String::from_utf8(bytes).unwrap()
}

#[test]
fn a_line_holds_identifier_colon_and_blob() {
    let key = [5u8; 32];
    let salt = [1u8; 16];
    let nonce = [2u8; 12];
    let mut out = b"before\n".to_vec();
    assert!(append_entry(&mut out, b"alice", &key, &salt, &nonce, b"Alice 30"));
    let out = text(out);
    assert!(out.starts_with("before\nalice:"));
    assert!(out.ends_with('\n'));
    let blob = STANDARD.decode(out["before\nalice:".len()..].trim_end()).unwrap();
    assert_eq!(blob.len(), 16 + 12 + 8 + 16);
    assert_eq!(&blob[..16], &salt);
    assert_eq!(&blob[16..28], &nonce);
    assert_eq!(
        rustdatabasen::cipher::open(&key, &nonce, &blob[28..]),
        Ok(b"Alice 30".to_vec())
    );
}

#[test]
fn the_key_of_this_format_has_the_moderate_cost() {
    let key = derive_argon2_key(b"pw", &[1u8; 16]).unwrap();
    let mut reference = vec![0u8; 32];
    let params = argon2::Params::new(65536, 3, 1, None).unwrap();
    argon2::Argon2::new(argon2::Algorithm::Argon2id, argon2::Version::V0x13, params)
        .hash_password_into(b"pw", &[1u8; 16], &mut reference)
        .unwrap();
    assert_eq!(key, reference);
    assert!(derive_argon2_key(b"pw", &[1u8; 7]).is_err());
}

#[test]
fn what_is_sealed_is_read_again() {
    let line = text(encrypt_entry_with("alice", "pw", "Alice 30", &[1u8; 16], &[2u8; 12]).unwrap());
    let other = "bob:AAAA\n";
    let table = format!("{}{}", other, line);
    assert_eq!(decrypt_entries(&table, "alice", "pw"), Ok(vec!["Alice 30".to_string()]));
    assert_eq!(decrypt_entries(&table, "carol", "pw"), Ok(Vec::new()));
    assert_eq!(decrypt_entries(&table, "alic", "pw"), Ok(Vec::new()));
}

#[test]
fn a_wrong_password_does_not_open_the_entries() {
    let line = text(encrypt_entry("alice", "pw", "Alice 30").unwrap());
    assert_eq!(decrypt_entries(&line, "alice", "bad"), Err(BlobError::Auth));
}

#[test]
fn fresh_salt_and_nonce_are_drawn_for_each_entry() {
    let a = encrypt_entry("alice", "pw", "Alice 30").unwrap();
    let b = encrypt_entry("alice", "pw", "Alice 30").unwrap();
    assert_ne!(a, b);
}

#[test]
fn every_line_of_a_text_is_sealed() {
    let out = text(encrypt_lines("alice", "pw", "Alice 30\r\nBob 25\n").unwrap());
    assert_eq!(out.lines().count(), 2);
    assert!(out.lines().all(|l| l.starts_with("alice:")));
    let blobs: Vec<Vec<u8>> =
        out.lines().map(|l| STANDARD.decode(&l["alice:".len()..]).unwrap()).collect();
    assert_eq!(&blobs[0][..16], &blobs[1][..16]);
    assert_ne!(&blobs[0][16..28], &blobs[1][16..28]);
    let key = derive_argon2_key(b"pw", &blobs[0][..16]).unwrap();
    assert_eq!(
        rustdatabasen::cipher::open(&key, &blobs[0][16..28], &blobs[0][28..]),
        Ok(b"Alice 30".to_vec())
    );
    assert_eq!(
        rustdatabasen::cipher::open(&key, &blobs[1][16..28], &blobs[1][28..]),
        Ok(b"Bob 25".to_vec())
    );
}

const TWO_KNOWN_LINES: &str = "alice:AQEBAQEBAQEBAQEBAQEBAQICAgICAgICAgICAiP+EcAQQVBT7boSxCrW09K2eLenqWYvFg==\n\
bob:AAAA\n\
alice:AQEBAQEBAQEBAQEBAQEBAQMDAwMDAwMDAwMDA6HJxgrrpWRAKtlqksMLydkCSwFzMdU=\n";

const A_KNOWN_VERIFIER: &str = "__pw__:alice:BAQEBAQEBAQEBAQEBAQEBAUFBQUFBQUFBQUFBZePnG1PRg0+jvV0wsQ72kHKXIPpaYVZmP+ugWdKKw==\n";

#[test]
fn the_entries_of_an_identifier_are_read_in_order() {
    assert_eq!(
        decrypt_entries(TWO_KNOWN_LINES, "alice", "pw"),
        Ok(vec!["Alice 30".to_string(), "Bob 25".to_string()])
    );
}

#[test]
fn a_known_line_is_sealed_again_to_the_same_text() {
    let line = text(encrypt_entry_with("alice", "pw", "Bob 25", &[1u8; 16], &[3u8; 12]).unwrap());
    assert_eq!(line, TWO_KNOWN_LINES.lines().nth(2).unwrap().to_string() + "\n");
}

#[test]
fn a_known_verifier_confirms_the_password_only() {
    assert_eq!(verify_password_for_identifier(A_KNOWN_VERIFIER, "alice", "pw"), Some(true));
    assert_eq!(verify_password_for_identifier(A_KNOWN_VERIFIER, "alice", "bad"), Some(false));
    assert_eq!(verify_password_for_identifier(A_KNOWN_VERIFIER, "bob", "pw"), None);
}

#[test]
fn empty_lines_between_others_are_sealed_too() {
    let out = text(encrypt_lines("alice", "pw", "a\n\nb").unwrap());
    assert_eq!(out.lines().count(), 3);
    let blobs: Vec<Vec<u8>> =
        out.lines().map(|l| STANDARD.decode(&l["alice:".len()..]).unwrap()).collect();
    assert_eq!(blobs[0].len(), 28 + 1 + 16);
    assert_eq!(blobs[1].len(), 28 + 16);
    assert_eq!(blobs[2].len(), 28 + 1 + 16);
}

#[test]
fn a_blank_text_gives_no_line() {
    assert_eq!(encrypt_lines("alice", "pw", ""), Ok(Vec::new()));
    assert_eq!(encrypt_lines("alice", "pw", " \n\t\n"), Ok(Vec::new()));
    assert_eq!(encrypt_lines("alice", "", "\u{a0}\r\n"), Ok(Vec::new()));
}

#[test]
fn lines_that_cannot_be_read_end_the_reading() {
    assert_eq!(decrypt_entries("alice:not base64!\n", "alice", "pw"), Err(BlobError::Decode));
    assert_eq!(decrypt_entries("alice:AAAA\n", "alice", "pw"), Ok(Vec::new()));
    let short = STANDARD.encode([0u8; 28]);
    assert_eq!(decrypt_entries(&format!("alice:{}\n", short), "alice", "pw"), Ok(Vec::new()));
    assert_eq!(decrypt_entries("", "alice", "pw"), Ok(Vec::new()));
    assert_eq!(decrypt_entries("alice: AAAA \u{a0}\r\n", "alice", "pw"), Ok(Vec::new()));
    assert_eq!(decrypt_entries("alice:AA\u{e9}A\n", "alice", "pw"), Err(BlobError::Decode));
}

#[test]
fn a_blob_that_is_long_enough_is_opened() {
    let blob = STANDARD.encode([0u8; 29]);
    assert_eq!(
        decrypt_entries(&format!("alice:{}\n", blob), "alice", "pw"),
        Err(BlobError::Auth)
    );
    assert_eq!(open_blob(b"pw", &[0u8; 29]), None);
}

#[test]
fn a_payload_that_is_no_text_is_reported() {
    let key = derive_argon2_key(b"pw", &[1u8; 16]).unwrap();
    let mut out = Vec::new();
    assert!(append_entry(&mut out, b"alice", &key, &[1u8; 16], &[2u8; 12], &[0xff, 0xfe]));
    assert_eq!(decrypt_entries(&text(out), "alice", "pw"), Err(BlobError::Text));
}

#[test]
fn the_rest_of_a_line_is_trimmed_and_decoded() {
    let chars: Vec<char> = " aGVsbG8=\t".chars().collect();
    assert_eq!(read_blob(&chars), Some(b"hello".to_vec()));
    let chars: Vec<char> = "aGVs bG8=".chars().collect();
    assert_eq!(read_blob(&chars), None);
    assert_eq!(read_blob(&[]), Some(Vec::new()));
}

#[test]
fn a_verifier_is_written_once_and_confirms_the_password() {
    let mut table = "bob:AAAA\n".to_string();
    assert!(!has_verifier(&table, "alice"));
    assert_eq!(verify_password_for_identifier(&table, "alice", "pw"), None);
    let line = text(verifier_if_missing(&table, "alice", "pw").unwrap().unwrap());
    assert!(line.starts_with("__pw__:alice:"));
    table.push_str(&line);
    assert!(has_verifier(&table, "alice"));
    assert!(!has_verifier(&table, "alic"));
    assert!(!has_verifier(&table, "bob"));
    assert_eq!(verifier_if_missing(&table, "alice", "pw"), Ok(None));
    assert_eq!(verify_password_for_identifier(&table, "alice", "pw"), Some(true));
}

#[test]
fn a_verifier_that_cannot_be_read_confirms_nothing() {
    assert_eq!(verify_password_for_identifier("__pw__:alice:???\n", "alice", "pw"), Some(false));
    assert_eq!(verify_password_for_identifier("__pw__:alice:AAAA\n", "alice", "pw"), Some(false));
    assert_eq!(verify_password_for_identifier("__pw__:alice::: AAAA \n", "alice", "pw"), Some(false));
    assert_eq!(verify_password_for_identifier("__pw__:alice\n", "alice", "pw"), None);
    assert_eq!(verify_password_for_identifier("", "alice", "pw"), None);
}

#[test]
fn a_verifier_for_another_identifier_does_not_confirm() {
    let line = text(encrypt_entry_with("__pw__:alice", "pw", "VERIFIER:bob", &[1u8; 16], &[2u8; 12]).unwrap());
    assert_eq!(verify_password_for_identifier(&line, "alice", "pw"), Some(false));
}

use aes_gcm::aead::{Aead, KeyInit};
use rustdatabasen::cipher::{self, AuthFailure};
use rustdatabasen::encoding::{append_base64, decode_base64};
use rustdatabasen::entropy::{drawn, fresh_nonce, fresh_salt};
use rustdatabasen::kdf::{derive_key, KdfCost, KdfError};
use rustdatabasen::text::text_of;

fn light_cost() -> KdfCost {
    KdfCost { memory_kib: 8, iterations: 1, lanes: 1 }
}

#[test]
fn the_standard_cost_is_128_mib_four_passes_one_lane() {
    assert_eq!(KdfCost::standard(), KdfCost { memory_kib: 131072, iterations: 4, lanes: 1 });
    assert_eq!(KdfCost::moderate(), KdfCost { memory_kib: 65536, iterations: 3, lanes: 1 });
    assert!(KdfCost::standard().check());
    assert!(KdfCost::moderate().check());
}

#[test]
fn the_same_password_and_salt_give_the_same_key() {
    let a = derive_key(&light_cost(), b"password", &[1u8; 16]).unwrap();
    let b = derive_key(&light_cost(), b"password", &[1u8; 16]).unwrap();
    assert_eq!(a.len(), 32);
    assert_eq!(a, b);
    assert_ne!(a, vec![0u8; 32]);
}

#[test]
fn password_salt_and_cost_all_enter_the_key() {
    let base = derive_key(&light_cost(), b"password", &[1u8; 16]).unwrap();
    assert_ne!(base, derive_key(&light_cost(), b"passwore", &[1u8; 16]).unwrap());
    assert_ne!(base, derive_key(&light_cost(), b"password", &[2u8; 16]).unwrap());
    let other = KdfCost { memory_kib: 8, iterations: 2, lanes: 1 };
    assert_ne!(base, derive_key(&other, b"password", &[1u8; 16]).unwrap());
    let wider = KdfCost { memory_kib: 16, iterations: 1, lanes: 2 };
    assert_ne!(base, derive_key(&wider, b"password", &[1u8; 16]).unwrap());
}

#[test]
fn a_known_argon2id_key() {
    // Argon2id, version 0x13, m = 32 KiB, t = 2, p = 1, password "password", salt "somesalt".
    let cost = KdfCost { memory_kib: 32, iterations: 2, lanes: 1 };
    let key = derive_key(&cost, b"password", b"somesalt").unwrap();
    let mut reference = vec![0u8; 32];
    let params = argon2::Params::new(32, 2, 1, None).unwrap();
    argon2::Argon2::new(argon2::Algorithm::Argon2id, argon2::Version::V0x13, params)
        .hash_password_into(b"password", b"somesalt", &mut reference)
        .unwrap();
    assert_eq!(key, reference);
}

#[test]
fn derivation_fails_only_on_invalid_cost_or_input_lengths() {
    let bad = KdfCost { memory_kib: 4, iterations: 1, lanes: 1 };
    assert_eq!(derive_key(&bad, b"password", &[1u8; 16]), Err(KdfError::InvalidCost));
    assert_eq!(derive_key(&light_cost(), b"password", &[1u8; 7]), Err(KdfError::InputLength));
    assert_eq!(derive_key(&bad, b"password", &[1u8; 7]), Err(KdfError::InvalidCost));
    assert!(derive_key(&light_cost(), b"password", &[1u8; 8]).is_ok());
    assert!(derive_key(&light_cost(), b"", &[1u8; 16]).is_ok());
}

#[test]
fn what_is_sealed_opens_under_the_same_key_and_nonce() {
    let key = [7u8; 32];
    let nonce = [9u8; 12];
    for plaintext in [&b""[..], b"a", b"sixteen byte txt", b"a longer plaintext than one block"] {
        let sealed = cipher::seal(&key, &nonce, plaintext).unwrap();
        assert_eq!(sealed.len(), plaintext.len() + 16);
        assert_eq!(cipher::open(&key, &nonce, &sealed), Ok(plaintext.to_vec()));
    }
}

#[test]
fn the_cipher_matches_the_crate_called_directly() {
    let key = [7u8; 32];
    let nonce = [9u8; 12];
    let sealed = cipher::seal(&key, &nonce, b"plaintext").unwrap();
    let direct = aes_gcm::Aes256Gcm::new_from_slice(&key)
        .unwrap()
        .encrypt(aes_gcm::Nonce::from_slice(&nonce), &b"plaintext"[..])
        .unwrap();
    assert_eq!(sealed, direct);
    assert_ne!(&sealed[..9], b"plaintext");
}

#[test]
fn another_key_or_nonce_or_an_altered_payload_fails() {
    let key = [7u8; 32];
    let nonce = [9u8; 12];
    let sealed = cipher::seal(&key, &nonce, b"plaintext").unwrap();
    assert_eq!(cipher::open(&[8u8; 32], &nonce, &sealed), Err(AuthFailure));
    assert_eq!(cipher::open(&key, &[8u8; 12], &sealed), Err(AuthFailure));
    for byte in 0..sealed.len() {
        for bit in 0..8 {
            let mut altered = sealed.clone();
            altered[byte] ^= 1 << bit;
            assert_eq!(cipher::open(&key, &nonce, &altered), Err(AuthFailure));
        }
    }
    assert_eq!(cipher::open(&key, &nonce, &sealed[..sealed.len() - 1]), Err(AuthFailure));
    assert_eq!(cipher::open(&key, &nonce, &sealed[..15]), Err(AuthFailure));
    assert_eq!(cipher::open(&key, &nonce, b""), Err(AuthFailure));
}

#[test]
fn base64_of_known_bytes() {
    let mut out = b"x:".to_vec();
    append_base64(&mut out, b"hello");
    assert_eq!(out, b"x:aGVsbG8=".to_vec());
    let mut out = Vec::new();
    append_base64(&mut out, b"");
    assert_eq!(out, Vec::<u8>::new());
    let mut out = Vec::new();
    append_base64(&mut out, &[0xfb, 0xff, 0xfe]);
    assert_eq!(out, b"+//+".to_vec());
}

#[test]
fn base64_is_decoded_strictly() {
    assert_eq!(decode_base64(b"aGVsbG8="), Some(b"hello".to_vec()));
    assert_eq!(decode_base64(b""), Some(Vec::new()));
    assert_eq!(decode_base64(b"+//+"), Some(vec![0xfb, 0xff, 0xfe]));
    assert_eq!(decode_base64(b"aGVsbG8"), None);
    assert_eq!(decode_base64(b"aGVsbG8=\n"), None);
    assert_eq!(decode_base64(b"aGVs bG8="), None);
    assert_eq!(decode_base64(b"aGVsbG9="), None);
    assert_eq!(decode_base64(b"-__-"), None);
}

#[test]
fn fresh_bytes_have_their_lengths_and_differ() {
    let a = fresh_salt().unwrap();
    let b = fresh_salt().unwrap();
    assert_eq!(a.len(), 16);
    assert_eq!(b.len(), 16);
    assert_ne!(a, b);
    let n = fresh_nonce().unwrap();
    let m = fresh_nonce().unwrap();
    assert_eq!(n.len(), 12);
    assert_ne!(n, m);
}

#[test]
fn a_draw_is_the_buffer_where_the_system_filled_it() {
    assert_eq!(drawn(vec![1, 2, 3], Ok(())), Some(vec![1, 2, 3]));
    assert_eq!(drawn(Vec::new(), Ok(())), Some(Vec::new()));
    assert_eq!(drawn(vec![1, 2, 3], Err(rand::Error::new("no entropy"))), None);
}

#[test]
fn text_is_read_from_well_formed_bytes_only() {
    assert_eq!(text_of(b"plain".to_vec()), Some("plain".to_string()));
    assert_eq!(text_of("blå".as_bytes().to_vec()), Some("blå".to_string()));
    assert_eq!(text_of(Vec::new()), Some(String::new()));
    assert_eq!(text_of(vec![0xff]), None);
    assert_eq!(text_of(vec![0xc3]), None);
    assert_eq!(text_of(vec![0xed, 0xa0, 0x80]), None);
}

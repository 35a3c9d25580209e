use rustdatabasen::guard::BruteForceGuard;
use rustdatabasen::kdf::KdfCost;
use rustdatabasen::record::Entry;
use rustdatabasen::store::{OpenError, RecordStore, SealError};

fn light_cost() -> KdfCost {
    KdfCost { memory_kib: 8, iterations: 1, lanes: 1 }
}

fn light_store() -> RecordStore {
    RecordStore::with_cost(light_cost()).unwrap()
}

fn guard_of(store: &RecordStore, identifier: &str) -> BruteForceGuard {
    let i = store.find(identifier.as_bytes());
    match store.entry(i) {
        Entry::Sealed(record) => record.guard,
        Entry::Damaged(_) => panic!("damaged entry"),
    }
}

#[test]
fn alice_seals_fails_five_times_and_returns_after_the_lockout() {
    let mut store = light_store();
    store.seal("alice", "correct-horse", "height 170 weight 65").unwrap();
    assert_eq!(
        store.open("alice", "correct-horse", 1_000),
        Ok("height 170 weight 65".to_string())
    );
    assert_eq!(store.open("alice", "wrong", 1_001), Err(OpenError::WrongPassword(4)));
    assert_eq!(store.open("alice", "wrong", 1_002), Err(OpenError::WrongPassword(3)));
    assert_eq!(store.open("alice", "wrong", 1_003), Err(OpenError::WrongPassword(2)));
    assert_eq!(store.open("alice", "wrong", 1_004), Err(OpenError::WrongPassword(1)));
    assert_eq!(store.open("alice", "wrong", 1_005), Err(OpenError::WrongPassword(0)));
    assert_eq!(store.open("alice", "wrong", 1_005), Err(OpenError::LockedOut(900)));
    assert_eq!(store.open("alice", "correct-horse", 1_006), Err(OpenError::LockedOut(899)));
    assert_eq!(store.open("alice", "correct-horse", 1_904), Err(OpenError::LockedOut(1)));
    assert_eq!(
        store.open("alice", "correct-horse", 1_905),
        Ok("height 170 weight 65".to_string())
    );
    let text = String::from_utf8(store.to_bytes()).unwrap();
    assert!(text.starts_with("alice|"));
    assert!(text.ends_with("|0|0|0\n"));
}

const SEALED_UNDER_THE_STANDARD_COST: &str = "bob|AQEBAQEBAQEBAQEBAQEBAQ==|AgICAgICAgICAgIC|\
sWz29ky2MIDm1dMuKtbOMYEJjGFVbFHGQ/2S6HLo6+8Fkq3ajWdpJncBmEIj|0|0|0\n";

#[test]
fn the_standard_cost_seals_a_known_line() {
    let mut store = RecordStore::new();
    store.seal_with("bob", "pw", "text", &[1u8; 16], &[2u8; 12]).unwrap();
    assert_eq!(String::from_utf8(store.to_bytes()).unwrap(), SEALED_UNDER_THE_STANDARD_COST);
}

#[test]
fn the_standard_cost_opens_a_known_line() {
    let mut store = RecordStore::parse(SEALED_UNDER_THE_STANDARD_COST.as_bytes());
    assert_eq!(store.open("bob", "pw", 5), Ok("text".to_string()));
    assert_eq!(store.to_bytes(), SEALED_UNDER_THE_STANDARD_COST.as_bytes().to_vec());
}

#[test]
fn round_trip_of_several_texts() {
    let mut store = light_store();
    let cases = [
        ("a", "p", ""),
        ("user 2", "lösenord", "rad ett\nrad två\n"),
        ("x", "with|bar", "PWD:123|looks like a witness"),
        ("", "empty identifier", "ok"),
    ];
    for (identifier, password, plaintext) in cases {
        store.seal(identifier, password, plaintext).unwrap();
        assert_eq!(store.open(identifier, password, 7), Ok(plaintext.to_string()));
    }
    assert_eq!(store.len(), 4);
}

#[test]
fn a_success_clears_the_counter() {
    let mut store = light_store();
    store.seal("carol", "pw", "data").unwrap();
    assert_eq!(store.open("carol", "no", 10), Err(OpenError::WrongPassword(4)));
    assert_eq!(store.open("carol", "no", 11), Err(OpenError::WrongPassword(3)));
    assert_eq!(
        guard_of(&store, "carol"),
        BruteForceGuard { attempt_count: 2, last_failure_time: 11, lockout_until: 0 }
    );
    assert_eq!(store.open("carol", "pw", 12), Ok("data".to_string()));
    assert_eq!(
        guard_of(&store, "carol"),
        BruteForceGuard { attempt_count: 0, last_failure_time: 0, lockout_until: 0 }
    );
    assert_eq!(store.open("carol", "no", 13), Err(OpenError::WrongPassword(4)));
}

#[test]
fn a_locked_identifier_rejects_the_right_password() {
    let mut store = light_store();
    store.seal("dave", "pw", "data").unwrap();
    for k in 0..5u64 {
        let _ = store.open("dave", "bad", 100 + k);
    }
    let before = store.to_bytes();
    assert_eq!(store.open("dave", "pw", 105), Err(OpenError::LockedOut(899)));
    assert_eq!(store.open("dave", "pw", 1_003), Err(OpenError::LockedOut(1)));
    assert_eq!(store.to_bytes(), before);
    assert_eq!(
        guard_of(&store, "dave"),
        BruteForceGuard { attempt_count: 5, last_failure_time: 104, lockout_until: 1_004 }
    );
}

#[test]
fn an_expired_lockout_starts_the_count_again() {
    let mut store = light_store();
    store.seal("erin", "pw", "data").unwrap();
    for k in 0..5u64 {
        let _ = store.open("erin", "bad", 100 + k);
    }
    assert_eq!(store.open("erin", "bad", 1_004), Err(OpenError::WrongPassword(4)));
    assert_eq!(
        guard_of(&store, "erin"),
        BruteForceGuard { attempt_count: 1, last_failure_time: 1_004, lockout_until: 0 }
    );
}

#[test]
fn sealing_again_keeps_three_failures() {
    let mut store = light_store();
    store.seal("frank", "pw", "old").unwrap();
    for k in 0..3u64 {
        let _ = store.open("frank", "bad", 50 + k);
    }
    store.seal("frank", "new-pw", "new").unwrap();
    assert_eq!(store.len(), 1);
    assert_eq!(
        guard_of(&store, "frank"),
        BruteForceGuard { attempt_count: 3, last_failure_time: 52, lockout_until: 0 }
    );
    assert_eq!(store.open("frank", "pw", 60), Err(OpenError::WrongPassword(1)));
    assert_eq!(store.open("frank", "new-pw", 61), Ok("new".to_string()));
}

#[test]
fn sealing_again_keeps_a_lockout() {
    let mut store = light_store();
    store.seal("gina", "pw", "old").unwrap();
    for k in 0..5u64 {
        let _ = store.open("gina", "bad", 10 + k);
    }
    store.seal("gina", "pw", "new").unwrap();
    assert_eq!(store.open("gina", "pw", 20), Err(OpenError::LockedOut(894)));
    assert_eq!(store.open("gina", "pw", 914), Ok("new".to_string()));
}

#[test]
fn sealing_moves_the_record_to_the_end_and_leaves_the_others() {
    let mut store = light_store();
    store.seal("one", "pw-one", "first").unwrap();
    store.seal("two", "pw-two", "second").unwrap();
    store.seal("one", "pw-one", "third").unwrap();
    assert_eq!(store.len(), 2);
    assert_eq!(store.find(b"two"), 0);
    assert_eq!(store.find(b"one"), 1);
    assert_eq!(store.find(b"three"), 2);
    assert_eq!(store.open("two", "pw-two", 1), Ok("second".to_string()));
    assert_eq!(store.open("one", "pw-one", 1), Ok("third".to_string()));
}

#[test]
fn an_unknown_identifier_is_not_found() {
    let mut store = light_store();
    assert_eq!(store.open("nobody", "pw", 1), Err(OpenError::NotFound));
    store.seal("somebody", "pw", "x").unwrap();
    assert_eq!(store.open("nobody", "pw", 1), Err(OpenError::NotFound));
    assert_eq!(store.open("some", "pw", 1), Err(OpenError::NotFound));
}

#[test]
fn an_identifier_with_a_separator_is_refused() {
    let mut store = light_store();
    assert_eq!(store.seal("a|b", "pw", "x"), Err(SealError::InvalidIdentifier));
    assert_eq!(store.seal("a\nb", "pw", "x"), Err(SealError::InvalidIdentifier));
    assert_eq!(store.len(), 0);
    assert_eq!(store.seal("a\rb", "pw", "x"), Ok(()));
}

#[test]
fn seal_with_is_determined_by_salt_and_nonce() {
    let mut a = light_store();
    let mut b = light_store();
    let salt = [7u8; 16];
    let nonce = [9u8; 12];
    a.seal_with("id", "pw", "same", &salt, &nonce).unwrap();
    b.seal_with("id", "pw", "same", &salt, &nonce).unwrap();
    assert_eq!(a.to_bytes(), b.to_bytes());
    let mut c = light_store();
    c.seal_with("id", "pw", "same", &[8u8; 16], &nonce).unwrap();
    assert_ne!(a.to_bytes(), c.to_bytes());
    assert_eq!(c.open("id", "pw", 0), Ok("same".to_string()));
}

#[test]
fn seal_draws_fresh_salt_and_nonce() {
    let mut a = light_store();
    a.seal("id", "pw", "same").unwrap();
    let first = a.to_bytes();
    a.seal("id", "pw", "same").unwrap();
    assert_ne!(a.to_bytes(), first);
}

#[test]
fn a_cost_that_is_no_configuration_is_refused() {
    assert!(RecordStore::with_cost(KdfCost { memory_kib: 7, iterations: 1, lanes: 1 }).is_none());
    assert!(RecordStore::with_cost(KdfCost { memory_kib: 8, iterations: 0, lanes: 1 }).is_none());
    assert!(RecordStore::with_cost(KdfCost { memory_kib: 8, iterations: 1, lanes: 0 }).is_none());
    assert!(RecordStore::with_cost(KdfCost { memory_kib: 15, iterations: 1, lanes: 2 }).is_none());
    assert!(RecordStore::with_cost(KdfCost { memory_kib: 16, iterations: 1, lanes: 2 }).is_some());
    assert!(
        RecordStore::with_cost(KdfCost { memory_kib: 0x10_0001, iterations: 1, lanes: 1 })
            .is_none()
    );
    assert!(RecordStore::with_cost(KdfCost {
        memory_kib: 64,
        iterations: 1,
        lanes: 0x2000_0000
    })
    .is_none());
}

#[test]
fn another_cost_does_not_open_the_record() {
    let mut a = light_store();
    a.seal("id", "pw", "text").unwrap();
    let text = a.to_bytes();
    let mut b = RecordStore::with_cost(KdfCost { memory_kib: 16, iterations: 1, lanes: 1 }).unwrap();
    b.load(&text);
    assert_eq!(b.open("id", "pw", 0), Err(OpenError::WrongPassword(4)));
}

#[test]
fn a_failure_can_be_recorded_and_the_guard_reset_by_hand() {
    let mut store = light_store();
    assert_eq!(store.record_failed_attempt("nobody", 5), 5);
    store.seal("hugo", "pw", "data").unwrap();
    assert_eq!(store.record_failed_attempt("hugo", 10), 4);
    assert_eq!(store.record_failed_attempt("hugo", 11), 3);
    assert_eq!(store.record_failed_attempt("hugo", 12), 2);
    assert_eq!(
        guard_of(&store, "hugo"),
        BruteForceGuard { attempt_count: 3, last_failure_time: 12, lockout_until: 0 }
    );
    store.reset_failed_attempts("hugo");
    store.reset_failed_attempts("nobody");
    assert_eq!(guard_of(&store, "hugo"), BruteForceGuard::new());
    for k in 0..5u64 {
        store.record_failed_attempt("hugo", 20 + k);
    }
    assert_eq!(store.open("hugo", "pw", 30), Err(OpenError::LockedOut(894)));
    store.reset_failed_attempts("hugo");
    assert_eq!(store.open("hugo", "pw", 30), Ok("data".to_string()));
}

#[test]
fn sealing_again_after_a_reset_starts_from_zero() {
    let mut store = light_store();
    store.seal("ida", "pw", "old").unwrap();
    for k in 0..3u64 {
        let _ = store.open("ida", "bad", 50 + k);
    }
    store.reset_failed_attempts("ida");
    store.seal("ida", "pw", "new").unwrap();
    assert_eq!(guard_of(&store, "ida"), BruteForceGuard::new());
}

#[test]
fn a_damaged_entry_has_no_guard_to_change() {
    let mut store = light_store();
    store.load(b"alice|broken\n");
    assert_eq!(store.record_failed_attempt("alice", 5), 5);
    store.reset_failed_attempts("alice");
    assert_eq!(store.to_bytes(), b"alice|broken\n".to_vec());
}

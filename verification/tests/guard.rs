use rustdatabasen::guard::{BruteForceGuard, GuardState};
use rustdatabasen::limits::{FAILURE_THRESHOLD, LOCKOUT_SECONDS};

#[test]
fn the_constants_are_as_documented() {
    assert_eq!(FAILURE_THRESHOLD, 5);
    assert_eq!(LOCKOUT_SECONDS, 900);
    assert_eq!(rustdatabasen::limits::SALT_LEN, 16);
    assert_eq!(rustdatabasen::limits::NONCE_LEN, 12);
    assert_eq!(rustdatabasen::limits::KEY_LEN, 32);
}

#[test]
fn a_new_guard_is_unlocked_with_no_failures() {
    let g = BruteForceGuard::new();
    assert_eq!(g.current_state(), GuardState::Unlocked(0));
    assert_eq!(g, BruteForceGuard { attempt_count: 0, last_failure_time: 0, lockout_until: 0 });
}

#[test]
fn failures_count_down_and_the_fifth_locks() {
    let mut g = BruteForceGuard::new();
    assert_eq!(g.record_failure(10), 4);
    assert_eq!(g.current_state(), GuardState::Unlocked(1));
    assert_eq!(g.record_failure(11), 3);
    assert_eq!(g.record_failure(12), 2);
    assert_eq!(g.record_failure(13), 1);
    assert_eq!(g.current_state(), GuardState::Unlocked(4));
    assert_eq!(g.record_failure(14), 0);
    assert_eq!(g.current_state(), GuardState::Locked(914));
    assert_eq!(g, BruteForceGuard { attempt_count: 5, last_failure_time: 14, lockout_until: 914 });
}

#[test]
fn evaluate_rejects_while_locked_and_resets_afterwards() {
    let mut g = BruteForceGuard { attempt_count: 5, last_failure_time: 14, lockout_until: 914 };
    assert_eq!(g.evaluate(14), Err(900));
    assert_eq!(g.evaluate(913), Err(1));
    assert_eq!(g, BruteForceGuard { attempt_count: 5, last_failure_time: 14, lockout_until: 914 });
    assert_eq!(g.evaluate(914), Ok(()));
    assert_eq!(g, BruteForceGuard { attempt_count: 0, last_failure_time: 0, lockout_until: 0 });
}

#[test]
fn evaluate_leaves_an_unlocked_guard_alone() {
    let mut g = BruteForceGuard { attempt_count: 3, last_failure_time: 7, lockout_until: 0 };
    assert_eq!(g.evaluate(0), Ok(()));
    assert_eq!(g.evaluate(u64::MAX), Ok(()));
    assert_eq!(g, BruteForceGuard { attempt_count: 3, last_failure_time: 7, lockout_until: 0 });
}

#[test]
fn success_clears_everything() {
    let mut g = BruteForceGuard { attempt_count: 4, last_failure_time: 7, lockout_until: 0 };
    g.record_success();
    assert_eq!(g.current_state(), GuardState::Unlocked(0));
    assert_eq!(g, BruteForceGuard::new());
}

#[test]
fn the_count_and_the_lockout_stop_at_the_largest_numbers() {
    let mut g = BruteForceGuard { attempt_count: u32::MAX, last_failure_time: 0, lockout_until: 0 };
    assert_eq!(g.record_failure(u64::MAX - 10), 0);
    assert_eq!(
        g,
        BruteForceGuard {
            attempt_count: u32::MAX,
            last_failure_time: u64::MAX - 10,
            lockout_until: u64::MAX
        }
    );
    let mut h = BruteForceGuard { attempt_count: 4, last_failure_time: 0, lockout_until: 0 };
    assert_eq!(h.record_failure(u64::MAX - 900), 0);
    assert_eq!(h.lockout_until, u64::MAX);
    assert_eq!(h.evaluate(u64::MAX - 1), Err(1));
    assert_eq!(h.evaluate(u64::MAX), Ok(()));
}

#[test]
fn a_count_above_the_threshold_without_lockout_locks_on_the_next_failure() {
    let mut g = BruteForceGuard { attempt_count: 9, last_failure_time: 0, lockout_until: 0 };
    assert_eq!(g.evaluate(100), Ok(()));
    assert_eq!(g.record_failure(100), 0);
    assert_eq!(g.current_state(), GuardState::Locked(1_000));
}

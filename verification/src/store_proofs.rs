//! What follows from the outcomes of sealing and opening: where a record is
//! found, what a seal keeps, when an open is rejected, and how failed opens
//! count down.

use vstd::prelude::*;
use vstd::utf8::encode_utf8;

use crate::guard::{attempts_left, lockout_end, BruteForceGuard};
use crate::kdf::KdfCost;
use crate::limits::FAILURE_THRESHOLD;
use crate::record::{EntryView, RecordView};
use crate::store::{
    attempt, decrypted, holds, kept_guard, one_entry_each, open_outcome, opened_record, position,
    seal_outcome, seal_refusal, sealed_record, without, OpenError,
};
use crate::witness::{lemma_witness_round_trip, password_digest, witnessed};

verus! {

/// `position` is in range, no entry before it is for the identifier, and the
/// entry at it is.
pub proof fn lemma_position(entries: Seq<EntryView>, identifier: Seq<u8>)
    ensures
        0 <= position(entries, identifier) <= entries.len(),
        forall|j: int|
            0 <= j < position(entries, identifier) ==> (#[trigger] entries[j]).identifier()
                != identifier,
        position(entries, identifier) < entries.len() ==> entries[position(
            entries,
            identifier,
        )].identifier() == identifier,
        position(entries, identifier) < entries.len() <==> holds(entries, identifier),
    decreases entries.len(),
{
    if entries.len() == 0 || entries[0].identifier() == identifier {
    } else {
        let rest = entries.skip(1);
        lemma_position(rest, identifier);
        let p = position(entries, identifier);
        assert forall|j: int| 0 <= j < p implies (#[trigger] entries[j]).identifier()
            != identifier by {
            if j > 0 {
                assert(entries[j] == rest[j - 1]);
            }
        }
        if p < entries.len() {
            assert(entries[p] == rest[p - 1]);
        }
        if holds(entries, identifier) {
            let i = choose|i: int|
                0 <= i < entries.len() && (#[trigger] entries[i]).identifier() == identifier;
            assert(rest[i - 1].identifier() == identifier);
        }
    }
}

/// The position that meets the three conditions is `position`.
pub proof fn lemma_position_at(entries: Seq<EntryView>, identifier: Seq<u8>, i: int)
    requires
        0 <= i <= entries.len(),
        forall|j: int| 0 <= j < i ==> (#[trigger] entries[j]).identifier() != identifier,
        i < entries.len() ==> entries[i].identifier() == identifier,
    ensures
        position(entries, identifier) == i,
    decreases entries.len(),
{
    if i == 0 {
    } else {
        let rest = entries.skip(1);
        assert(entries[0].identifier() != identifier);
        assert forall|j: int| 0 <= j < i - 1 implies (#[trigger] rest[j]).identifier()
            != identifier by {
            assert(rest[j] == entries[j + 1]);
        }
        lemma_position_at(rest, identifier, i - 1);
    }
}

/// After `without`, the new record is the first and only entry for its
/// identifier.
pub proof fn lemma_sealed_position(entries: Seq<EntryView>, record: RecordView)
    ensures
        position(
            without(entries, record.identifier).push(EntryView::Sealed(record)),
            record.identifier,
        ) == without(entries, record.identifier).len(),
{
    let kept = without(entries, record.identifier);
    let after = kept.push(EntryView::Sealed(record));
    lemma_without_keeps(entries, record.identifier);
    assert forall|j: int| 0 <= j < kept.len() implies (#[trigger] after[j]).identifier()
        != record.identifier by {
        assert(after[j] == kept[j]);
    }
    lemma_position_at(after, record.identifier, kept.len() as int);
}

/// A record whose payload opens under the password to a text with the
/// password's witness is opened to that text, unless it is locked.
pub proof fn lemma_witnessed_payload_opens(
    cost: KdfCost,
    record: RecordView,
    password: Seq<char>,
    plaintext: Seq<char>,
    now: u64,
)
    requires
        decrypted(cost, record, password) == Some(
            witnessed(password_digest(password), encode_utf8(plaintext)),
        ),
        !record.guard.is_locked_at(now),
    ensures
        opened_record(cost, record, password, now) == (
            record.with_guard(BruteForceGuard::fresh()),
            Ok::<Seq<char>, OpenError>(plaintext),
        ),
{
    lemma_witness_round_trip(password_digest(password), encode_utf8(plaintext));
    vstd::utf8::encode_utf8_valid_utf8(plaintext);
    vstd::utf8::encode_utf8_decode_utf8(plaintext);
}

/// While an identifier is locked, an open is rejected whatever the password,
/// the right one too, and the table does not change.
pub proof fn lemma_locked_rejects_every_password(
    cost: KdfCost,
    entries: Seq<EntryView>,
    identifier: Seq<u8>,
    password: Seq<char>,
    now: u64,
)
    requires
        holds(entries, identifier),
        entries[position(entries, identifier)] matches EntryView::Sealed(record)
            && record.guard.is_locked_at(now),
    ensures
        open_outcome(cost, entries, identifier, password, now).0 == entries,
        open_outcome(cost, entries, identifier, password, now).1 matches Err(
            OpenError::LockedOut(remaining),
        ) && entries[position(entries, identifier)] matches EntryView::Sealed(record)
            && remaining == record.guard.lockout_until - now,
{
    lemma_position(entries, identifier);
    let i = position(entries, identifier);
    assert(entries.update(i, entries[i]) =~= entries);
}

/// Once the lockout has run out, an open goes as it would on the same
/// record with a guard in the state `Unlocked(0)`.
pub proof fn lemma_expired_lockout_opens_afresh(
    cost: KdfCost,
    record: RecordView,
    password: Seq<char>,
    now: u64,
)
    requires
        record.guard.lockout_until != 0,
        now >= record.guard.lockout_until,
    ensures
        opened_record(cost, record, password, now) == opened_record(
            cost,
            record.with_guard(BruteForceGuard::fresh()),
            password,
            now,
        ),
{
    let afresh = record.with_guard(BruteForceGuard::fresh());
    assert(attempt(cost, record, password) == attempt(cost, afresh, password));
}

/// Sealing an identifier again keeps the guard of its record: the new
/// record is found under the identifier and has the attempt count, the time
/// of the last failure and the lockout that the old one had.
pub proof fn lemma_reseal_keeps_guard(
    cost: KdfCost,
    entries: Seq<EntryView>,
    identifier: Seq<u8>,
    password: Seq<char>,
    plaintext: Seq<char>,
    salt: Seq<u8>,
    nonce: Seq<u8>,
)
    requires
        seal_refusal(identifier, password, plaintext) is None,
    ensures
        ({
            let after = seal_outcome(cost, entries, identifier, password, plaintext, salt, nonce).0;
            &&& holds(after, identifier)
            &&& after[position(after, identifier)] matches EntryView::Sealed(record)
            &&& record.guard == kept_guard(entries, identifier)
            &&& kept_guard(after, identifier) == kept_guard(entries, identifier)
        }),
{
    let record = sealed_record(
        cost,
        identifier,
        password,
        plaintext,
        salt,
        nonce,
        kept_guard(entries, identifier),
    );
    lemma_sealed_position(entries, record);
    let after = seal_outcome(cost, entries, identifier, password, plaintext, salt, nonce).0;
    lemma_position(after, identifier);
}

/// After a seal the table holds exactly one entry for the identifier.
pub proof fn lemma_seal_leaves_one_entry(entries: Seq<EntryView>, record: RecordView)
    ensures
        ({
            let after = without(entries, record.identifier).push(EntryView::Sealed(record));
            forall|j: int|
                0 <= j < after.len() ==> ((#[trigger] after[j]).identifier() == record.identifier
                    <==> j == after.len() - 1)
        }),
{
    let kept = without(entries, record.identifier);
    let after = kept.push(EntryView::Sealed(record));
    lemma_without_keeps(entries, record.identifier);
    assert forall|j: int| 0 <= j < after.len() implies ((#[trigger] after[j]).identifier()
        == record.identifier <==> j == after.len() - 1) by {
        if j < kept.len() {
            assert(after[j] == kept[j]);
        }
    }
}

/// An entry that is found among some entries is found at the same place
/// when more entries follow.
proof fn lemma_position_with_more(front: Seq<EntryView>, more: Seq<EntryView>, identifier: Seq<u8>)
    ensures
        holds(front, identifier) ==> position(front + more, identifier) == position(
            front,
            identifier,
        ),
        !holds(front, identifier) ==> position(front + more, identifier) == front.len()
            + position(more, identifier),
        holds(front + more, identifier) <==> holds(front, identifier) || holds(more, identifier),
{
    let all = front + more;
    lemma_position(front, identifier);
    lemma_position(more, identifier);
    lemma_position(all, identifier);
    if holds(front, identifier) {
        let p = position(front, identifier);
        assert forall|j: int| 0 <= j < p implies (#[trigger] all[j]).identifier() != identifier by {
            assert(all[j] == front[j]);
        }
        assert(all[p] == front[p]);
        lemma_position_at(all, identifier, p);
    } else {
        let p = front.len() + position(more, identifier);
        assert forall|j: int| 0 <= j < p implies (#[trigger] all[j]).identifier() != identifier by {
            if j < front.len() {
                assert(all[j] == front[j]);
            } else {
                assert(all[j] == more[j - front.len()]);
            }
        }
        if p < all.len() {
            assert(all[p] == more[p - front.len()]);
        }
        lemma_position_at(all, identifier, p);
    }
}

/// Taking the entries of one identifier out leaves the entry that is found
/// for any other identifier what it was.
pub proof fn lemma_without_leaves_others(
    entries: Seq<EntryView>,
    identifier: Seq<u8>,
    other: Seq<u8>,
)
    requires
        other != identifier,
    ensures
        holds(without(entries, identifier), other) == holds(entries, other),
        holds(entries, other) ==> without(entries, identifier)[position(
            without(entries, identifier),
            other,
        )] == entries[position(entries, other)],
    decreases entries.len(),
{
    if entries.len() > 0 {
        let front = entries.drop_last();
        let last = seq![entries.last()];
        assert(entries =~= front + last);
        lemma_without_leaves_others(front, identifier, other);
        let kept_front = without(front, identifier);
        let kept_last = if entries.last().identifier() == identifier {
            Seq::<EntryView>::empty()
        } else {
            last
        };
        assert(without(entries, identifier) =~= kept_front + kept_last);
        lemma_position_with_more(front, last, other);
        lemma_position_with_more(kept_front, kept_last, other);
        lemma_position(last, other);
        lemma_position(kept_last, other);
        lemma_position(front, other);
        lemma_position(kept_front, other);
        if holds(front, other) {
            assert((front + last)[position(front, other)] == front[position(front, other)]);
            assert((kept_front + kept_last)[position(kept_front, other)] == kept_front[position(
                kept_front,
                other,
            )]);
        } else if entries.last().identifier() == other {
            assert(last[0].identifier() == other);
            assert((front + last)[front.len() as int] == last[0]);
            assert((kept_front + kept_last)[kept_front.len() as int] == last[0]);
        } else {
            assert(!holds(last, other)) by {
                if holds(last, other) {
                    let i = choose|i: int|
                        0 <= i < last.len() && (#[trigger] last[i]).identifier() == other;
                }
            }
            assert(!holds(kept_last, other)) by {
                if holds(kept_last, other) {
                    let i = choose|i: int|
                        0 <= i < kept_last.len() && (#[trigger] kept_last[i]).identifier()
                            == other;
                }
            }
        }
    } else {
        assert(!holds(entries, other));
    }
}

/// Sealing an identifier leaves the entry that is found for any other
/// identifier what it was.
pub proof fn lemma_seal_leaves_others(
    cost: KdfCost,
    entries: Seq<EntryView>,
    identifier: Seq<u8>,
    password: Seq<char>,
    plaintext: Seq<char>,
    salt: Seq<u8>,
    nonce: Seq<u8>,
    other: Seq<u8>,
)
    requires
        other != identifier,
    ensures
        ({
            let after = seal_outcome(cost, entries, identifier, password, plaintext, salt, nonce).0;
            &&& holds(after, other) == holds(entries, other)
            &&& holds(entries, other) ==> after[position(after, other)] == entries[position(
                entries,
                other,
            )]
        }),
{
    if seal_refusal(identifier, password, plaintext) is None {
        let kept = without(entries, identifier);
        let record = sealed_record(
            cost,
            identifier,
            password,
            plaintext,
            salt,
            nonce,
            kept_guard(entries, identifier),
        );
        let last = seq![EntryView::Sealed(record)];
        let after = seal_outcome(cost, entries, identifier, password, plaintext, salt, nonce).0;
        assert(after =~= kept + last);
        lemma_without_leaves_others(entries, identifier, other);
        lemma_position_with_more(kept, last, other);
        lemma_position(kept, other);
        assert(!holds(last, other)) by {
            if holds(last, other) {
                let i = choose|i: int|
                    0 <= i < last.len() && (#[trigger] last[i]).identifier() == other;
            }
        }
        if holds(kept, other) {
            assert((kept + last)[position(kept, other)] == kept[position(kept, other)]);
        }
    }
}

/// Taking the entries of one identifier out leaves at most one entry for
/// each of the others.
pub proof fn lemma_without_keeps_one_entry_each(entries: Seq<EntryView>, identifier: Seq<u8>)
    requires
        one_entry_each(entries),
    ensures
        one_entry_each(without(entries, identifier)),
    decreases entries.len(),
{
    if entries.len() > 0 {
        let front = entries.drop_last();
        assert forall|i: int, j: int| 0 <= i < j < front.len() implies (
        #[trigger] front[i]).identifier() != (#[trigger] front[j]).identifier() by {
            assert(front[i] == entries[i]);
            assert(front[j] == entries[j]);
        }
        lemma_without_keeps_one_entry_each(front, identifier);
        lemma_without_keeps(front, identifier);
        let kept = without(front, identifier);
        let all = without(entries, identifier);
        assert forall|i: int, j: int| 0 <= i < j < all.len() implies (
        #[trigger] all[i]).identifier() != (#[trigger] all[j]).identifier() by {
            if j < kept.len() {
                assert(all[i] == kept[i]);
                assert(all[j] == kept[j]);
            } else {
                assert(all[j] == entries.last());
                assert(all[i] == kept[i]);
                assert(front.contains(kept[i]));
                let k = choose|k: int| 0 <= k < front.len() && front[k] == kept[i];
                assert(entries[k] == kept[i]);
                assert(entries[entries.len() - 1] == entries.last());
            }
        }
    }
}

/// Sealing keeps the table at one entry for each identifier.
pub proof fn lemma_seal_keeps_one_entry_each(
    cost: KdfCost,
    entries: Seq<EntryView>,
    identifier: Seq<u8>,
    password: Seq<char>,
    plaintext: Seq<char>,
    salt: Seq<u8>,
    nonce: Seq<u8>,
)
    requires
        one_entry_each(entries),
    ensures
        one_entry_each(
            seal_outcome(cost, entries, identifier, password, plaintext, salt, nonce).0,
        ),
{
    if seal_refusal(identifier, password, plaintext) is None {
        lemma_without_keeps_one_entry_each(entries, identifier);
        lemma_without_keeps(entries, identifier);
        let kept = without(entries, identifier);
        let after = seal_outcome(cost, entries, identifier, password, plaintext, salt, nonce).0;
        assert forall|i: int, j: int| 0 <= i < j < after.len() implies (
        #[trigger] after[i]).identifier() != (#[trigger] after[j]).identifier() by {
            assert(after[i] == kept[i]);
            if j < kept.len() {
                assert(after[j] == kept[j]);
            }
        }
    }
}

/// Opening changes no identifier, so the table stays at one entry for each.
pub proof fn lemma_open_keeps_identifiers(
    cost: KdfCost,
    entries: Seq<EntryView>,
    identifier: Seq<u8>,
    password: Seq<char>,
    now: u64,
)
    ensures
        ({
            let after = open_outcome(cost, entries, identifier, password, now).0;
            &&& after.len() == entries.len()
            &&& forall|j: int|
                0 <= j < entries.len() ==> (#[trigger] after[j]).identifier()
                    == entries[j].identifier()
            &&& one_entry_each(entries) ==> one_entry_each(after)
        }),
{
    lemma_position(entries, identifier);
    let after = open_outcome(cost, entries, identifier, password, now).0;
    assert forall|j: int| 0 <= j < entries.len() implies (#[trigger] after[j]).identifier()
        == entries[j].identifier() by {}
    if one_entry_each(entries) {
        assert forall|i: int, j: int| 0 <= i < j < after.len() implies (
        #[trigger] after[i]).identifier() != (#[trigger] after[j]).identifier() by {
            assert(after[i].identifier() == entries[i].identifier());
            assert(after[j].identifier() == entries[j].identifier());
        }
    }
}

/// A payload that the cipher rejects is never opened: the open is locked
/// out or counted as a failure, and no text comes back.
pub proof fn lemma_rejected_payload_never_opens(
    cost: KdfCost,
    record: RecordView,
    password: Seq<char>,
    now: u64,
)
    requires
        decrypted(cost, record, password) is None,
    ensures
        opened_record(cost, record, password, now).1 is Err,
        !record.guard.is_locked_at(now) ==> opened_record(cost, record, password, now).1
            == Err::<Seq<char>, OpenError>(
            OpenError::WrongPassword(attempts_left(record.guard.evaluated(now).next_count())),
        ),
        record.guard.is_locked_at(now) ==> opened_record(cost, record, password, now).1
            matches Err(OpenError::LockedOut(_)),
{
}

/// The record after a run of opens, one password and one time for each.
pub open spec fn after_opens(
    cost: KdfCost,
    record: RecordView,
    passwords: Seq<Seq<char>>,
    times: Seq<u64>,
) -> RecordView
    decreases times.len(),
{
    if times.len() == 0 || passwords.len() != times.len() {
        record
    } else {
        opened_record(
            cost,
            after_opens(cost, record, passwords.drop_last(), times.drop_last()),
            passwords.last(),
            times.last(),
        ).0
    }
}

/// Whether every one of these passwords fails on the record: the cipher
/// rejects the payload under it, or the witness belongs to another password.
pub open spec fn all_fail(cost: KdfCost, record: RecordView, passwords: Seq<Seq<char>>) -> bool {
    forall|i: int| 0 <= i < passwords.len() ==> attempt(cost, record, #[trigger] passwords[i])
        is Failed
}

/// After `k - 1` failed opens on a record with a fresh guard, with `k` at
/// most the threshold, the `k`-th failed open reports `5 - k` attempts; the
/// record has then counted `k` failures and, but for the guard, is as before.
pub proof fn lemma_failed_opens_count_down(
    cost: KdfCost,
    record: RecordView,
    passwords: Seq<Seq<char>>,
    times: Seq<u64>,
)
    requires
        record.guard == BruteForceGuard::fresh(),
        passwords.len() == times.len(),
        1 <= times.len() <= FAILURE_THRESHOLD,
        all_fail(cost, record, passwords),
    ensures
        ({
            let before = after_opens(cost, record, passwords.drop_last(), times.drop_last());
            let (after, result) = opened_record(cost, before, passwords.last(), times.last());
            &&& result == Err::<Seq<char>, OpenError>(
                OpenError::WrongPassword((FAILURE_THRESHOLD - times.len()) as u32),
            )
            &&& after == after_opens(cost, record, passwords, times)
            &&& after == record.with_guard(after.guard)
            &&& after.guard.attempt_count == times.len()
            &&& times.len() < FAILURE_THRESHOLD ==> after.guard.lockout_until == 0
            &&& times.len() == FAILURE_THRESHOLD ==> after.guard.lockout_until == lockout_end(
                times.last(),
            )
        }),
    decreases times.len(),
{
    let earlier_passwords = passwords.drop_last();
    let earlier_times = times.drop_last();
    if times.len() > 1 {
        assert forall|i: int| 0 <= i < earlier_passwords.len() implies attempt(
            cost,
            record,
            #[trigger] earlier_passwords[i],
        ) is Failed by {
            assert(earlier_passwords[i] == passwords[i]);
        }
        lemma_failed_opens_count_down(cost, record, earlier_passwords, earlier_times);
    }
    let before = after_opens(cost, record, earlier_passwords, earlier_times);
    assert(before == record.with_guard(before.guard));
    assert(attempt(cost, before, passwords.last()) == attempt(cost, record, passwords.last()));
    assert(attempt(cost, record, passwords[passwords.len() - 1]) is Failed);
}

/// After the fifth failed open in a row every open before the lockout's
/// end is rejected, whatever the password.
pub proof fn lemma_fifth_failed_open_locks(
    cost: KdfCost,
    record: RecordView,
    passwords: Seq<Seq<char>>,
    times: Seq<u64>,
    password: Seq<char>,
    later: u64,
)
    requires
        record.guard == BruteForceGuard::fresh(),
        passwords.len() == times.len(),
        times.len() == FAILURE_THRESHOLD,
        all_fail(cost, record, passwords),
        later < lockout_end(times.last()),
    ensures
        ({
            let locked = after_opens(cost, record, passwords, times);
            opened_record(cost, locked, password, later) == (
                locked,
                Err::<Seq<char>, OpenError>(
                    OpenError::LockedOut((lockout_end(times.last()) - later) as u64),
                ),
            )
        }),
{
    lemma_failed_opens_count_down(cost, record, passwords, times);
}

/// Whatever `without` keeps was there before.
pub proof fn lemma_without_keeps(entries: Seq<EntryView>, identifier: Seq<u8>)
    ensures
        forall|j: int|
            0 <= j < without(entries, identifier).len() ==> {
                &&& entries.contains(#[trigger] without(entries, identifier)[j])
                &&& without(entries, identifier)[j].identifier() != identifier
            },
    decreases entries.len(),
{
    if entries.len() > 0 {
        let front = entries.drop_last();
        lemma_without_keeps(front, identifier);
        let w = without(entries, identifier);
        assert forall|j: int| 0 <= j < w.len() implies entries.contains(#[trigger] w[j])
            && w[j].identifier() != identifier by {
            if j < without(front, identifier).len() {
                let e = without(front, identifier)[j];
                assert(front.contains(e));
                let k = choose|k: int| 0 <= k < front.len() && front[k] == e;
                assert(entries[k] == e);
            } else {
                assert(w[j] == entries.last());
                assert(entries[entries.len() - 1] == w[j]);
            }
        }
    }
}

} // verus!

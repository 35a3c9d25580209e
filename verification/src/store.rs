//! The record store: the table of entries, sealing and opening.

use vstd::prelude::*;
use vstd::slice::{slice_subrange, slice_to_vec};
use vstd::string::StringSliceAdditionalSpecFns;
use vstd::utf8::{decode_utf8, encode_utf8, valid_utf8};

use crate::bytes::{find_byte, lemma_first_index, split, split_on, views};
use crate::cipher::{aes256gcm_opened, aes256gcm_sealed};
use crate::decimal::lemma_decimal_text_len;
use crate::entropy::{fresh_nonce, fresh_salt};
use crate::guard::{attempts_left, BruteForceGuard};
use crate::kdf::{derive_key, derived_key, kdf_takes, KdfCost};
use crate::limits::{
    CARRIAGE_RETURN, FAILURE_THRESHOLD, FIELD_SEPARATOR, LINE_FEED, MAX_PLAINTEXT_LEN, NONCE_LEN,
    SALT_LEN,
};
use crate::record::{
    encodes_faithfully, parsed_line, rendered_entry, valid_identifier, Entry, EntryView, Record,
    RecordView,
};
use crate::table::{
    chomp, is_of_a_line, lemma_lines_hold_no_line_feed, lemma_parsed_lines_are_of_lines,
    lemma_record_reads_back, lemma_table_reads_back, parsed_lines, parsed_table, reads_back,
    rendered_table, stays_as_written, table_lines,
};
use crate::store_proofs::{
    lemma_position_at, lemma_sealed_position, lemma_without_keeps,
    lemma_witnessed_payload_opens,
};
use crate::text::text_of;
use crate::witness::{
    attach_witness, check_witness, digest_of, password_digest, read_witness, witnessed,
    WitnessError,
};

verus! {

/// Why a record was not opened.
#[derive(Clone, Copy, Debug, PartialEq, Eq, Structural)]
pub enum OpenError {
    /// The table holds no entry for the identifier.
    NotFound,
    /// The entry for the identifier is a damaged line.
    DecodeError,
    /// The identifier is locked; the seconds that remain.
    LockedOut(u64),
    /// The payload did not open under the password, or its witness belongs
    /// to another password; the attempts that remain.
    WrongPassword(u32),
    /// The payload opened but holds no witness, or no text behind it.
    FormatError,
}

/// Why nothing was sealed.
#[derive(Clone, Copy, Debug, PartialEq, Eq, Structural)]
pub enum SealError {
    /// The identifier holds the field separator or a line feed.
    InvalidIdentifier,
    /// The plaintext is longer than can be sealed.
    PayloadTooLarge,
    /// The password is longer than the key derivation takes.
    PasswordTooLong,
    /// The system supplied no random bytes for salt and nonce.
    EntropyUnavailable,
}

/// What one attempt on a record's payload comes to.
pub enum Attempt {
    /// The cipher rejected the payload, or the witness belongs to another password.
    Failed,
    /// The payload opened but is of another format.
    Foreign,
    /// The payload opened to this text.
    Opened(Seq<char>),
}

/// The bytes that a record's payload opens to under a password, or `None`
/// where no key can be derived or the cipher rejects the payload.
pub open spec fn decrypted(cost: KdfCost, record: RecordView, password: Seq<char>) -> Option<
    Seq<u8>,
> {
    if kdf_takes(encode_utf8(password), record.salt) {
        aes256gcm_opened(
            derived_key(cost, encode_utf8(password), record.salt),
            record.nonce,
            record.sealed_payload,
        )
    } else {
        None
    }
}

/// One attempt on a record under a password, the guard left aside.
pub open spec fn attempt(cost: KdfCost, record: RecordView, password: Seq<char>) -> Attempt {
    match decrypted(cost, record, password) {
        None => Attempt::Failed,
        Some(data) => match read_witness(data) {
            None => Attempt::Foreign,
            Some((digest, plaintext)) => if digest != password_digest(password) {
                Attempt::Failed
            } else if valid_utf8(plaintext) {
                Attempt::Opened(decode_utf8(plaintext))
            } else {
                Attempt::Foreign
            },
        },
    }
}

/// The record after an open at `now`, and what the open returns.
///
/// While the record is locked nothing is attempted and nothing changes.
/// Otherwise an expired lockout is cleared first; a failed attempt is then
/// recorded, a success clears the guard, and a payload of another format
/// leaves the guard as the open found it.
pub open spec fn opened_record(cost: KdfCost, record: RecordView, password: Seq<char>, now: u64) -> (
    RecordView,
    Result<Seq<char>, OpenError>,
) {
    if record.guard.is_locked_at(now) {
        (record, Err(OpenError::LockedOut((record.guard.lockout_until - now) as u64)))
    } else {
        let guard = record.guard.evaluated(now);
        match attempt(cost, record, password) {
            Attempt::Failed => (
                record.with_guard(guard.after_failure(now)),
                Err(OpenError::WrongPassword(attempts_left(guard.next_count()))),
            ),
            Attempt::Foreign => (record.with_guard(guard), Err(OpenError::FormatError)),
            Attempt::Opened(text) => (record.with_guard(BruteForceGuard::fresh()), Ok(text)),
        }
    }
}

/// What an open returned, with the text as a sequence of characters.
pub open spec fn text_result(r: Result<String, OpenError>) -> Result<Seq<char>, OpenError> {
    match r {
        Ok(text) => Ok(text@),
        Err(e) => Err(e),
    }
}

impl Record {
    /// Opens this record under a password at time `now`.
    ///
    /// The guard is consulted before any key is derived and updated once the
    /// outcome is known; nothing else in the record changes.
    pub fn open(&mut self, cost: &KdfCost, password: &str, now: u64) -> (r: Result<
        String,
        OpenError,
    >)
        requires
            old(self)@.wf(),
            cost.is_valid(),
        ensures
            (final(self)@, text_result(r)) == opened_record(*cost, old(self)@, password@, now),
            final(self)@.wf(),
            final(self)@ == old(self)@.with_guard(final(self).guard),
    {
        let ghost before = self@;
        match self.guard.evaluate(now) {
            Err(remaining) => {
                return Err(OpenError::LockedOut(remaining));
            },
            Ok(()) => {},
        }
        let ghost guard = before.guard.evaluated(now);
        assert(self@ == before.with_guard(guard));
        let key = match derive_key(cost, password.as_bytes(), self.salt.as_slice()) {
            Ok(key) => key,
            Err(_) => {
                let left = self.guard.record_failure(now);
                return Err(OpenError::WrongPassword(left));
            },
        };
        let data = match crate::cipher::open(
            key.as_slice(),
            self.nonce.as_slice(),
            self.sealed_payload.as_slice(),
        ) {
            Ok(data) => data,
            Err(_) => {
                let left = self.guard.record_failure(now);
                return Err(OpenError::WrongPassword(left));
            },
        };
        assert(decrypted(*cost, before, password@) == Some(data@));
        match check_witness(digest_of(password), data.as_slice()) {
            Err(WitnessError::Missing) => Err(OpenError::FormatError),
            Err(WitnessError::Mismatch) => {
                let left = self.guard.record_failure(now);
                Err(OpenError::WrongPassword(left))
            },
            Ok(plaintext) => match text_of(plaintext) {
                Some(text) => {
                    self.guard.record_success();
                    Ok(text)
                },
                None => Err(OpenError::FormatError),
            },
        }
    }
}

/// The reason for which these inputs cannot be sealed, if there is one.
pub open spec fn seal_refusal(identifier: Seq<u8>, password: Seq<char>, plaintext: Seq<char>) -> Option<
    SealError,
> {
    if !valid_identifier(identifier) {
        Some(SealError::InvalidIdentifier)
    } else if encode_utf8(plaintext).len() > MAX_PLAINTEXT_LEN {
        Some(SealError::PayloadTooLarge)
    } else if encode_utf8(password).len() > 0xFFFF_FFFF {
        Some(SealError::PasswordTooLong)
    } else {
        None
    }
}

/// The record that sealing a plaintext gives: the key is derived from the
/// password and the salt, and the payload is the plaintext with its witness,
/// sealed under that key and the nonce.
pub open spec fn sealed_record(
    cost: KdfCost,
    identifier: Seq<u8>,
    password: Seq<char>,
    plaintext: Seq<char>,
    salt: Seq<u8>,
    nonce: Seq<u8>,
    guard: BruteForceGuard,
) -> RecordView {
    RecordView {
        identifier,
        salt,
        nonce,
        sealed_payload: aes256gcm_sealed(
            derived_key(cost, encode_utf8(password), salt),
            nonce,
            witnessed(password_digest(password), encode_utf8(plaintext)),
        ),
        guard,
    }
}

/// The entries that are not for the identifier, in their order.
pub open spec fn without(entries: Seq<EntryView>, identifier: Seq<u8>) -> Seq<EntryView>
    decreases entries.len(),
{
    if entries.len() == 0 {
        entries
    } else {
        let rest = without(entries.drop_last(), identifier);
        if entries.last().identifier() == identifier {
            rest
        } else {
            rest.push(entries.last())
        }
    }
}

/// The guard that a new seal of the identifier keeps: that of the record
/// that the table holds for it, or a fresh one where it holds none.
pub open spec fn kept_guard(entries: Seq<EntryView>, identifier: Seq<u8>) -> BruteForceGuard {
    let i = position(entries, identifier);
    if 0 <= i < entries.len() {
        match entries[i] {
            EntryView::Sealed(record) => record.guard,
            EntryView::Damaged(_) => BruteForceGuard::fresh(),
        }
    } else {
        BruteForceGuard::fresh()
    }
}

/// What sealing does to the table, and what it returns. On success every
/// earlier entry for the identifier is gone and the new record stands last,
/// with the guard that the identifier had.
pub open spec fn seal_outcome(
    cost: KdfCost,
    entries: Seq<EntryView>,
    identifier: Seq<u8>,
    password: Seq<char>,
    plaintext: Seq<char>,
    salt: Seq<u8>,
    nonce: Seq<u8>,
) -> (Seq<EntryView>, Result<(), SealError>) {
    match seal_refusal(identifier, password, plaintext) {
        Some(e) => (entries, Err(e)),
        None => (
            without(entries, identifier).push(
                EntryView::Sealed(
                    sealed_record(
                        cost,
                        identifier,
                        password,
                        plaintext,
                        salt,
                        nonce,
                        kept_guard(entries, identifier),
                    ),
                ),
            ),
            Ok(()),
        ),
    }
}

/// The position of the first entry for an identifier, or the number of
/// entries where there is none.
pub open spec fn position(entries: Seq<EntryView>, identifier: Seq<u8>) -> int
    decreases entries.len(),
{
    if entries.len() == 0 || entries[0].identifier() == identifier {
        0
    } else {
        1 + position(entries.skip(1), identifier)
    }
}

/// Whether the table holds an entry for the identifier.
pub open spec fn holds(entries: Seq<EntryView>, identifier: Seq<u8>) -> bool {
    exists|i: int| 0 <= i < entries.len() && (#[trigger] entries[i]).identifier() == identifier
}

/// What opening an identifier does to the table, and what it returns. Only
/// the first entry for the identifier is looked at, and only its guard can
/// change.
pub open spec fn open_outcome(
    cost: KdfCost,
    entries: Seq<EntryView>,
    identifier: Seq<u8>,
    password: Seq<char>,
    now: u64,
) -> (Seq<EntryView>, Result<Seq<char>, OpenError>) {
    let i = position(entries, identifier);
    if i < 0 || i >= entries.len() {
        (entries, Err(OpenError::NotFound))
    } else {
        match entries[i] {
            EntryView::Damaged(_) => (entries, Err(OpenError::DecodeError)),
            EntryView::Sealed(record) => {
                let (after, result) = opened_record(cost, record, password, now);
                (entries.update(i, EntryView::Sealed(after)), result)
            },
        }
    }
}

/// The table after a failure is recorded for an identifier, and the attempts
/// that remain. Where the table holds no record for the identifier nothing
/// changes and all attempts remain.
pub open spec fn failure_recorded(entries: Seq<EntryView>, identifier: Seq<u8>, now: u64) -> (
    Seq<EntryView>,
    u32,
) {
    let i = position(entries, identifier);
    if 0 <= i < entries.len() {
        match entries[i] {
            EntryView::Sealed(record) => (
                entries.update(
                    i,
                    EntryView::Sealed(record.with_guard(record.guard.after_failure(now))),
                ),
                attempts_left(record.guard.next_count()),
            ),
            EntryView::Damaged(_) => (entries, FAILURE_THRESHOLD),
        }
    } else {
        (entries, FAILURE_THRESHOLD)
    }
}

/// The table after the guard of an identifier is reset: its record has a
/// fresh guard. Where the table holds no record for it nothing changes.
pub open spec fn attempts_reset(entries: Seq<EntryView>, identifier: Seq<u8>) -> Seq<EntryView> {
    let i = position(entries, identifier);
    if 0 <= i < entries.len() {
        match entries[i] {
            EntryView::Sealed(record) => entries.update(
                i,
                EntryView::Sealed(record.with_guard(BruteForceGuard::fresh())),
            ),
            EntryView::Damaged(_) => entries,
        }
    } else {
        entries
    }
}

/// Whether an open of the identifier at `now` gives exactly this text.
pub open spec fn opens_to(
    cost: KdfCost,
    entries: Seq<EntryView>,
    identifier: Seq<u8>,
    password: Seq<char>,
    now: u64,
    text: Seq<char>,
) -> bool {
    open_outcome(cost, entries, identifier, password, now).1 == Ok::<Seq<char>, OpenError>(text)
}

/// Whether the table holds at most one entry for each identifier.
pub open spec fn one_entry_each(entries: Seq<EntryView>) -> bool {
    forall|i: int, j: int|
        0 <= i < j < entries.len() ==> (#[trigger] entries[i]).identifier() != (
        #[trigger] entries[j]).identifier()
}

/// The views of some entries, one by one.
pub open spec fn entry_views(entries: Seq<Entry>) -> Seq<EntryView> {
    Seq::new(entries.len(), |i: int| entries[i]@)
}

/// Tells whether an identifier can be stored.
pub fn identifier_is_valid(identifier: &[u8]) -> (ok: bool)
    ensures
        ok == valid_identifier(identifier@),
{
    proof {
        lemma_first_index(identifier@, FIELD_SEPARATOR);
        lemma_first_index(identifier@, LINE_FEED);
    }
    find_byte(identifier, FIELD_SEPARATOR) >= identifier.len() && find_byte(identifier, LINE_FEED)
        >= identifier.len()
}

/// Tells why these inputs cannot be sealed, if they cannot.
pub fn check_sealable(identifier: &str, password: &str, plaintext: &str) -> (r: Option<SealError>)
    ensures
        r == seal_refusal(identifier.spec_bytes(), password@, plaintext@),
{
    if !identifier_is_valid(identifier.as_bytes()) {
        Some(SealError::InvalidIdentifier)
    } else if plaintext.as_bytes().len() > MAX_PLAINTEXT_LEN {
        Some(SealError::PayloadTooLarge)
    } else if password.as_bytes().len() > 0xFFFF_FFFF {
        Some(SealError::PasswordTooLong)
    } else {
        None
    }
}

/// The table of records and the cost under which their keys are derived.
#[derive(Debug)]
pub struct RecordStore {
    entries: Vec<Entry>,
    cost: KdfCost,
}

impl RecordStore {
    /// The entries of the table, in the order of its lines.
    pub closed spec fn entries(&self) -> Seq<EntryView> {
        Seq::new(self.entries@.len(), |i: int| self.entries@[i]@)
    }

    /// The cost under which keys are derived.
    pub closed spec fn cost(&self) -> KdfCost {
        self.cost
    }

    /// The cost is a valid configuration and every record is well formed.
    pub open spec fn wf(&self) -> bool {
        &&& self.cost().is_valid()
        &&& forall|i: int| 0 <= i < self.entries().len() ==> (#[trigger] self.entries()[i]).wf()
    }

    /// Whether every entry is such as reading a line gives.
    pub open spec fn is_of_lines(&self) -> bool {
        forall|i: int|
            0 <= i < self.entries().len() ==> is_of_a_line(#[trigger] self.entries()[i])
    }

    /// Whether the text of the table is read back as the table: every entry
    /// is of a line, and no damaged line ends in a carriage return.
    pub open spec fn is_stable(&self) -> bool {
        forall|i: int|
            0 <= i < self.entries().len() ==> stays_as_written(#[trigger] self.entries()[i])
    }

    /// An empty table under the standard cost.
    pub fn new() -> (store: RecordStore)
        ensures
            store.wf(),
            store.is_stable(),
            store.entries() == Seq::<EntryView>::empty(),
            store.cost() == (KdfCost { memory_kib: 131072, iterations: 4, lanes: 1 }),
    {
        let store = RecordStore { entries: Vec::new(), cost: KdfCost::standard() };
        assert(store.entries() =~= Seq::<EntryView>::empty());
        store
    }

    /// An empty table under another cost, or `None` where the cost is no
    /// valid configuration.
    pub fn with_cost(cost: KdfCost) -> (r: Option<RecordStore>)
        ensures
            r is Some <==> cost.is_valid(),
            r matches Some(store) ==> {
                &&& store.wf()
                &&& store.is_stable()
                &&& store.entries() == Seq::<EntryView>::empty()
                &&& store.cost() == cost
            },
    {
        if !cost.check() {
            return None;
        }
        let store = RecordStore { entries: Vec::new(), cost };
        assert(store.entries() =~= Seq::<EntryView>::empty());
        Some(store)
    }

    /// Reads a table from its text, under the standard cost.
    ///
    /// A line that cannot be read as a record is kept as a damaged entry and
    /// does not keep the other lines from being read.
    pub fn parse(text: &[u8]) -> (store: RecordStore)
        ensures
            store.wf(),
            store.entries() == parsed_table(text@),
            store.is_of_lines(),
            store.cost() == (KdfCost { memory_kib: 131072, iterations: 4, lanes: 1 }),
    {
        let mut store = RecordStore::new();
        store.load(text);
        store
    }

    /// Replaces the entries by those that a table's text holds.
    pub fn load(&mut self, text: &[u8])
        requires
            old(self).wf(),
        ensures
            final(self).wf(),
            final(self).cost() == old(self).cost(),
            final(self).entries() == parsed_table(text@),
            final(self).is_of_lines(),
    {
        let raw = split_on(text, LINE_FEED);
        let ghost lines = table_lines(text@);
        let mut entries: Vec<Entry> = Vec::new();
        let mut k: usize = 0;
        assert(lines.skip(0) =~= lines);
        assert(entry_views(entries@) + parsed_lines(lines.skip(0)) =~= parsed_lines(lines));
        while k < raw.len()
            invariant
                k <= raw@.len(),
                views(raw@) == split(text@, LINE_FEED),
                lines == table_lines(text@),
                entry_views(entries@) + parsed_lines(lines.skip(k as int)) == parsed_lines(lines),
                forall|j: int| 0 <= j < entries@.len() ==> (#[trigger] entries@[j])@.wf(),
            decreases raw@.len() - k,
        {
            let whole = raw[k].as_slice();
            assert(views(raw@)[k as int] == raw@[k as int]@);
            let line = if k + 1 < raw.len() && whole.len() > 0 && whole[whole.len() - 1]
                == CARRIAGE_RETURN {
                slice_subrange(whole, 0, whole.len() - 1)
            } else {
                whole
            };
            assert(line@ =~= lines[k as int]) by {
                if k + 1 < raw@.len() {
                    assert(chomp(whole@) =~= line@);
                }
            }
            let ghost rest = lines.skip(k as int);
            assert(rest[0] == lines[k as int]);
            assert(rest.skip(1) =~= lines.skip(k + 1));
            let ghost read = entry_views(entries@);
            if line.len() > 0 {
                let entry = Entry::parse(line);
                entries.push(entry);
                assert(entry_views(entries@) =~= read + seq![parsed_line(line@)]);
            }
            k = k + 1;
        }
        assert(lines.skip(k as int).len() == 0);
        self.entries = entries;
        assert(self.entries() =~= parsed_table(text@));
        proof {
            lemma_lines_hold_no_line_feed(text@);
            lemma_parsed_lines_are_of_lines(lines);
        }
    }

    /// The text of the table: the line of each entry, each ended by a line
    /// feed.
    ///
    /// Where the table is stable, reading the text gives the table back.
    pub fn to_bytes(&self) -> (text: Vec<u8>)
        requires
            self.wf(),
        ensures
            text@ == rendered_table(self.entries()),
            self.is_stable() ==> parsed_table(text@) == self.entries(),
    {
        let mut out: Vec<u8> = Vec::new();
        let mut i: usize = 0;
        let ghost all = self.entries();
        assert(all.skip(0) =~= all);
        assert(out@ + rendered_table(all.skip(0)) =~= rendered_table(all));
        while i < self.entries.len()
            invariant
                i <= self.entries@.len(),
                all == self.entries(),
                all.len() == self.entries@.len(),
                self.wf(),
                out@ + rendered_table(all.skip(i as int)) == rendered_table(all),
                forall|j: int|
                    0 <= j < i ==> (#[trigger] all[j] matches EntryView::Sealed(record)
                        ==> encodes_faithfully(record)),
            decreases self.entries@.len() - i,
        {
            let ghost written = out@;
            let ghost rest = all.skip(i as int);
            assert(rest[0] == all[i as int]);
            assert(rest.skip(1) =~= all.skip(i + 1));
            assert(all[i as int] == self.entries@[i as int]@);
            assert(all[i as int].wf());
            self.entries[i].render(&mut out);
            out.push(LINE_FEED);
            assert(out@ =~= written + (rendered_entry(all[i as int]) + seq![LINE_FEED]));
            assert(out@ + rendered_table(all.skip(i + 1)) =~= written + rendered_table(rest));
            i = i + 1;
        }
        proof {
            assert(all.skip(i as int).len() == 0);
            assert(out@ =~= rendered_table(all));
            if self.is_stable() {
                assert forall|j: int| 0 <= j < all.len() implies reads_back(#[trigger] all[j]) by {
                    assert(stays_as_written(all[j]));
                    match all[j] {
                        EntryView::Sealed(record) => {
                            lemma_record_reads_back(record);
                        },
                        EntryView::Damaged(_) => {},
                    }
                }
                lemma_table_reads_back(all);
            }
        }
        out
    }

    /// The number of entries.
    pub fn len(&self) -> (n: usize)
        ensures
            n == self.entries().len(),
    {
        self.entries.len()
    }

    /// The entry at a position.
    pub fn entry(&self, i: usize) -> (e: &Entry)
        requires
            i < self.entries().len(),
        ensures
            e@ == self.entries()[i as int],
    {
        &self.entries[i]
    }

    /// Finds the first entry for an identifier.
    pub fn find(&self, identifier: &[u8]) -> (i: usize)
        ensures
            i == position(self.entries(), identifier@),
            i <= self.entries().len(),
    {
        let mut i: usize = 0;
        while i < self.entries.len()
            invariant
                i <= self.entries().len(),
                self.entries().len() == self.entries@.len(),
                forall|j: int|
                    0 <= j < i ==> (#[trigger] self.entries()[j]).identifier() != identifier@,
            decreases self.entries@.len() - i,
        {
            if self.entries[i].is_for(identifier) {
                proof {
                    assert(self.entries()[i as int] == self.entries@[i as int]@);
                    lemma_position_at(self.entries(), identifier@, i as int);
                }
                return i;
            }
            assert(self.entries()[i as int] == self.entries@[i as int]@);
            i = i + 1;
        }
        proof {
            lemma_position_at(self.entries(), identifier@, i as int);
        }
        i
    }

    /// Takes every entry for an identifier out of the table.
    fn remove_all(&mut self, identifier: &[u8])
        requires
            old(self).wf(),
        ensures
            final(self).wf(),
            final(self).cost() == old(self).cost(),
            final(self).entries() == without(old(self).entries(), identifier@),
    {
        let ghost before = self.entries();
        let ghost mut k: int = 0;
        let mut i: usize = 0;
        assert(before.take(0) =~= Seq::<EntryView>::empty());
        assert(before.skip(0) =~= before);
        assert(self.entries() =~= without(before.take(0), identifier@) + before.skip(0));
        while i < self.entries.len()
            invariant
                0 <= k <= before.len(),
                before == old(self).entries(),
                self.cost == old(self).cost,
                i <= self.entries@.len(),
                entry_views(self.entries@) == without(before.take(k), identifier@) + before.skip(k),
                i == without(before.take(k), identifier@).len(),
            decreases self.entries@.len() - i,
        {
            let ghost kept = without(before.take(k), identifier@);
            assert(k < before.len());
            assert(entry_views(self.entries@)[i as int] == self.entries@[i as int]@);
            assert(self.entries@[i as int]@ == before[k]);
            assert(before.take(k + 1).drop_last() =~= before.take(k));
            assert(before.take(k + 1).last() == before[k]);
            let ghost views_before = entry_views(self.entries@);
            let ghost held = self.entries@;
            if self.entries[i].is_for(identifier) {
                self.entries.remove(i);
                proof {
                    let views_after = entry_views(self.entries@);
                    let expected = kept + before.skip(k + 1);
                    assert(self.entries@ == held.remove(i as int));
                    held.remove_ensures(i as int);
                    assert(views_before == kept + before.skip(k));
                    assert(views_before.len() == held.len());
                    assert(before.skip(k).len() == before.len() - k);
                    assert(before.skip(k + 1).len() == before.len() - k - 1);
                    assert(views_after.len() == expected.len());
                    assert forall|j: int| 0 <= j < views_after.len() implies views_after[j]
                        == expected[j] by {
                        if j < i {
                            assert(self.entries@[j] == held[j]);
                            assert(views_before[j] == kept[j]);
                        } else {
                            assert(self.entries@[j] == held[j + 1]);
                            assert(views_before[j + 1] == before.skip(k)[j + 1 - i]);
                        }
                    }
                    assert(views_after =~= expected);
                }
            } else {
                assert(entry_views(self.entries@) =~= kept.push(before[k]) + before.skip(k + 1));
                i = i + 1;
            }
            proof {
                k = k + 1;
            }
        }
        proof {
            assert(before.skip(k).len() == 0);
            assert(before.take(k) =~= before);
            assert(self.entries() =~= without(before, identifier@));
            lemma_without_keeps(before, identifier@);
            assert forall|j: int| 0 <= j < self.entries().len() implies (
            #[trigger] self.entries()[j]).wf() by {
                let e = self.entries()[j];
                assert(before.contains(e));
                let m = choose|m: int| 0 <= m < before.len() && before[m] == e;
                assert(before[m].wf());
            }
        }
    }

    /// The guard of the record that the table holds for an identifier, or a
    /// fresh one.
    fn guard_to_keep(&self, identifier: &[u8]) -> (guard: BruteForceGuard)
        ensures
            guard == kept_guard(self.entries(), identifier@),
    {
        let i = self.find(identifier);
        if i < self.entries.len() {
            match &self.entries[i] {
                Entry::Sealed(record) => record.guard,
                Entry::Damaged(_) => BruteForceGuard::new(),
            }
        } else {
            BruteForceGuard::new()
        }
    }

    /// Seals a plaintext for an identifier under a password, with the salt
    /// and the nonce that the caller drew.
    ///
    /// Salt and nonce must be fresh: a nonce must never be used twice under
    /// one key. No guard is consulted: only opening is guarded. A record
    /// that the table already holds for the identifier is replaced and hands
    /// its guard on to the new one.
    pub fn seal_with(
        &mut self,
        identifier: &str,
        password: &str,
        plaintext: &str,
        salt: &[u8],
        nonce: &[u8],
    ) -> (r: Result<(), SealError>)
        requires
            old(self).wf(),
            salt@.len() == SALT_LEN,
            nonce@.len() == NONCE_LEN,
        ensures
            final(self).wf(),
            final(self).cost() == old(self).cost(),
            old(self).is_stable() ==> final(self).is_stable(),
            old(self).is_of_lines() ==> final(self).is_of_lines(),
            (final(self).entries(), r) == seal_outcome(
                old(self).cost(),
                old(self).entries(),
                identifier.spec_bytes(),
                password@,
                plaintext@,
                salt@,
                nonce@,
            ),
            r is Ok ==> forall|now: u64|
                !kept_guard(old(self).entries(), identifier.spec_bytes()).is_locked_at(now)
                    ==> #[trigger] opens_to(
                    final(self).cost(),
                    final(self).entries(),
                    identifier.spec_bytes(),
                    password@,
                    now,
                    plaintext@,
                ),
    {
        match check_sealable(identifier, password, plaintext) {
            Some(e) => {
                return Err(e);
            },
            None => {},
        }
        let id = identifier.as_bytes();
        let guard = self.guard_to_keep(id);
        let key = match derive_key(&self.cost, password.as_bytes(), salt) {
            Ok(key) => key,
            Err(_) => {
                assert(false);
                return Err(SealError::PasswordTooLong);
            },
        };
        let digest = digest_of(password);
        let data = attach_witness(digest, plaintext.as_bytes());
        proof {
            lemma_decimal_text_len(digest as nat);
        }
        let sealed_payload = match crate::cipher::seal(key.as_slice(), nonce, data.as_slice()) {
            Some(sealed) => sealed,
            None => {
                assert(false);
                return Err(SealError::PayloadTooLarge);
            },
        };
        let record = Record {
            identifier: slice_to_vec(id),
            salt: slice_to_vec(salt),
            nonce: slice_to_vec(nonce),
            sealed_payload,
            guard,
        };
        let ghost before = self.entries();
        assert(record@ == sealed_record(
            self.cost,
            identifier.spec_bytes(),
            password@,
            plaintext@,
            salt@,
            nonce@,
            kept_guard(before, identifier.spec_bytes()),
        ));
        self.remove_all(id);
        let ghost kept = self.entries();
        self.entries.push(Entry::Sealed(record));
        proof {
            assert(self.entries() =~= kept.push(EntryView::Sealed(record@)));
            assert forall|j: int| 0 <= j < self.entries().len() implies (
            #[trigger] self.entries()[j]).wf() by {
                if j < kept.len() {
                    assert(kept[j].wf());
                }
            }
            lemma_without_keeps(before, identifier.spec_bytes());
            if old(self).is_of_lines() {
                assert forall|j: int| 0 <= j < self.entries().len() implies is_of_a_line(
                    #[trigger] self.entries()[j],
                ) by {
                    if j < kept.len() {
                        let m = choose|m: int| 0 <= m < before.len() && before[m] == kept[j];
                        assert(is_of_a_line(before[m]));
                    }
                }
            }
            if old(self).is_stable() {
                assert forall|j: int| 0 <= j < self.entries().len() implies stays_as_written(
                    #[trigger] self.entries()[j],
                ) by {
                    if j < kept.len() {
                        let m = choose|m: int| 0 <= m < before.len() && before[m] == kept[j];
                        assert(stays_as_written(before[m]));
                    }
                }
            }
            lemma_sealed_position(before, record@);
            assert(decrypted(self.cost, record@, password@) == Some(data@));
            assert forall|now: u64|
                !kept_guard(before, identifier.spec_bytes()).is_locked_at(
                    now,
                ) implies #[trigger] opens_to(
                self.cost,
                self.entries(),
                identifier.spec_bytes(),
                password@,
                now,
                plaintext@,
            ) by {
                lemma_witnessed_payload_opens(self.cost, record@, password@, plaintext@, now);
            }
        }
        Ok(())
    }

    /// Seals a plaintext for an identifier under a password, with salt and
    /// nonce drawn afresh from the system.
    ///
    /// Whatever bytes are drawn, the table changes as `seal_with` changes it
    /// for them. Where the system supplies none, nothing is sealed.
    pub fn seal(&mut self, identifier: &str, password: &str, plaintext: &str) -> (r: Result<
        (),
        SealError,
    >)
        requires
            old(self).wf(),
        ensures
            final(self).wf(),
            final(self).cost() == old(self).cost(),
            old(self).is_stable() ==> final(self).is_stable(),
            old(self).is_of_lines() ==> final(self).is_of_lines(),
            r == Err::<(), SealError>(SealError::EntropyUnavailable) ==> final(self).entries()
                == old(self).entries(),
            r is Ok ==> forall|now: u64|
                !kept_guard(old(self).entries(), identifier.spec_bytes()).is_locked_at(now)
                    ==> #[trigger] opens_to(
                    final(self).cost(),
                    final(self).entries(),
                    identifier.spec_bytes(),
                    password@,
                    now,
                    plaintext@,
                ),
            r != Err::<(), SealError>(SealError::EntropyUnavailable) ==> exists|
                salt: Seq<u8>,
                nonce: Seq<u8>,
            |
                salt.len() == SALT_LEN && nonce.len() == NONCE_LEN && (final(self).entries(), r)
                    == #[trigger] seal_outcome(
                    old(self).cost(),
                    old(self).entries(),
                    identifier.spec_bytes(),
                    password@,
                    plaintext@,
                    salt,
                    nonce,
                ),
    {
        let salt = match fresh_salt() {
            Some(bytes) => bytes,
            None => {
                return Err(SealError::EntropyUnavailable);
            },
        };
        let nonce = match fresh_nonce() {
            Some(bytes) => bytes,
            None => {
                return Err(SealError::EntropyUnavailable);
            },
        };
        let r = self.seal_with(identifier, password, plaintext, salt.as_slice(), nonce.as_slice());
        proof {
            assert(salt@.len() == SALT_LEN && nonce@.len() == NONCE_LEN && (final(self).entries(), r)
                == seal_outcome(
                old(self).cost(),
                old(self).entries(),
                identifier.spec_bytes(),
                password@,
                plaintext@,
                salt@,
                nonce@,
            ));
        }
        r
    }

    /// Records a failed attempt on an identifier at time `now` and reports
    /// the attempts that remain.
    pub fn record_failed_attempt(&mut self, identifier: &str, now: u64) -> (remaining: u32)
        requires
            old(self).wf(),
        ensures
            final(self).wf(),
            final(self).cost() == old(self).cost(),
            old(self).is_stable() ==> final(self).is_stable(),
            old(self).is_of_lines() ==> final(self).is_of_lines(),
            (final(self).entries(), remaining) == failure_recorded(
                old(self).entries(),
                identifier.spec_bytes(),
                now,
            ),
    {
        let i = self.find(identifier.as_bytes());
        if i >= self.entries.len() {
            return FAILURE_THRESHOLD;
        }
        let ghost before = self.entries();
        assert(before[i as int] == self.entries@[i as int]@);
        let remaining = match &mut self.entries[i] {
            Entry::Damaged(_) => FAILURE_THRESHOLD,
            Entry::Sealed(record) => record.guard.record_failure(now),
        };
        proof {
            let after = self.entries();
            let expected = failure_recorded(before, identifier.spec_bytes(), now).0;
            assert(after.len() == expected.len());
            assert forall|j: int| 0 <= j < after.len() implies after[j] == expected[j] by {
                assert(after[j] == self.entries@[j]@);
                assert(before[j] == old(self).entries@[j]@);
            }
            assert(after =~= expected);
            assert forall|j: int| 0 <= j < after.len() implies (#[trigger] after[j]).wf() by {
                assert(before[j].wf());
            }
        }
        remaining
    }

    /// Resets the guard of an identifier to `Unlocked(0)`.
    pub fn reset_failed_attempts(&mut self, identifier: &str)
        requires
            old(self).wf(),
        ensures
            final(self).wf(),
            final(self).cost() == old(self).cost(),
            old(self).is_stable() ==> final(self).is_stable(),
            old(self).is_of_lines() ==> final(self).is_of_lines(),
            final(self).entries() == attempts_reset(old(self).entries(), identifier.spec_bytes()),
    {
        let i = self.find(identifier.as_bytes());
        if i >= self.entries.len() {
            return ;
        }
        let ghost before = self.entries();
        assert(before[i as int] == self.entries@[i as int]@);
        match &mut self.entries[i] {
            Entry::Damaged(_) => {},
            Entry::Sealed(record) => {
                record.guard.record_success();
            },
        }
        proof {
            let after = self.entries();
            let expected = attempts_reset(before, identifier.spec_bytes());
            assert(after.len() == expected.len());
            assert forall|j: int| 0 <= j < after.len() implies after[j] == expected[j] by {
                assert(after[j] == self.entries@[j]@);
                assert(before[j] == old(self).entries@[j]@);
            }
            assert(after =~= expected);
            assert forall|j: int| 0 <= j < after.len() implies (#[trigger] after[j]).wf() by {
                assert(before[j].wf());
            }
        }
    }

    /// Opens the record for an identifier under a password at time `now`.
    ///
    /// The table changes in the guard of that record at most.
    pub fn open(&mut self, identifier: &str, password: &str, now: u64) -> (r: Result<
        String,
        OpenError,
    >)
        requires
            old(self).wf(),
        ensures
            final(self).wf(),
            final(self).cost() == old(self).cost(),
            old(self).is_stable() ==> final(self).is_stable(),
            old(self).is_of_lines() ==> final(self).is_of_lines(),
            (final(self).entries(), text_result(r)) == open_outcome(
                old(self).cost(),
                old(self).entries(),
                identifier.spec_bytes(),
                password@,
                now,
            ),
    {
        let i = self.find(identifier.as_bytes());
        if i >= self.entries.len() {
            return Err(OpenError::NotFound);
        }
        let cost = self.cost;
        let ghost before = self.entries();
        assert(before[i as int] == self.entries@[i as int]@);
        assert(before[i as int].wf());
        let r = match &mut self.entries[i] {
            Entry::Damaged(_) => Err(OpenError::DecodeError),
            Entry::Sealed(record) => record.open(&cost, password, now),
        };
        proof {
            let after = self.entries();
            let expected = open_outcome(cost, before, identifier.spec_bytes(), password@, now).0;
            assert(after.len() == expected.len());
            assert forall|j: int| 0 <= j < after.len() implies after[j] == expected[j] by {
                assert(after[j] == self.entries@[j]@);
                assert(before[j] == old(self).entries@[j]@);
            }
            assert(after =~= expected);
            assert forall|j: int| 0 <= j < after.len() implies (#[trigger] after[j]).wf() by {
                assert(before[j].wf());
            }
        }
        r
    }
}

} // verus!

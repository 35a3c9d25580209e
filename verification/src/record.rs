//! Records and the stored line that holds one.
//!
//! A line is a sequence of fields with `|` between them:
//! the identifier; salt, nonce and sealed payload in base64; then the attempt
//! count, the time of the last failure and the end of the lockout in
//! decimal. A line may lack the last three fields, which then count as
//! zero.

use vstd::prelude::*;
use vstd::slice::{slice_subrange, slice_to_vec};

use crate::bytes::{find_byte, first_index, occurs, split, split_on};
use crate::decimal::{append_decimal, decimal_text, parse_decimal, parse_u32, parse_u64};
use crate::encoding::{
    all_base64_symbols, append_base64, base64_bytes, base64_text, decode_base64, encodable_len,
};
use crate::guard::BruteForceGuard;
use crate::limits::{FIELD_SEPARATOR, LINE_FEED, MAX_SEALED_LEN, NONCE_LEN, SALT_LEN};

verus! {

/// One sealed payload with the state of its brute-force guard.
#[derive(Clone, Debug, PartialEq, Eq)]
pub struct Record {
    /// The key under which the record is found.
    pub identifier: Vec<u8>,
    /// The salt from which the record's key was derived.
    pub salt: Vec<u8>,
    /// The nonce under which the payload was sealed.
    pub nonce: Vec<u8>,
    /// Ciphertext and authentication tag.
    pub sealed_payload: Vec<u8>,
    /// Attempt counter and lockout.
    pub guard: BruteForceGuard,
}

/// A record as a mathematical value.
pub struct RecordView {
    pub identifier: Seq<u8>,
    pub salt: Seq<u8>,
    pub nonce: Seq<u8>,
    pub sealed_payload: Seq<u8>,
    pub guard: BruteForceGuard,
}

/// One line of the table: a record, or a line that could not be read as one
/// and is kept as it stands.
#[derive(Clone, Debug, PartialEq, Eq)]
pub enum Entry {
    Sealed(Record),
    Damaged(Vec<u8>),
}

/// An entry as a mathematical value.
pub enum EntryView {
    Sealed(RecordView),
    Damaged(Seq<u8>),
}

impl View for Record {
    type V = RecordView;

    open spec fn view(&self) -> RecordView {
        RecordView {
            identifier: self.identifier@,
            salt: self.salt@,
            nonce: self.nonce@,
            sealed_payload: self.sealed_payload@,
            guard: self.guard,
        }
    }
}

impl View for Entry {
    type V = EntryView;

    open spec fn view(&self) -> EntryView {
        match self {
            Entry::Sealed(record) => EntryView::Sealed(record@),
            Entry::Damaged(line) => EntryView::Damaged(line@),
        }
    }
}

/// An identifier can be stored if it holds neither the field separator nor a
/// line feed.
pub open spec fn valid_identifier(identifier: Seq<u8>) -> bool {
    !occurs(identifier, FIELD_SEPARATOR) && !occurs(identifier, LINE_FEED)
}

impl RecordView {
    /// Salt and nonce have their fixed lengths and the payload is not longer
    /// than a record can hold.
    pub open spec fn wf(self) -> bool {
        &&& self.salt.len() == SALT_LEN
        &&& self.nonce.len() == NONCE_LEN
        &&& self.sealed_payload.len() <= MAX_SEALED_LEN
    }

    /// The same record with another guard.
    pub open spec fn with_guard(self, guard: BruteForceGuard) -> RecordView {
        RecordView { guard, ..self }
    }
}

impl EntryView {
    pub open spec fn wf(self) -> bool {
        self matches EntryView::Sealed(record) ==> record.wf()
    }

    /// The identifier under which the entry is found: a record's own, or the
    /// first field of a damaged line.
    pub open spec fn identifier(self) -> Seq<u8> {
        match self {
            EntryView::Sealed(record) => record.identifier,
            EntryView::Damaged(line) => line.take(first_index(line, FIELD_SEPARATOR)),
        }
    }
}

/// The number that a field denotes, or zero where it denotes none that fits.
pub open spec fn number_or_zero(field: Seq<u8>, max: nat) -> nat {
    match parse_decimal(field, max) {
        Some(n) => n,
        None => 0,
    }
}

/// The guard that the fields of a line give: the last three of seven, or a
/// fresh guard where there are only four.
pub open spec fn parsed_guard(fields: Seq<Seq<u8>>) -> BruteForceGuard {
    if fields.len() == 7 {
        BruteForceGuard {
            attempt_count: number_or_zero(fields[4], u32::MAX as nat) as u32,
            last_failure_time: number_or_zero(fields[5], u64::MAX as nat) as u64,
            lockout_until: number_or_zero(fields[6], u64::MAX as nat) as u64,
        }
    } else {
        BruteForceGuard::fresh()
    }
}

/// What a line of the table holds. A line is damaged where it has neither
/// four nor seven fields, where a binary field is no base64, or where salt,
/// nonce or payload have no admissible length.
pub open spec fn parsed_line(line: Seq<u8>) -> EntryView {
    let fields = split(line, FIELD_SEPARATOR);
    if fields.len() != 4 && fields.len() != 7 {
        EntryView::Damaged(line)
    } else {
        match (base64_bytes(fields[1]), base64_bytes(fields[2]), base64_bytes(fields[3])) {
            (Some(salt), Some(nonce), Some(sealed_payload)) => {
                let record = RecordView {
                    identifier: fields[0],
                    salt,
                    nonce,
                    sealed_payload,
                    guard: parsed_guard(fields),
                };
                if record.wf() {
                    EntryView::Sealed(record)
                } else {
                    EntryView::Damaged(line)
                }
            },
            _ => EntryView::Damaged(line),
        }
    }
}

/// Whether the three binary fields of a record are encoded in symbols of
/// the alphabet and decode to themselves again.
pub open spec fn encodes_faithfully(record: RecordView) -> bool {
    &&& all_base64_symbols(base64_text(record.salt))
    &&& all_base64_symbols(base64_text(record.nonce))
    &&& all_base64_symbols(base64_text(record.sealed_payload))
    &&& base64_bytes(base64_text(record.salt)) == Some(record.salt)
    &&& base64_bytes(base64_text(record.nonce)) == Some(record.nonce)
    &&& base64_bytes(base64_text(record.sealed_payload)) == Some(record.sealed_payload)
}

/// The line that holds a record, always with seven fields.
pub open spec fn rendered_record(record: RecordView) -> Seq<u8> {
    record.identifier + seq![FIELD_SEPARATOR] + base64_text(record.salt) + seq![FIELD_SEPARATOR]
        + base64_text(record.nonce) + seq![FIELD_SEPARATOR] + base64_text(record.sealed_payload)
        + seq![FIELD_SEPARATOR] + decimal_text(record.guard.attempt_count as nat)
        + seq![FIELD_SEPARATOR] + decimal_text(record.guard.last_failure_time as nat)
        + seq![FIELD_SEPARATOR] + decimal_text(record.guard.lockout_until as nat)
}

/// The line that holds an entry: a damaged line is written as it was read.
pub open spec fn rendered_entry(entry: EntryView) -> Seq<u8> {
    match entry {
        EntryView::Sealed(record) => rendered_record(record),
        EntryView::Damaged(line) => line,
    }
}

/// Reads a decimal field of at most 32 bits; anything else counts as zero.
fn field_u32(field: &[u8]) -> (n: u32)
    ensures
        n == number_or_zero(field@, u32::MAX as nat),
{
    match parse_u32(field) {
        Some(n) => n,
        None => 0,
    }
}

/// Reads a decimal field of at most 64 bits; anything else counts as zero.
fn field_u64(field: &[u8]) -> (n: u64)
    ensures
        n == number_or_zero(field@, u64::MAX as nat),
{
    match parse_u64(field) {
        Some(n) => n,
        None => 0,
    }
}

impl Record {
    /// Appends the record's line to `out`, without a line feed.
    pub fn render(&self, out: &mut Vec<u8>)
        requires
            self@.wf(),
        ensures
            final(out)@ == old(out)@ + rendered_record(self@),
            encodes_faithfully(self@),
    {
        proof {
            assert(encodable_len(self.salt@.len()));
            assert(encodable_len(self.nonce@.len()));
            assert(encodable_len(self.sealed_payload@.len()));
        }
        out.extend_from_slice(self.identifier.as_slice());
        out.push(FIELD_SEPARATOR);
        append_base64(out, self.salt.as_slice());
        out.push(FIELD_SEPARATOR);
        append_base64(out, self.nonce.as_slice());
        out.push(FIELD_SEPARATOR);
        append_base64(out, self.sealed_payload.as_slice());
        out.push(FIELD_SEPARATOR);
        append_decimal(out, self.guard.attempt_count as u64);
        out.push(FIELD_SEPARATOR);
        append_decimal(out, self.guard.last_failure_time);
        out.push(FIELD_SEPARATOR);
        append_decimal(out, self.guard.lockout_until);
        assert(final(out)@ =~= old(out)@ + rendered_record(self@));
    }
}

impl Entry {
    /// Reads one line of the table.
    pub fn parse(line: &[u8]) -> (entry: Entry)
        ensures
            entry@ == parsed_line(line@),
            entry@.wf(),
    {
        let fields = split_on(line, FIELD_SEPARATOR);
        let ghost parts = split(line@, FIELD_SEPARATOR);
        assert(forall|k: int| 0 <= k < fields@.len() ==> fields@[k]@ == #[trigger] parts[k]);
        if fields.len() != 4 && fields.len() != 7 {
            return Entry::Damaged(slice_to_vec(line));
        }
        let salt = match decode_base64(fields[1].as_slice()) {
            Some(bytes) => bytes,
            None => {
                return Entry::Damaged(slice_to_vec(line));
            },
        };
        let nonce = match decode_base64(fields[2].as_slice()) {
            Some(bytes) => bytes,
            None => {
                return Entry::Damaged(slice_to_vec(line));
            },
        };
        let sealed_payload = match decode_base64(fields[3].as_slice()) {
            Some(bytes) => bytes,
            None => {
                return Entry::Damaged(slice_to_vec(line));
            },
        };
        if salt.len() != SALT_LEN || nonce.len() != NONCE_LEN || sealed_payload.len()
            > MAX_SEALED_LEN {
            return Entry::Damaged(slice_to_vec(line));
        }
        let guard = if fields.len() == 7 {
            BruteForceGuard {
                attempt_count: field_u32(fields[4].as_slice()),
                last_failure_time: field_u64(fields[5].as_slice()),
                lockout_until: field_u64(fields[6].as_slice()),
            }
        } else {
            BruteForceGuard::new()
        };
        let identifier = slice_to_vec(fields[0].as_slice());
        Entry::Sealed(Record { identifier, salt, nonce, sealed_payload, guard })
    }

    /// Appends the entry's line to `out`, without a line feed.
    pub fn render(&self, out: &mut Vec<u8>)
        requires
            self@.wf(),
        ensures
            final(out)@ == old(out)@ + rendered_entry(self@),
            self@ matches EntryView::Sealed(record) ==> encodes_faithfully(record),
    {
        match self {
            Entry::Sealed(record) => record.render(out),
            Entry::Damaged(line) => out.extend_from_slice(line.as_slice()),
        }
    }

    /// Tells whether the entry is found under `identifier`.
    pub fn is_for(&self, identifier: &[u8]) -> (r: bool)
        ensures
            r == (self@.identifier() == identifier@),
    {
        match self {
            Entry::Sealed(record) => crate::bytes::same_bytes(
                record.identifier.as_slice(),
                identifier,
            ),
            Entry::Damaged(line) => {
                let end = find_byte(line.as_slice(), FIELD_SEPARATOR);
                let head = slice_subrange(line.as_slice(), 0, end);
                assert(head@ =~= line@.take(end as int));
                crate::bytes::same_bytes(head, identifier)
            },
        }
    }
}

} // verus!

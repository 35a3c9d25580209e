//! The text of a whole table: one line for each entry, each ended by a line
//! feed.

use vstd::prelude::*;

use crate::bytes::{occurs, lemma_split_cons, lemma_split_whole, split};
use crate::decimal::{decimal_text, lemma_decimal_round_trip, lemma_decimal_text_digits};
use crate::encoding::{all_base64_symbols, base64_text};
use crate::limits::{CARRIAGE_RETURN, FIELD_SEPARATOR, LINE_FEED};
use crate::record::{
    encodes_faithfully, parsed_guard, parsed_line, rendered_entry, rendered_record,
    valid_identifier, EntryView, RecordView,
};

verus! {

/// A line without the carriage return that may end it.
pub open spec fn chomp(line: Seq<u8>) -> Seq<u8> {
    if line.len() > 0 && line.last() == CARRIAGE_RETURN {
        line.drop_last()
    } else {
        line
    }
}

/// The lines of a text. A line ends at a line feed; a carriage return just
/// before the line feed is not part of the line. What follows the last line
/// feed is a line too, as it stands.
pub open spec fn table_lines(text: Seq<u8>) -> Seq<Seq<u8>> {
    let raw = split(text, LINE_FEED);
    Seq::new(
        raw.len(),
        |k: int|
            if k + 1 < raw.len() {
                chomp(raw[k])
            } else {
                raw[k]
            },
    )
}

/// The entries that some lines hold: empty lines are passed over.
pub open spec fn parsed_lines(lines: Seq<Seq<u8>>) -> Seq<EntryView>
    decreases lines.len(),
{
    if lines.len() == 0 {
        Seq::empty()
    } else if lines[0].len() == 0 {
        parsed_lines(lines.skip(1))
    } else {
        seq![parsed_line(lines[0])] + parsed_lines(lines.skip(1))
    }
}

/// The entries that a table's text holds.
pub open spec fn parsed_table(text: Seq<u8>) -> Seq<EntryView> {
    parsed_lines(table_lines(text))
}

/// The text of a table: the line of each entry, then a line feed.
pub open spec fn rendered_table(entries: Seq<EntryView>) -> Seq<u8>
    decreases entries.len(),
{
    if entries.len() == 0 {
        Seq::empty()
    } else {
        rendered_entry(entries[0]) + seq![LINE_FEED] + rendered_table(entries.skip(1))
    }
}

/// Whether the line of an entry is read back as that entry: it is not
/// empty, holds no line feed, does not end in a carriage return, and parses
/// to the entry.
pub open spec fn reads_back(entry: EntryView) -> bool {
    let line = rendered_entry(entry);
    &&& line.len() > 0
    &&& !occurs(line, LINE_FEED)
    &&& line.last() != CARRIAGE_RETURN
    &&& parsed_line(line) == entry
}

/// Whether an entry is such as reading a line gives: a well-formed record
/// whose identifier can be stored, or a line that is not empty, holds no
/// line feed and is read as damaged.
pub open spec fn is_of_a_line(entry: EntryView) -> bool {
    match entry {
        EntryView::Sealed(record) => record.wf() && valid_identifier(record.identifier),
        EntryView::Damaged(line) => line.len() > 0 && !occurs(line, LINE_FEED) && parsed_line(line)
            == entry,
    }
}

/// Whether an entry stays as it is when it is written and read again: it is
/// of a line, and a damaged line does not end in a carriage return.
pub open spec fn stays_as_written(entry: EntryView) -> bool {
    &&& is_of_a_line(entry)
    &&& entry matches EntryView::Damaged(line) ==> line.last() != CARRIAGE_RETURN
}

/// What a line without line feed is read as is of a line.
pub proof fn lemma_parsed_line_is_of_a_line(line: Seq<u8>)
    requires
        line.len() > 0,
        !occurs(line, LINE_FEED),
    ensures
        is_of_a_line(parsed_line(line)),
{
    match parsed_line(line) {
        EntryView::Damaged(_) => {},
        EntryView::Sealed(record) => {
            let fields = split(line, FIELD_SEPARATOR);
            crate::bytes::lemma_split_pieces(line, FIELD_SEPARATOR);
            crate::bytes::lemma_first_index(line, FIELD_SEPARATOR);
            let identifier = fields[0];
            assert(record.identifier == identifier);
            assert(!occurs(identifier, FIELD_SEPARATOR));
            if occurs(identifier, LINE_FEED) {
                let i = choose|i: int| 0 <= i < identifier.len() && identifier[i] == LINE_FEED;
                assert(line[i] == LINE_FEED);
            }
        },
    }
}

/// No line of a text holds a line feed.
pub proof fn lemma_lines_hold_no_line_feed(text: Seq<u8>)
    ensures
        forall|k: int|
            0 <= k < table_lines(text).len() ==> !occurs(#[trigger] table_lines(text)[k], LINE_FEED),
{
    let raw = split(text, LINE_FEED);
    crate::bytes::lemma_split_pieces(text, LINE_FEED);
    assert forall|k: int| 0 <= k < table_lines(text).len() implies !occurs(
        #[trigger] table_lines(text)[k],
        LINE_FEED,
    ) by {
        let line = table_lines(text)[k];
        assert(!occurs(raw[k], LINE_FEED));
        if occurs(line, LINE_FEED) {
            let i = choose|i: int| 0 <= i < line.len() && line[i] == LINE_FEED;
            assert(raw[k][i] == LINE_FEED);
        }
    }
}

/// What lines without line feeds are read as is of lines.
pub proof fn lemma_parsed_lines_are_of_lines(lines: Seq<Seq<u8>>)
    requires
        forall|k: int| 0 <= k < lines.len() ==> !occurs(#[trigger] lines[k], LINE_FEED),
    ensures
        forall|i: int|
            0 <= i < parsed_lines(lines).len() ==> is_of_a_line(#[trigger] parsed_lines(lines)[i]),
    decreases lines.len(),
{
    if lines.len() > 0 {
        let rest = lines.skip(1);
        assert forall|k: int| 0 <= k < rest.len() implies !occurs(#[trigger] rest[k], LINE_FEED) by {
            assert(rest[k] == lines[k + 1]);
        }
        lemma_parsed_lines_are_of_lines(rest);
        if lines[0].len() > 0 {
            lemma_parsed_line_is_of_a_line(lines[0]);
            assert forall|i: int| 0 <= i < parsed_lines(lines).len() implies is_of_a_line(
                #[trigger] parsed_lines(lines)[i],
            ) by {
                if i > 0 {
                    assert(parsed_lines(lines)[i] == parsed_lines(rest)[i - 1]);
                }
            }
        }
    }
}

/// Text of base64 symbols holds neither separator nor line feed.
proof fn lemma_symbols_are_plain(text: Seq<u8>)
    requires
        all_base64_symbols(text),
    ensures
        !occurs(text, FIELD_SEPARATOR),
        !occurs(text, LINE_FEED),
{
    if occurs(text, FIELD_SEPARATOR) {
        let i = choose|i: int| 0 <= i < text.len() && text[i] == FIELD_SEPARATOR;
        assert(crate::encoding::is_base64_symbol(text[i]));
    }
    if occurs(text, LINE_FEED) {
        let i = choose|i: int| 0 <= i < text.len() && text[i] == LINE_FEED;
        assert(crate::encoding::is_base64_symbol(text[i]));
    }
}

/// Decimal text holds neither separator nor line feed.
proof fn lemma_decimal_is_plain(n: nat)
    ensures
        !occurs(decimal_text(n), FIELD_SEPARATOR),
        !occurs(decimal_text(n), LINE_FEED),
{
    let text = decimal_text(n);
    lemma_decimal_text_digits(n);
    if occurs(text, FIELD_SEPARATOR) {
        let i = choose|i: int| 0 <= i < text.len() && text[i] == FIELD_SEPARATOR;
        assert(crate::decimal::is_digit(text[i]));
    }
    if occurs(text, LINE_FEED) {
        let i = choose|i: int| 0 <= i < text.len() && text[i] == LINE_FEED;
        assert(crate::decimal::is_digit(text[i]));
    }
}

/// A concatenation holds a byte only where one of its two parts does.
proof fn lemma_occurs_concat(a: Seq<u8>, b: Seq<u8>, x: u8)
    ensures
        occurs(a + b, x) <==> occurs(a, x) || occurs(b, x),
{
    let s = a + b;
    if occurs(s, x) {
        let i = choose|i: int| 0 <= i < s.len() && s[i] == x;
        if i < a.len() {
            assert(a[i] == x);
        } else {
            assert(b[i - a.len()] == x);
        }
    }
    if occurs(a, x) {
        let i = choose|i: int| 0 <= i < a.len() && a[i] == x;
        assert(s[i] == x);
    }
    if occurs(b, x) {
        let i = choose|i: int| 0 <= i < b.len() && b[i] == x;
        assert(s[a.len() + i] == x);
    }
}

/// The line of a well-formed record with a valid identifier is read back
/// as that record, provided its binary fields are encoded faithfully.
pub proof fn lemma_record_reads_back(record: RecordView)
    requires
        record.wf(),
        valid_identifier(record.identifier),
        encodes_faithfully(record),
    ensures
        reads_back(EntryView::Sealed(record)),
{
    let sep = seq![FIELD_SEPARATOR];
    let f0 = record.identifier;
    let f1 = base64_text(record.salt);
    let f2 = base64_text(record.nonce);
    let f3 = base64_text(record.sealed_payload);
    let f4 = decimal_text(record.guard.attempt_count as nat);
    let f5 = decimal_text(record.guard.last_failure_time as nat);
    let f6 = decimal_text(record.guard.lockout_until as nat);
    let line = rendered_record(record);
    let r5 = f5 + sep + f6;
    let r4 = f4 + sep + r5;
    let r3 = f3 + sep + r4;
    let r2 = f2 + sep + r3;
    let r1 = f1 + sep + r2;
    assert(line =~= f0 + sep + r1);
    lemma_symbols_are_plain(f1);
    lemma_symbols_are_plain(f2);
    lemma_symbols_are_plain(f3);
    lemma_decimal_is_plain(record.guard.attempt_count as nat);
    lemma_decimal_is_plain(record.guard.last_failure_time as nat);
    lemma_decimal_is_plain(record.guard.lockout_until as nat);
    lemma_split_whole(f6, FIELD_SEPARATOR);
    lemma_split_cons(f5, FIELD_SEPARATOR, f6);
    lemma_split_cons(f4, FIELD_SEPARATOR, r5);
    lemma_split_cons(f3, FIELD_SEPARATOR, r4);
    lemma_split_cons(f2, FIELD_SEPARATOR, r3);
    lemma_split_cons(f1, FIELD_SEPARATOR, r2);
    lemma_split_cons(f0, FIELD_SEPARATOR, r1);
    let fields = split(line, FIELD_SEPARATOR);
    assert(fields =~= seq![f0, f1, f2, f3, f4, f5, f6]);
    lemma_decimal_round_trip(record.guard.attempt_count as nat, u32::MAX as nat);
    lemma_decimal_round_trip(record.guard.last_failure_time as nat, u64::MAX as nat);
    lemma_decimal_round_trip(record.guard.lockout_until as nat, u64::MAX as nat);
    assert(parsed_guard(fields) == record.guard);
    assert(parsed_line(line) == EntryView::Sealed(record));
    // the line holds no line feed and ends in a digit
    lemma_occurs_concat(f5, sep + f6, LINE_FEED);
    lemma_occurs_concat(sep, f6, LINE_FEED);
    lemma_occurs_concat(f4, sep + r5, LINE_FEED);
    lemma_occurs_concat(sep, r5, LINE_FEED);
    lemma_occurs_concat(f3, sep + r4, LINE_FEED);
    lemma_occurs_concat(sep, r4, LINE_FEED);
    lemma_occurs_concat(f2, sep + r3, LINE_FEED);
    lemma_occurs_concat(sep, r3, LINE_FEED);
    lemma_occurs_concat(f1, sep + r2, LINE_FEED);
    lemma_occurs_concat(sep, r2, LINE_FEED);
    lemma_occurs_concat(f0, sep + r1, LINE_FEED);
    lemma_occurs_concat(sep, r1, LINE_FEED);
    assert(!occurs(sep, LINE_FEED)) by {
        if occurs(sep, LINE_FEED) {
            let i = choose|i: int| 0 <= i < sep.len() && sep[i] == LINE_FEED;
        }
    }
    assert(r5 =~= f5 + (sep + f6));
    assert(r4 =~= f4 + (sep + r5));
    assert(r3 =~= f3 + (sep + r4));
    assert(r2 =~= f2 + (sep + r3));
    assert(r1 =~= f1 + (sep + r2));
    assert(line =~= f0 + (sep + r1));
    lemma_decimal_text_digits(record.guard.lockout_until as nat);
    assert(line.last() == f6.last());
    assert(crate::decimal::is_digit(f6[f6.len() - 1]));
}

/// The lines of a first line, a line feed and a rest are the first line and
/// the lines of the rest.
proof fn lemma_lines_cons(line: Seq<u8>, rest: Seq<u8>)
    requires
        !occurs(line, LINE_FEED),
        line.len() == 0 || line.last() != CARRIAGE_RETURN,
    ensures
        table_lines(line + seq![LINE_FEED] + rest) == seq![line] + table_lines(rest),
{
    let text = line + seq![LINE_FEED] + rest;
    lemma_split_cons(line, LINE_FEED, rest);
    crate::bytes::lemma_split_pieces(rest, LINE_FEED);
    let raw = split(text, LINE_FEED);
    let raw_rest = split(rest, LINE_FEED);
    assert(raw == seq![line] + raw_rest);
    let a = table_lines(text);
    let b = seq![line] + table_lines(rest);
    assert(a.len() == b.len());
    assert forall|k: int| 0 <= k < a.len() implies a[k] == b[k] by {
        if k > 0 {
            assert(raw[k] == raw_rest[k - 1]);
        }
    }
    assert(a =~= b);
}

/// Reading the text of a table gives its entries back, provided each of
/// them is read back from its own line.
pub proof fn lemma_table_reads_back(entries: Seq<EntryView>)
    requires
        forall|i: int| 0 <= i < entries.len() ==> reads_back(#[trigger] entries[i]),
    ensures
        parsed_table(rendered_table(entries)) == entries,
    decreases entries.len(),
{
    if entries.len() == 0 {
        let text = rendered_table(entries);
        assert(text =~= Seq::<u8>::empty());
        assert(!occurs(text, LINE_FEED));
        lemma_split_whole(text, LINE_FEED);
        let lines = table_lines(text);
        assert(lines.len() == 1);
        assert(lines[0].len() == 0);
        assert(lines.skip(1).len() == 0);
        assert(parsed_lines(lines.skip(1)) =~= Seq::<EntryView>::empty());
        assert(parsed_table(text) =~= entries);
    } else {
        let line = rendered_entry(entries[0]);
        let rest = entries.skip(1);
        assert(reads_back(entries[0]));
        assert forall|i: int| 0 <= i < rest.len() implies reads_back(#[trigger] rest[i]) by {
            assert(rest[i] == entries[i + 1]);
        }
        lemma_table_reads_back(rest);
        lemma_lines_cons(line, rendered_table(rest));
        let lines = table_lines(rendered_table(entries));
        assert(lines[0] == line);
        assert(lines.skip(1) =~= table_lines(rendered_table(rest)));
        assert(parsed_table(rendered_table(entries)) =~= entries);
    }
}

} // verus!

//! The state of the table viewer: the identifier and password that were
//! typed in, the rows that are shown, and the column by which they are
//! sorted.

use vstd::prelude::*;
use vstd::string::StringExecFns;
use vstd::utf8::encode_utf8;

use crate::bytes::split;
use crate::chars::{
    char_views, chars_of, lowercased, push_decimal, split_chars, texts, to_lower, widen, words,
    words_of,
};
use crate::decimal::decimal_text;
use crate::limits::{NONCE_LEN, SALT_LEN};
use crate::record::EntryView;
use crate::sorting::{arranged, key_views, sort_by_keys, stably_sorted};
use crate::store::{open_outcome, seal_outcome, OpenError, RecordStore, SealError};

verus! {

/// What the viewer reports after an action.
#[derive(Clone, Copy, Debug, PartialEq, Eq, Structural)]
pub enum Status {
    /// Nothing was done yet.
    Ready,
    /// Identifier or password is empty.
    MissingInput,
    /// The text was sealed under the identifier.
    Sealed,
    /// Nothing was sealed.
    SealFailed(SealError),
    /// The record opened and holds no row.
    NoRows,
    /// The record opened; the number of rows that are shown.
    Showing(usize),
    /// The record did not open.
    OpenFailed(OpenError),
}

/// The viewer's state.
#[derive(Debug)]
pub struct RustDatabasenApp {
    /// The identifier that was typed in.
    pub identifier: String,
    /// The password that was typed in.
    pub password: String,
    /// The headers of the columns that are shown.
    pub headers: Vec<String>,
    /// The rows that are shown, each a row of cells.
    pub rows: Vec<Vec<String>>,
    /// How the last action went.
    pub status: Status,
    /// The column by which the rows were sorted last.
    pub sort_column: Option<usize>,
    /// Whether that sort went upwards.
    pub sort_ascending: bool,
}

/// What the viewer reports for the outcome of a seal, beside the table.
pub open spec fn seal_report(outcome: (Seq<EntryView>, Result<(), SealError>)) -> (
    Seq<EntryView>,
    Status,
) {
    match outcome.1 {
        Ok(()) => (outcome.0, Status::Sealed),
        Err(e) => (outcome.0, Status::SealFailed(e)),
    }
}

/// The cells of some rows as texts.
pub open spec fn grid(rows: Seq<Vec<String>>) -> Seq<Seq<Seq<char>>> {
    Seq::new(rows.len(), |i: int| texts(rows[i]@))
}

/// The rows that some lines hold: the words of each line that has any.
pub open spec fn word_rows(lines: Seq<Seq<char>>) -> Seq<Seq<Seq<char>>>
    decreases lines.len(),
{
    if lines.len() == 0 {
        Seq::empty()
    } else if words(lines[0]).len() == 0 {
        word_rows(lines.skip(1))
    } else {
        seq![words(lines[0])] + word_rows(lines.skip(1))
    }
}

/// The rows of a text: one for each line that holds a word, with the
/// line's words as its cells.
pub open spec fn rows_of(text: Seq<char>) -> Seq<Seq<Seq<char>>> {
    word_rows(split(text, '\n'))
}

/// The number of cells of the longest row.
pub open spec fn widest(rows: Seq<Seq<Seq<char>>>) -> nat
    decreases rows.len(),
{
    if rows.len() == 0 {
        0
    } else if rows.last().len() >= widest(rows.drop_last()) {
        rows.last().len()
    } else {
        widest(rows.drop_last())
    }
}

/// A row filled up with empty cells to a width.
pub open spec fn padded(row: Seq<Seq<char>>, width: nat) -> Seq<Seq<char>> {
    if row.len() >= width {
        row
    } else {
        row + Seq::new((width - row.len()) as nat, |i: int| Seq::<char>::empty())
    }
}

/// Every row filled up to the width of the longest.
pub open spec fn squared(rows: Seq<Seq<Seq<char>>>) -> Seq<Seq<Seq<char>>> {
    Seq::new(rows.len(), |i: int| padded(rows[i], widest(rows)))
}

/// The key by which a row is sorted on a column: the cell in lower case, or
/// the empty text where the row has no such cell.
pub open spec fn sort_key(row: Seq<Seq<char>>, col: int) -> Seq<char> {
    if 0 <= col < row.len() {
        lowercased(row[col])
    } else {
        Seq::empty()
    }
}

/// The keys of some rows on a column, one by one.
pub open spec fn sort_keys(rows: Seq<Seq<Seq<char>>>, col: int) -> Seq<Seq<char>> {
    Seq::new(rows.len(), |i: int| sort_key(rows[i], col))
}

/// The header of the column with the given number, counted from one.
pub open spec fn header(number: nat) -> Seq<char> {
    "Kolumn"@ + widen(decimal_text(number))
}

/// The headers of the first `width` columns.
pub open spec fn headers_for(width: nat) -> Seq<Seq<char>> {
    Seq::new(width, |i: int| header((i + 1) as nat))
}

/// No row is wider than the widest.
pub proof fn lemma_widest_bounds(rows: Seq<Seq<Seq<char>>>, i: int)
    requires
        0 <= i < rows.len(),
    ensures
        rows[i].len() <= widest(rows),
    decreases rows.len(),
{
    if i < rows.len() - 1 {
        lemma_widest_bounds(rows.drop_last(), i);
    }
}

/// Rows that are filled up are all as wide as the widest, which is the
/// number of headers.
pub proof fn lemma_squared_is_rectangular(rows: Seq<Seq<Seq<char>>>)
    ensures
        squared(rows).len() == rows.len(),
        headers_for(widest(rows)).len() == widest(rows),
        forall|i: int| 0 <= i < rows.len() ==> (#[trigger] squared(rows)[i]).len() == widest(rows),
{
    assert forall|i: int| 0 <= i < rows.len() implies (#[trigger] squared(rows)[i]).len()
        == widest(rows) by {
        lemma_widest_bounds(rows, i);
    }
}

/// Splits a text into rows of words. Lines without a word give no row.
pub fn parse_rows(text: &str) -> (rows: Vec<Vec<String>>)
    ensures
        grid(rows@) == rows_of(text@),
{
    let chars = chars_of(text);
    let lines = split_chars(chars.as_slice(), '\n');
    let ghost all = split(text@, '\n');
    let mut rows: Vec<Vec<String>> = Vec::new();
    let mut k: usize = 0;
    assert(all.skip(0) =~= all);
    assert(grid(rows@) + word_rows(all.skip(0)) =~= word_rows(all));
    while k < lines.len()
        invariant
            k <= lines@.len(),
            char_views(lines@) == all,
            grid(rows@) + word_rows(all.skip(k as int)) == word_rows(all),
        decreases lines@.len() - k,
    {
        let ghost rest = all.skip(k as int);
        assert(rest[0] == lines@[k as int]@);
        assert(rest.skip(1) =~= all.skip(k + 1));
        let ghost before = grid(rows@);
        let cells = words_of(lines[k].as_slice());
        if cells.len() > 0 {
            let ghost found = texts(cells@);
            rows.push(cells);
            assert(grid(rows@) =~= before + seq![found]);
        }
        k = k + 1;
    }
    assert(all.skip(k as int).len() == 0);
    assert(grid(rows@) =~= word_rows(all));
    rows
}

/// The number of cells of the longest row.
pub fn max_width(rows: &Vec<Vec<String>>) -> (width: usize)
    ensures
        width == widest(grid(rows@)),
{
    let mut width: usize = 0;
    let mut i: usize = 0;
    let ghost all = grid(rows@);
    assert(all.take(0) =~= Seq::<Seq<Seq<char>>>::empty());
    while i < rows.len()
        invariant
            i <= rows@.len(),
            all == grid(rows@),
            width == widest(all.take(i as int)),
        decreases rows@.len() - i,
    {
        assert(all.take(i + 1).drop_last() =~= all.take(i as int));
        assert(all.take(i + 1).last() == all[i as int]);
        assert(all[i as int].len() == rows@[i as int]@.len());
        if rows[i].len() >= width {
            width = rows[i].len();
        }
        i = i + 1;
    }
    assert(all.take(i as int) =~= all);
    width
}

/// The header of a column.
pub fn column_header(number: u64) -> (text: String)
    ensures
        text@ == header(number as nat),
{
    let mut text = String::from_str("Kolumn");
    push_decimal(&mut text, number);
    text
}

/// Fills a row up with empty cells to a width.
pub fn pad_row(row: &mut Vec<String>, width: usize)
    ensures
        texts(final(row)@) == padded(texts(old(row)@), width as nat),
{
    let ghost start = texts(row@);
    if row.len() >= width {
        return ;
    }
    let ghost missing = (width - row@.len()) as nat;
    while row.len() < width
        invariant
            start.len() < width,
            start.len() <= row@.len() <= width,
            texts(row@) == start + Seq::new(
                (row@.len() - start.len()) as nat,
                |i: int| Seq::<char>::empty(),
            ),
        decreases width - row@.len(),
    {
        let ghost before = texts(row@);
        row.push(String::new());
        assert(texts(row@) =~= before.push(Seq::<char>::empty()));
        assert(texts(row@) =~= start + Seq::new(
            (row@.len() - start.len()) as nat,
            |i: int| Seq::<char>::empty(),
        ));
    }
}

impl Default for RustDatabasenApp {
    /// A viewer with nothing typed in and nothing shown.
    fn default() -> (app: RustDatabasenApp)
        ensures
            app.identifier@.len() == 0,
            app.password@.len() == 0,
            app.headers@.len() == 0,
            app.rows@.len() == 0,
            app.status == Status::Ready,
            app.sort_column is None,
            app.sort_ascending,
    {
        RustDatabasenApp {
            identifier: String::new(),
            password: String::new(),
            headers: Vec::new(),
            rows: Vec::new(),
            status: Status::Ready,
            sort_column: None,
            sort_ascending: true,
        }
    }
}

impl RustDatabasenApp {
    /// Whether both identifier and password were typed in.
    pub open spec fn has_input(&self) -> bool {
        self.identifier@.len() > 0 && self.password@.len() > 0
    }

    /// Whether the viewer shows exactly the rows of a text, each filled up
    /// to the width of the longest, under numbered headers.
    pub open spec fn shows(&self, text: Seq<char>) -> bool {
        &&& grid(self.rows@) == squared(rows_of(text))
        &&& texts(self.headers@) == headers_for(widest(rows_of(text)))
    }

    /// Whether the viewer shows nothing.
    pub open spec fn is_blank(&self) -> bool {
        self.rows@.len() == 0 && self.headers@.len() == 0
    }

    /// Shows what an open returned: the rows of the text, or the error.
    pub fn show(&mut self, outcome: Result<String, OpenError>)
        ensures
            final(self).identifier == old(self).identifier,
            final(self).password == old(self).password,
            final(self).sort_column == old(self).sort_column,
            final(self).sort_ascending == old(self).sort_ascending,
            match outcome {
                Ok(text) => if rows_of(text@).len() == 0 {
                    final(self).status == Status::NoRows && final(self).is_blank()
                } else {
                    final(self).status == Status::Showing(rows_of(text@).len() as usize)
                        && final(self).shows(text@)
                },
                Err(e) => final(self).status == Status::OpenFailed(e) && final(self).is_blank(),
            },
    {
        match outcome {
            Err(e) => {
                self.status = Status::OpenFailed(e);
                self.rows = Vec::new();
                self.headers = Vec::new();
            },
            Ok(text) => {
                let mut rows = parse_rows(text.as_str());
                if rows.len() == 0 {
                    self.status = Status::NoRows;
                    self.rows = Vec::new();
                    self.headers = Vec::new();
                } else {
                    let ghost found = rows_of(text@);
                    let width = max_width(&rows);
                    let mut headers: Vec<String> = Vec::new();
                    let mut c: usize = 0;
                    while c < width
                        invariant
                            c <= width,
                            headers@.len() == c,
                            texts(headers@) == headers_for(c as nat),
                        decreases width - c,
                    {
                        let ghost before = texts(headers@);
                        headers.push(column_header((c + 1) as u64));
                        assert(texts(headers@) =~= before.push(header((c + 1) as nat)));
                        assert(texts(headers@) =~= headers_for((c + 1) as nat));
                        c = c + 1;
                    }
                    let mut i: usize = 0;
                    while i < rows.len()
                        invariant
                            i <= rows@.len(),
                            rows@.len() == found.len(),
                            width == widest(found),
                            forall|j: int|
                                0 <= j < i ==> #[trigger] grid(rows@)[j] == padded(
                                    found[j],
                                    width as nat,
                                ),
                            forall|j: int|
                                i <= j < rows@.len() ==> #[trigger] grid(rows@)[j] == found[j],
                        decreases rows@.len() - i,
                    {
                        let ghost prior = rows@;
                        let ghost held = grid(rows@);
                        assert(held[i as int] == texts(prior[i as int]@));
                        pad_row(&mut rows[i], width);
                        proof {
                            let after = grid(rows@);
                            assert(rows@.len() == prior.len());
                            assert(after[i as int] == texts(rows@[i as int]@));
                            assert forall|j: int| 0 <= j < rows@.len() && j != i implies after[j]
                                == held[j] by {
                                assert(rows@[j] == prior[j]);
                                assert(after[j] == texts(rows@[j]@));
                                assert(held[j] == texts(prior[j]@));
                            }
                        }
                        i = i + 1;
                    }
                    let n = rows.len();
                    assert(grid(rows@).len() == squared(found).len());
                    assert forall|j: int| 0 <= j < found.len() implies grid(rows@)[j] == squared(
                        found,
                    )[j] by {}
                    assert(grid(rows@) =~= squared(found));
                    self.rows = rows;
                    self.headers = headers;
                    self.status = Status::Showing(n);
                }
            },
        }
    }
}

/// The keys of some rows on a column.
pub fn keys_of(rows: &Vec<Vec<String>>, col: usize) -> (keys: Vec<Vec<char>>)
    ensures
        key_views(keys@) == sort_keys(grid(rows@), col as int),
        keys@.len() == rows@.len(),
{
    let mut keys: Vec<Vec<char>> = Vec::new();
    let mut i: usize = 0;
    let ghost all = sort_keys(grid(rows@), col as int);
    while i < rows.len()
        invariant
            i <= rows@.len(),
            all == sort_keys(grid(rows@), col as int),
            key_views(keys@) == all.take(i as int),
        decreases rows@.len() - i,
    {
        let row = &rows[i];
        let ghost before = key_views(keys@);
        assert(grid(rows@)[i as int] == texts(rows@[i as int]@));
        let key = if col < row.len() {
            assert(texts(row@)[col as int] == row@[col as int]@);
            let lower = to_lower(row[col].as_str());
            chars_of(lower.as_str())
        } else {
            Vec::new()
        };
        assert(key@ == all[i as int]);
        keys.push(key);
        assert(key_views(keys@) =~= before.push(all[i as int]));
        assert(key_views(keys@) =~= all.take(i + 1));
        i = i + 1;
    }
    assert(all.take(i as int) =~= all);
    assert(key_views(keys@).len() == keys@.len());
    keys
}

impl RustDatabasenApp {
    /// Sorts the rows by a column, each cell taken in lower case.
    ///
    /// A column that has no header is ignored. Choosing the column by which
    /// the rows are sorted already turns the direction round; choosing
    /// another sorts upwards. Rows with equal keys keep their order.
    pub fn sort_by_column(&mut self, col: usize)
        ensures
            final(self).identifier == old(self).identifier,
            final(self).password == old(self).password,
            final(self).headers == old(self).headers,
            final(self).status == old(self).status,
            col >= old(self).headers@.len() ==> {
                &&& final(self).rows == old(self).rows
                &&& final(self).sort_column == old(self).sort_column
                &&& final(self).sort_ascending == old(self).sort_ascending
            },
            col < old(self).headers@.len() ==> {
                &&& final(self).sort_column == Some(col)
                &&& final(self).sort_ascending == (old(self).sort_column != Some(col)
                    || !old(self).sort_ascending)
                &&& exists|perm: Seq<int>|
                    #[trigger] stably_sorted(
                        sort_keys(grid(old(self).rows@), col as int),
                        perm,
                        final(self).sort_ascending,
                    ) && final(self).rows@ == arranged(old(self).rows@, perm)
            },
    {
        if col >= self.headers.len() {
            return ;
        }
        let same = match self.sort_column {
            Some(c) => c == col,
            None => false,
        };
        if same {
            self.sort_ascending = !self.sort_ascending;
        } else {
            self.sort_column = Some(col);
            self.sort_ascending = true;
        }
        let ascending = self.sort_ascending;
        let keys = keys_of(&self.rows, col);
        sort_by_keys(&mut self.rows, keys, ascending);
    }

    /// Seals a text under the identifier and the password that were typed
    /// in, and reports how that went.
    ///
    /// Nothing is sealed while identifier or password is empty. The rows
    /// that are shown stay as they are.
    pub fn encrypt_copy(&mut self, store: &mut RecordStore, plaintext: &str)
        requires
            old(store).wf(),
        ensures
            final(store).wf(),
            final(store).cost() == old(store).cost(),
            final(self).identifier == old(self).identifier,
            final(self).password == old(self).password,
            final(self).headers == old(self).headers,
            final(self).rows == old(self).rows,
            final(self).sort_column == old(self).sort_column,
            final(self).sort_ascending == old(self).sort_ascending,
            !old(self).has_input() ==> {
                &&& final(self).status == Status::MissingInput
                &&& final(store).entries() == old(store).entries()
            },
            old(self).has_input() ==> {
                ||| final(self).status == Status::SealFailed(SealError::EntropyUnavailable)
                    && final(store).entries() == old(store).entries()
                ||| exists|salt: Seq<u8>, nonce: Seq<u8>|
                    salt.len() == SALT_LEN && nonce.len() == NONCE_LEN && (
                        final(store).entries(),
                        final(self).status,
                    ) == seal_report(
                        #[trigger] seal_outcome(
                            old(store).cost(),
                            old(store).entries(),
                            encode_utf8(old(self).identifier@),
                            old(self).password@,
                            plaintext@,
                            salt,
                            nonce,
                        ),
                    )
            },
    {
        if self.identifier.as_str().is_empty() || self.password.as_str().is_empty() {
            self.status = Status::MissingInput;
            return ;
        }
        let r = store.seal(self.identifier.as_str(), self.password.as_str(), plaintext);
        match r {
            Ok(()) => {
                self.status = Status::Sealed;
            },
            Err(e) => {
                self.status = Status::SealFailed(e);
            },
        }
    }

    /// Opens the record for the identifier under the password that were
    /// typed in, at time `now`, and shows its rows.
    ///
    /// Nothing is opened while identifier or password is empty. An open that
    /// fails clears what was shown and is reported with its error.
    pub fn decrypt_show(&mut self, store: &mut RecordStore, now: u64)
        requires
            old(store).wf(),
        ensures
            final(store).wf(),
            final(store).cost() == old(store).cost(),
            final(self).identifier == old(self).identifier,
            final(self).password == old(self).password,
            final(self).sort_column == old(self).sort_column,
            final(self).sort_ascending == old(self).sort_ascending,
            !old(self).has_input() ==> {
                &&& final(self).status == Status::MissingInput
                &&& final(self).headers == old(self).headers
                &&& final(self).rows == old(self).rows
                &&& final(store).entries() == old(store).entries()
            },
            old(self).has_input() ==> ({
                let (entries, outcome) = open_outcome(
                    old(store).cost(),
                    old(store).entries(),
                    encode_utf8(old(self).identifier@),
                    old(self).password@,
                    now,
                );
                &&& final(store).entries() == entries
                &&& match outcome {
                    Ok(text) => if rows_of(text).len() == 0 {
                        final(self).status == Status::NoRows && final(self).is_blank()
                    } else {
                        final(self).status == Status::Showing(rows_of(text).len() as usize)
                            && final(self).shows(text)
                    },
                    Err(e) => final(self).status == Status::OpenFailed(e) && final(self).is_blank(),
                }
            }),
    {
        if self.identifier.as_str().is_empty() || self.password.as_str().is_empty() {
            self.status = Status::MissingInput;
            return ;
        }
        let outcome = store.open(self.identifier.as_str(), self.password.as_str(), now);
        self.show(outcome);
    }
}

} // verus!

//! The blob table: a second format in which a line holds an identifier, a
//! colon, and one base64 blob of salt, nonce and sealed payload. There is no
//! witness and no guard; a line whose identifier begins with `__pw__:` holds
//! a verifier by which a password can be checked without opening any entry.

use vstd::prelude::*;
use vstd::slice::{slice_subrange, slice_to_vec};
use vstd::string::StringExecFns;
use vstd::utf8::{decode_utf8, encode_utf8, valid_utf8};

use crate::bytes::same_bytes;
use crate::chars::{
    begins_with, char_views, chars_of, is_space, lines_of, narrow, narrow_chars, string_of,
    text_lines, texts, trim, trim_end, trim_start, trimmed, widen,
};
use crate::cipher::{aes256gcm_opened, aes256gcm_sealed};
use crate::encoding::{
    all_base64_symbols, append_base64, base64_bytes, base64_text, decode_base64,
    is_base64_symbol,
};
use crate::entropy::{fresh_nonce, fresh_salt};
use crate::kdf::{derive_key, derived_key, kdf_takes, KdfCost, KdfError};
use crate::limits::{KEY_LEN, LINE_FEED, MAX_SEALED_LEN, NONCE_LEN, SALT_LEN, TAG_LEN};
use crate::store::SealError;
use crate::text::text_of;

verus! {

/// The bytes of salt and nonce that begin a blob.
pub const BLOB_HEADER_LEN: usize = 28;

/// The ASCII code of `':'`.
pub const COLON: u8 = 58;

/// Why the entries of an identifier were not read.
#[derive(Clone, Copy, Debug, PartialEq, Eq, Structural)]
pub enum BlobError {
    /// A blob is no base64.
    Decode,
    /// A blob did not open under the password.
    Auth,
    /// A blob opened to bytes that are no text.
    Text,
}

/// The cost under which the keys of a blob table are derived.
pub open spec fn moderate_cost() -> KdfCost {
    KdfCost { memory_kib: 65536, iterations: 3, lanes: 1 }
}

/// A blob: salt, nonce and sealed payload one after the other.
pub open spec fn packed(salt: Seq<u8>, nonce: Seq<u8>, sealed: Seq<u8>) -> Seq<u8> {
    salt + nonce + sealed
}

/// A line of the table, with its line feed.
pub open spec fn entry_line(identifier: Seq<u8>, blob: Seq<u8>) -> Seq<u8> {
    identifier + seq![COLON] + base64_text(blob) + seq![LINE_FEED]
}

/// The line that holds a plaintext sealed under a key.
pub open spec fn sealed_line(
    identifier: Seq<u8>,
    key: Seq<u8>,
    salt: Seq<u8>,
    nonce: Seq<u8>,
    plaintext: Seq<u8>,
) -> Seq<u8> {
    entry_line(identifier, packed(salt, nonce, aes256gcm_sealed(key, nonce, plaintext)))
}

/// Whether the blob of a plaintext sealed under a key is written in symbols
/// of the alphabet, decodes to itself, and opens under the key to the
/// plaintext again.
pub open spec fn opens_again(key: Seq<u8>, salt: Seq<u8>, nonce: Seq<u8>, plaintext: Seq<u8>) -> bool {
    let sealed = aes256gcm_sealed(key, nonce, plaintext);
    let blob = packed(salt, nonce, sealed);
    &&& sealed.len() == plaintext.len() + TAG_LEN
    &&& aes256gcm_opened(key, nonce, sealed) == Some(plaintext)
    &&& all_base64_symbols(base64_text(blob))
    &&& base64_bytes(base64_text(blob)) == Some(blob)
}

/// The text of a line as it is read: the identifier, a colon, and the blob
/// in base64.
pub open spec fn entry_text(identifier: Seq<char>, blob: Seq<u8>) -> Seq<char> {
    identifier + seq![':'] + widen(base64_text(blob))
}

/// The bytes that a blob opens to under a password, or `None` where no key
/// can be derived or the cipher rejects the payload.
pub open spec fn blob_plaintext(password: Seq<u8>, blob: Seq<u8>) -> Option<Seq<u8>> {
    let salt = blob.subrange(0, SALT_LEN as int);
    let nonce = blob.subrange(SALT_LEN as int, BLOB_HEADER_LEN as int);
    let sealed = blob.skip(BLOB_HEADER_LEN as int);
    if kdf_takes(password, salt) {
        aes256gcm_opened(derived_key(moderate_cost(), password, salt), nonce, sealed)
    } else {
        None
    }
}

/// The blob that the rest of a line holds: the rest is trimmed and decoded.
pub open spec fn line_blob(rest: Seq<char>) -> Option<Seq<u8>> {
    base64_bytes(narrow(trimmed(rest)))
}

/// What one line comes to when the entries of an identifier are read.
pub enum LineOutcome {
    /// The line is not for the identifier, or its blob is too short.
    Skipped,
    /// The line cannot be read.
    Failed(BlobError),
    /// The line holds this text.
    Text(Seq<char>),
}

/// The beginning of the lines of an identifier.
pub open spec fn entry_prefix(identifier: Seq<char>) -> Seq<char> {
    identifier + seq![':']
}

/// One line as the entries of an identifier are read.
pub open spec fn line_outcome(line: Seq<char>, prefix: Seq<char>, password: Seq<u8>) -> LineOutcome {
    if !prefix.is_prefix_of(line) {
        LineOutcome::Skipped
    } else {
        match line_blob(line.skip(prefix.len() as int)) {
            None => LineOutcome::Failed(BlobError::Decode),
            Some(blob) => if blob.len() <= BLOB_HEADER_LEN {
                LineOutcome::Skipped
            } else {
                match blob_plaintext(password, blob) {
                    None => LineOutcome::Failed(BlobError::Auth),
                    Some(plaintext) => if valid_utf8(plaintext) {
                        LineOutcome::Text(decode_utf8(plaintext))
                    } else {
                        LineOutcome::Failed(BlobError::Text)
                    },
                }
            },
        }
    }
}

/// The texts of the lines of an identifier, in order, or the failure of the
/// first line that cannot be read.
pub open spec fn entries_in(lines: Seq<Seq<char>>, prefix: Seq<char>, password: Seq<u8>) -> Result<
    Seq<Seq<char>>,
    BlobError,
>
    decreases lines.len(),
{
    if lines.len() == 0 {
        Ok(Seq::empty())
    } else {
        match line_outcome(lines[0], prefix, password) {
            LineOutcome::Failed(e) => Err(e),
            LineOutcome::Skipped => entries_in(lines.skip(1), prefix, password),
            LineOutcome::Text(text) => match entries_in(lines.skip(1), prefix, password) {
                Ok(rest) => Ok(seq![text] + rest),
                Err(e) => Err(e),
            },
        }
    }
}

/// The text that a verifier seals.
pub open spec fn verifier_text(identifier: Seq<char>) -> Seq<char> {
    "VERIFIER:"@ + identifier
}

/// The identifier under which the verifier of an identifier is stored.
pub open spec fn verifier_name(identifier: Seq<char>) -> Seq<char> {
    "__pw__:"@ + identifier
}

/// The text without the colons at its start.
pub open spec fn strip_colons(s: Seq<char>) -> Seq<char>
    decreases s.len(),
{
    if s.len() > 0 && s[0] == ':' {
        strip_colons(s.skip(1))
    } else {
        s
    }
}

/// Whether the rest of a verifier's line confirms a password: its blob
/// opens under the password to the verifier's text.
pub open spec fn verifier_accepts(rest: Seq<char>, identifier: Seq<char>, password: Seq<u8>) -> bool {
    match line_blob(strip_colons(rest)) {
        None => false,
        Some(blob) => blob.len() > BLOB_HEADER_LEN && blob_plaintext(password, blob) == Some(
            encode_utf8(verifier_text(identifier)),
        ),
    }
}

/// The position of the first line with a prefix, or the number of lines.
pub open spec fn first_with_prefix(lines: Seq<Seq<char>>, prefix: Seq<char>) -> int
    decreases lines.len(),
{
    if lines.len() == 0 || prefix.is_prefix_of(lines[0]) {
        0
    } else {
        1 + first_with_prefix(lines.skip(1), prefix)
    }
}

/// What the table says of a password: `None` where it holds no verifier for
/// the identifier, else whether the first one confirms the password.
pub open spec fn verified(lines: Seq<Seq<char>>, identifier: Seq<char>, password: Seq<u8>) -> Option<
    bool,
> {
    let prefix = entry_prefix(verifier_name(identifier));
    let i = first_with_prefix(lines, prefix);
    if 0 <= i < lines.len() {
        Some(verifier_accepts(lines[i].skip(prefix.len() as int), identifier, password))
    } else {
        None
    }
}

/// Whether a text is too long to be sealed in one blob.
pub open spec fn too_long(text: Seq<char>) -> bool {
    encode_utf8(text).len() + TAG_LEN > MAX_SEALED_LEN
}

/// The reason for which a text cannot be sealed under a password, if there
/// is one.
pub open spec fn entry_refusal(password: Seq<char>, plaintext: Seq<char>) -> Option<SealError> {
    if encode_utf8(password).len() > 0xFFFF_FFFF {
        Some(SealError::PasswordTooLong)
    } else if too_long(plaintext) {
        Some(SealError::PayloadTooLarge)
    } else {
        None
    }
}

/// Whether one of some lines is too long to be sealed.
pub open spec fn any_too_long(lines: Seq<Seq<char>>) -> bool {
    exists|k: int| 0 <= k < lines.len() && too_long(#[trigger] lines[k])
}

/// The reason for which some lines cannot be sealed under a password, if
/// there is one.
pub open spec fn lines_refusal(password: Seq<char>, lines: Seq<Seq<char>>) -> Option<SealError> {
    if encode_utf8(password).len() > 0xFFFF_FFFF {
        Some(SealError::PasswordTooLong)
    } else if any_too_long(lines) {
        Some(SealError::PayloadTooLarge)
    } else {
        None
    }
}

/// The key of a blob table for a password and a salt.
pub open spec fn entry_key(password: Seq<char>, salt: Seq<u8>) -> Seq<u8> {
    derived_key(moderate_cost(), encode_utf8(password), salt)
}

/// Whether the line of a text that was sealed under a password, a salt and
/// a nonce is read as that text under the password.
pub open spec fn reads_as(
    identifier: Seq<char>,
    password: Seq<char>,
    plaintext: Seq<char>,
    salt: Seq<u8>,
    nonce: Seq<u8>,
) -> bool {
    line_outcome(
        entry_text(
            identifier,
            packed(
                salt,
                nonce,
                aes256gcm_sealed(entry_key(password, salt), nonce, encode_utf8(plaintext)),
            ),
        ),
        entry_prefix(identifier),
        encode_utf8(password),
    ) == LineOutcome::Text(plaintext)
}

/// The line that holds a text sealed under a password with a salt and a
/// nonce.
pub open spec fn sealed_entry(
    identifier: Seq<char>,
    password: Seq<char>,
    plaintext: Seq<char>,
    salt: Seq<u8>,
    nonce: Seq<u8>,
) -> Seq<u8> {
    sealed_line(
        encode_utf8(identifier),
        entry_key(password, salt),
        salt,
        nonce,
        encode_utf8(plaintext),
    )
}

/// Whether a salt and a nonce have their lengths and the line of a text
/// sealed with them is read as the text again.
pub open spec fn seals_well(
    identifier: Seq<char>,
    password: Seq<char>,
    plaintext: Seq<char>,
    salt: Seq<u8>,
    nonce: Seq<u8>,
) -> bool {
    &&& salt.len() == SALT_LEN
    &&& nonce.len() == NONCE_LEN
    &&& reads_as(identifier, password, plaintext, salt, nonce)
}

/// Whether the table holds a verifier for an identifier.
pub open spec fn holds_verifier(lines: Seq<Seq<char>>, identifier: Seq<char>) -> bool {
    first_with_prefix(lines, entry_prefix(verifier_name(identifier))) < lines.len()
}

/// The position that meets the three conditions is `first_with_prefix`.
proof fn lemma_first_with_prefix_at(lines: Seq<Seq<char>>, prefix: Seq<char>, i: int)
    requires
        0 <= i <= lines.len(),
        forall|j: int| 0 <= j < i ==> !prefix.is_prefix_of(#[trigger] lines[j]),
        i < lines.len() ==> prefix.is_prefix_of(lines[i]),
    ensures
        first_with_prefix(lines, prefix) == i,
    decreases lines.len(),
{
    if i > 0 {
        let rest = lines.skip(1);
        assert(!prefix.is_prefix_of(lines[0]));
        assert forall|j: int| 0 <= j < i - 1 implies !prefix.is_prefix_of(#[trigger] rest[j]) by {
            assert(rest[j] == lines[j + 1]);
        }
        lemma_first_with_prefix_at(rest, prefix, i - 1);
    }
}

/// Text of base64 symbols stays as it is when it is trimmed and narrowed.
proof fn lemma_symbols_read_back(text: Seq<u8>)
    requires
        all_base64_symbols(text),
    ensures
        narrow(trimmed(widen(text))) == text,
{
    let wide = widen(text);
    assert forall|i: int| 0 <= i < text.len() implies !is_space(#[trigger] wide[i]) && (wide[i] as u32)
        < 128 && wide[i] as u8 == text[i] by {
        assert(is_base64_symbol(text[i]));
    }
    if text.len() > 0 {
        assert(!is_space(wide[0]));
        assert(trim_start(wide) == wide);
        assert(!is_space(wide.last()));
        assert(trim_end(wide) == wide);
    } else {
        assert(trim_start(wide) == wide);
        assert(trim_end(wide) == wide);
    }
    assert(trimmed(wide) == wide);
    assert(narrow(wide) =~= text);
}

/// The line of a text that was sealed under a password is read as that text
/// under the same password.
pub proof fn lemma_entry_reads_back(
    identifier: Seq<char>,
    password: Seq<u8>,
    plaintext: Seq<char>,
    salt: Seq<u8>,
    nonce: Seq<u8>,
)
    requires
        salt.len() == SALT_LEN,
        nonce.len() == NONCE_LEN,
        kdf_takes(password, salt),
        opens_again(
            derived_key(moderate_cost(), password, salt),
            salt,
            nonce,
            encode_utf8(plaintext),
        ),
    ensures
        line_outcome(
            entry_text(
                identifier,
                packed(
                    salt,
                    nonce,
                    aes256gcm_sealed(
                        derived_key(moderate_cost(), password, salt),
                        nonce,
                        encode_utf8(plaintext),
                    ),
                ),
            ),
            entry_prefix(identifier),
            password,
        ) == LineOutcome::Text(plaintext),
{
    let key = derived_key(moderate_cost(), password, salt);
    let sealed = aes256gcm_sealed(key, nonce, encode_utf8(plaintext));
    let blob = packed(salt, nonce, sealed);
    let prefix = entry_prefix(identifier);
    let line = entry_text(identifier, blob);
    assert(prefix.is_prefix_of(line)) by {
        assert(line.subrange(0, prefix.len() as int) =~= prefix);
    }
    assert(line.skip(prefix.len() as int) =~= widen(base64_text(blob)));
    lemma_symbols_read_back(base64_text(blob));
    assert(line_blob(line.skip(prefix.len() as int)) == Some(blob));
    assert(blob.subrange(0, SALT_LEN as int) =~= salt);
    assert(blob.subrange(SALT_LEN as int, BLOB_HEADER_LEN as int) =~= nonce);
    assert(blob.skip(BLOB_HEADER_LEN as int) =~= sealed);
    assert(blob_plaintext(password, blob) == Some(encode_utf8(plaintext)));
    vstd::utf8::encode_utf8_valid_utf8(plaintext);
    vstd::utf8::encode_utf8_decode_utf8(plaintext);
}

/// Derives the 32-byte key of a blob table for a password and a salt.
pub fn derive_argon2_key(password: &[u8], salt: &[u8]) -> (r: Result<Vec<u8>, KdfError>)
    ensures
        match r {
            Ok(key) => {
                &&& kdf_takes(password@, salt@)
                &&& key@.len() == KEY_LEN
                &&& key@ == derived_key(moderate_cost(), password@, salt@)
            },
            Err(e) => e == KdfError::InputLength && !kdf_takes(password@, salt@),
        },
{
    derive_key(&KdfCost::moderate(), password, salt)
}

/// Seals a plaintext under a key and appends its line to `out`.
///
/// Nothing is appended where the plaintext is too long to be sealed.
pub fn append_entry(
    out: &mut Vec<u8>,
    identifier: &[u8],
    key: &[u8],
    salt: &[u8],
    nonce: &[u8],
    plaintext: &[u8],
) -> (ok: bool)
    requires
        key@.len() == KEY_LEN,
        salt@.len() == SALT_LEN,
        nonce@.len() == NONCE_LEN,
    ensures
        ok <==> plaintext@.len() + TAG_LEN <= MAX_SEALED_LEN,
        ok ==> final(out)@ == old(out)@ + sealed_line(
            identifier@,
            key@,
            salt@,
            nonce@,
            plaintext@,
        ),
        ok ==> opens_again(key@, salt@, nonce@, plaintext@),
        !ok ==> final(out)@ == old(out)@,
{
    let sealed = match crate::cipher::seal(key, nonce, plaintext) {
        Some(sealed) => sealed,
        None => {
            return false;
        },
    };
    let mut blob: Vec<u8> = Vec::new();
    blob.extend_from_slice(salt);
    blob.extend_from_slice(nonce);
    blob.extend_from_slice(sealed.as_slice());
    assert(blob@ =~= packed(salt@, nonce@, sealed@));
    out.extend_from_slice(identifier);
    out.push(COLON);
    append_base64(out, blob.as_slice());
    out.push(LINE_FEED);
    assert(final(out)@ =~= old(out)@ + sealed_line(identifier@, key@, salt@, nonce@, plaintext@));
    true
}

/// The line that holds a plaintext sealed under a password, with the salt
/// and the nonce that the caller drew; `None` where the password or the
/// plaintext is too long.
pub fn encrypt_entry_with(
    identifier: &str,
    password: &str,
    plaintext: &str,
    salt: &[u8],
    nonce: &[u8],
) -> (r: Option<Vec<u8>>)
    requires
        salt@.len() == SALT_LEN,
        nonce@.len() == NONCE_LEN,
    ensures
        r is Some <==> entry_refusal(password@, plaintext@) is None,
        r matches Some(line) ==> {
            &&& line@ == sealed_entry(identifier@, password@, plaintext@, salt@, nonce@)
            &&& seals_well(identifier@, password@, plaintext@, salt@, nonce@)
        },
{
    let key = match derive_argon2_key(password.as_bytes(), salt) {
        Ok(key) => key,
        Err(_) => {
            return None;
        },
    };
    let mut line: Vec<u8> = Vec::new();
    if append_entry(
        &mut line,
        identifier.as_bytes(),
        key.as_slice(),
        salt,
        nonce,
        plaintext.as_bytes(),
    ) {
        assert(line@ =~= sealed_line(
            encode_utf8(identifier@),
            key@,
            salt@,
            nonce@,
            encode_utf8(plaintext@),
        ));
        proof {
            lemma_entry_reads_back(
                identifier@,
                encode_utf8(password@),
                plaintext@,
                salt@,
                nonce@,
            );
        }
        Some(line)
    } else {
        None
    }
}

/// Tells why a text cannot be sealed under a password, if it cannot.
pub fn check_entry(password: &str, plaintext: &str) -> (r: Option<SealError>)
    ensures
        r == entry_refusal(password@, plaintext@),
{
    if password.as_bytes().len() > 0xFFFF_FFFF {
        Some(SealError::PasswordTooLong)
    } else if plaintext.as_bytes().len() > MAX_SEALED_LEN - TAG_LEN {
        Some(SealError::PayloadTooLarge)
    } else {
        None
    }
}

/// The line that holds a plaintext sealed under a password, with salt and
/// nonce drawn afresh.
///
/// A password or a plaintext that is too long is refused, whatever is
/// drawn. Otherwise the line is that of `encrypt_entry_with` for the bytes
/// that were drawn, and is read as the plaintext again; where the system
/// supplies no random bytes, nothing is sealed.
pub fn encrypt_entry(identifier: &str, password: &str, plaintext: &str) -> (r: Result<
    Vec<u8>,
    SealError,
>)
    ensures
        match entry_refusal(password@, plaintext@) {
            Some(e) => r is Err && r->Err_0 == e,
            None => {
                ||| r is Err && r->Err_0 == SealError::EntropyUnavailable
                ||| r is Ok && exists|salt: Seq<u8>, nonce: Seq<u8>|
                    #[trigger] seals_well(identifier@, password@, plaintext@, salt, nonce)
                        && r->Ok_0@ == sealed_entry(
                        identifier@,
                        password@,
                        plaintext@,
                        salt,
                        nonce,
                    )
            },
        },
{
    match check_entry(password, plaintext) {
        Some(e) => {
            return Err(e);
        },
        None => {},
    }
    let salt = match fresh_salt() {
        Some(bytes) => bytes,
        None => {
            return Err(SealError::EntropyUnavailable);
        },
    };
    let nonce = match fresh_nonce() {
        Some(bytes) => bytes,
        None => {
            return Err(SealError::EntropyUnavailable);
        },
    };
    match encrypt_entry_with(identifier, password, plaintext, salt.as_slice(), nonce.as_slice()) {
        Some(line) => {
            assert(seals_well(identifier@, password@, plaintext@, salt@, nonce@));
            Ok(line)
        },
        None => {
            assert(false);
            Err(SealError::PayloadTooLarge)
        },
    }
}

/// Opens a blob under a password.
pub fn open_blob(password: &[u8], blob: &[u8]) -> (r: Option<Vec<u8>>)
    requires
        blob@.len() > BLOB_HEADER_LEN,
    ensures
        match r {
            Some(plaintext) => blob_plaintext(password@, blob@) == Some(plaintext@),
            None => blob_plaintext(password@, blob@) is None,
        },
{
    let salt = slice_subrange(blob, 0, SALT_LEN);
    let nonce = slice_subrange(blob, SALT_LEN, BLOB_HEADER_LEN);
    let sealed = slice_subrange(blob, BLOB_HEADER_LEN, blob.len());
    assert(sealed@ =~= blob@.skip(BLOB_HEADER_LEN as int));
    let key = match derive_argon2_key(password, salt) {
        Ok(key) => key,
        Err(_) => {
            return None;
        },
    };
    match crate::cipher::open(key.as_slice(), nonce, sealed) {
        Ok(plaintext) => Some(plaintext),
        Err(_) => None,
    }
}

/// Decodes the blob that the rest of a line holds.
pub fn read_blob(rest: &[char]) -> (r: Option<Vec<u8>>)
    ensures
        match r {
            Some(blob) => line_blob(rest@) == Some(blob@),
            None => line_blob(rest@) is None,
        },
{
    let text = narrow_chars(trim(rest));
    decode_base64(text.as_slice())
}

/// The texts that were found, before what the rest of the lines gives.
pub open spec fn found_before(
    found: Seq<Seq<char>>,
    rest: Result<Seq<Seq<char>>, BlobError>,
) -> Result<Seq<Seq<char>>, BlobError> {
    match rest {
        Ok(more) => Ok(found + more),
        Err(e) => Err(e),
    }
}

/// What reading entries returned, with the texts as sequences of characters.
pub open spec fn entries_result(r: Result<Vec<String>, BlobError>) -> Result<
    Seq<Seq<char>>,
    BlobError,
> {
    match r {
        Ok(found) => Ok(texts(found@)),
        Err(e) => Err(e),
    }
}

/// Reads one line as the entries of an identifier are read.
fn read_line(line: &[char], prefix: &[char], password: &[u8]) -> (r: Result<
    Option<String>,
    BlobError,
>)
    ensures
        match r {
            Ok(Some(text)) => line_outcome(line@, prefix@, password@) == LineOutcome::Text(text@),
            Ok(None) => line_outcome(line@, prefix@, password@) == LineOutcome::Skipped,
            Err(e) => line_outcome(line@, prefix@, password@) == LineOutcome::Failed(e),
        },
{
    if !begins_with(line, prefix) {
        return Ok(None);
    }
    let rest = slice_subrange(line, prefix.len(), line.len());
    assert(rest@ =~= line@.skip(prefix@.len() as int));
    let blob = match read_blob(rest) {
        Some(blob) => blob,
        None => {
            return Err(BlobError::Decode);
        },
    };
    if blob.len() <= BLOB_HEADER_LEN {
        return Ok(None);
    }
    let plaintext = match open_blob(password, blob.as_slice()) {
        Some(plaintext) => plaintext,
        None => {
            return Err(BlobError::Auth);
        },
    };
    match text_of(plaintext) {
        Some(text) => Ok(Some(text)),
        None => Err(BlobError::Text),
    }
}

/// The characters that begin the lines of an identifier.
fn prefix_of(identifier: &[char]) -> (prefix: Vec<char>)
    ensures
        prefix@ == entry_prefix(identifier@),
{
    let mut prefix = slice_to_vec(identifier);
    prefix.push(':');
    prefix
}

/// Opens every entry of an identifier under a password and hands out their
/// texts in the order of the lines.
///
/// Lines of other identifiers, and lines whose blob is too short to hold a
/// payload, are passed over. The first line of the identifier that is no
/// base64, does not open or holds no text ends the reading with its error.
pub fn decrypt_entries(table: &str, identifier: &str, password: &str) -> (r: Result<
    Vec<String>,
    BlobError,
>)
    ensures
        entries_result(r) == entries_in(
            text_lines(table@),
            entry_prefix(identifier@),
            encode_utf8(password@),
        ),
{
    let chars = chars_of(table);
    let lines = lines_of(chars.as_slice());
    let id = chars_of(identifier);
    let prefix = prefix_of(id.as_slice());
    let pw = password.as_bytes();
    let ghost all = text_lines(table@);
    let mut found: Vec<String> = Vec::new();
    let mut k: usize = 0;
    assert(all.skip(0) =~= all);
    assert(texts(found@) + entries_in(all, prefix@, pw@)->Ok_0 =~= entries_in(
        all,
        prefix@,
        pw@,
    )->Ok_0);
    while k < lines.len()
        invariant
            k <= lines@.len(),
            char_views(lines@) == all,
            all == text_lines(table@),
            prefix@ == entry_prefix(identifier@),
            pw@ == encode_utf8(password@),
            entries_in(all, prefix@, pw@) == found_before(
                texts(found@),
                entries_in(all.skip(k as int), prefix@, pw@),
            ),
        decreases lines@.len() - k,
    {
        let ghost rest = all.skip(k as int);
        assert(rest[0] == lines@[k as int]@);
        assert(rest.skip(1) =~= all.skip(k + 1));
        let ghost before = texts(found@);
        match read_line(lines[k].as_slice(), prefix.as_slice(), pw) {
            Err(e) => {
                return Err(e);
            },
            Ok(None) => {},
            Ok(Some(text)) => {
                let ghost t = text@;
                found.push(text);
                proof {
                    assert(texts(found@) =~= before.push(t));
                    match entries_in(rest.skip(1), prefix@, pw@) {
                        Ok(more) => {
                            assert(before + (seq![t] + more) =~= before.push(t) + more);
                        },
                        Err(_) => {},
                    }
                }
            },
        }
        k = k + 1;
    }
    proof {
        assert(all.skip(k as int).len() == 0);
        assert(texts(found@) + Seq::<Seq<char>>::empty() =~= texts(found@));
    }
    Ok(found)
}

/// The characters that begin the verifier line of an identifier.
fn verifier_prefix(identifier: &str) -> (prefix: Vec<char>)
    ensures
        prefix@ == entry_prefix(verifier_name(identifier@)),
{
    let mut prefix = chars_of("__pw__:");
    let id = chars_of(identifier);
    prefix.extend_from_slice(id.as_slice());
    prefix.push(':');
    assert(prefix@ =~= entry_prefix(verifier_name(identifier@)));
    prefix
}

/// Finds the first line with a prefix.
fn find_with_prefix(lines: &Vec<Vec<char>>, prefix: &[char]) -> (i: usize)
    ensures
        i == first_with_prefix(char_views(lines@), prefix@),
        i <= lines@.len(),
        i < lines@.len() ==> prefix@.is_prefix_of(lines@[i as int]@),
{
    let mut i: usize = 0;
    let ghost all = char_views(lines@);
    while i < lines.len()
        invariant
            i <= lines@.len(),
            all == char_views(lines@),
            forall|j: int| 0 <= j < i ==> !prefix@.is_prefix_of(#[trigger] all[j]),
        decreases lines@.len() - i,
    {
        assert(all[i as int] == lines@[i as int]@);
        if begins_with(lines[i].as_slice(), prefix) {
            proof {
                lemma_first_with_prefix_at(all, prefix@, i as int);
            }
            return i;
        }
        i = i + 1;
    }
    proof {
        lemma_first_with_prefix_at(all, prefix@, i as int);
    }
    i
}

/// Tells whether the table holds a verifier for an identifier.
pub fn has_verifier(table: &str, identifier: &str) -> (r: bool)
    ensures
        r == holds_verifier(text_lines(table@), identifier@),
{
    let chars = chars_of(table);
    let lines = lines_of(chars.as_slice());
    let prefix = verifier_prefix(identifier);
    find_with_prefix(&lines, prefix.as_slice()) < lines.len()
}

/// Checks a password against the verifier of an identifier.
///
/// `None` means that the table holds no verifier for the identifier. A
/// verifier that cannot be read, or does not open, does not confirm the
/// password.
pub fn verify_password_for_identifier(table: &str, identifier: &str, password: &str) -> (r: Option<
    bool,
>)
    ensures
        r == verified(text_lines(table@), identifier@, encode_utf8(password@)),
{
    let chars = chars_of(table);
    let lines = lines_of(chars.as_slice());
    let prefix = verifier_prefix(identifier);
    let i = find_with_prefix(&lines, prefix.as_slice());
    if i >= lines.len() {
        return None;
    }
    let line = lines[i].as_slice();
    assert(line@ == text_lines(table@)[i as int]);
    let rest = slice_subrange(line, prefix.len(), line.len());
    assert(rest@ =~= line@.skip(prefix@.len() as int));
    let mut a: usize = 0;
    assert(rest@.skip(0) =~= rest@);
    while a < rest.len() && rest[a] == ':'
        invariant
            a <= rest@.len(),
            strip_colons(rest@) == strip_colons(rest@.skip(a as int)),
        decreases rest@.len() - a,
    {
        assert(rest@.skip(a as int).skip(1) =~= rest@.skip(a + 1));
        a = a + 1;
    }
    let stripped = slice_subrange(rest, a, rest.len());
    assert(stripped@ =~= rest@.skip(a as int));
    assert(stripped@ == strip_colons(rest@));
    let blob = match read_blob(stripped) {
        Some(blob) => blob,
        None => {
            return Some(false);
        },
    };
    if blob.len() <= BLOB_HEADER_LEN {
        return Some(false);
    }
    let mut expected = String::from_str("VERIFIER:");
    expected.append(identifier);
    match open_blob(password.as_bytes(), blob.as_slice()) {
        Some(plaintext) => Some(same_bytes(plaintext.as_slice(), expected.as_str().as_bytes())),
        None => Some(false),
    }
}

/// The verifier line for an identifier, unless the table holds one already.
///
/// Where the table holds a verifier for the identifier there is nothing to
/// add. Otherwise the verifier's text is sealed under the password as
/// `encrypt_entry` seals a text, under the verifier's name.
pub fn verifier_if_missing(table: &str, identifier: &str, password: &str) -> (r: Result<
    Option<Vec<u8>>,
    SealError,
>)
    ensures
        holds_verifier(text_lines(table@), identifier@) ==> r matches Ok(None),
        !holds_verifier(text_lines(table@), identifier@) ==> match entry_refusal(
            password@,
            verifier_text(identifier@),
        ) {
            Some(e) => r is Err && r->Err_0 == e,
            None => {
                ||| r is Err && r->Err_0 == SealError::EntropyUnavailable
                ||| r is Ok && r->Ok_0 is Some && exists|salt: Seq<u8>, nonce: Seq<u8>|
                    #[trigger] seals_well(
                        verifier_name(identifier@),
                        password@,
                        verifier_text(identifier@),
                        salt,
                        nonce,
                    ) && r->Ok_0->Some_0@ == sealed_entry(
                        verifier_name(identifier@),
                        password@,
                        verifier_text(identifier@),
                        salt,
                        nonce,
                    )
            },
        },
{
    if has_verifier(table, identifier) {
        return Ok(None);
    }
    let mut name = String::from_str("__pw__:");
    name.append(identifier);
    let mut text = String::from_str("VERIFIER:");
    text.append(identifier);
    assert(name@ =~= verifier_name(identifier@));
    assert(text@ =~= verifier_text(identifier@));
    match encrypt_entry(name.as_str(), password, text.as_str()) {
        Ok(line) => {
            proof {
                let (salt, nonce) = choose|salt: Seq<u8>, nonce: Seq<u8>|
                    #[trigger] seals_well(name@, password@, text@, salt, nonce) && line@
                        == sealed_entry(name@, password@, text@, salt, nonce);
                assert(seals_well(
                    verifier_name(identifier@),
                    password@,
                    verifier_text(identifier@),
                    salt,
                    nonce,
                ));
            }
            Ok(Some(line))
        },
        Err(e) => Err(e),
    }
}

/// The lines that hold some texts, each sealed under the same key and a
/// nonce of its own.
pub open spec fn sealed_lines(
    identifier: Seq<u8>,
    key: Seq<u8>,
    salt: Seq<u8>,
    nonces: Seq<Seq<u8>>,
    lines: Seq<Seq<char>>,
) -> Seq<u8>
    decreases lines.len(),
{
    if lines.len() == 0 || nonces.len() != lines.len() {
        Seq::empty()
    } else {
        sealed_lines(identifier, key, salt, nonces.drop_last(), lines.drop_last()) + sealed_line(
            identifier,
            key,
            salt,
            nonces.last(),
            encode_utf8(lines.last()),
        )
    }
}

/// The lines that hold some texts, each sealed under the password with one
/// salt and a nonce of its own.
pub open spec fn sealed_text(
    identifier: Seq<char>,
    password: Seq<char>,
    lines: Seq<Seq<char>>,
    salt: Seq<u8>,
    nonces: Seq<Seq<u8>>,
) -> Seq<u8> {
    sealed_lines(encode_utf8(identifier), entry_key(password, salt), salt, nonces, lines)
}

/// Whether a salt and one nonce for each of some texts have their lengths
/// and the line of each text sealed with them is read as the text again.
pub open spec fn all_seal_well(
    identifier: Seq<char>,
    password: Seq<char>,
    lines: Seq<Seq<char>>,
    salt: Seq<u8>,
    nonces: Seq<Seq<u8>>,
) -> bool {
    &&& nonces.len() == lines.len()
    &&& salt.len() == SALT_LEN
    &&& forall|k: int|
        0 <= k < lines.len() ==> #[trigger] seals_well(
            identifier,
            password,
            lines[k],
            salt,
            nonces[k],
        )
}

/// The lines of a text as strings, or `None` where one of them is too long
/// to be sealed.
fn sealable_lines(chars: &[char]) -> (r: Option<Vec<String>>)
    ensures
        r is Some <==> !any_too_long(text_lines(chars@)),
        r matches Some(found) ==> texts(found@) == text_lines(chars@),
{
    let lines = lines_of(chars);
    let ghost all = text_lines(chars@);
    let mut found: Vec<String> = Vec::new();
    let mut k: usize = 0;
    while k < lines.len()
        invariant
            k <= lines@.len(),
            char_views(lines@) == all,
            all == text_lines(chars@),
            texts(found@) == all.take(k as int),
            forall|j: int| 0 <= j < k ==> !too_long(#[trigger] all[j]),
        decreases lines@.len() - k,
    {
        let line = string_of(lines[k].as_slice());
        assert(line@ == all[k as int]);
        if line.as_str().as_bytes().len() > MAX_SEALED_LEN - TAG_LEN {
            assert(too_long(all[k as int]));
            return None;
        }
        let ghost before = texts(found@);
        found.push(line);
        assert(texts(found@) =~= before.push(all[k as int]));
        assert(texts(found@) =~= all.take(k + 1));
        k = k + 1;
    }
    assert(all.take(k as int) =~= all);
    Some(found)
}

/// Seals every line of a text under one password: one salt and one key for
/// all of them, a fresh nonce for each.
///
/// A text of white space only gives no line. A password or a line that is
/// too long is refused, whatever is drawn. Otherwise each line is sealed as
/// `append_entry` seals it for the bytes that were drawn, and is read as
/// its text again; where the system supplies no random bytes, nothing is
/// sealed.
pub fn encrypt_lines(identifier: &str, password: &str, text: &str) -> (r: Result<
    Vec<u8>,
    SealError,
>)
    ensures
        trimmed(text@).len() == 0 ==> (r matches Ok(out) && out@.len() == 0),
        trimmed(text@).len() > 0 ==> match lines_refusal(password@, text_lines(text@)) {
            Some(e) => r is Err && r->Err_0 == e,
            None => {
                ||| r is Err && r->Err_0 == SealError::EntropyUnavailable
                ||| r is Ok && exists|salt: Seq<u8>, nonces: Seq<Seq<u8>>|
                    #[trigger] all_seal_well(
                        identifier@,
                        password@,
                        text_lines(text@),
                        salt,
                        nonces,
                    ) && r->Ok_0@ == sealed_text(
                        identifier@,
                        password@,
                        text_lines(text@),
                        salt,
                        nonces,
                    )
            },
        },
{
    let chars = chars_of(text);
    let mut out: Vec<u8> = Vec::new();
    if trim(chars.as_slice()).len() == 0 {
        return Ok(out);
    }
    if password.as_bytes().len() > 0xFFFF_FFFF {
        return Err(SealError::PasswordTooLong);
    }
    let lines = match sealable_lines(chars.as_slice()) {
        Some(lines) => lines,
        None => {
            return Err(SealError::PayloadTooLarge);
        },
    };
    let salt = match fresh_salt() {
        Some(bytes) => bytes,
        None => {
            return Err(SealError::EntropyUnavailable);
        },
    };
    let key = match derive_argon2_key(password.as_bytes(), salt.as_slice()) {
        Ok(key) => key,
        Err(_) => {
            assert(false);
            return Err(SealError::PasswordTooLong);
        },
    };
    let ghost all = text_lines(text@);
    let ghost mut nonces: Seq<Seq<u8>> = Seq::empty();
    let id = identifier.as_bytes();
    let mut k: usize = 0;
    assert(all.take(0) =~= Seq::<Seq<char>>::empty());
    while k < lines.len()
        invariant
            k <= lines@.len(),
            texts(lines@) == all,
            all == text_lines(text@),
            trimmed(text@).len() > 0,
            lines_refusal(password@, all) is None,
            !any_too_long(all),
            id@ == encode_utf8(identifier@),
            key@ == entry_key(password@, salt@),
            key@.len() == KEY_LEN,
            salt@.len() == SALT_LEN,
            kdf_takes(encode_utf8(password@), salt@),
            nonces.len() == k,
            forall|j: int| 0 <= j < nonces.len() ==> (#[trigger] nonces[j]).len() == NONCE_LEN,
            out@ == sealed_lines(id@, key@, salt@, nonces, all.take(k as int)),
            forall|j: int|
                0 <= j < k ==> #[trigger] seals_well(
                    identifier@,
                    password@,
                    all[j],
                    salt@,
                    nonces[j],
                ),
        decreases lines@.len() - k,
    {
        let nonce = match fresh_nonce() {
            Some(bytes) => bytes,
            None => {
                return Err(SealError::EntropyUnavailable);
            },
        };
        assert(lines@[k as int]@ == all[k as int]);
        assert(!too_long(all[k as int]));
        let sealed = append_entry(
            &mut out,
            id,
            key.as_slice(),
            salt.as_slice(),
            nonce.as_slice(),
            lines[k].as_str().as_bytes(),
        );
        assert(sealed);
        proof {
            let drawn_before = nonces;
            nonces = nonces.push(nonce@);
            assert(nonces.drop_last() =~= drawn_before);
            assert(all.take(k + 1).drop_last() =~= all.take(k as int));
            assert(all.take(k + 1).last() == all[k as int]);
            lemma_entry_reads_back(
                identifier@,
                encode_utf8(password@),
                all[k as int],
                salt@,
                nonce@,
            );
            assert forall|j: int| 0 <= j < k + 1 implies #[trigger] seals_well(
                identifier@,
                password@,
                all[j],
                salt@,
                nonces[j],
            ) by {
                if j < k {
                    assert(nonces[j] == drawn_before[j]);
                }
            }
        }
        k = k + 1;
    }
    proof {
        assert(all.take(k as int) =~= all);
        assert(all_seal_well(identifier@, password@, all, salt@, nonces));
        assert(out@ == sealed_text(identifier@, password@, all, salt@, nonces));
    }
    Ok(out)
}

} // verus!

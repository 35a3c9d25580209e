//! Base64 text for the binary fields of a stored line.

use base64::engine::general_purpose::STANDARD;
use base64::Engine;
use vstd::prelude::*;

verus! {

/// Declares `base64::DecodeError`, the error of the base64 crate, as an
/// opaque value that is only handed on. Nothing is claimed of it.
#[verifier::external_type_specification]
#[verifier::external_body]
pub struct ExDecodeError(base64::DecodeError);

/// The padded base64 text of some bytes, in the standard alphabet.
pub uninterp spec fn base64_text(bytes: Seq<u8>) -> Seq<u8>;

/// The bytes that a padded base64 text in the standard alphabet stands for,
/// or `None` where it is malformed.
pub uninterp spec fn base64_bytes(text: Seq<u8>) -> Option<Seq<u8>>;

/// A letter, a digit, `+`, `/` or `=`.
pub open spec fn is_base64_symbol(b: u8) -> bool {
    ||| 65 <= b <= 90
    ||| 97 <= b <= 122
    ||| 48 <= b <= 57
    ||| b == 43
    ||| b == 47
    ||| b == 61
}

pub open spec fn all_base64_symbols(text: Seq<u8>) -> bool {
    forall|i: int| 0 <= i < text.len() ==> is_base64_symbol(#[trigger] text[i])
}

/// Whether bytes of this length can be encoded: the text must fit in memory.
pub open spec fn encodable_len(len: nat) -> bool {
    len / 3 * 4 + 4 <= isize::MAX
}

/// Calls `Engine::encode` of the base64 crate on its `STANDARD` engine.
/// Trusted: the text depends on the bytes alone, holds only symbols of the
/// standard alphabet and padding, and decodes to the bytes again.
#[verifier::external_body]
fn standard_encode(bytes: &[u8]) -> (text: Vec<u8>)
    requires
        encodable_len(bytes@.len()),
    ensures
        text@ == base64_text(bytes@),
        all_base64_symbols(text@),
        base64_bytes(text@) == Some(bytes@),
{
    STANDARD.encode(bytes).into_bytes()
}

/// Calls `Engine::decode` of the base64 crate on its `STANDARD` engine.
/// Trusted: whether the text is accepted, and the bytes then, depend on the
/// text alone.
#[verifier::external_body]
fn standard_decode(text: &[u8]) -> (r: Result<Vec<u8>, base64::DecodeError>)
    ensures
        r is Ok <==> base64_bytes(text@) is Some,
        r matches Ok(bytes) ==> base64_bytes(text@) == Some(bytes@),
{
    STANDARD.decode(text)
}

/// Appends the base64 text of `bytes` to `out`.
pub fn append_base64(out: &mut Vec<u8>, bytes: &[u8])
    requires
        encodable_len(bytes@.len()),
    ensures
        final(out)@ == old(out)@ + base64_text(bytes@),
        all_base64_symbols(base64_text(bytes@)),
        base64_bytes(base64_text(bytes@)) == Some(bytes@),
{
    let text = standard_encode(bytes);
    out.extend_from_slice(text.as_slice());
}

/// Decodes a base64 text, or tells that it is malformed.
pub fn decode_base64(text: &[u8]) -> (r: Option<Vec<u8>>)
    ensures
        match r {
            Some(bytes) => base64_bytes(text@) == Some(bytes@),
            None => base64_bytes(text@) is None,
        },
{
    match standard_decode(text) {
        Ok(bytes) => Some(bytes),
        Err(_) => None,
    }
}

} // verus!

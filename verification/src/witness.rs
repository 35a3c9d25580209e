//! The password witness: a marker derived from the password that is sealed
//! in front of the plaintext and checked again after a payload has opened.
//!
//! The witness is no substitute for the authentication tag. It confirms the
//! password a second time and tells payloads of another format apart.

use std::collections::hash_map::DefaultHasher;
use std::hash::Hasher;
use vstd::prelude::*;
use vstd::slice::{slice_subrange, slice_to_vec};
use vstd::std_specs::hash::DefaultHasherAdditionalSpecFns;
use vstd::string::StringSliceAdditionalSpecFns;

use crate::bytes::{find_byte, first_index, lemma_first_index_at};
use crate::decimal::{
    append_decimal, decimal_text, lemma_decimal_round_trip, lemma_decimal_text_digits,
    parse_decimal, parse_u64,
};
use crate::limits::FIELD_SEPARATOR;

verus! {

/// Why a payload that opened was not accepted.
#[derive(Clone, Copy, Debug, PartialEq, Eq, Structural)]
pub enum WitnessError {
    /// The payload does not begin with a readable witness.
    Missing,
    /// The witness belongs to another password.
    Mismatch,
}

/// The four bytes `PWD:` that begin a witness.
pub open spec fn marker() -> Seq<u8> {
    seq![80u8, 87u8, 68u8, 58u8]
}

/// The checksum of a password: the standard hasher's result for the
/// password's bytes and a closing byte.
pub open spec fn password_digest(password: Seq<char>) -> u64 {
    DefaultHasher::spec_finish(seq![vstd::utf8::encode_utf8(password), seq![255u8]])
}

/// A plaintext with its witness in front: the marker, the digest in decimal,
/// a separator, the plaintext.
pub open spec fn witnessed(digest: u64, plaintext: Seq<u8>) -> Seq<u8> {
    marker() + decimal_text(digest as nat) + seq![FIELD_SEPARATOR] + plaintext
}

/// The text without any markers at its start.
pub open spec fn strip_markers(s: Seq<u8>) -> Seq<u8>
    decreases s.len(),
{
    if marker().is_prefix_of(s) {
        strip_markers(s.skip(4))
    } else {
        s
    }
}

/// The digest and the plaintext that a payload holds, or `None` where it
/// does not begin with the marker, holds no separator, or holds no number
/// between the two.
pub open spec fn read_witness(data: Seq<u8>) -> Option<(u64, Seq<u8>)> {
    let bar = first_index(data, FIELD_SEPARATOR);
    if !marker().is_prefix_of(data) || bar >= data.len() {
        None
    } else {
        match parse_decimal(strip_markers(data.take(bar)), u64::MAX as nat) {
            Some(d) => Some((d as u64, data.skip(bar + 1))),
            None => None,
        }
    }
}

/// What is read from a plaintext with its witness is the digest and the
/// plaintext that went in.
pub proof fn lemma_witness_round_trip(digest: u64, plaintext: Seq<u8>)
    ensures
        read_witness(witnessed(digest, plaintext)) == Some((digest, plaintext)),
{
    let m = marker();
    let d = decimal_text(digest as nat);
    let data = witnessed(digest, plaintext);
    let bar = (4 + d.len()) as int;
    lemma_decimal_text_digits(digest as nat);
    lemma_decimal_round_trip(digest as nat, u64::MAX as nat);
    assert forall|j: int| 0 <= j < bar implies data[j] != FIELD_SEPARATOR by {
        if j < 4 {
            assert(data[j] == m[j]);
        } else {
            assert(data[j] == d[j - 4]);
        }
    }
    assert(data[bar] == FIELD_SEPARATOR);
    lemma_first_index_at(data, FIELD_SEPARATOR, bar);
    assert(m.is_prefix_of(data)) by {
        assert(data.subrange(0, 4) =~= m);
    }
    let head = data.take(bar);
    assert(head =~= m + d);
    assert(m.is_prefix_of(head)) by {
        assert(head.subrange(0, 4) =~= m);
    }
    assert(head.skip(4) =~= d);
    assert(!m.is_prefix_of(d)) by {
        if m.is_prefix_of(d) {
            assert(d.subrange(0, 4)[0] == m[0]);
        }
    }
    assert(strip_markers(d) == d);
    assert(strip_markers(head) == d);
    assert(data.skip(bar + 1) =~= plaintext);
}

/// Computes the checksum of a password.
pub fn digest_of(password: &str) -> (digest: u64)
    ensures
        digest == password_digest(password@),
{
    let mut hasher = DefaultHasher::new();
    hasher.write(password.as_bytes());
    let mut closing: Vec<u8> = Vec::new();
    closing.push(255u8);
    hasher.write(closing.as_slice());
    assert(hasher@ =~= seq![password.spec_bytes(), seq![255u8]]);
    hasher.finish()
}

/// Puts the witness for `digest` in front of a plaintext.
pub fn attach_witness(digest: u64, plaintext: &[u8]) -> (data: Vec<u8>)
    ensures
        data@ == witnessed(digest, plaintext@),
{
    let mut data: Vec<u8> = Vec::new();
    data.push(80u8);
    data.push(87u8);
    data.push(68u8);
    data.push(58u8);
    assert(data@ =~= marker());
    append_decimal(&mut data, digest);
    data.push(FIELD_SEPARATOR);
    data.extend_from_slice(plaintext);
    assert(data@ =~= witnessed(digest, plaintext@));
    data
}

/// Tells whether `s` begins with the marker.
fn begins_with_marker(s: &[u8]) -> (r: bool)
    ensures
        r == marker().is_prefix_of(s@),
{
    if s.len() < 4 {
        return false;
    }
    let r = s[0] == 80u8 && s[1] == 87u8 && s[2] == 68u8 && s[3] == 58u8;
    proof {
        if r {
            assert(s@.subrange(0, 4) =~= marker());
        } else if marker().is_prefix_of(s@) {
            let p = s@.subrange(0, 4);
            assert(p[0] == 80 && p[1] == 87 && p[2] == 68 && p[3] == 58);
        }
    }
    r
}

/// Reads the digest and the plaintext out of a payload that has opened.
pub fn split_witness(data: &[u8]) -> (r: Option<(u64, Vec<u8>)>)
    ensures
        match r {
            Some((digest, plaintext)) => read_witness(data@) == Some((digest, plaintext@)),
            None => read_witness(data@) is None,
        },
{
    if !begins_with_marker(data) {
        return None;
    }
    let bar = find_byte(data, FIELD_SEPARATOR);
    if bar >= data.len() {
        return None;
    }
    let head = slice_subrange(data, 0, bar);
    assert(head@ =~= data@.take(bar as int));
    let mut from: usize = 0;
    assert(head@.skip(0) =~= head@);
    loop
        invariant
            from <= head@.len(),
            strip_markers(head@) == strip_markers(head@.skip(from as int)),
        ensures
            !marker().is_prefix_of(head@.skip(from as int)),
        decreases head@.len() - from,
    {
        let rest = slice_subrange(head, from, head.len());
        assert(rest@ =~= head@.skip(from as int));
        if !begins_with_marker(rest) {
            break;
        }
        assert(rest@.skip(4) =~= head@.skip(from + 4));
        from = from + 4;
    }
    let number = slice_subrange(head, from, head.len());
    assert(number@ =~= head@.skip(from as int));
    match parse_u64(number) {
        Some(digest) => {
            let plaintext = slice_to_vec(slice_subrange(data, bar + 1, data.len()));
            assert(plaintext@ =~= data@.skip(bar + 1));
            Some((digest, plaintext))
        },
        None => None,
    }
}

/// Checks a payload that has opened against the digest of the password that
/// was supplied, and hands out the plaintext without its witness.
pub fn check_witness(digest: u64, data: &[u8]) -> (r: Result<Vec<u8>, WitnessError>)
    ensures
        match r {
            Ok(plaintext) => read_witness(data@) == Some((digest, plaintext@)),
            Err(WitnessError::Missing) => read_witness(data@) is None,
            Err(WitnessError::Mismatch) => read_witness(data@) matches Some(found) && found.0
                != digest,
        },
{
    match split_witness(data) {
        None => Err(WitnessError::Missing),
        Some((found, plaintext)) => if found == digest {
            Ok(plaintext)
        } else {
            Err(WitnessError::Mismatch)
        },
    }
}

} // verus!

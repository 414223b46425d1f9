//! The stored form of a node's transitions and of a token's capitalised
//! forms: JSON text, compressed as a zlib stream.

use crate::engine::model::error::EngineError;
use std::io::Read;
use std::io::Write;
use vstd::prelude::*;

verus! {

#[verifier::external_type_specification]
#[verifier::external_body]
pub struct ExJsonError(serde_json::Error);

#[verifier::external_type_specification]
#[verifier::external_body]
pub struct ExIoError(std::io::Error);

/// What a zlib stream decompresses to, where it is one.
pub uninterp spec fn zlib_inflated(blob: Seq<u8>) -> Option<Seq<u8>>;

/// The zlib stream that compression at the default level makes of `data`.
pub uninterp spec fn zlib_deflated(data: Seq<u8>) -> Option<Seq<u8>>;

/// The triples that a JSON text holds, where it is an array of arrays of
/// three integers that fit their types.
pub uninterp spec fn json_triples(text: Seq<u8>) -> Option<Seq<(i32, u32, i64)>>;

/// The JSON text of a sequence of triples.
pub uninterp spec fn json_of_triples(triples: Seq<(i32, u32, i64)>) -> Option<Seq<u8>>;

/// The pairs of form and count that a JSON text holds, where it is an array
/// of arrays of a string and an integer that fits its type.
pub uninterp spec fn json_forms(text: Seq<u8>) -> Option<Seq<(Seq<char>, u32)>>;

/// The JSON text of a sequence of pairs of form and count.
pub uninterp spec fn json_of_forms(forms: Seq<(Seq<char>, u32)>) -> Option<Seq<u8>>;

/// Pairs of form and count with each form taken as its characters.
pub open spec fn forms_view(forms: Seq<(String, u32)>) -> Seq<(Seq<char>, u32)> {
    Seq::new(forms.len(), |i: int| (forms[i].0@, forms[i].1))
}

/// Reads `blob` to its end through `flate2::read::ZlibDecoder`. The result
/// is what the stream decompresses to, or the decoder's error where `blob`
/// is no zlib stream.
#[verifier::external_body]
fn inflate(blob: &Vec<u8>) -> (r: Result<Vec<u8>, std::io::Error>)
    ensures
        match r {
            Ok(data) => zlib_inflated(blob@) == Some(data@),
            Err(_) => zlib_inflated(blob@) is None,
        },
{
    let mut data = Vec::new();
    flate2::read::ZlibDecoder::new(blob.as_slice()).read_to_end(&mut data).map(|_| data)
}

/// Writes `data` through `flate2::write::ZlibEncoder` at the default
/// compression level into a fresh vector and finishes the stream.
#[verifier::external_body]
fn deflate(data: &Vec<u8>) -> (r: Result<Vec<u8>, std::io::Error>)
    ensures
        match r {
            Ok(blob) => zlib_deflated(data@) == Some(blob@),
            Err(_) => zlib_deflated(data@) is None,
        },
{
    let mut encoder = flate2::write::ZlibEncoder::new(Vec::new(), flate2::Compression::default());
    encoder.write_all(data.as_slice()).and_then(|_| encoder.finish())
}

/// Calls `serde_json::from_slice` for a vector of triples of integers.
#[verifier::external_body]
fn parse_triples(text: &Vec<u8>) -> (r: Result<Vec<(i32, u32, i64)>, serde_json::Error>)
    ensures
        match r {
            Ok(triples) => json_triples(text@) == Some(triples@),
            Err(_) => json_triples(text@) is None,
        },
{
    serde_json::from_slice::<Vec<(i32, u32, i64)>>(text.as_slice())
}

/// Calls `serde_json::to_vec` on a vector of triples of integers.
#[verifier::external_body]
fn print_triples(triples: &Vec<(i32, u32, i64)>) -> (r: Result<Vec<u8>, serde_json::Error>)
    ensures
        match r {
            Ok(text) => json_of_triples(triples@) == Some(text@),
            Err(_) => json_of_triples(triples@) is None,
        },
{
    serde_json::to_vec(triples)
}

/// Calls `serde_json::from_slice` for a vector of pairs of a string and an
/// integer.
#[verifier::external_body]
fn parse_forms(text: &Vec<u8>) -> (r: Result<Vec<(String, u32)>, serde_json::Error>)
    ensures
        match r {
            Ok(forms) => json_forms(text@) == Some(forms_view(forms@)),
            Err(_) => json_forms(text@) is None,
        },
{
    serde_json::from_slice::<Vec<(String, u32)>>(text.as_slice())
}

/// Calls `serde_json::to_vec` on a vector of pairs of a string and an
/// integer.
#[verifier::external_body]
fn print_forms(forms: &Vec<(String, u32)>) -> (r: Result<Vec<u8>, serde_json::Error>)
    ensures
        match r {
            Ok(text) => json_of_forms(forms_view(forms@)) == Some(text@),
            Err(_) => json_of_forms(forms_view(forms@)) is None,
        },
{
    serde_json::to_vec(forms)
}

/// The triples that a stored blob holds: the JSON reading of what it
/// decompresses to.
pub open spec fn stored_triples(blob: Seq<u8>) -> Option<Seq<(i32, u32, i64)>> {
    match zlib_inflated(blob) {
        Some(text) => json_triples(text),
        None => None,
    }
}

/// The blob under which a sequence of triples is stored: its JSON text,
/// compressed.
pub open spec fn blob_of_triples(triples: Seq<(i32, u32, i64)>) -> Option<Seq<u8>> {
    match json_of_triples(triples) {
        Some(text) => zlib_deflated(text),
        None => None,
    }
}

/// No form occurs twice.
pub open spec fn distinct_forms(forms: Seq<(Seq<char>, u32)>) -> bool {
    forall|i: int, j: int|
        0 <= i < j < forms.len() ==> (#[trigger] forms[i]).0 != (#[trigger] forms[j]).0
}

/// The capitalised forms that a stored blob holds: the JSON reading of what
/// it decompresses to, provided that no form occurs twice in it.
pub open spec fn stored_forms(blob: Seq<u8>) -> Option<Seq<(Seq<char>, u32)>> {
    match zlib_inflated(blob) {
        Some(text) => match json_forms(text) {
            Some(forms) => if distinct_forms(forms) {
                Some(forms)
            } else {
                None
            },
            None => None,
        },
        None => None,
    }
}

/// The blob under which capitalised forms are stored.
pub open spec fn blob_of_forms(forms: Seq<(Seq<char>, u32)>) -> Option<Seq<u8>> {
    match json_of_forms(forms) {
        Some(text) => zlib_deflated(text),
        None => None,
    }
}

/// Decodes the blob of a node. A blob that is no zlib stream, or whose
/// content is no JSON array of integer triples, is `Corrupted`.
pub fn decode_transitions(blob: &Vec<u8>) -> (r: Result<Vec<(i32, u32, i64)>, EngineError>)
    ensures
        match r {
            Ok(triples) => stored_triples(blob@) == Some(triples@),
            Err(e) => e == EngineError::Corrupted && stored_triples(blob@) is None,
        },
{
    match inflate(blob) {
        Ok(text) => match parse_triples(&text) {
            Ok(triples) => Ok(triples),
            Err(_) => Err(EngineError::Corrupted),
        },
        Err(_) => Err(EngineError::Corrupted),
    }
}

/// Encodes the triples of a node. Where the encoders refuse, nothing can be
/// stored: `TransactionFailure`.
pub fn encode_transitions(triples: &Vec<(i32, u32, i64)>) -> (r: Result<Vec<u8>, EngineError>)
    ensures
        match r {
            Ok(blob) => blob_of_triples(triples@) == Some(blob@),
            Err(e) => e == EngineError::TransactionFailure && blob_of_triples(triples@) is None,
        },
{
    match print_triples(triples) {
        Ok(text) => match deflate(&text) {
            Ok(blob) => Ok(blob),
            Err(_) => Err(EngineError::TransactionFailure),
        },
        Err(_) => Err(EngineError::TransactionFailure),
    }
}

/// Whether no form occurs twice among `forms`.
pub fn forms_are_distinct(forms: &Vec<(String, u32)>) -> (b: bool)
    ensures
        b == distinct_forms(forms_view(forms@)),
{
    let mut j: usize = 0;
    while j < forms.len()
        invariant
            j <= forms.len(),
            forall|a: int, b: int|
                0 <= a < b < j ==> (#[trigger] forms@[a]).0@ != (#[trigger] forms@[b]).0@,
        decreases forms.len() - j,
    {
        let mut i: usize = 0;
        while i < j
            invariant
                i <= j < forms.len(),
                forall|a: int| 0 <= a < i ==> (#[trigger] forms@[a]).0@ != forms@[j as int].0@,
            decreases j - i,
        {
            if forms[i].0 == forms[j].0 {
                proof {
                    let v = forms_view(forms@);
                    assert(v[i as int].0 == v[j as int].0);
                }
                return false;
            }
            i = i + 1;
        }
        j = j + 1;
    }
    proof {
        let v = forms_view(forms@);
        assert forall|a: int, b: int| 0 <= a < b < v.len() implies (#[trigger] v[a]).0 != (
        #[trigger] v[b]).0 by {
            assert(forms@[a].0@ != forms@[b].0@);
        }
    }
    true
}

/// Decodes the blob of a token's capitalised forms. A blob that is no zlib
/// stream, whose content is no JSON array of pairs, or that names a form
/// twice is `Corrupted`.
pub fn decode_forms(blob: &Vec<u8>) -> (r: Result<Vec<(String, u32)>, EngineError>)
    ensures
        match r {
            Ok(forms) => stored_forms(blob@) == Some(forms_view(forms@)),
            Err(e) => e == EngineError::Corrupted && stored_forms(blob@) is None,
        },
{
    match inflate(blob) {
        Ok(text) => match parse_forms(&text) {
            Ok(forms) => {
                if forms_are_distinct(&forms) {
                    Ok(forms)
                } else {
                    Err(EngineError::Corrupted)
                }
            },
            Err(_) => Err(EngineError::Corrupted),
        },
        Err(_) => Err(EngineError::Corrupted),
    }
}

/// Encodes a token's capitalised forms. Where the encoders refuse, nothing
/// can be stored: `TransactionFailure`.
pub fn encode_forms(forms: &Vec<(String, u32)>) -> (r: Result<Vec<u8>, EngineError>)
    ensures
        match r {
            Ok(blob) => blob_of_forms(forms_view(forms@)) == Some(blob@),
            Err(e) => e == EngineError::TransactionFailure && blob_of_forms(forms_view(forms@))
                is None,
        },
{
    match print_forms(forms) {
        Ok(text) => match deflate(&text) {
            Ok(blob) => Ok(blob),
            Err(_) => Err(EngineError::TransactionFailure),
        },
        Err(_) => Err(EngineError::TransactionFailure),
    }
}

} // verus!

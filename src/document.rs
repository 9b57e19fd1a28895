//! The document loader: reads the `sources`, `names` and `mappings` fields
//! of a source-map JSON document and builds its index.
use vstd::prelude::*;
use vstd::string::*;
use vstd::utf8::encode_utf8;

use serde_json::Value;

use crate::error::SourceMapError;
use crate::index::{Cache, index_of};
use crate::mapping::{decode_mappings_spec, lemma_decode_errors, parse_mappings, table_view};

verus! {

#[verifier::external_type_specification]
#[verifier::external_body]
pub struct ExJsonValue(serde_json::Value);

#[verifier::external_type_specification]
#[verifier::external_body]
pub struct ExJsonError(serde_json::Error);

/// Whether the JSON parser accepts `text` as one JSON value.
pub uninterp spec fn json_accepts(text: Seq<char>) -> bool;

/// Relies on `serde_json::from_str` into a `Value`: parses the whole text as
/// one JSON value; whether it succeeds depends on the text alone.
#[verifier::external_body]
fn parse_json(text: &str) -> (r: Result<Value, serde_json::Error>)
    ensures
        r is Ok <==> json_accepts(text@),
{
    serde_json::from_str::<Value>(text)
}

/// Relies on `serde_json::Error`'s `Display`: the parser's message.
#[verifier::external_body]
fn json_error_message(e: &serde_json::Error) -> String {
    e.to_string()
}

/// The string array that the JSON text `text` holds under the top-level key
/// `key`: `None` when the text is no JSON object, the key is missing, or its
/// value is not an array of strings.
pub uninterp spec fn json_strings_member(text: Seq<char>, key: Seq<char>) -> Option<Seq<Seq<char>>>;

/// The string that the JSON text `text` holds under the top-level key `key`:
/// `None` when the text is no JSON object, the key is missing, or its value
/// is not a string.
pub uninterp spec fn json_string_member(text: Seq<char>, key: Seq<char>) -> Option<Seq<char>>;

/// Relies on `serde_json::from_str` into a `Value`, then `Value::get`,
/// `Value::as_array` and `Value::as_str`: the member `key` of the document
/// as a list of strings; the result depends on the text and key alone.
#[verifier::external_body]
fn read_strings_member(text: &str, key: &str) -> (r: Option<Vec<String>>)
    ensures
        match json_strings_member(text@, key@) {
            Some(s) => r matches Some(v) && table_view(v@) == s,
            None => r is None,
        },
{
    let doc = serde_json::from_str::<Value>(text).ok()?;
    let items = doc.get(key)?.as_array()?;
    items.iter().map(|v| v.as_str().map(str::to_owned)).collect()
}

/// Relies on `serde_json::from_str` into a `Value`, then `Value::get` and
/// `Value::as_str`: the member `key` of the document as a string; the result
/// depends on the text and key alone.
#[verifier::external_body]
fn read_string_member(text: &str, key: &str) -> (r: Option<String>)
    ensures
        match json_string_member(text@, key@) {
            Some(s) => r matches Some(v) && v@ == s,
            None => r is None,
        },
{
    let doc = serde_json::from_str::<Value>(text).ok()?;
    doc.get(key)?.as_str().map(str::to_owned)
}

fn malformed(field: &str) -> (e: SourceMapError)
    ensures
        e matches SourceMapError::MalformedSourceMap(f) && f@ == field@,
{
    SourceMapError::MalformedSourceMap(field.to_owned())
}

/// Builds the index of the mappings that `mappings` encodes against the
/// `sources` and `names` tables; fails as decoding the string fails.
pub fn load(sources: &Vec<String>, names: &Vec<String>, mappings: &str) -> (r: Result<
    Cache,
    SourceMapError,
>)
    ensures
        match decode_mappings_spec(mappings.spec_bytes(), table_view(sources@), table_view(names@)) {
            Ok(ms) => r matches Ok(c) && c@ == index_of(ms),
            Err(x) => r == Err::<Cache, SourceMapError>(x),
        },
{
    match parse_mappings(mappings.as_bytes(), sources, names) {
        Ok(ms) => Ok(Cache::from_mappings(ms)),
        Err(x) => Err(x),
    }
}

/// Loads a source-map document: parses the JSON text, reads its `sources`
/// and `names` (arrays of strings) and `mappings` (a string), and builds the
/// index. Other members, `version` included, are not read. Text the JSON
/// parser refuses gives `InvalidJson`; the first of the three fields that is
/// missing or mistyped gives `MalformedSourceMap` naming it; a malformed
/// mapping string gives the error that decoding it gives.
pub fn consume(text: &str) -> (r: Result<Cache, SourceMapError>)
    ensures
        r matches Err(SourceMapError::InvalidJson(_)) <==> !json_accepts(text@),
        json_accepts(text@) ==> match (
            json_strings_member(text@, "sources"@),
            json_strings_member(text@, "names"@),
            json_string_member(text@, "mappings"@),
        ) {
            (None, _, _) => r matches Err(SourceMapError::MalformedSourceMap(f)) && f@
                == "sources"@,
            (Some(_), None, _) => r matches Err(SourceMapError::MalformedSourceMap(f)) && f@
                == "names"@,
            (Some(_), Some(_), None) => r matches Err(SourceMapError::MalformedSourceMap(f)) && f@
                == "mappings"@,
            (Some(s), Some(n), Some(m)) => match decode_mappings_spec(encode_utf8(m), s, n) {
                Ok(ms) => r matches Ok(c) && c@ == index_of(ms),
                Err(x) => r == Err::<Cache, SourceMapError>(x),
            },
        },
{
    match parse_json(text) {
        Ok(_) => {},
        Err(e) => {
            return Err(SourceMapError::InvalidJson(json_error_message(&e)));
        },
    }
    let sources = match read_strings_member(text, "sources") {
        Some(s) => s,
        None => {
            return Err(malformed("sources"));
        },
    };
    let names = match read_strings_member(text, "names") {
        Some(n) => n,
        None => {
            return Err(malformed("names"));
        },
    };
    let mappings = match read_string_member(text, "mappings") {
        Some(m) => m,
        None => {
            return Err(malformed("mappings"));
        },
    };
    let text_of_mappings = mappings.as_str();
    let r = load(&sources, &names, text_of_mappings);
    proof {
        let ghost b = text_of_mappings.spec_bytes();
        if r is Err {
            lemma_decode_errors(b, table_view(sources@), table_view(names@));
        }
    }
    r
}

} // verus!

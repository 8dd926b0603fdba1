//! Conversion between two textual serialization formats: a YAML-like
//! indentation-based format and a JSON-like bracketed format.  Both
//! directions pass through one generic value tree; decoding the
//! canonical encoding of a tree gives the tree back, in either format.

use vstd::prelude::*;

mod json;
mod text;
mod value;
mod yaml;

pub use json::{parse_json, encode_json};
pub use yaml::{parse_yaml, encode_yaml};
pub use value::{Value, ParseError, ParseErrorKind};

verus! {

/// Convert an indentation-based document to the bracketed format.
/// Succeeds exactly when the input parses, and then returns the
/// canonical bracketed text of the parsed tree.
pub fn convert_to_json(content: &str) -> (r: Result<String, ParseError>)
    ensures
        r is Ok <==> yaml::yparse_doc(content@) is Some,
        r matches Ok(out) ==> out@ == json::json_text(yaml::yparse_doc(content@)->Some_0),
{
    match parse_yaml(content) {
        Err(e) => Err(e),
        Ok(v) => Ok(encode_json(&v)),
    }
}

/// Convert a bracketed document to the indentation-based format.
/// Succeeds exactly when the input parses, and then returns the
/// canonical indentation-based text of the parsed tree.
pub fn convert_to_yaml(content: &str) -> (r: Result<String, ParseError>)
    ensures
        r is Ok <==> json::jparse_doc(content@) is Some,
        r matches Ok(out) ==> out@ == yaml::yaml_text(json::jparse_doc(content@)->Some_0),
{
    match parse_json(content) {
        Err(e) => Err(e),
        Ok(v) => Ok(encode_yaml(&v)),
    }
}

/// Round trip: every well-formed tree survives encoding to either
/// format and decoding again, unchanged.
pub proof fn lemma_round_trip(d: value::Doc)
    requires
        value::wf(d),
    ensures
        json::jparse_doc(json::json_text(d)) == Some(d),
        yaml::yparse_doc(yaml::yaml_text(d)) == Some(d),
{
    json::lemma_json_round_trip(d);
    yaml::lemma_yaml_round_trip(d);
}

/// Idempotent re-encoding: re-encoding whatever a decoder produced and
/// decoding again yields the same tree, in either format.
pub proof fn lemma_reencode_stable(s: Seq<char>)
    ensures
        json::jparse_doc(s) matches Some(d) ==> json::jparse_doc(json::json_text(d)) == Some(d),
        yaml::yparse_doc(s) matches Some(d) ==> yaml::yparse_doc(yaml::yaml_text(d)) == Some(d),
{
    json::lemma_jparse_doc_wf(s);
    yaml::lemma_yparse_doc_wf(s);
    if json::jparse_doc(s) is Some {
        json::lemma_json_round_trip(json::jparse_doc(s)->Some_0);
    }
    if yaml::yparse_doc(s) is Some {
        yaml::lemma_yaml_round_trip(yaml::yparse_doc(s)->Some_0);
    }
}

/// A converted document decodes in the target format to exactly the
/// tree the source text decoded to.
pub proof fn lemma_convert_preserves_tree(s: Seq<char>)
    ensures
        yaml::yparse_doc(s) matches Some(d) ==> json::jparse_doc(json::json_text(d)) == Some(d),
        json::jparse_doc(s) matches Some(d) ==> yaml::yparse_doc(yaml::yaml_text(d)) == Some(d),
{
    yaml::lemma_yparse_doc_wf(s);
    json::lemma_jparse_doc_wf(s);
    if yaml::yparse_doc(s) is Some {
        json::lemma_json_round_trip(yaml::yparse_doc(s)->Some_0);
    }
    if json::jparse_doc(s) is Some {
        yaml::lemma_yaml_round_trip(json::jparse_doc(s)->Some_0);
    }
}

/// Determinism: the canonical text is a function of the tree alone, so
/// encoding the same tree twice yields byte-identical output.
pub proof fn lemma_encode_deterministic(d: value::Doc, r1: Seq<char>, r2: Seq<char>)
    requires
        r1 == json::json_text(d) || r1 == yaml::yaml_text(d),
        r2 == json::json_text(d) || r2 == yaml::yaml_text(d),
        (r1 == json::json_text(d)) == (r2 == json::json_text(d)),
    ensures
        r1 == r2,
{
}

} // verus!

//! YAML encoding and decoding of rendered documents, by transcoding:
//! the library renders and parses compact JSON itself, and the trusted
//! calls below turn JSON text into YAML text and back. Both directions
//! are deterministic functions of the text alone: maps pass through
//! `serde_json::Map`, which holds its keys sorted.

use vstd::prelude::*;
use crate::error::{CODE_RUNTIME_ERROR, Error, SourceError};
use crate::jsondoc::{parse_groups, spec_parse_groups};
use crate::target::TargetGroup;

verus! {

/// The YAML rendering of the document that the JSON text denotes.
pub uninterp spec fn yaml_of_json(s: Seq<char>) -> Seq<char>;

/// Whether the JSON text parses and its document renders as YAML.
pub uninterp spec fn json_yaml_ok(s: Seq<char>) -> bool;

/// The compact JSON rendering of the document that the YAML text
/// denotes.
pub uninterp spec fn json_of_yaml(s: Seq<char>) -> Seq<char>;

/// Whether the YAML text parses and its document renders as compact
/// JSON.
pub uninterp spec fn yaml_json_ok(s: Seq<char>) -> bool;

/// Relies on `serde_json::from_str::<serde_json::Value>` and
/// `serde_yaml::to_string`: parsing a JSON document and rendering the
/// value as YAML yields a single text determined by the input alone, and
/// whether the two steps succeed is likewise determined by the input
/// alone. `Err` carries the decoder's or serializer's message.
#[verifier::external_body]
pub fn json_to_yaml(s: &str) -> (r: Result<String, String>)
    ensures
        r is Ok <==> json_yaml_ok(s@),
        r matches Ok(y) ==> y@ == yaml_of_json(s@),
{
    match serde_json::from_str::<serde_json::Value>(s) {
        Ok(v) => match serde_yaml::to_string(&v) {
            Ok(y) => Ok(y),
            Err(e) => Err(e.to_string()),
        },
        Err(e) => Err(e.to_string()),
    }
}

/// Relies on `serde_yaml::from_str::<serde_json::Value>` and
/// `serde_json::to_string`: parsing a YAML document and rendering the
/// value as compact JSON yields a single text determined by the input
/// alone, and whether the two steps succeed is likewise determined by
/// the input alone. `Err` carries the decoder's or serializer's message.
#[verifier::external_body]
pub fn yaml_to_json(s: &str) -> (r: Result<String, String>)
    ensures
        r is Ok <==> yaml_json_ok(s@),
        r matches Ok(j) ==> j@ == json_of_yaml(s@),
{
    match serde_yaml::from_str::<serde_json::Value>(s) {
        Ok(v) => match serde_json::to_string(&v) {
            Ok(j) => Ok(j),
            Err(e) => Err(e.to_string()),
        },
        Err(e) => Err(e.to_string()),
    }
}

/// Decodes a YAML rendering of a group document back into its group
/// list: the text is transcoded to compact JSON and parsed by the
/// library's own parser. Succeeds exactly when the text transcodes and
/// the transcoding is a group document; a YAML decode failure, or a
/// transcoding that is no group document, is fatal and tagged with the
/// format.
pub fn groups_from_yaml(s: &str) -> (r: Result<Vec<TargetGroup>, Error>)
    ensures
        r is Ok <==> yaml_json_ok(s@) && spec_parse_groups(json_of_yaml(s@)) is Some,
        r matches Ok(gs) ==> spec_parse_groups(json_of_yaml(s@)) == Option::Some(gs.deep_view()),
        r matches Err(e) ==> e.source is SerdeYaml && e.code == Some(CODE_RUNTIME_ERROR),
{
    let json = match yaml_to_json(s) {
        Ok(j) => j,
        Err(m) => {
            return Err(
                Error::new(SourceError::SerdeYaml(m)).context(
                    "Failed to deserialize target groups from YAML",
                ).code(CODE_RUNTIME_ERROR),
            );
        },
    };
    match parse_groups(json.as_str()) {
        Some(gs) => Ok(gs),
        None => Err(
            Error::new(
                SourceError::SerdeYaml("document is not an array of target groups".to_owned()),
            ).context("Failed to deserialize target groups from YAML").code(CODE_RUNTIME_ERROR),
        ),
    }
}

} // verus!

//! Persistence codecs: the current TOML document format, and the
//! legacy JSON format supported for one-way migration.
//!
//! The outside serializers are reached only through the trusted
//! wrappers here; everything around them is verified.

use vstd::prelude::*;

use crate::errors::StoreError;
use crate::store::{seq_to_map, unique_names, Bookmarks};

verus! {

/// The TOML document that `toml::to_string_pretty` renders for a
/// string-to-string map.
pub uninterp spec fn toml_doc_of(m: Map<Seq<char>, Seq<char>>) -> Seq<char>;

/// The string-to-string map that `toml::from_str` reads out of a
/// document, or `None` when the document does not parse as one.
pub uninterp spec fn toml_map_of(s: Seq<char>) -> Option<Map<Seq<char>, Seq<char>>>;

/// The string-to-string map that `serde_json::from_str` reads out of a
/// document, or `None` when the document does not parse as one.
pub uninterp spec fn json_map_of(s: Seq<char>) -> Option<Map<Seq<char>, Seq<char>>>;

#[verifier::external_type_specification]
#[verifier::external_body]
pub struct ExTomlSerError(toml::ser::Error);

#[verifier::external_type_specification]
#[verifier::external_body]
pub struct ExTomlDeError(toml::de::Error);

#[verifier::external_type_specification]
#[verifier::external_body]
pub struct ExJsonError(serde_json::Error);

/// Relies on `toml::to_string_pretty` applied to an ordered
/// string-to-string map: it renders a TOML document determined by the
/// mapping alone, and `toml::from_str` parses that document back to
/// the same mapping. Serializing fails only for non-string keys or
/// unsupported datatypes, which a map of strings cannot produce, so
/// the call always succeeds.
#[verifier::external_body]
fn toml_encode_pairs(entries: &Vec<(String, String)>) -> (r: Result<String, toml::ser::Error>)
    ensures
        r is Ok,
        r matches Ok(t) ==> t@ == toml_doc_of(seq_to_map(entries@)) && toml_map_of(t@) == Some(
            seq_to_map(entries@),
        ),
{
    let map: std::collections::BTreeMap<String, String> = entries.iter().cloned().collect();
    toml::to_string_pretty(&map)
}

/// Relies on `toml::from_str` into a string-to-string map: whether the
/// document parses, and to which mapping, depends on the text alone,
/// and the parsed map holds each key once.
#[verifier::external_body]
fn toml_decode_pairs(text: &str) -> (r: Result<Vec<(String, String)>, toml::de::Error>)
    ensures
        r matches Ok(v) ==> unique_names(v@) && toml_map_of(text@) == Some(seq_to_map(v@)),
        r is Err ==> toml_map_of(text@) is None,
{
    let map: std::collections::HashMap<String, String> = toml::from_str(text)?;
    Ok(map.into_iter().collect())
}

/// Relies on `serde_json::from_str` into a string-to-string map:
/// whether the document parses, and to which mapping, depends on the
/// text alone, and the parsed map holds each key once.
#[verifier::external_body]
fn json_decode_pairs(text: &str) -> (r: Result<Vec<(String, String)>, serde_json::Error>)
    ensures
        r matches Ok(v) ==> unique_names(v@) && json_map_of(text@) == Some(seq_to_map(v@)),
        r is Err ==> json_map_of(text@) is None,
{
    let map: std::collections::HashMap<String, String> = serde_json::from_str(text)?;
    Ok(map.into_iter().collect())
}

/// Serialize the store as the current on-disk document format; this
/// always succeeds.
pub fn to_toml(store: &Bookmarks) -> (r: Result<String, StoreError>)
    ensures
        r is Ok,
        match r {
            Ok(t) => t@ == toml_doc_of(store@) && toml_map_of(t@) == Some(store@),
            Err(e) => e == StoreError::Persistence,
        },
{
    proof {
        store.lemma_view_is_entry_map();
    }
    match toml_encode_pairs(store.entries()) {
        Ok(t) => Ok(t),
        Err(_) => Err(StoreError::Persistence),
    }
}

/// Parse the current on-disk document format into a store.
pub fn from_toml(text: &str) -> (r: Result<Bookmarks, StoreError>)
    ensures
        match r {
            Ok(b) => b.wf() && toml_map_of(text@) == Some(b@),
            Err(e) => e == StoreError::Persistence && toml_map_of(text@) is None,
        },
{
    match toml_decode_pairs(text) {
        Ok(v) => Ok(Bookmarks::from_entries(v)),
        Err(_) => Err(StoreError::Persistence),
    }
}

/// Re-encode a legacy JSON document in the current TOML format: it
/// succeeds exactly when the legacy document parses as a mapping, and
/// the result then renders exactly that mapping.
pub fn migrate_to_toml(legacy: &str) -> (r: Result<String, StoreError>)
    ensures
        match r {
            Ok(t) => json_map_of(legacy@) matches Some(m) && t@ == toml_doc_of(m) && toml_map_of(
                t@,
            ) == Some(m),
            Err(e) => e == StoreError::Persistence,
        },
        r is Ok <==> json_map_of(legacy@) is Some,
{
    match json_decode_pairs(legacy) {
        Ok(v) => match toml_encode_pairs(&v) {
            Ok(t) => Ok(t),
            Err(_) => Err(StoreError::Persistence),
        },
        Err(_) => Err(StoreError::Persistence),
    }
}

/// A saved store reloads as itself: encoding a store and parsing the
/// document back always succeeds and yields a store denoting the same
/// mapping, with the same keys and values.
pub fn saved_store_reloads(store: &Bookmarks) -> (r: Result<Bookmarks, StoreError>)
    ensures
        r is Ok,
        match r {
            Ok(b) => b.wf() && b@ == store@,
            Err(e) => e == StoreError::Persistence,
        },
{
    match to_toml(store) {
        Ok(t) => from_toml(t.as_str()),
        Err(e) => Err(e),
    }
}

} // verus!

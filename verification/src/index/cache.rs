//! The caches that are kept beside the index: the digest and the modification time of each file, as
//! JSON objects.

use std::collections::HashMap;
use vstd::prelude::*;

use crate::text_map::{distinct_keys, entry_map, TextMap};

verus! {

/// A modification time: whole seconds since the epoch, and nanoseconds.
pub type Mtime = (u64, u32);

/// The characters of the strings that a map holds.
pub open spec fn texts(m: Map<Seq<char>, String>) -> Map<Seq<char>, Seq<char>> {
    m.map_values(|s: String| s@)
}

/// The map from strings to strings that a JSON text stands for, if it stands for one.
pub uninterp spec fn digests_in(json: Seq<char>) -> Option<Map<Seq<char>, Seq<char>>>;

/// The map from strings to pairs of numbers that a JSON text stands for, if it stands for one.
pub uninterp spec fn mtimes_in(json: Seq<char>) -> Option<Map<Seq<char>, Mtime>>;

/// `serde_json::from_str` reads a JSON object with string members as a map. What it gives, an error
/// included, depends on the text alone. In which order the map hands out its entries is not stated.
#[verifier::external_body]
fn parse_digests(json: &str) -> (r: Option<Vec<(String, String)>>)
    ensures
        match r {
            Some(v) => distinct_keys(v@) && digests_in(json@) == Some(texts(entry_map(v@))),
            None => digests_in(json@) is None,
        },
{
    serde_json::from_str::<HashMap<String, String>>(json).ok().map(|m| m.into_iter().collect())
}

/// `serde_json::to_string` writes a map from strings to strings as a JSON text that
/// `serde_json::from_str` reads as the same map. It fails on a map whose keys are no strings, or on a
/// value that refuses to be written, and this map has neither. In which order the members stand is
/// not stated.
#[verifier::external_body]
fn write_digests(entries: &Vec<(String, String)>) -> (r: Option<String>)
    requires
        distinct_keys(entries@),
    ensures
        r is Some,
        digests_in(r->0@) == Some(texts(entry_map(entries@))),
{
    serde_json::to_string(&entries.iter().cloned().collect::<HashMap<String, String>>()).ok()
}

/// `serde_json::from_str` reads a JSON object whose members are arrays of two numbers as a map. What
/// it gives, an error included, depends on the text alone. In which order the map hands out its
/// entries is not stated.
#[verifier::external_body]
fn parse_mtimes(json: &str) -> (r: Option<Vec<(String, Mtime)>>)
    ensures
        match r {
            Some(v) => distinct_keys(v@) && mtimes_in(json@) == Some(entry_map(v@)),
            None => mtimes_in(json@) is None,
        },
{
    serde_json::from_str::<HashMap<String, Mtime>>(json).ok().map(|m| m.into_iter().collect())
}

/// `serde_json::to_string` writes a map from strings to pairs of numbers as a JSON text that
/// `serde_json::from_str` reads as the same map. It fails on a map whose keys are no strings, or on a
/// value that refuses to be written, and this map has neither. In which order the members stand is
/// not stated.
#[verifier::external_body]
fn write_mtimes(entries: &Vec<(String, Mtime)>) -> (r: Option<String>)
    requires
        distinct_keys(entries@),
    ensures
        r is Some,
        mtimes_in(r->0@) == Some(entry_map(entries@)),
{
    serde_json::to_string(&entries.iter().cloned().collect::<HashMap<String, Mtime>>()).ok()
}

/// The digest cache in a JSON text. A text that holds none gives an empty cache.
pub fn read_digests(json: &str) -> (m: TextMap<String>)
    ensures
        m.wf(),
        texts(m@) == match digests_in(json@) {
            Some(d) => d,
            None => Map::empty(),
        },
{
    match parse_digests(json) {
        Some(v) => TextMap::from_entries(v),
        None => {
            let m: TextMap<String> = TextMap::new();
            assert(texts(m@) =~= Map::<Seq<char>, Seq<char>>::empty());
            m
        },
    }
}

/// The digest cache as a JSON text, from which it can be read back.
pub fn digests_to_json(m: &TextMap<String>) -> (r: String)
    requires
        m.wf(),
    ensures
        digests_in(r@) == Some(texts(m@)),
{
    write_digests(&m.entries).unwrap()
}

/// The cache of modification times in a JSON text. A text that holds none gives an empty cache.
pub fn read_mtimes(json: &str) -> (m: TextMap<Mtime>)
    ensures
        m.wf(),
        m@ == match mtimes_in(json@) {
            Some(d) => d,
            None => Map::empty(),
        },
{
    match parse_mtimes(json) {
        Some(v) => TextMap::from_entries(v),
        None => TextMap::new(),
    }
}

/// The cache of modification times as a JSON text, from which it can be read back.
pub fn mtimes_to_json(m: &TextMap<Mtime>) -> (r: String)
    requires
        m.wf(),
    ensures
        mtimes_in(r@) == Some(m@),
{
    write_mtimes(&m.entries).unwrap()
}

} // verus!

//! The JSON text of the recollections file: an object whose members are
//! strings.

use std::collections::BTreeMap;

use vstd::prelude::*;

verus! {

/// The error type of `serde_json`.
#[verifier::external_type_specification]
#[verifier::external_body]
pub struct ExJsonError(serde_json::Error);

/// Name/value pairs seen through their text.
pub open spec fn entries_view(v: Seq<(String, String)>) -> Seq<(Seq<char>, Seq<char>)> {
    Seq::new(v.len(), |i: int| (v[i].0@, v[i].1@))
}

/// No name occurs twice among the pairs of `s`.
pub open spec fn keys_distinct(s: Seq<(Seq<char>, Seq<char>)>) -> bool {
    forall|i: int, j: int| 0 <= i < j < s.len() ==> #[trigger] s[i].0 != #[trigger] s[j].0
}

/// The map that results from inserting the pairs of `s` in order, so that a
/// later pair for a name wins over an earlier one.
pub open spec fn entries_map(s: Seq<(Seq<char>, Seq<char>)>) -> Map<Seq<char>, Seq<char>>
    decreases s.len(),
{
    if s.len() == 0 {
        Map::empty()
    } else {
        entries_map(s.drop_last()).insert(s.last().0, s.last().1)
    }
}

/// The store that a data file holding `contents` loads as: the map of the
/// members of its JSON object of strings, or `None` where it holds none.
pub open spec fn loaded(contents: Seq<u8>) -> Option<Map<Seq<char>, Seq<char>>> {
    match json_string_members(contents) {
        Some(m) => Some(entries_map(m)),
        None => None,
    }
}

/// The members, ordered by name, of the JSON object of strings that `bytes`
/// hold, as `serde_json` reads it into a `BTreeMap<String, String>`; `None`
/// where `bytes` do not hold such an object.
pub uninterp spec fn json_string_members(bytes: Seq<u8>) -> Option<Seq<(Seq<char>, Seq<char>)>>;

/// The JSON text that `serde_json` writes for the object with these members,
/// taken into a `BTreeMap<&str, &str>`.
pub uninterp spec fn json_object_text(members: Seq<(Seq<char>, Seq<char>)>) -> Seq<u8>;

/// Calls `serde_json::from_slice` into a `BTreeMap<String, String>` and hands
/// the map's members out in the map's order. Whether it succeeds, and the
/// members, are named `json_string_members` of the bytes.
#[verifier::external_body]
pub(crate) fn parse_string_members(bytes: &[u8]) -> (r: Result<
    Vec<(String, String)>,
    serde_json::Error,
>)
    ensures
        match r {
            Ok(v) => json_string_members(bytes@) == Some(entries_view(v@)),
            Err(_) => json_string_members(bytes@) is None,
        },
{
    match serde_json::from_slice::<BTreeMap<String, String>>(bytes) {
        Ok(map) => Ok(map.into_iter().collect()),
        Err(e) => Err(e),
    }
}

/// Calls `serde_json::to_vec` on the members, whose names are distinct,
/// taken into a `BTreeMap<&str, &str>` (one entry per pair). The text it
/// writes is named `json_object_text` of the members. Its documentation
/// says serialization fails only where the value's `Serialize`
/// implementation fails or a map has keys that are not strings; a
/// `BTreeMap` of `&str` to `&str` does neither, so it succeeds. The text is
/// one JSON object whose members are the map's names and values, each
/// written as a JSON string with `format_escaped_str`; reading it back with
/// `from_slice` into a `BTreeMap<String, String>` (as `parse_string_members`
/// does) decodes each string to what was written, so it loads as the map of
/// the pairs.
#[verifier::external_body]
pub(crate) fn write_string_members(members: &Vec<(String, String)>) -> (r: Result<
    Vec<u8>,
    serde_json::Error,
>)
    requires
        keys_distinct(entries_view(members@)),
    ensures
        r is Ok,
        r matches Ok(b) ==> b@ == json_object_text(entries_view(members@)),
        r matches Ok(b) ==> loaded(b@) == Some(entries_map(entries_view(members@))),
{
    let map: BTreeMap<&str, &str> = members.iter().map(|(k, v)| (k.as_str(), v.as_str())).collect();
    serde_json::to_vec(&map)
}

} // verus!

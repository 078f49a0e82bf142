//! The calls into `serde_json`, on plain values.

use crate::text;
use std::collections::BTreeMap;
use vstd::prelude::*;

verus! {

/// `serde_json::Error`: why a value could not be written. It is carried as it is, and nothing is
/// claimed of it.
#[verifier::external_type_specification]
#[verifier::external_body]
pub struct ExJsonError(serde_json::Error);

/// A list of texts with each text taken by its view.
pub open spec fn texts(list: Seq<String>) -> Seq<Seq<char>> {
    list.map_values(|s: String| s@)
}

/// A list of named numbers with each name taken by its view.
pub open spec fn named_numbers(list: Seq<(String, u64)>) -> Seq<(Seq<char>, u64)> {
    list.map_values(|e: (String, u64)| (e.0@, e.1))
}

/// The JSON object that holds one number under one name.
pub open spec fn object_text(name: Seq<char>, value: u64) -> Seq<char> {
    seq!['{', '"'] + name + seq!['"', ':'] + text::decimal(value as nat) + seq!['}']
}

/// Whether a name stands in JSON as it is: it has no quotation mark, no backslash and no
/// control character below the blank.
pub open spec fn is_plain(name: Seq<char>) -> bool {
    forall|i: int| 0 <= i < name.len() ==> name[i] != '"' && name[i] != '\\' && ' ' <= name[i]
}

/// What `serde_json::from_str` makes of a text read as an object of unsigned 64-bit numbers:
/// the fields in the order of their names, or nothing where the text is no such object.
pub uninterp spec fn json_numbers(text: Seq<char>) -> Option<Seq<(Seq<char>, u64)>>;

/// What `serde_json::from_str` makes of a text read as an array of exactly one unsigned 64-bit
/// number, or nothing where the text is no such array.
pub uninterp spec fn json_lone_number(text: Seq<char>) -> Option<u64>;

/// What `serde_json::from_str` makes of a text read as an array of strings, or nothing where the
/// text is no such array.
pub uninterp spec fn json_strings(text: Seq<char>) -> Option<Seq<Seq<char>>>;

/// What `serde_json::to_string` writes for an array of strings.
pub uninterp spec fn json_strings_text(list: Seq<Seq<char>>) -> Seq<char>;

/// `serde_json::to_string` of a map with one entry. It succeeds, because it fails only on a
/// `Serialize` that refuses and on a map with keys that are no strings; it writes the object
/// without blanks; and reading that object gives the one field back.
#[verifier::external_body]
pub(crate) fn write_number(name: &str, value: u64) -> (text: Result<String, serde_json::Error>)
    requires
        is_plain(name@),
    ensures
        text is Ok,
        text->Ok_0@ == object_text(name@, value),
        json_numbers(text->Ok_0@) == Some(seq![(name@, value)]),
{
    serde_json::to_string(&BTreeMap::from([(name, value)]))
}

/// `serde_json::from_str` into a map from names to unsigned 64-bit numbers. The result, given a
/// name of its own, is a function of the text; where a name is repeated, the last number counts.
#[verifier::external_body]
pub(crate) fn read_numbers(text: &str) -> (fields: Option<Vec<(String, u64)>>)
    ensures
        fields matches Some(list) ==> json_numbers(text@) == Some(named_numbers(list@)),
        fields is None ==> json_numbers(text@) is None,
{
    match serde_json::from_str::<BTreeMap<String, u64>>(text) {
        Ok(map) => Some(map.into_iter().collect()),
        Err(_) => None,
    }
}

/// `serde_json::from_str` into a tuple of one unsigned 64-bit number. The result, given a name of
/// its own, is a function of the text.
#[verifier::external_body]
pub(crate) fn read_lone_number(text: &str) -> (value: Option<u64>)
    ensures
        value == json_lone_number(text@),
{
    match serde_json::from_str::<(u64,)>(text) {
        Ok((value,)) => Some(value),
        Err(_) => None,
    }
}

/// `serde_json::to_string` of a list of strings. It succeeds, because it fails only on a
/// `Serialize` that refuses and on a map with keys that are no strings. The text, given a name of
/// its own, is a function of the list, and reading it gives the list back.
#[verifier::external_body]
pub(crate) fn write_strings(list: &Vec<String>) -> (text: Result<String, serde_json::Error>)
    ensures
        text is Ok,
        text->Ok_0@ == json_strings_text(texts(list@)),
        json_strings(text->Ok_0@) == Some(texts(list@)),
{
    serde_json::to_string(list)
}

/// `serde_json::from_str` into a list of strings. The result, given a name of its own, is a
/// function of the text.
#[verifier::external_body]
pub(crate) fn read_strings(text: &str) -> (list: Option<Vec<String>>)
    ensures
        list matches Some(l) ==> json_strings(text@) == Some(texts(l@)),
        list is None ==> json_strings(text@) is None,
{
    match serde_json::from_str::<Vec<String>>(text) {
        Ok(list) => Some(list),
        Err(_) => None,
    }
}

/// The views of lists: each item is taken by its view, at its place.
pub proof fn law_lists_are_seen_item_by_item(list: Seq<String>, fields: Seq<(String, u64)>)
    ensures
        texts(list).len() == list.len(),
        forall|i: int| 0 <= i < list.len() ==> texts(list)[i] == (#[trigger] list[i])@,
        named_numbers(fields).len() == fields.len(),
        forall|i: int|
            0 <= i < fields.len() ==> named_numbers(fields)[i].0 == (#[trigger] fields[i]).0@
                && named_numbers(fields)[i].1 == fields[i].1,
{
}

} // verus!

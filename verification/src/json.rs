//! JSON documents, as far as they are read and changed here.
use serde_json::Value;
use std::collections::HashMap;

use vstd::prelude::*;

verus! {

/// A JSON document.
#[verifier::external_type_specification]
#[verifier::external_body]
pub struct ExValue(serde_json::Value);

/// The members of a JSON object.
#[verifier::external_type_specification]
#[verifier::external_body]
#[verifier::reject_recursive_types(K)]
#[verifier::reject_recursive_types(V)]
pub struct ExMembers<K, V>(serde_json::Map<K, V>);

/// Why a text is not the JSON that is asked for.
#[verifier::external_type_specification]
#[verifier::external_body]
pub struct ExJsonError(serde_json::Error);

/// What a JSON document says.
pub enum Json {
    /// An object, with its members by name.
    Object(Map<Seq<char>, Json>),
    /// A string.
    Text(Seq<char>),
    /// Anything else, by the compact text of it.
    Other(Seq<char>),
}

/// What a document says.
pub uninterp spec fn json_of(value: &serde_json::Value) -> Json;

/// What the members of an object say.
pub uninterp spec fn members_of(
    members: &serde_json::Map<String, serde_json::Value>,
) -> Map<Seq<char>, Json>;

/// What `serde_json::from_str` reads in a text, if that is JSON.
pub uninterp spec fn json_in(text: Seq<char>) -> Option<Json>;

/// What `serde_json::from_str` reads in a text, if that is a JSON object whose
/// members are all strings.
pub uninterp spec fn string_map_in(text: Seq<char>) -> Option<Map<Seq<char>, Seq<char>>>;

/// What `serde_json::to_string_pretty` writes for a document.
pub uninterp spec fn pretty_text(json: Json) -> Seq<char>;

/// What displaying a document shows, which is its compact text.
pub uninterp spec fn compact_text(json: Json) -> Seq<char>;

/// `serde_json::from_str` for a document: what the text says, where it is JSON.
#[verifier::external_body]
pub(crate) fn parse(text: &str) -> (r: Result<Value, serde_json::Error>)
    ensures
        match r {
            Ok(value) => json_in(text@) == Some(json_of(&value)),
            Err(_) => json_in(text@) is None,
        },
{
    serde_json::from_str::<Value>(text)
}

/// `serde_json::from_str` for a map of strings: the members of an object whose
/// members are all strings, each name once, in no certain order.
#[verifier::external_body]
pub(crate) fn parse_string_map(text: &str) -> (r: Result<Vec<(String, String)>, serde_json::Error>)
    ensures
        match r {
            Ok(pairs) => {
                &&& string_map_in(text@) matches Some(map)
                &&& forall|i: int, j: int|
                    0 <= i < j < pairs@.len() ==> (#[trigger] pairs@[i]).0@ != (
                    #[trigger] pairs@[j]).0@
                &&& forall|i: int|
                    0 <= i < pairs@.len() ==> map.dom().contains((#[trigger] pairs@[i]).0@)
                        && map[pairs@[i].0@] == pairs@[i].1@
                &&& forall|k: Seq<char>| #[trigger]
                    map.dom().contains(k) ==> exists|i: int|
                        0 <= i < pairs@.len() && (#[trigger] pairs@[i]).0@ == k
            },
            Err(_) => string_map_in(text@) is None,
        },
{
    serde_json::from_str::<HashMap<String, String>>(text).map(|map| map.into_iter().collect())
}

/// `serde_json::to_string_pretty`: the document as indented text.  Writing a document
/// to memory does not fail: the names of its members are strings, and its parts
/// write themselves without any error of their own.
#[verifier::external_body]
pub(crate) fn pretty(value: &Value) -> (r: Result<String, serde_json::Error>)
    ensures
        r is Ok,
        r->Ok_0@ == pretty_text(json_of(value)),
{
    serde_json::to_string_pretty(value)
}

/// `Value::to_string`: the document as compact text.
#[verifier::external_body]
pub(crate) fn compact(value: &Value) -> (r: String)
    ensures
        r@ == compact_text(json_of(value)),
{
    value.to_string()
}

/// `Value::String`: a document that is a string.
#[verifier::external_body]
pub(crate) fn text_value(text: String) -> (r: Value)
    ensures
        json_of(&r) == Json::Text(text@),
{
    Value::String(text)
}

/// `Value::Object` of `Map::new`: a document that is an object without members.
#[verifier::external_body]
pub(crate) fn empty_object() -> (r: Value)
    ensures
        json_of(&r) == Json::Object(Map::empty()),
{
    Value::Object(serde_json::Map::new())
}

/// `Value::as_object_mut`: the members of a document that is an object, open to
/// change.
#[verifier::external_body]
pub(crate) fn object_mut<'a>(
    value: &'a mut Value,
) -> (r: Option<&'a mut serde_json::Map<String, Value>>)
    ensures
        match r {
            Some(members) => {
                &&& json_of(old(value)) == Json::Object(members_of(members))
                &&& json_of(final(value)) == Json::Object(members_of(final(members)))
            },
            None => !(json_of(old(value)) is Object) && *final(value) == *old(value),
        },
{
    value.as_object_mut()
}

/// `Map::get_mut`: the member with the given name, open to change.
#[verifier::external_body]
pub(crate) fn member_mut<'a>(
    members: &'a mut serde_json::Map<String, Value>,
    name: &str,
) -> (r: Option<&'a mut Value>)
    ensures
        match r {
            Some(member) => {
                &&& members_of(old(members)).dom().contains(name@)
                &&& json_of(member) == members_of(old(members))[name@]
                &&& members_of(final(members)) == members_of(old(members)).insert(
                    name@,
                    json_of(final(member)),
                )
            },
            None => !members_of(old(members)).dom().contains(name@) && *final(members) == *old(
                members,
            ),
        },
{
    members.get_mut(name)
}

/// `Map::get`: the member with the given name.
#[verifier::external_body]
pub(crate) fn member<'a>(members: &'a serde_json::Map<String, Value>, name: &str) -> (r: Option<
    &'a Value,
>)
    ensures
        match r {
            Some(member) => members_of(members).dom().contains(name@) && json_of(member)
                == members_of(members)[name@],
            None => !members_of(members).dom().contains(name@),
        },
{
    members.get(name)
}

/// `Map::insert`: the member takes the place of one with the same name.
#[verifier::external_body]
pub(crate) fn insert_member(
    members: &mut serde_json::Map<String, Value>,
    name: String,
    value: Value,
)
    ensures
        members_of(final(members)) == members_of(old(members)).insert(name@, json_of(&value)),
{
    members.insert(name, value);
}

} // verus!

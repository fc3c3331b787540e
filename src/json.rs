//! The parts of `serde_json` the resolver reads, with their contracts.
//!
//! A JSON value is opaque here: what the resolver needs of it is whether it is
//! an object (and then its entries), an array (and then its items), or neither.

use serde_json::Value;
use vstd::prelude::*;

verus! {

#[verifier::external_type_specification]
#[verifier::external_body]
pub struct ExValue(serde_json::Value);

#[verifier::external_type_specification]
#[verifier::external_body]
#[verifier::reject_recursive_types(K)]
#[verifier::reject_recursive_types(V)]
pub struct ExMap<K, V>(serde_json::Map<K, V>);

/// The entries of a JSON object, by key; `None` when the value is no object.
pub uninterp spec fn object_of(v: Value) -> Option<Map<Seq<char>, Value>>;

/// The items of a JSON array; `None` when the value is no array.
pub uninterp spec fn array_of(v: Value) -> Option<Seq<Value>>;

/// The entries that an object map holds, by key.
pub uninterp spec fn map_entries(m: serde_json::Map<String, Value>) -> Map<Seq<char>, Value>;

/// Relies on `Value::as_object`: the map of an object, `None` for any other value.
pub assume_specification[ serde_json::Value::as_object ](v: &Value) -> (r: Option<
    &serde_json::Map<String, Value>,
>)
    ensures
        r is Some <==> object_of(*v) is Some,
        r is Some ==> object_of(*v) == Some(map_entries(*r.unwrap())),
;

/// Relies on `Value::as_array`: the items of an array, `None` for any other value.
pub assume_specification[ serde_json::Value::as_array ](v: &Value) -> (r: Option<&Vec<Value>>)
    ensures
        r is Some <==> array_of(*v) is Some,
        r is Some ==> array_of(*v) == Some(r.unwrap()@),
;

/// Relies on `Value::as_object_mut`: the map of an object, lent for writing;
/// the value stays an object whose entries are those the map ends with.
pub assume_specification[ serde_json::Value::as_object_mut ](v: &mut Value) -> (r: Option<
    &mut serde_json::Map<String, Value>,
>)
    ensures
        r is Some <==> object_of(*old(v)) is Some,
        r is Some ==> object_of(*old(v)) == Some(map_entries(*r.unwrap())),
        r is Some ==> object_of(*final(v)) == Some(map_entries(*final(r.unwrap()))),
        r is None ==> *final(v) == *old(v),
;

/// Relies on `Value::as_array_mut`: the items of an array, lent for writing;
/// the value stays an array whose items are those the vector ends with.
pub assume_specification[ serde_json::Value::as_array_mut ](v: &mut Value) -> (r: Option<
    &mut Vec<Value>,
>)
    ensures
        r is Some <==> array_of(*old(v)) is Some,
        r is Some ==> array_of(*old(v)) == Some(r.unwrap()@),
        r is Some ==> array_of(*final(v)) == Some(final(r.unwrap())@),
        r is Some ==> object_of(*final(v)) is None,
        r is None ==> *final(v) == *old(v),
;

/// Relies on `Map::get`: the value under `key`, if the map holds that key.
#[verifier::external_body]
pub(crate) fn map_get<'a>(m: &'a serde_json::Map<String, Value>, key: &String) -> (r: Option<
    &'a Value,
>)
    ensures
        r is Some <==> map_entries(*m).contains_key(key@),
        r is Some ==> *r.unwrap() == map_entries(*m)[key@],
{
    m.get(key)
}

/// Relies on `Map::get_mut`: the value under `key`, lent for writing; the map
/// then holds under `key` whatever that value ends as.
#[verifier::external_body]
pub(crate) fn map_get_mut<'a>(m: &'a mut serde_json::Map<String, Value>, key: &String) -> (r:
    Option<&'a mut Value>)
    ensures
        r is Some <==> map_entries(*old(m)).contains_key(key@),
        r is Some ==> *r.unwrap() == map_entries(*old(m))[key@],
        r is Some ==> map_entries(*final(m)) == map_entries(*old(m)).insert(
            key@,
            *final(r.unwrap()),
        ),
        r is None ==> *final(m) == *old(m),
{
    m.get_mut(key)
}

} // verus!

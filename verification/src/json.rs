//! JSON values, as `serde_json` holds them.
//!
//! The contents of an object are a map from field names to values. Objects have
//! no field order of their own: `serde_json::Map` keeps its fields sorted by name.

use vstd::prelude::*;

use crate::text;

verus! {

#[verifier::external_type_specification]
#[verifier::external_body]
pub struct ExJsonValue(serde_json::Value);

/// The fields of a JSON object; `None` for any other value.
pub uninterp spec fn json_object(v: serde_json::Value) -> Option<Map<Seq<char>, serde_json::Value>>;

/// The JSON object with the given fields.
pub uninterp spec fn object_value(fields: Map<Seq<char>, serde_json::Value>) -> serde_json::Value;

/// The text of a JSON string; `None` for any other value.
pub uninterp spec fn json_str(v: serde_json::Value) -> Option<Seq<char>>;

/// The JSON string with the given text.
pub uninterp spec fn string_value(s: Seq<char>) -> serde_json::Value;

/// The truth value of a JSON boolean; `None` for any other value.
pub uninterp spec fn json_bool(v: serde_json::Value) -> Option<bool>;

/// The JSON boolean with the given truth value.
pub uninterp spec fn bool_value(b: bool) -> serde_json::Value;

/// The value of a JSON number that is an integer from 0 to `u64::MAX`; `None` for
/// any other value.
pub uninterp spec fn json_u64(v: serde_json::Value) -> Option<u64>;

/// The JSON number with the given value.
pub uninterp spec fn number_value(n: u64) -> serde_json::Value;

/// The JSON number with the given value.
pub uninterp spec fn integer_value(n: i64) -> serde_json::Value;

/// The JSON number with the given value, as one with a fraction.
pub uninterp spec fn fractional_value(n: u32) -> serde_json::Value;

/// The value that a JSON text denotes; for bytes that are not JSON, what is wrong with them.
pub uninterp spec fn parsed_json(bytes: Seq<u8>) -> Result<serde_json::Value, Seq<char>>;

/// The text of a JSON value without added whitespace.
pub uninterp spec fn compact_json(v: serde_json::Value) -> Seq<char>;

/// The text of a JSON value with line breaks and indentation, as bytes.
pub uninterp spec fn pretty_json(v: serde_json::Value) -> Seq<u8>;

/// Calls `serde_json::from_slice`. Which texts are JSON, what they denote, and the message for
/// the others, is left to the name `parsed_json`.
#[verifier::external_body]
pub(crate) fn parse(bytes: &[u8]) -> (r: Result<serde_json::Value, String>)
    ensures
        match r {
            Ok(v) => parsed_json(bytes@) == Ok::<serde_json::Value, Seq<char>>(v),
            Err(m) => parsed_json(bytes@) == Err::<serde_json::Value, Seq<char>>(m@),
        },
{
    serde_json::from_slice(bytes).map_err(|e| e.to_string())
}

/// Calls `serde_json::to_string`, which fails on no value: the keys of its objects are strings,
/// and nothing else can go wrong in memory.
#[verifier::external_body]
pub(crate) fn to_compact(v: &serde_json::Value) -> (s: String)
    ensures
        s@ == compact_json(*v),
{
    serde_json::to_string(v).unwrap_or_default()
}

/// Calls `serde_json::to_vec_pretty`, which fails on no value, as `serde_json::to_string` does
/// not.
#[verifier::external_body]
pub(crate) fn to_pretty(v: &serde_json::Value) -> (bytes: Vec<u8>)
    ensures
        bytes@ == pretty_json(*v),
{
    serde_json::to_vec_pretty(v).unwrap_or_default()
}

/// Calls `serde_json::Value::clone`: an equal value.
#[verifier::external_body]
pub(crate) fn copy(v: &serde_json::Value) -> (r: serde_json::Value)
    ensures
        r == *v,
{
    v.clone()
}

/// Calls `serde_json::Value::is_object`.
#[verifier::external_body]
pub(crate) fn is_object(v: &serde_json::Value) -> (r: bool)
    ensures
        r == (json_object(*v) is Some),
{
    v.is_object()
}

/// Calls `serde_json::Map::new`: the object without fields.
#[verifier::external_body]
pub(crate) fn empty_object() -> (v: serde_json::Value)
    ensures
        v == object_value(Map::empty()),
        json_object(v) == Some(Map::<Seq<char>, serde_json::Value>::empty()),
{
    serde_json::Value::Object(serde_json::Map::new())
}

/// Calls `serde_json::Map::insert`: the field is added or replaced, and the other
/// fields stay.
#[verifier::external_body]
pub(crate) fn insert(v: &mut serde_json::Value, key: &str, item: serde_json::Value)
    requires
        json_object(*old(v)) is Some,
    ensures
        *final(v) == object_value(json_object(*old(v))->0.insert(key@, item)),
        json_object(*final(v)) == Some(json_object(*old(v))->0.insert(key@, item)),
{
    if let Some(map) = v.as_object_mut() {
        map.insert(key.to_string(), item);
    }
}

/// The field `key` of an object; `None` if there is no such field, or if the value
/// is not an object.
pub open spec fn field(v: serde_json::Value, key: Seq<char>) -> Option<serde_json::Value> {
    match json_object(v) {
        Some(fields) => if fields.contains_key(key) {
            Some(fields[key])
        } else {
            None
        },
        None => None,
    }
}

/// Calls `serde_json::Value::get` with a field name.
#[verifier::external_body]
pub(crate) fn get<'a>(v: &'a serde_json::Value, key: &str) -> (r: Option<&'a serde_json::Value>)
    ensures
        match r {
            Some(x) => field(*v, key@) == Some(*x),
            None => field(*v, key@) is None,
        },
{
    v.get(key)
}

/// Calls `serde_json::Value::as_str`.
#[verifier::external_body]
pub(crate) fn as_str(v: &serde_json::Value) -> (r: Option<&str>)
    ensures
        r.deep_view() == json_str(*v),
{
    v.as_str()
}

/// Calls `serde_json::Value::as_bool`.
#[verifier::external_body]
pub(crate) fn as_bool(v: &serde_json::Value) -> (r: Option<bool>)
    ensures
        r == json_bool(*v),
{
    v.as_bool()
}

/// Calls `serde_json::Value::as_u64`.
#[verifier::external_body]
pub(crate) fn as_u64(v: &serde_json::Value) -> (r: Option<u64>)
    ensures
        r == json_u64(*v),
{
    v.as_u64()
}

/// Calls `serde_json::Value::from` on a string: a JSON string that reads back as
/// the same text.
#[verifier::external_body]
pub(crate) fn string(s: &str) -> (v: serde_json::Value)
    ensures
        v == string_value(s@),
        json_str(v) == Some(s@),
{
    serde_json::Value::from(s)
}

/// Calls `serde_json::Value::from` on a boolean: a JSON boolean that reads back as
/// the same truth value.
#[verifier::external_body]
pub(crate) fn boolean(b: bool) -> (v: serde_json::Value)
    ensures
        v == bool_value(b),
        json_bool(v) == Some(b),
{
    serde_json::Value::from(b)
}

/// Calls `serde_json::Value::from` on an integer: a JSON number that reads back as
/// the same integer.
#[verifier::external_body]
pub(crate) fn number(n: u64) -> (v: serde_json::Value)
    ensures
        v == number_value(n),
        json_u64(v) == Some(n),
{
    serde_json::Value::from(n)
}

/// Calls `serde_json::Value::from` on a signed integer.
#[verifier::external_body]
pub(crate) fn integer(n: i64) -> (v: serde_json::Value)
    ensures
        v == integer_value(n),
{
    serde_json::Value::from(n)
}

/// Calls `serde_json::Number::from_f64`, which fails on no integer.
#[verifier::external_body]
pub(crate) fn fractional(n: u32) -> (v: serde_json::Value)
    ensures
        v == fractional_value(n),
{
    serde_json::Number::from_f64(n.into()).map_or(serde_json::Value::Null, serde_json::Value::Number)
}

/// The text under `key`, if the value is an object with a string there.
pub open spec fn text_field(v: serde_json::Value, key: Seq<char>) -> Option<Seq<char>> {
    match field(v, key) {
        Some(x) => json_str(x),
        None => None,
    }
}

/// Reads the text under `key`.
pub fn get_text<'a>(v: &'a serde_json::Value, key: &str) -> (r: Option<&'a str>)
    ensures
        r.deep_view() == text_field(*v, key@),
{
    match get(v, key) {
        Some(x) => as_str(x),
        None => None,
    }
}

/// The truth value under `key`, if the value is an object with a boolean there.
pub open spec fn flag_field(v: serde_json::Value, key: Seq<char>) -> Option<bool> {
    match field(v, key) {
        Some(x) => json_bool(x),
        None => None,
    }
}

/// Reads the truth value under `key`.
pub fn get_flag(v: &serde_json::Value, key: &str) -> (r: Option<bool>)
    ensures
        r == flag_field(*v, key@),
{
    match get(v, key) {
        Some(x) => as_bool(x),
        None => None,
    }
}

/// The count under `key`, if the value is an object with such a number there.
pub open spec fn count_field(v: serde_json::Value, key: Seq<char>) -> Option<u64> {
    match field(v, key) {
        Some(x) => json_u64(x),
        None => None,
    }
}

/// Reads the count under `key`.
pub fn get_count(v: &serde_json::Value, key: &str) -> (r: Option<u64>)
    ensures
        r == count_field(*v, key@),
{
    match get(v, key) {
        Some(x) => as_u64(x),
        None => None,
    }
}

/// The fields of the object that a text denotes; none for a text that denotes no
/// object.
pub open spec fn fields_of_text(s: Seq<char>) -> Map<Seq<char>, serde_json::Value> {
    match parsed_json(vstd::utf8::encode_utf8(s)) {
        Ok(v) => match json_object(v) {
            Some(fields) => fields,
            None => Map::empty(),
        },
        Err(_) => Map::empty(),
    }
}

/// Reads an object from its text, or starts from the empty one.
pub(crate) fn object_from_text(s: &str) -> (v: serde_json::Value)
    ensures
        json_object(v) == Some(fields_of_text(s@)),
{
    match parse(s.as_bytes()) {
        Ok(v) => if is_object(&v) {
            v
        } else {
            empty_object()
        },
        Err(_) => empty_object(),
    }
}

/// Fields with the marks of a local edit: the time of the edit in milliseconds, and
/// the flags by which the tablet notices a change it has not synced.
pub open spec fn touched(
    fields: Map<Seq<char>, serde_json::Value>,
    now_ms: i64,
) -> Map<Seq<char>, serde_json::Value> {
    fields.insert("lastModified"@, string_value(text::decimal(now_ms as int))).insert(
        "modified"@,
        bool_value(true),
    ).insert("metadatamodified"@, bool_value(true)).insert("synced"@, bool_value(false))
}

/// Sets the marks of a local edit.
pub(crate) fn touch(v: &mut serde_json::Value, now_ms: i64)
    requires
        json_object(*old(v)) is Some,
    ensures
        json_object(*final(v)) == Some(touched(json_object(*old(v))->0, now_ms)),
        *final(v) == object_value(touched(json_object(*old(v))->0, now_ms)),
        text_field(*final(v), "lastModified"@) == Some(text::decimal(now_ms as int)),
        flag_field(*final(v), "modified"@) == Some(true),
        flag_field(*final(v), "metadatamodified"@) == Some(true),
        flag_field(*final(v), "synced"@) == Some(false),
        forall|k: Seq<char>|
            k != "lastModified"@ && k != "modified"@ && k != "metadatamodified"@ && k != "synced"@
                ==> #[trigger] field(*final(v), k) == field(*old(v), k),
{
    proof {
        reveal_strlit("lastModified");
        reveal_strlit("modified");
        reveal_strlit("metadatamodified");
        reveal_strlit("synced");
        assert("lastModified"@.len() == 12 && "modified"@.len() == 8);
        assert("metadatamodified"@.len() == 16 && "synced"@.len() == 6);
    }
    let stamp = text::decimal_of(now_ms);
    insert(v, "lastModified", string(stamp.as_str()));
    insert(v, "modified", boolean(true));
    insert(v, "metadatamodified", boolean(true));
    insert(v, "synced", boolean(false));
}

} // verus!

//! JSON values of the `serde_json` crate, and what they hold.

use serde_json::Value;
use vstd::prelude::*;

verus! {

broadcast use vstd::string::group_string_axioms;

/// A value of the `serde_json` crate.
#[verifier::external_type_specification]
#[verifier::external_body]
pub struct ExValue(serde_json::Value);

/// What a JSON value holds. A number that is not an integer is given by the bits that stand for
/// it in memory.
pub enum Json {
    Null,
    Bool(bool),
    Integer(int),
    Float(nat),
    Text(Seq<char>),
    Array(Seq<Json>),
    Object(Map<Seq<char>, Json>),
}

/// What a JSON value holds.
pub uninterp spec fn json_contents(value: serde_json::Value) -> Json;

/// What `serde_json::from_slice` reads from a text, if the text is JSON.
pub uninterp spec fn parsed_json(bytes: Seq<u8>) -> Option<Json>;

/// What `serde_json::to_vec_pretty` writes for a value.
pub uninterp spec fn pretty_json(json: Json) -> Seq<u8>;

/// How deep arrays and objects can stand in one another in a text that is read.
pub const DEEPEST: usize = 127;

/// Whether arrays and objects stand in one another no deeper than that.
pub open spec fn nests_within(json: Json, depth: nat) -> bool
    decreases depth,
{
    match json {
        Json::Array(items) => depth > 0 && forall|i: int|
            0 <= i < items.len() ==> nests_within(#[trigger] items[i], (depth - 1) as nat),
        Json::Object(fields) => depth > 0 && forall|key: Seq<char>| #[trigger]
            fields.contains_key(key) ==> nests_within(fields[key], (depth - 1) as nat),
        _ => true,
    }
}

/// Whether all numbers are integers, in a value that nests no deeper than that.
pub open spec fn holds_integers(json: Json, depth: nat) -> bool
    decreases depth,
{
    match json {
        Json::Float(_) => false,
        Json::Array(items) => depth > 0 && forall|i: int|
            0 <= i < items.len() ==> holds_integers(#[trigger] items[i], (depth - 1) as nat),
        Json::Object(fields) => depth > 0 && forall|key: Seq<char>| #[trigger]
            fields.contains_key(key) ==> holds_integers(fields[key], (depth - 1) as nat),
        _ => true,
    }
}

/// The fields of an object; none for null, which can become an object.
pub open spec fn fields_of(json: Json) -> Option<Map<Seq<char>, Json>> {
    match json {
        Json::Null => Some(Map::empty()),
        Json::Object(fields) => Some(fields),
        _ => None,
    }
}

/// `Value::from` on a string.
#[verifier::external_body]
pub(crate) fn json_text(text: &str) -> (value: Value)
    ensures
        json_contents(value) == Json::Text(text@),
{
    Value::from(text)
}

/// `Value::from` on an integer.
#[verifier::external_body]
pub(crate) fn json_integer(number: u64) -> (value: Value)
    ensures
        json_contents(value) == Json::Integer(number as int),
{
    Value::from(number)
}

/// `Value::from` on a truth value.
#[verifier::external_body]
pub(crate) fn json_bool(truth: bool) -> (value: Value)
    ensures
        json_contents(value) == Json::Bool(truth),
{
    Value::from(truth)
}

/// `serde_json::Map::new`, as a value: an object without fields.
#[verifier::external_body]
pub(crate) fn json_object() -> (value: Value)
    ensures
        json_contents(value) == Json::Object(Map::empty()),
{
    Value::Object(serde_json::Map::new())
}

/// `Value::is_object`.
#[verifier::external_body]
pub(crate) fn is_object(value: &Value) -> (r: bool)
    ensures
        r == (json_contents(*value) is Object),
{
    value.is_object()
}

/// `Value::is_null`.
#[verifier::external_body]
pub(crate) fn is_null(value: &Value) -> (r: bool)
    ensures
        r == (json_contents(*value) is Null),
{
    value.is_null()
}

/// `Value::get` with a key: the field of that name, if the value is an object and has one.
#[verifier::external_body]
pub(crate) fn field<'a>(value: &'a Value, key: &str) -> (r: Option<&'a Value>)
    ensures
        match (json_contents(*value), r) {
            (Json::Object(fields), Some(field)) => fields.contains_key(key@) && json_contents(
                *field,
            ) == fields[key@],
            (Json::Object(fields), None) => !fields.contains_key(key@),
            (_, r) => r is None,
        },
{
    value.get(key)
}

/// `IndexMut::index_mut` of a value with a key: the place of the field of that name, which is
/// added, holding null, where there is none. Null becomes an object first. The call panics on
/// anything else.
#[verifier::external_body]
pub(crate) fn field_mut<'a>(value: &'a mut Value, key: &str) -> (slot: &'a mut Value)
    requires
        fields_of(json_contents(*old(value))) is Some,
    ensures
        fields_of(json_contents(*old(value))) matches Some(fields) && json_contents(*slot) == (
        if fields.contains_key(key@) {
            fields[key@]
        } else {
            Json::Null
        }),
        fields_of(json_contents(*old(value))) matches Some(fields) && json_contents(*final(value))
            == Json::Object(fields.insert(key@, json_contents(*final(slot)))),
{
    &mut value[key]
}

/// `serde_json::from_slice`: the value that the text stands for, if it is JSON. Text that nests
/// too deeply is not read.
#[verifier::external_body]
pub(crate) fn parse_json(bytes: &[u8]) -> (r: Option<Value>)
    ensures
        match r {
            Some(value) => parsed_json(bytes@) == Some(json_contents(value)) && nests_within(
                json_contents(value),
                DEEPEST as nat,
            ),
            None => parsed_json(bytes@) is None,
        },
{
    serde_json::from_slice(bytes).ok()
}

/// `serde_json::to_vec_pretty`: the text for a value. Writing a value to memory does not fail. What
/// is written is read back as the same value, if no number needs rounding.
#[verifier::external_body]
pub(crate) fn print_json(value: &Value) -> (r: Result<Vec<u8>, String>)
    requires
        nests_within(json_contents(*value), DEEPEST as nat),
    ensures
        match r {
            Ok(bytes) => bytes@ == pretty_json(json_contents(*value)) && (holds_integers(
                json_contents(*value),
                DEEPEST as nat,
            ) ==> parsed_json(bytes@) == Some(json_contents(*value))),
            Err(_) => false,
        },
{
    serde_json::to_vec_pretty(value).map_err(|error| error.to_string())
}

proof fn lemma_items(json: Json, items: Seq<Json>, depth: nat)
    requires
        json == Json::Array(items),
    ensures
        nests_within(json, depth + 1) <==> forall|i: int|
            0 <= i < items.len() ==> nests_within(#[trigger] items[i], depth),
        holds_integers(json, depth + 1) <==> forall|i: int|
            0 <= i < items.len() ==> holds_integers(#[trigger] items[i], depth),
{
    let deeper: nat = depth + 1;
    assert((deeper - 1) as nat == depth);
    match json {
        Json::Array(list) => {
            assert(nests_within(json, deeper) <==> forall|i: int|
                0 <= i < list.len() ==> nests_within(#[trigger] list[i], (deeper - 1) as nat));
            assert(holds_integers(json, deeper) <==> forall|i: int|
                0 <= i < list.len() ==> holds_integers(#[trigger] list[i], (deeper - 1) as nat));
        },
        _ => {},
    }
}

proof fn lemma_fields(json: Json, fields: Map<Seq<char>, Json>, depth: nat)
    requires
        json == Json::Object(fields),
    ensures
        nests_within(json, depth + 1) <==> forall|key: Seq<char>| #[trigger]
            fields.contains_key(key) ==> nests_within(fields[key], depth),
        holds_integers(json, depth + 1) <==> forall|key: Seq<char>| #[trigger]
            fields.contains_key(key) ==> holds_integers(fields[key], depth),
{
    let deeper: nat = depth + 1;
    assert((deeper - 1) as nat == depth);
    match json {
        Json::Object(map) => {
            assert(nests_within(json, deeper) <==> forall|key: Seq<char>| #[trigger]
                map.contains_key(key) ==> nests_within(map[key], (deeper - 1) as nat));
            assert(holds_integers(json, deeper) <==> forall|key: Seq<char>| #[trigger]
                map.contains_key(key) ==> holds_integers(map[key], (deeper - 1) as nat));
        },
        _ => {},
    }
}

/// An array or an object stands one deeper than each of its parts, and has only integers if all of
/// them have.
pub proof fn law_depth_of_a_value(
    json: Json,
    items: Seq<Json>,
    fields: Map<Seq<char>, Json>,
    key: Seq<char>,
    depth: nat,
)
    requires
        !fields.contains_key(key),
    ensures
        DEEPEST == 127,
        nests_within(Json::Array(Seq::empty()), depth + 1),
        nests_within(Json::Object(Map::empty()), depth + 1),
        nests_within(Json::Array(items.push(json)), depth + 1) <==> nests_within(
            Json::Array(items),
            depth + 1,
        ) && nests_within(json, depth),
        nests_within(Json::Object(fields.insert(key, json)), depth + 1) <==> nests_within(
            Json::Object(fields),
            depth + 1,
        ) && nests_within(json, depth),
        json is Array || json is Object ==> !nests_within(json, 0) && !holds_integers(json, 0),
        !(json is Array || json is Object) ==> nests_within(json, depth),
        !(json is Array || json is Object) ==> (holds_integers(json, depth) <==> !(json is Float)),
        holds_integers(Json::Array(Seq::empty()), depth + 1),
        holds_integers(Json::Object(Map::empty()), depth + 1),
        holds_integers(Json::Array(items.push(json)), depth + 1) <==> holds_integers(
            Json::Array(items),
            depth + 1,
        ) && holds_integers(json, depth),
        holds_integers(Json::Object(fields.insert(key, json)), depth + 1) <==> holds_integers(
            Json::Object(fields),
            depth + 1,
        ) && holds_integers(json, depth),
{
    let longer = items.push(json);
    let wider = fields.insert(key, json);
    lemma_items(Json::Array(Seq::empty()), Seq::empty(), depth);
    lemma_items(Json::Array(items), items, depth);
    lemma_items(Json::Array(longer), longer, depth);
    lemma_fields(Json::Object(Map::empty()), Map::empty(), depth);
    lemma_fields(Json::Object(fields), fields, depth);
    lemma_fields(Json::Object(wider), wider, depth);
    assert(longer[items.len() as int] == json);
    assert(forall|i: int| 0 <= i < items.len() ==> #[trigger] items[i] == longer[i]);
    assert(wider.contains_key(key) && wider[key] == json);
    assert(forall|other: Seq<char>| #[trigger]
        fields.contains_key(other) ==> wider.contains_key(other) && wider[other] == fields[other]);
}

} // verus!

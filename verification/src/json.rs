//! The parts of a JSON document that window-placement restoring reads,
//! held as plain values: objects keep their members in iteration order, and a
//! number is kept as the `i64` it reads as, if any.
use vstd::prelude::*;
use vstd::string::*;

verus! {

/// A JSON value.
pub enum JsonValue {
    Null,
    Bool(bool),
    /// A number, as `serde_json::Value::as_i64` reads it: `None` when it is
    /// not an integer that fits in an `i64`.
    Number(Option<i64>),
    Text(String),
    Array(Vec<JsonValue>),
    /// An object's members, in the order in which the document's map walks
    /// them.
    Object(Vec<JsonMember>),
}

/// One member of a JSON object.
pub struct JsonMember {
    pub key: String,
    pub value: JsonValue,
}

/// `serde_json`'s value type, carried only inside the parse below.
#[verifier::external_type_specification]
#[verifier::external_body]
pub struct ExSerdeValue(serde_json::Value);

/// The value that `serde_json` reads the text `text` as (`None` when it is not
/// JSON), with objects' members in the order in which `serde_json`'s map walks
/// them.
pub uninterp spec fn json_of(text: Seq<char>) -> Option<JsonValue>;

/// Parses `text` with `serde_json::from_str` into a `serde_json::Value` and
/// rebuilds it as a `JsonValue`. Claimed: the result depends on the text alone
/// and is `json_of` of it; what `serde_json` accepts and how it reads numbers
/// is left to the name.
#[verifier::external_body]
pub(crate) fn parse_json(text: &str) -> (r: Option<JsonValue>)
    ensures
        r == json_of(text@),
{
    serde_json::from_str::<serde_json::Value>(text).ok().map(json_value_of)
}

/// Rebuilds a `serde_json::Value` as a `JsonValue`, variant by variant:
/// numbers as `Number::as_i64` reads them, object members in map order.
/// Nothing is claimed of it beyond that it returns.
#[verifier::external_body]
fn json_value_of(value: serde_json::Value) -> JsonValue {
    match value {
        serde_json::Value::Null => JsonValue::Null,
        serde_json::Value::Bool(b) => JsonValue::Bool(b),
        serde_json::Value::Number(n) => JsonValue::Number(n.as_i64()),
        serde_json::Value::String(s) => JsonValue::Text(s),
        serde_json::Value::Array(items) => JsonValue::Array(items.into_iter().map(json_value_of).collect()),
        serde_json::Value::Object(map) => JsonValue::Object(
            map.into_iter().map(|(key, value)| JsonMember { key, value: json_value_of(value) }).collect(),
        ),
    }
}

/// The value of the first member of `members` whose key is `key`.
pub open spec fn member_value(members: Seq<JsonMember>, key: Seq<char>) -> Option<JsonValue>
    decreases members.len(),
{
    if members.len() == 0 {
        None
    } else if members[0].key@ == key {
        Some(members[0].value)
    } else {
        member_value(members.drop_first(), key)
    }
}

/// `members` has a member with key `key`.
pub open spec fn has_key(members: Seq<JsonMember>, key: Seq<char>) -> bool {
    member_value(members, key) is Some
}

/// `value.get(key)`: the member `key` of an object, nothing for any other value.
pub open spec fn json_get(value: JsonValue, key: Seq<char>) -> Option<JsonValue> {
    match value {
        JsonValue::Object(members) => member_value(members@, key),
        _ => None,
    }
}

/// `value.as_bool()` of an optional value.
pub open spec fn json_bool(value: Option<JsonValue>) -> Option<bool> {
    match value {
        Some(JsonValue::Bool(b)) => Some(b),
        _ => None,
    }
}

/// `value.as_i64()` of an optional value.
pub open spec fn json_i64(value: Option<JsonValue>) -> Option<i64> {
    match value {
        Some(JsonValue::Number(n)) => n,
        _ => None,
    }
}

/// The first member of `members` with key `key`.
pub fn member<'a>(members: &'a Vec<JsonMember>, key: &str) -> (r: Option<&'a JsonValue>)
    ensures
        match r {
            Some(v) => member_value(members@, key@) == Some(*v),
            None => member_value(members@, key@) is None,
        },
{
    let wanted = String::from_str(key);
    let n = members.len();
    let mut i: usize = 0;
    assert(members@.skip(0) =~= members@);
    while i < n
        invariant
            wanted@ == key@,
            n == members@.len(),
            i <= n,
            member_value(members@.skip(i as int), key@) == member_value(members@, key@),
        decreases n - i,
    {
        let ghost rest = members@.skip(i as int);
        assert(rest[0] == members@[i as int]);
        if members[i].key == wanted {
            return Some(&members[i].value);
        }
        assert(rest.drop_first() =~= members@.skip(i + 1));
        i = i + 1;
    }
    None
}

/// `value.get(key)`.
pub fn get<'a>(value: &'a JsonValue, key: &str) -> (r: Option<&'a JsonValue>)
    ensures
        match r {
            Some(v) => json_get(*value, key@) == Some(*v),
            None => json_get(*value, key@) is None,
        },
{
    match value {
        JsonValue::Object(members) => member(members, key),
        _ => None,
    }
}

} // verus!

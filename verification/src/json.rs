//! JSON values and their text, through `serde_json`.

use serde_json::Value;
use vstd::prelude::*;

verus! {

/// What a JSON value is. A floating-point number is given by the bits of its
/// double-precision form.
pub enum Json {
    Null,
    Bool(bool),
    Unsigned(u64),
    Negative(i64),
    Float(u64),
    Text(Seq<char>),
    List(Seq<Json>),
    Object(Map<Seq<char>, Json>),
}

impl Json {
    /// The member of an object, or null where there is none.
    pub open spec fn member(self, key: Seq<char>) -> Json {
        match self {
            Json::Object(members) => if members.contains_key(key) {
                members[key]
            } else {
                Json::Null
            },
            _ => Json::Null,
        }
    }

    /// The element of a list, or null where there is none.
    pub open spec fn element(self, i: int) -> Json {
        match self {
            Json::List(elements) => if 0 <= i < elements.len() {
                elements[i]
            } else {
                Json::Null
            },
            _ => Json::Null,
        }
    }

    /// The text, where the value is one.
    pub open spec fn text(self) -> Option<Seq<char>> {
        match self {
            Json::Text(s) => Some(s),
            _ => None,
        }
    }

    /// The number, where the value is one that is neither negative nor a
    /// floating-point number.
    pub open spec fn unsigned(self) -> Option<u64> {
        match self {
            Json::Unsigned(n) => Some(n),
            _ => None,
        }
    }

    /// Holds no floating-point number, and lists and objects nest at most
    /// `depth` deep.
    pub open spec fn is_plain(self, depth: nat) -> bool
        decreases depth, self,
    {
        match self {
            Json::Float(_) => false,
            Json::List(elements) => depth > 0 && forall|i: int|
                0 <= i < elements.len() ==> (#[trigger] elements[i]).is_plain((depth - 1) as nat),
            Json::Object(members) => depth > 0 && forall|key: Seq<char>|
                members.contains_key(key) ==> (#[trigger] members[key]).is_plain(
                    (depth - 1) as nat,
                ),
            _ => true,
        }
    }
}

/// A JSON value of `serde_json`.
#[verifier::external_type_specification]
#[verifier::external_body]
pub struct ExValue(serde_json::Value);

/// The members of a JSON object of `serde_json`.
#[verifier::external_type_specification]
#[verifier::external_body]
#[verifier::reject_recursive_types(K)]
#[verifier::reject_recursive_types(V)]
pub struct ExMap<K, V>(serde_json::Map<K, V>);

/// An error of `serde_json`.
#[verifier::external_type_specification]
#[verifier::external_body]
pub struct ExJsonError(serde_json::Error);

/// What a value of `serde_json` is.
pub uninterp spec fn json_of(v: serde_json::Value) -> Json;

/// What the members of an object of `serde_json` are.
pub uninterp spec fn members_of(m: serde_json::Map<String, serde_json::Value>) -> Map<Seq<char>, Json>;

/// The text that `serde_json::to_vec` writes for a value.
pub uninterp spec fn json_text(j: Json) -> Seq<u8>;

/// What `serde_json::from_slice` reads from a text, or `None` where it reads
/// no value.
pub uninterp spec fn json_parse(text: Seq<u8>) -> Option<Json>;

/// Trusted: `Value::from(u64)` makes the number.
#[verifier::external_body]
pub(crate) fn json_unsigned(n: u64) -> (v: Value)
    ensures
        json_of(v) == Json::Unsigned(n),
{
    Value::from(n)
}

/// Trusted: `Value::from(&str)` makes the text.
#[verifier::external_body]
pub(crate) fn json_str(s: &str) -> (v: Value)
    ensures
        json_of(v) == Json::Text(s@),
{
    Value::from(s)
}

/// Trusted: `Value::from(Vec<Value>)` makes the list of the values, in order.
#[verifier::external_body]
pub(crate) fn json_list(values: Vec<Value>) -> (v: Value)
    ensures
        json_of(v) == Json::List(values@.map_values(|x: Value| json_of(x))),
{
    Value::from(values)
}

/// Trusted: `Value::from(Map<String, Value>)` makes the object with these
/// members.
#[verifier::external_body]
pub(crate) fn json_object(members: serde_json::Map<String, Value>) -> (v: Value)
    ensures
        json_of(v) == Json::Object(members_of(members)),
{
    Value::from(members)
}

/// Trusted: `Map::new` makes an object without members.
#[verifier::external_body]
pub(crate) fn no_members() -> (m: serde_json::Map<String, Value>)
    ensures
        members_of(m) == (Map::<Seq<char>, Json>::empty()),
{
    serde_json::Map::new()
}

/// Trusted: `Map::insert` adds a member, in place of one with the same key.
#[verifier::external_body]
pub(crate) fn add_member(m: &mut serde_json::Map<String, Value>, key: &str, v: Value)
    ensures
        members_of(*final(m)) == members_of(*old(m)).insert(key@, json_of(v)),
{
    m.insert(key.to_owned(), v);
}

/// Trusted: `serde_json::to_vec` turns a value into text. Writing into a vector
/// does not fail, and neither does writing a value, whose keys are all strings.
/// Reading the text with `serde_json::from_slice` gives the value back: that
/// reader takes lists and objects up to 127 deep, and floating-point numbers,
/// which it may round, are left out.
#[verifier::external_body]
pub(crate) fn json_to_vec(v: &Value) -> (r: Result<Vec<u8>, serde_json::Error>)
    requires
        json_of(*v).is_plain(127),
    ensures
        r is Ok,
        r->Ok_0@ == json_text(json_of(*v)),
        json_parse(r->Ok_0@) == Some(json_of(*v)),
{
    serde_json::to_vec(v)
}

/// The longest text that is read. A number may take up all of it, and its digits
/// are counted with 31 bits.
pub const MAX_TEXT_LEN: usize = 0x7fff_ffff;

/// Trusted: `serde_json::from_slice` reads one value from a text, or fails. What
/// it does is a function of the text alone. It counts the digits of a number in
/// an `i32` unchecked, so the text must not have more bytes than that holds.
#[verifier::external_body]
pub(crate) fn json_from_slice(text: &[u8]) -> (r: Result<Value, serde_json::Error>)
    requires
        text@.len() <= MAX_TEXT_LEN,
    ensures
        match r {
            Ok(v) => json_parse(text@) == Some(json_of(v)),
            Err(_) => json_parse(text@) is None,
        },
{
    serde_json::from_slice(text)
}

/// Trusted: indexing a `Value` by a string gives the member with that key, and
/// null where the value is no object or has no such member.
#[verifier::external_body]
pub(crate) fn json_member<'a>(v: &'a Value, key: &str) -> (r: &'a Value)
    ensures
        json_of(*r) == json_of(*v).member(key@),
{
    &v[key]
}

/// Trusted: indexing a `Value` by a number gives the element at that index, and
/// null where the value is no list or is too short.
#[verifier::external_body]
pub(crate) fn json_element(v: &Value, i: usize) -> (r: &Value)
    ensures
        json_of(*r) == json_of(*v).element(i as int),
{
    &v[i]
}

/// Trusted: `Value::as_str` gives the text of a string value.
#[verifier::external_body]
pub(crate) fn json_as_str(v: &Value) -> (r: Option<&str>)
    ensures
        match r {
            Some(s) => json_of(*v).text() == Some(s@),
            None => json_of(*v).text() is None,
        },
{
    v.as_str()
}

/// Trusted: `Value::as_u64` gives the number of an unsigned integer value.
#[verifier::external_body]
pub(crate) fn json_as_u64(v: &Value) -> (r: Option<u64>)
    ensures
        r == json_of(*v).unsigned(),
{
    v.as_u64()
}

/// Trusted: `Value::as_object` gives the members of an object value.
#[verifier::external_body]
pub(crate) fn json_as_object(v: &Value) -> (r: Option<&serde_json::Map<String, Value>>)
    ensures
        match r {
            Some(m) => json_of(*v) == Json::Object(members_of(*m)),
            None => !(json_of(*v) is Object),
        },
{
    v.as_object()
}

/// Trusted: `Map::values` goes through the values of all members. Their order
/// is left open.
#[verifier::external_body]
pub(crate) fn member_values(m: &serde_json::Map<String, Value>) -> (r: Vec<&Value>)
    ensures
        r@.map_values(|x: &Value| json_of(*x)).to_set() == members_of(*m).values(),
{
    m.values().collect()
}

} // verus!

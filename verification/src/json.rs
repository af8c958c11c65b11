//! Reading JSON replies with `serde_json`.

use vstd::prelude::*;

verus! {

/// What a JSON value holds.
pub enum Json {
    Null,
    Bool(bool),
    Number,
    Text(Seq<char>),
    List(Seq<Json>),
    Object(Map<Seq<char>, Json>),
}

impl Json {
    /// The member of an object under a key.
    pub open spec fn member(self, key: Seq<char>) -> Option<Json> {
        match self {
            Json::Object(members) => if members.dom().contains(key) {
                Some(members[key])
            } else {
                None
            },
            _ => None,
        }
    }

    /// The characters of a string.
    pub open spec fn text(self) -> Option<Seq<char>> {
        match self {
            Json::Text(s) => Some(s),
            _ => None,
        }
    }

    /// An object with at least one member.
    pub open spec fn populated(self) -> bool {
        match self {
            Json::Object(members) => !members.dom().is_empty(),
            _ => false,
        }
    }

    /// The characters of the string under a key of an object.
    pub open spec fn text_member(self, key: Seq<char>) -> Option<Seq<char>> {
        match self.member(key) {
            Some(v) => v.text(),
            None => None,
        }
    }
}

/// Declares `serde_json::Value`. What a value holds is named by `contents`.
#[verifier::external_type_specification]
#[verifier::external_body]
pub struct ExValue(serde_json::Value);

/// Declares `serde_json::Error`. Nothing is said of what is inside.
#[verifier::external_type_specification]
#[verifier::external_body]
pub struct ExError(serde_json::Error);

/// Declares `serde_json::Map`. What the map of an object holds is named by `members`.
#[verifier::external_type_specification]
#[verifier::external_body]
#[verifier::reject_recursive_types(K)]
#[verifier::reject_recursive_types(V)]
pub struct ExMap<K, V>(serde_json::Map<K, V>);

/// What a `serde_json::Value` holds.
pub uninterp spec fn contents(v: serde_json::Value) -> Json;

/// What a `serde_json::Map` holds.
pub uninterp spec fn members(m: serde_json::Map<String, serde_json::Value>) -> Map<Seq<char>, Json>;

/// The JSON value that `serde_json::from_str` reads from a text, if it reads one.
pub uninterp spec fn parsed(text: Seq<char>) -> Option<Json>;

/// Calls `serde_json::from_str` for a `serde_json::Value`. Whether it succeeds,
/// and what the value then holds, is a function of the text alone, named `parsed`.
#[verifier::external_body]
pub(crate) fn parse(text: &str) -> (r: Result<serde_json::Value, serde_json::Error>)
    ensures
        r is Ok <==> parsed(text@) is Some,
        r matches Ok(v) ==> parsed(text@) == Some(contents(v)),
{
    serde_json::from_str(text)
}

/// Calls `serde_json::Value::get` with a string. It gives the member under that
/// key if the value is an object that has one, and nothing otherwise.
#[verifier::external_body]
pub(crate) fn get<'a>(v: &'a serde_json::Value, key: &str) -> (r: Option<&'a serde_json::Value>)
    ensures
        r is Some <==> contents(*v).member(key@) is Some,
        r matches Some(m) ==> contents(*v).member(key@) == Some(contents(*m)),
{
    v.get(key)
}

/// Calls `serde_json::Value::as_str`. It gives the characters of a string, and
/// nothing for any other value.
#[verifier::external_body]
pub(crate) fn as_str(v: &serde_json::Value) -> (r: Option<&str>)
    ensures
        r is Some <==> contents(*v).text() is Some,
        r matches Some(s) ==> contents(*v).text() == Some(s@),
{
    v.as_str()
}

/// Calls `serde_json::Value::as_object`. It gives the members of an object, and
/// nothing for any other value.
#[verifier::external_body]
pub(crate) fn as_object(v: &serde_json::Value) -> (r: Option<
    &serde_json::Map<String, serde_json::Value>,
>)
    ensures
        r is Some <==> contents(*v) is Object,
        r matches Some(m) ==> contents(*v) == Json::Object(members(*m)),
{
    v.as_object()
}

/// Calls `serde_json::Map::is_empty`. It says whether the map has no member.
#[verifier::external_body]
pub(crate) fn is_empty(m: &serde_json::Map<String, serde_json::Value>) -> (r: bool)
    ensures
        r == members(*m).dom().is_empty(),
{
    m.is_empty()
}

/// The characters of the string under a key of an object.
pub(crate) fn text_member<'a>(v: &'a serde_json::Value, key: &str) -> (r: Option<&'a str>)
    ensures
        r is Some <==> contents(*v).text_member(key@) is Some,
        r matches Some(s) ==> contents(*v).text_member(key@) == Some(s@),
{
    match get(v, key) {
        Some(m) => as_str(m),
        None => None,
    }
}

/// Says whether the value is an object with at least one member.
pub(crate) fn is_populated(v: &serde_json::Value) -> (r: bool)
    ensures
        r == contents(*v).populated(),
{
    match as_object(v) {
        Some(m) => !is_empty(m),
        None => false,
    }
}

/// An object has under a key what it holds there; nothing else has members.
pub proof fn law_member(v: Json, object: Map<Seq<char>, Json>, key: Seq<char>)
    ensures
        object.dom().contains(key) ==> Json::Object(object).member(key) == Some(object[key]),
        !object.dom().contains(key) ==> Json::Object(object).member(key) is None,
        !(v is Object) ==> v.member(key) is None,
{
}

/// A value has a text exactly if it is a string, and then the characters of it.
pub proof fn law_text(v: Json, s: Seq<char>)
    ensures
        v.text() == Some(s) <==> v == Json::Text(s),
        v.text() is None <==> !(v is Text),
{
}

/// The text under a key is `s` exactly if the value is an object that holds the
/// string `s` under that very key.
pub proof fn law_text_member(v: Json, key: Seq<char>, s: Seq<char>)
    ensures
        v.text_member(key) == Some(s) <==> (v matches Json::Object(object)
            && object.dom().contains(key) && object[key] == Json::Text(s)),
{
}

/// The value is an object that holds this string under this key.
pub open spec fn holds(v: Json, key: Seq<char>, s: Seq<char>) -> bool {
    v matches Json::Object(object) && object.dom().contains(key) && object[key] == Json::Text(s)
}

/// What other keys hold has no part in the text under a key.
pub proof fn law_text_member_alone(
    object: Map<Seq<char>, Json>,
    key: Seq<char>,
    other: Seq<char>,
    v: Json,
)
    requires
        key != other,
    ensures
        Json::Object(object.insert(other, v)).text_member(key) == Json::Object(
            object,
        ).text_member(key),
        Json::Object(object.remove(other)).text_member(key) == Json::Object(object).text_member(
            key,
        ),
{
}

/// A value is populated exactly if it is an object with a member.
pub proof fn law_populated(v: Json)
    ensures
        v.populated() <==> (v matches Json::Object(object) && exists|key: Seq<char>|
            object.dom().contains(key)),
{
    if let Json::Object(object) = v {
        if !object.dom().is_empty() {
            if forall|key: Seq<char>| !object.dom().contains(key) {
                assert(object.dom() =~= Set::empty());
            }
        }
    }
}

} // verus!

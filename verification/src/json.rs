//! JSON documents, held as `serde_json` values and read through a model of
//! what they contain.

use vstd::prelude::*;

verus! {

/// What a JSON value holds. A number is told by its text, and by its value
/// where that is a 64-bit unsigned integer.
pub enum JsonView {
    Null,
    Bool(bool),
    Number { text: Seq<char>, unsigned: Option<u64> },
    Text(Seq<char>),
    List(Seq<JsonView>),
    Object(Map<Seq<char>, JsonView>),
}

impl JsonView {
    /// The member `key` of an object; nothing in any other value.
    pub open spec fn member(self, key: Seq<char>) -> Option<JsonView> {
        match self {
            JsonView::Object(m) => if m.contains_key(key) {
                Some(m[key])
            } else {
                None
            },
            _ => None,
        }
    }

    /// The text of a string value.
    pub open spec fn text(self) -> Option<Seq<char>> {
        match self {
            JsonView::Text(s) => Some(s),
            _ => None,
        }
    }

    /// The elements of an array.
    pub open spec fn list(self) -> Option<Seq<JsonView>> {
        match self {
            JsonView::List(l) => Some(l),
            _ => None,
        }
    }

    /// The string under `key`, where there is one.
    pub open spec fn text_member(self, key: Seq<char>) -> Option<Seq<char>> {
        match self.member(key) {
            Some(v) => v.text(),
            None => None,
        }
    }

    /// The array under `key`, where there is one.
    pub open spec fn list_member(self, key: Seq<char>) -> Option<Seq<JsonView>> {
        match self.member(key) {
            Some(v) => v.list(),
            None => None,
        }
    }

    /// The unsigned number under `key`, where there is one.
    pub open spec fn unsigned_member(self, key: Seq<char>) -> Option<u64> {
        match self.member(key) {
            Some(JsonView::Number { unsigned, .. }) => unsigned,
            _ => None,
        }
    }
}

/// `serde_json::Value`, a tree of JSON values.
#[verifier::external_type_specification]
#[verifier::external_body]
pub struct ExJsonValue(serde_json::Value);

/// What a `serde_json::Value` holds.
pub uninterp spec fn json_view(v: serde_json::Value) -> JsonView;

/// The contents of a vector of JSON values.
pub open spec fn json_views(v: Seq<serde_json::Value>) -> Seq<JsonView> {
    v.map_values(|x: serde_json::Value| json_view(x))
}

/// What `serde_json::from_str` makes of a text: a document, or the text of
/// its error.
pub uninterp spec fn json_document(text: Seq<char>) -> Result<JsonView, Seq<char>>;

/// The compact text that `serde_json` displays a value as.
pub uninterp spec fn json_text(v: JsonView) -> Seq<char>;

/// `serde_json::from_str::<Value>`: the document that the text holds, or its
/// error as text.
#[verifier::external_body]
pub(crate) fn parse_json(text: &str) -> (r: Result<serde_json::Value, String>)
    ensures
        match r {
            Ok(v) => json_document(text@) == Ok::<JsonView, Seq<char>>(json_view(v)),
            Err(e) => json_document(text@) == Err::<JsonView, Seq<char>>(e@),
        },
{
    match serde_json::from_str::<serde_json::Value>(text) {
        Ok(v) => Ok(v),
        Err(e) => Err(e.to_string()),
    }
}

/// `Value::get` with a string: the member of that name of an object, and
/// nothing where there is none or the value is not an object.
#[verifier::external_body]
pub(crate) fn get<'a>(v: &'a serde_json::Value, key: &str) -> (r: Option<&'a serde_json::Value>)
    ensures
        match r {
            Some(x) => json_view(*v).member(key@) == Some(json_view(*x)),
            None => json_view(*v).member(key@) is None,
        },
{
    v.get(key)
}

/// `Value::as_str`: the text of a string value.
#[verifier::external_body]
pub(crate) fn as_str<'a>(v: &'a serde_json::Value) -> (r: Option<&'a str>)
    ensures
        match r {
            Some(s) => json_view(*v) == JsonView::Text(s@),
            None => json_view(*v).text() is None,
        },
{
    v.as_str()
}

/// `Value::as_array`: the elements of an array.
#[verifier::external_body]
pub(crate) fn as_array<'a>(v: &'a serde_json::Value) -> (r: Option<&'a Vec<serde_json::Value>>)
    ensures
        match r {
            Some(l) => json_view(*v) == JsonView::List(json_views(l@)),
            None => json_view(*v).list() is None,
        },
{
    v.as_array()
}

/// `Value::is_null`: whether the value is null.
#[verifier::external_body]
pub(crate) fn is_null(v: &serde_json::Value) -> (r: bool)
    ensures
        r == (json_view(*v) is Null),
{
    v.is_null()
}

/// `Value::as_u64`: the value of a number that is a 64-bit unsigned integer.
#[verifier::external_body]
pub(crate) fn as_u64(v: &serde_json::Value) -> (r: Option<u64>)
    ensures
        r == (match json_view(*v) {
            JsonView::Number { unsigned, .. } => unsigned,
            _ => None,
        }),
{
    v.as_u64()
}

/// `Value::as_object` and the values of the map: the members of an object
/// without their names.
#[verifier::external_body]
pub(crate) fn member_values<'a>(v: &'a serde_json::Value) -> (r: Option<Vec<&'a serde_json::Value>>)
    ensures
        match r {
            Some(l) => json_view(*v) is Object && l@.map_values(
                |x: &serde_json::Value| json_view(*x),
            ).to_set() == json_view(*v)->Object_0.values(),
            None => !(json_view(*v) is Object),
        },
{
    v.as_object().map(|m| m.values().collect())
}

/// `Value`'s `Display`: the value as compact JSON text.
#[verifier::external_body]
pub(crate) fn to_text(v: &serde_json::Value) -> (r: String)
    ensures
        r@ == json_text(json_view(*v)),
{
    v.to_string()
}

/// The string under `key`, where there is one.
pub fn field<'a>(v: &'a serde_json::Value, key: &str) -> (r: Option<&'a str>)
    ensures
        match r {
            Some(s) => json_view(*v).text_member(key@) == Some(s@),
            None => json_view(*v).text_member(key@) is None,
        },
{
    match get(v, key) {
        Some(x) => as_str(x),
        None => None,
    }
}

/// The array under `key`, where there is one.
pub fn list_field<'a>(v: &'a serde_json::Value, key: &str) -> (r: Option<
    &'a Vec<serde_json::Value>,
>)
    ensures
        match r {
            Some(l) => json_view(*v).list_member(key@) == Some(json_views(l@)),
            None => json_view(*v).list_member(key@) is None,
        },
{
    match get(v, key) {
        Some(x) => as_array(x),
        None => None,
    }
}

/// The unsigned number under `key`, where there is one.
pub fn unsigned_field(v: &serde_json::Value, key: &str) -> (r: Option<u64>)
    ensures
        r == json_view(*v).unsigned_member(key@),
{
    match get(v, key) {
        Some(x) => as_u64(x),
        None => None,
    }
}

// ---------------------------------------------------------------------
// Laws of documents
// ---------------------------------------------------------------------

/// A member of an object is found under its own name and under no other, and
/// what is no object has no members.
pub proof fn law_members_of_objects(m: Map<Seq<char>, JsonView>, k: Seq<char>, j: Seq<char>, v: JsonView)
    ensures
        JsonView::Object(m.insert(k, v)).member(k) == Some(v),
        j != k ==> JsonView::Object(m.insert(k, v)).member(j) == JsonView::Object(m).member(j),
        JsonView::Object(m.remove(k)).member(k) is None,
        !(v is Object) ==> v.member(k) is None,
{
}

/// A member is read as a text, a list or a number where it is one, and is
/// nothing otherwise.
pub proof fn law_typed_members(o: JsonView, k: Seq<char>, s: Seq<char>, l: Seq<JsonView>, n: u64)
    ensures
        o.text_member(k) == Some(s) <==> o.member(k) == Some(JsonView::Text(s)),
        o.list_member(k) == Some(l) <==> o.member(k) == Some(JsonView::List(l)),
        o.unsigned_member(k) == Some(n) <==> (o.member(k) matches Some(
            JsonView::Number { unsigned, .. },
        ) && unsigned == Some(n)),
        o.text() == Some(s) <==> o == JsonView::Text(s),
        o.list() == Some(l) <==> o == JsonView::List(l),
{
}

} // verus!

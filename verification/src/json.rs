//! JSON documents as plain values: the compilation database, and quoted string
//! literals written in JSON syntax (Go interpreted strings and Rust attribute
//! values use the same escapes for what they hold).
use vstd::prelude::*;

verus! {

/// A JSON value.
#[derive(Debug)]
pub enum Json {
    Null,
    Bool(bool),
    /// A number, as serde_json writes it.
    Number(String),
    Text(String),
    Array(Vec<Json>),
    /// The members of an object, each key once.
    Object(Vec<(String, Json)>),
}

/// The mathematical value of a [`Json`].
pub enum JsonView {
    Null,
    Bool(bool),
    Number(Seq<char>),
    Text(Seq<char>),
    Array(Seq<JsonView>),
    Object(Seq<(Seq<char>, JsonView)>),
}

/// The value of a JSON value.
pub open spec fn json_view(j: Json) -> JsonView
    decreases j,
{
    match j {
        Json::Null => JsonView::Null,
        Json::Bool(b) => JsonView::Bool(b),
        Json::Number(n) => JsonView::Number(n@),
        Json::Text(s) => JsonView::Text(s@),
        Json::Array(v) => JsonView::Array(json_views(v@)),
        Json::Object(m) => JsonView::Object(member_views(m@)),
    }
}

/// The values of a list of JSON values.
pub open spec fn json_views(v: Seq<Json>) -> Seq<JsonView>
    decreases v,
{
    if v.len() == 0 {
        Seq::empty()
    } else {
        json_views(v.drop_last()).push(json_view(v.last()))
    }
}

/// The values of a list of object members.
pub open spec fn member_views(m: Seq<(String, Json)>) -> Seq<(Seq<char>, JsonView)>
    decreases m,
{
    if m.len() == 0 {
        Seq::empty()
    } else {
        member_views(m.drop_last()).push((m.last().0@, json_view(m.last().1)))
    }
}

impl View for Json {
    type V = JsonView;

    open spec fn view(&self) -> JsonView {
        json_view(*self)
    }
}

/// The values of a list has its length, and each entry is the element's value.
pub proof fn lemma_json_views(v: Seq<Json>)
    ensures
        json_views(v).len() == v.len(),
        forall|i: int| 0 <= i < v.len() ==> #[trigger] json_views(v)[i] == json_view(v[i]),
    decreases v.len(),
{
    if v.len() > 0 {
        lemma_json_views(v.drop_last());
    }
}

/// The members' values have their length, and each is the member's value.
pub proof fn lemma_member_views(m: Seq<(String, Json)>)
    ensures
        member_views(m).len() == m.len(),
        forall|i: int| 0 <= i < m.len() ==> #[trigger] member_views(m)[i] == (m[i].0@, json_view(m[i].1)),
    decreases m.len(),
{
    if m.len() > 0 {
        lemma_member_views(m.drop_last());
    }
}

/// The JSON document that `text` holds, or `None` when it holds none.
pub uninterp spec fn parsed_json(text: Seq<char>) -> Option<JsonView>;

#[verifier::external_type_specification]
#[verifier::external_body]
pub struct ExJsonValue(serde_json::Value);

/// Copies a `serde_json::Value` into a [`Json`]: numbers by their text, object
/// members in the map's order. Nothing is claimed of the copy.
#[verifier::external_body]
fn plain_json(value: serde_json::Value) -> Json {
    match value {
        serde_json::Value::Null => Json::Null,
        serde_json::Value::Bool(b) => Json::Bool(b),
        serde_json::Value::Number(n) => Json::Number(n.to_string()),
        serde_json::Value::String(s) => Json::Text(s),
        serde_json::Value::Array(v) => Json::Array(v.into_iter().map(plain_json).collect()),
        serde_json::Value::Object(m) => Json::Object(m.into_iter().map(|(k, v)| (k, plain_json(v))).collect()),
    }
}

/// Calls `serde_json::from_str::<serde_json::Value>`; claims that the document
/// it gives, or its failure, is the one named `parsed_json` of the text. The
/// grammar of JSON is not restated.
#[verifier::external_body]
pub(crate) fn json_value(text: &str) -> (r: Option<Json>)
    ensures
        match r {
            Some(j) => parsed_json(text@) == Some(j@),
            None => parsed_json(text@) is None,
        },
{
    serde_json::from_str::<serde_json::Value>(text).ok().map(plain_json)
}

/// The string that `text` denotes as one JSON string literal, or `None` when
/// `text` is not exactly one.
pub open spec fn json_string_value(text: Seq<char>) -> Option<Seq<char>> {
    match parsed_json(text) {
        Some(JsonView::Text(s)) => Some(s),
        _ => None,
    }
}

/// Decodes `text` as a JSON document that is a single string.
pub fn json_string(text: &str) -> (r: Option<String>)
    ensures
        match r {
            Some(s) => json_string_value(text@) == Some(s@),
            None => json_string_value(text@) is None,
        },
{
    match json_value(text) {
        Some(Json::Text(s)) => Some(s),
        _ => None,
    }
}

} // verus!

//! Reading JSON text with `serde_json` into the library's JSON model.

use vstd::prelude::*;
use crate::json::{json_tree, tree_view, Json, JsonTree, JsonView};

verus! {

/// `serde_json::Value`, carried through as an opaque value.
#[verifier::external_type_specification]
#[verifier::external_body]
pub struct ExJsonValue(serde_json::Value);

/// What `serde_json::from_str::<serde_json::Value>` makes of a text, as the
/// exact shape of the library's model (object members in the order the
/// parser keeps): `None` when the text is not JSON.
pub uninterp spec fn parsed_json(text: Seq<char>) -> Option<JsonTree>;

/// The view of an optional shape.
pub open spec fn opt_tree_view(t: Option<JsonTree>) -> Option<JsonView> {
    match t {
        Some(x) => Some(tree_view(x)),
        None => None,
    }
}

/// The library's model of a `serde_json::Value`, variant by variant (a
/// number is kept as its JSON text, an object's members in their order).
///
/// Trusted, with no contract of its own: `parse_json` alone calls it, and
/// what is claimed of the pair stands on `parse_json`.
#[verifier::external_body]
fn json_of_value(v: serde_json::Value) -> Json {
    match v {
        serde_json::Value::Null => Json::Null,
        serde_json::Value::Bool(b) => Json::Bool(b),
        serde_json::Value::Number(n) => Json::Number(n.to_string()),
        serde_json::Value::String(s) => Json::Str(s),
        serde_json::Value::Array(a) => Json::Array(a.into_iter().map(json_of_value).collect()),
        serde_json::Value::Object(o) => Json::Object(o.into_iter().map(|(k, x)| (k, json_of_value(x))).collect()),
    }
}

/// `serde_json::from_str::<serde_json::Value>(text)`, in the library's model.
///
/// Trusted: the result is named `parsed_json` of the text; nothing is
/// claimed about the JSON grammar itself.
#[verifier::external_body]
pub(crate) fn parse_json(text: &str) -> (r: Option<Json>)
    ensures
        match r {
            Some(j) => parsed_json(text@) == Some(json_tree(j)),
            None => parsed_json(text@) is None,
        },
{
    serde_json::from_str::<serde_json::Value>(text).ok().map(json_of_value)
}

} // verus!

//! JSON documents, through the `serde_json` crate: every value is found by its pointer.
use vstd::prelude::*;
use serde_json::Value;
use crate::text;

verus! {

#[verifier::external_type_specification]
#[verifier::external_body]
pub struct ExJsonValue(serde_json::Value);

/// What stands at some place of a document.
#[derive(Debug, PartialEq, Eq)]
pub enum JsonNode {
    /// Nothing stands there.
    Absent,
    Null,
    Bool(bool),
    /// A number, and its value if it is a non-negative integer that fits.
    Number(Option<u64>),
    Text(String),
    /// An array of so many elements.
    Array(usize),
    Object,
}

/// What a [`JsonNode`] holds.
pub enum JsonV {
    Absent,
    Null,
    Bool(bool),
    Number(Option<u64>),
    Text(Seq<char>),
    Array(nat),
    Object,
}

impl View for JsonNode {
    type V = JsonV;

    open spec fn view(&self) -> JsonV {
        match self {
            JsonNode::Absent => JsonV::Absent,
            JsonNode::Null => JsonV::Null,
            JsonNode::Bool(b) => JsonV::Bool(*b),
            JsonNode::Number(n) => JsonV::Number(*n),
            JsonNode::Text(s) => JsonV::Text(s@),
            JsonNode::Array(n) => JsonV::Array(*n as nat),
            JsonNode::Object => JsonV::Object,
        }
    }
}

/// What a document holds: every value in it, by its JSON pointer.
pub uninterp spec fn json_nodes(v: serde_json::Value) -> Map<Seq<char>, JsonV>;

/// What a text holds as a JSON document, or why it is none.
pub uninterp spec fn json_parsed(text: Seq<char>) -> Result<Map<Seq<char>, JsonV>, Seq<char>>;

/// What stands at a pointer.
pub open spec fn node_at(nodes: Map<Seq<char>, JsonV>, pointer: Seq<char>) -> JsonV {
    if nodes.dom().contains(pointer) {
        nodes[pointer]
    } else {
        JsonV::Absent
    }
}

/// Reads a document (`serde_json::from_str`): what it holds, or the error's message, is a function
/// of the text, named here.
#[verifier::external_body]
pub(crate) fn parse(text: &str) -> (r: Result<Value, String>)
    ensures
        match r {
            Ok(v) => json_parsed(text@) == Ok::<Map<Seq<char>, JsonV>, Seq<char>>(json_nodes(v)),
            Err(e) => json_parsed(text@) == Err::<Map<Seq<char>, JsonV>, Seq<char>>(e@),
        },
{
    serde_json::from_str(text).map_err(|e| e.to_string())
}

/// Looks a pointer up (`Value::pointer`): the value that the document holds under it.
#[verifier::external_body]
pub(crate) fn lookup(v: &Value, pointer: &str) -> (r: JsonNode)
    ensures
        r@ == node_at(json_nodes(*v), pointer@),
{
    match v.pointer(pointer) {
        None => JsonNode::Absent,
        Some(Value::Null) => JsonNode::Null,
        Some(Value::Bool(b)) => JsonNode::Bool(*b),
        Some(Value::Number(n)) => JsonNode::Number(n.as_u64()),
        Some(Value::String(s)) => JsonNode::Text(s.clone()),
        Some(Value::Array(a)) => JsonNode::Array(a.len()),
        Some(Value::Object(_)) => JsonNode::Object,
    }
}

} // verus!

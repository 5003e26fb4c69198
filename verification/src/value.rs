//! JSON values, as states and instructions are given.

use serde_json::Number;
use vstd::prelude::*;

verus! {

/// `serde_json::Number`: a JSON number, integer or not.
#[verifier::external_type_specification]
#[verifier::external_body]
pub struct ExNumber(serde_json::Number);

/// The text of a JSON number.
pub uninterp spec fn number_chars(n: Number) -> Seq<char>;

/// `serde_json::Number::to_string`: the number as JSON writes it. The contract
/// only gives the text a name.
#[verifier::external_body]
pub(crate) fn number_text(n: &Number) -> (out: String)
    ensures
        out@ == number_chars(*n),
{
    n.to_string()
}

/// A JSON value. Objects keep the order of their fields.
#[derive(Debug)]
pub enum Value {
    Null,
    Bool(bool),
    Number(Number),
    String(String),
    Array(Vec<Value>),
    Object(Vec<(String, Value)>),
}

impl Value {
    /// A text value.
    pub fn text(content: &str) -> (out: Self)
        ensures
            out matches Value::String(s) && s@ == content@,
    {
        Value::String(content.to_owned())
    }

    /// Arrays and objects hold other values; everything else stands for itself.
    pub open spec fn nested(self) -> bool {
        self is Array || self is Object
    }

    /// `true` for arrays and objects.
    pub fn is_nested(&self) -> (yes: bool)
        ensures
            yes == self.nested(),
    {
        match self {
            Value::Array(_) => true,
            Value::Object(_) => true,
            _ => false,
        }
    }
}

/// Arrays and objects are what holds other values; a text, a number, a truth value and nothing
/// are not.
pub proof fn law_only_arrays_and_objects_hold_values(v: Value)
    ensures
        v is Array || v is Object ==> v.nested(),
        v is Null || v is Bool || v is Number || v is String ==> !v.nested(),
{
}

} // verus!

//! The argument that travels with a call.
//!
//! The router moves a payload and never looks inside one, but for one
//! question: whether it is the null value, which stands for "no argument".

use vstd::prelude::*;

verus! {

/// A JSON value of `serde_json`; nothing is known of its inside here.
#[verifier::external_type_specification]
#[verifier::external_body]
pub struct ExValue(serde_json::Value);

/// The argument of a call: the null value, or any other JSON value.
#[derive(Debug, PartialEq)]
pub enum Payload {
    Null,
    Json(serde_json::Value),
}

/// Whether a JSON value is the null value: what `serde_json::Value::is_null`
/// answers for it.
pub uninterp spec fn json_is_null(value: serde_json::Value) -> bool;

/// Asks `serde_json::Value::is_null` whether a value is the JSON null. The
/// answer depends on the value alone; the contract gives it its name.
#[verifier::external_body]
fn value_is_null(value: &serde_json::Value) -> (r: bool)
    ensures
        r == json_is_null(*value),
{
    value.is_null()
}

/// Makes the variant `serde_json::Value::Null`, of which
/// `serde_json::Value::is_null` answers `true`.
#[verifier::external_body]
fn null_value() -> (r: serde_json::Value)
    ensures
        json_is_null(r),
{
    serde_json::Value::Null
}

/// The payload for a JSON value: the null payload for the null value, and
/// for any other value the value itself.
pub open spec fn payload_for(value: serde_json::Value) -> Payload {
    if json_is_null(value) {
        Payload::Null
    } else {
        Payload::Json(value)
    }
}

impl Payload {
    /// The payload for a value of which it is known whether it is the JSON
    /// null: the null payload if it is, else the value itself.
    pub fn sorted(null: bool, value: serde_json::Value) -> (p: Payload)
        ensures
            p == if null {
                Payload::Null
            } else {
                Payload::Json(value)
            },
    {
        if null {
            Payload::Null
        } else {
            Payload::Json(value)
        }
    }

    /// The payload for a JSON value: the null payload for the null value,
    /// and for any other value the value itself.
    pub fn from_value(value: serde_json::Value) -> (p: Payload)
        ensures
            p == payload_for(value),
    {
        let null = value_is_null(&value);
        Payload::sorted(null, value)
    }

    /// The JSON value of a payload: what a `Json` holds, and a null value
    /// for `Null`.
    pub fn into_value(self) -> (v: serde_json::Value)
        ensures
            match self {
                Payload::Null => json_is_null(v),
                Payload::Json(held) => v == held,
            },
    {
        match self {
            Payload::Null => null_value(),
            Payload::Json(v) => v,
        }
    }

    /// Whether this is the null payload.
    pub fn is_null(&self) -> (r: bool)
        ensures
            r == (*self is Null),
    {
        match self {
            Payload::Null => true,
            Payload::Json(_) => false,
        }
    }
}

/// The payload that a handler receives for the optional payload of a call:
/// the null payload where there is none.
pub open spec fn argument(payload: Option<Payload>) -> Payload {
    match payload {
        Some(p) => p,
        None => Payload::Null,
    }
}

} // verus!

//! Values written by a future version of the format, kept so that they can
//! be written back unchanged, and the rules by which their JSON form is read.
use vstd::prelude::*;

verus! {

/// A value of an unknown kind from the binary format, kept as raw bytes.
#[derive(Debug, Clone, PartialEq, Eq)]
pub struct Unknown {
    pub kind: u8,
    pub data: Vec<u8>,
}

/// A value of an unknown type from the JSON format, kept as its type name
/// and its JSON text.
#[derive(Debug, Clone, PartialEq, Eq)]
pub struct JsonUnknown {
    pub value_type: String,
    pub value: String,
}

/// A value written by a future version of the format.
#[derive(Debug, Clone, PartialEq, Eq)]
pub enum OwnedFutureValue {
    Unknown(Unknown),
    JsonUnknown(JsonUnknown),
}

/// Why the JSON form of a future value could not be read.
#[derive(Debug, Clone, PartialEq, Eq)]
pub enum FutureValueFieldError {
    /// The `value_type` field is missing.
    MissingValueType,
    /// The `value` field is missing where the type needs it.
    MissingValue,
}

/// What the fields of the JSON form of a future value stand for: an
/// `unknown` value whose `value` field still has to be parsed as the JSON
/// of an `Unknown`, or a value of another type, complete as it is.
#[derive(Debug, Clone, PartialEq, Eq)]
pub enum FutureValueFields {
    ParseUnknown(String),
    Json(JsonUnknown),
}

/// The type name of an `unknown` value.
pub open spec fn unknown_type_name() -> Seq<char> {
    "unknown"@
}

impl OwnedFutureValue {
    /// The `value_type` field this value is written with.
    pub fn value_type_name(&self) -> (r: &'static str)
        ensures
            self is Unknown ==> r@ == "unknown"@,
            self is JsonUnknown ==> r@ == "json_unknown"@,
    {
        match self {
            OwnedFutureValue::Unknown(_) => "unknown",
            OwnedFutureValue::JsonUnknown(_) => "json_unknown",
        }
    }

    /// Reads the fields of the JSON form: the `value_type` must be present;
    /// an `unknown` value needs its `value`, which is handed on to be parsed;
    /// any other type keeps its name and its `value` (empty when missing).
    pub fn from_fields(value_type: Option<String>, value: Option<String>) -> (r: Result<
        FutureValueFields,
        FutureValueFieldError,
    >)
        ensures
            match value_type {
                None => r == Err::<FutureValueFields, FutureValueFieldError>(
                    FutureValueFieldError::MissingValueType,
                ),
                Some(t) => if t@ == unknown_type_name() {
                    match value {
                        None => r == Err::<FutureValueFields, FutureValueFieldError>(
                            FutureValueFieldError::MissingValue,
                        ),
                        Some(v) => r matches Ok(FutureValueFields::ParseUnknown(p)) && p@ == v@,
                    }
                } else {
                    &&& r matches Ok(FutureValueFields::Json(j))
                    &&& r->Ok_0->Json_0.value_type@ == t@
                    &&& r->Ok_0->Json_0.value@ == match value {
                        Some(v) => v@,
                        None => Seq::<char>::empty(),
                    }
                },
            },
    {
        let value_type = match value_type {
            Some(t) => t,
            None => return Err(FutureValueFieldError::MissingValueType),
        };
        let unknown = String::from_str("unknown");
        proof {
            reveal_strlit("unknown");
        }
        if value_type == unknown {
            match value {
                Some(v) => Ok(FutureValueFields::ParseUnknown(v)),
                None => Err(FutureValueFieldError::MissingValue),
            }
        } else {
            let value = match value {
                Some(v) => v,
                None => String::new(),
            };
            Ok(FutureValueFields::Json(JsonUnknown { value_type, value }))
        }
    }
}

} // verus!

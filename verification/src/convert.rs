//! Conversion of native values into JSON values.
//!
//! Every conversion is total. A signed integer becomes `Uint` where it is
//! not negative and `Int` where it is.

use crate::json_array::JsonArray;
use crate::json_object::JsonObject;
use crate::json_value::{Json, JsonValue};
use vstd::prelude::*;
use vstd::std_specs::convert::FromSpecImpl;

verus! {

impl From<bool> for JsonValue {
    fn from(v: bool) -> (r: JsonValue) {
        JsonValue::Bool(v)
    }
}

impl FromSpecImpl<bool> for JsonValue {
    open spec fn obeys_from_spec() -> bool {
        true
    }

    open spec fn from_spec(v: bool) -> JsonValue {
        JsonValue::Bool(v)
    }
}

impl From<&str> for JsonValue {
    fn from(v: &str) -> (r: JsonValue)
        ensures
            r@ == Json::String(v@),
    {
        JsonValue::String(v.to_owned())
    }
}

impl FromSpecImpl<&str> for JsonValue {
    open spec fn obeys_from_spec() -> bool {
        false
    }

    open spec fn from_spec(v: &str) -> JsonValue {
        JsonValue::Null
    }
}

impl From<String> for JsonValue {
    fn from(v: String) -> (r: JsonValue) {
        JsonValue::String(v)
    }
}

impl FromSpecImpl<String> for JsonValue {
    open spec fn obeys_from_spec() -> bool {
        true
    }

    open spec fn from_spec(v: String) -> JsonValue {
        JsonValue::String(v)
    }
}

impl From<JsonObject> for JsonValue {
    fn from(value: JsonObject) -> (r: JsonValue) {
        JsonValue::Object(value)
    }
}

impl FromSpecImpl<JsonObject> for JsonValue {
    open spec fn obeys_from_spec() -> bool {
        true
    }

    open spec fn from_spec(value: JsonObject) -> JsonValue {
        JsonValue::Object(value)
    }
}

impl From<JsonArray> for JsonValue {
    fn from(value: JsonArray) -> (r: JsonValue) {
        JsonValue::Array(value)
    }
}

impl FromSpecImpl<JsonArray> for JsonValue {
    open spec fn obeys_from_spec() -> bool {
        true
    }

    open spec fn from_spec(value: JsonArray) -> JsonValue {
        JsonValue::Array(value)
    }
}

impl From<i8> for JsonValue {
    fn from(value: i8) -> (r: JsonValue) {
        if value >= 0 {
            JsonValue::Uint(value as u128)
        } else {
            JsonValue::Int(value as i128)
        }
    }
}

impl FromSpecImpl<i8> for JsonValue {
    open spec fn obeys_from_spec() -> bool {
        true
    }

    open spec fn from_spec(value: i8) -> JsonValue {
        if value >= 0 {
            JsonValue::Uint(value as u128)
        } else {
            JsonValue::Int(value as i128)
        }
    }
}

impl From<i16> for JsonValue {
    fn from(value: i16) -> (r: JsonValue) {
        if value >= 0 {
            JsonValue::Uint(value as u128)
        } else {
            JsonValue::Int(value as i128)
        }
    }
}

impl FromSpecImpl<i16> for JsonValue {
    open spec fn obeys_from_spec() -> bool {
        true
    }

    open spec fn from_spec(value: i16) -> JsonValue {
        if value >= 0 {
            JsonValue::Uint(value as u128)
        } else {
            JsonValue::Int(value as i128)
        }
    }
}

impl From<i32> for JsonValue {
    fn from(value: i32) -> (r: JsonValue) {
        if value >= 0 {
            JsonValue::Uint(value as u128)
        } else {
            JsonValue::Int(value as i128)
        }
    }
}

impl FromSpecImpl<i32> for JsonValue {
    open spec fn obeys_from_spec() -> bool {
        true
    }

    open spec fn from_spec(value: i32) -> JsonValue {
        if value >= 0 {
            JsonValue::Uint(value as u128)
        } else {
            JsonValue::Int(value as i128)
        }
    }
}

impl From<i64> for JsonValue {
    fn from(value: i64) -> (r: JsonValue) {
        if value >= 0 {
            JsonValue::Uint(value as u128)
        } else {
            JsonValue::Int(value as i128)
        }
    }
}

impl FromSpecImpl<i64> for JsonValue {
    open spec fn obeys_from_spec() -> bool {
        true
    }

    open spec fn from_spec(value: i64) -> JsonValue {
        if value >= 0 {
            JsonValue::Uint(value as u128)
        } else {
            JsonValue::Int(value as i128)
        }
    }
}

impl From<i128> for JsonValue {
    fn from(value: i128) -> (r: JsonValue) {
        if value >= 0 {
            JsonValue::Uint(value as u128)
        } else {
            JsonValue::Int(value)
        }
    }
}

impl FromSpecImpl<i128> for JsonValue {
    open spec fn obeys_from_spec() -> bool {
        true
    }

    open spec fn from_spec(value: i128) -> JsonValue {
        if value >= 0 {
            JsonValue::Uint(value as u128)
        } else {
            JsonValue::Int(value)
        }
    }
}

impl From<u8> for JsonValue {
    fn from(value: u8) -> (r: JsonValue) {
        JsonValue::Uint(value as u128)
    }
}

impl FromSpecImpl<u8> for JsonValue {
    open spec fn obeys_from_spec() -> bool {
        true
    }

    open spec fn from_spec(value: u8) -> JsonValue {
        JsonValue::Uint(value as u128)
    }
}

impl From<u16> for JsonValue {
    fn from(value: u16) -> (r: JsonValue) {
        JsonValue::Uint(value as u128)
    }
}

impl FromSpecImpl<u16> for JsonValue {
    open spec fn obeys_from_spec() -> bool {
        true
    }

    open spec fn from_spec(value: u16) -> JsonValue {
        JsonValue::Uint(value as u128)
    }
}

impl From<u32> for JsonValue {
    fn from(value: u32) -> (r: JsonValue) {
        JsonValue::Uint(value as u128)
    }
}

impl FromSpecImpl<u32> for JsonValue {
    open spec fn obeys_from_spec() -> bool {
        true
    }

    open spec fn from_spec(value: u32) -> JsonValue {
        JsonValue::Uint(value as u128)
    }
}

impl From<u64> for JsonValue {
    fn from(value: u64) -> (r: JsonValue) {
        JsonValue::Uint(value as u128)
    }
}

impl FromSpecImpl<u64> for JsonValue {
    open spec fn obeys_from_spec() -> bool {
        true
    }

    open spec fn from_spec(value: u64) -> JsonValue {
        JsonValue::Uint(value as u128)
    }
}

impl From<u128> for JsonValue {
    fn from(value: u128) -> (r: JsonValue) {
        JsonValue::Uint(value)
    }
}

impl FromSpecImpl<u128> for JsonValue {
    open spec fn obeys_from_spec() -> bool {
        true
    }

    open spec fn from_spec(value: u128) -> JsonValue {
        JsonValue::Uint(value)
    }
}

} // verus!

//! Typed access to a value, with the coercions between its variants.

use crate::error::{Error, ErrorKind, failed};
use crate::json_array::JsonArray;
use crate::json_object::JsonObject;
use crate::json_value::{Json, JsonValue};
use crate::number::{is_word, word_matches};
use vstd::prelude::*;
use vstd::string::StringSliceAdditionalSpecFns;
use vstd::utf8::encode_utf8;

verus! {

/// `String::as_mut_str` lends the whole text of the string for changing it.
pub assume_specification[ std::string::String::as_mut_str ](
    text: &mut std::string::String,
) -> (r: &mut str)
    ensures
        r@ == old(text)@,
        final(text)@ == final(r)@,
;

/// Whether a result is the one that is owed: the value, or a failure of the
/// kind.
pub open spec fn granted<T>(r: Result<T, Error>, owed: Result<T, ErrorKind>) -> bool {
    match owed {
        Ok(value) => r == Ok::<T, Error>(value),
        Err(kind) => failed(r, kind),
    }
}

/// The value of a result, if it is one.
pub open spec fn value_of<T>(owed: Result<T, ErrorKind>) -> Option<T> {
    match owed {
        Ok(value) => Some(value),
        Err(_) => None,
    }
}

/// The result as an option.
fn ok_of<T>(r: Result<T, Error>) -> (o: Option<T>)
    ensures
        o == match r {
            Ok(value) => Some(value),
            Err(_) => None,
        },
{
    match r {
        Ok(value) => Some(value),
        Err(_) => None,
    }
}

/// Whether a text is `word`, whatever the case of its letters.
pub open spec fn text_is(text: Seq<char>, word: Seq<u8>) -> bool {
    is_word(encode_utf8(text), word)
}

/// The boolean that a value stands for: a `Bool` itself, and a string that
/// is `true` or `false` in any case.
pub open spec fn bool_of(v: Json) -> Result<bool, ErrorKind> {
    match v {
        Json::Null => Err(ErrorKind::ValueIsNull),
        Json::Bool(b) => Ok(b),
        Json::String(s) => if text_is(s, seq![116u8, 114u8, 117u8, 101u8]) {
            Ok(true)
        } else if text_is(s, seq![102u8, 97u8, 108u8, 115u8, 101u8]) {
            Ok(false)
        } else {
            Err(ErrorKind::TypeMismatch)
        },
        _ => Err(ErrorKind::TypeMismatch),
    }
}

/// The `i8` that an integer value is cut down to: its low bits, whatever
/// its size.
pub open spec fn i8_of(v: Json) -> Result<i8, ErrorKind> {
    match v {
        Json::Null => Err(ErrorKind::ValueIsNull),
        Json::Uint(u) => Ok(u as i8),
        Json::Int(i) => Ok(i as i8),
        _ => Err(ErrorKind::TypeMismatch),
    }
}

/// The `i16` that an integer value is cut down to: its low bits, whatever
/// its size.
pub open spec fn i16_of(v: Json) -> Result<i16, ErrorKind> {
    match v {
        Json::Null => Err(ErrorKind::ValueIsNull),
        Json::Uint(u) => Ok(u as i16),
        Json::Int(i) => Ok(i as i16),
        _ => Err(ErrorKind::TypeMismatch),
    }
}

/// The `i32` that an integer value is cut down to: its low bits, whatever
/// its size.
pub open spec fn i32_of(v: Json) -> Result<i32, ErrorKind> {
    match v {
        Json::Null => Err(ErrorKind::ValueIsNull),
        Json::Uint(u) => Ok(u as i32),
        Json::Int(i) => Ok(i as i32),
        _ => Err(ErrorKind::TypeMismatch),
    }
}

/// The `i64` that an integer value is cut down to: its low bits, whatever
/// its size.
pub open spec fn i64_of(v: Json) -> Result<i64, ErrorKind> {
    match v {
        Json::Null => Err(ErrorKind::ValueIsNull),
        Json::Uint(u) => Ok(u as i64),
        Json::Int(i) => Ok(i as i64),
        _ => Err(ErrorKind::TypeMismatch),
    }
}

/// The `i128` that an integer value is cut down to: its low bits, whatever
/// its size.
pub open spec fn i128_of(v: Json) -> Result<i128, ErrorKind> {
    match v {
        Json::Null => Err(ErrorKind::ValueIsNull),
        Json::Uint(u) => Ok(u as i128),
        Json::Int(i) => Ok(i as i128),
        _ => Err(ErrorKind::TypeMismatch),
    }
}

/// The `u8` that an integer value is cut down to: its low bits, whatever
/// its size. A negative integer has none.
pub open spec fn u8_of(v: Json) -> Result<u8, ErrorKind> {
    match v {
        Json::Null => Err(ErrorKind::ValueIsNull),
        Json::Uint(u) => Ok(u as u8),
        Json::Int(i) => if i >= 0 {
            Ok(i as u8)
        } else {
            Err(ErrorKind::TypeMismatch)
        },
        _ => Err(ErrorKind::TypeMismatch),
    }
}

/// The `u16` that an integer value is cut down to: its low bits, whatever
/// its size. A negative integer has none.
pub open spec fn u16_of(v: Json) -> Result<u16, ErrorKind> {
    match v {
        Json::Null => Err(ErrorKind::ValueIsNull),
        Json::Uint(u) => Ok(u as u16),
        Json::Int(i) => if i >= 0 {
            Ok(i as u16)
        } else {
            Err(ErrorKind::TypeMismatch)
        },
        _ => Err(ErrorKind::TypeMismatch),
    }
}

/// The `u32` that an integer value is cut down to: its low bits, whatever
/// its size. A negative integer has none.
pub open spec fn u32_of(v: Json) -> Result<u32, ErrorKind> {
    match v {
        Json::Null => Err(ErrorKind::ValueIsNull),
        Json::Uint(u) => Ok(u as u32),
        Json::Int(i) => if i >= 0 {
            Ok(i as u32)
        } else {
            Err(ErrorKind::TypeMismatch)
        },
        _ => Err(ErrorKind::TypeMismatch),
    }
}

/// The `u64` that an integer value is cut down to: its low bits, whatever
/// its size. A negative integer has none.
pub open spec fn u64_of(v: Json) -> Result<u64, ErrorKind> {
    match v {
        Json::Null => Err(ErrorKind::ValueIsNull),
        Json::Uint(u) => Ok(u as u64),
        Json::Int(i) => if i >= 0 {
            Ok(i as u64)
        } else {
            Err(ErrorKind::TypeMismatch)
        },
        _ => Err(ErrorKind::TypeMismatch),
    }
}

/// The `u128` that an integer value is cut down to: its low bits, whatever
/// its size. A negative integer has none.
pub open spec fn u128_of(v: Json) -> Result<u128, ErrorKind> {
    match v {
        Json::Null => Err(ErrorKind::ValueIsNull),
        Json::Uint(u) => Ok(u as u128),
        Json::Int(i) => if i >= 0 {
            Ok(i as u128)
        } else {
            Err(ErrorKind::TypeMismatch)
        },
        _ => Err(ErrorKind::TypeMismatch),
    }
}

/// The text of a string value.
pub open spec fn text_of(v: Json) -> Result<Seq<char>, ErrorKind> {
    match v {
        Json::Null => Err(ErrorKind::ValueIsNull),
        Json::String(s) => Ok(s),
        _ => Err(ErrorKind::TypeMismatch),
    }
}

/// The pairs of an object value.
pub open spec fn entries_of(v: Json) -> Result<Seq<(Seq<char>, Json)>, ErrorKind> {
    match v {
        Json::Null => Err(ErrorKind::ValueIsNull),
        Json::Object(entries) => Ok(entries),
        _ => Err(ErrorKind::TypeMismatch),
    }
}

/// The elements of an array value.
pub open spec fn items_of(v: Json) -> Result<Seq<Json>, ErrorKind> {
    match v {
        Json::Null => Err(ErrorKind::ValueIsNull),
        Json::Array(items) => Ok(items),
        _ => Err(ErrorKind::TypeMismatch),
    }
}

impl JsonValue {
    /// Whether the value is `Null`.
    pub fn is_null(&self) -> (r: bool)
        ensures
            r == (self@ is Null),
    {
        match self {
            JsonValue::Null => true,
            _ => false,
        }
    }

    /// Convert to `bool`.
    pub fn as_bool(&self) -> (r: Result<bool, Error>)
        ensures
            granted(r, bool_of(self@)),
    {
        match self {
            JsonValue::Null => Err(Error::new(ErrorKind::ValueIsNull, "value is null")),
            JsonValue::Bool(value) => Ok(*value),
            JsonValue::String(value) => {
                let bytes = value.as_str().as_bytes();
                let true_word: [u8; 4] = [116, 114, 117, 101];
                let false_word: [u8; 5] = [102, 97, 108, 115, 101];
                assert(true_word@ =~= seq![116u8, 114u8, 117u8, 101u8]);
                assert(false_word@ =~= seq![102u8, 97u8, 108u8, 115u8, 101u8]);
                assert(bytes@.subrange(0, bytes@.len() as int) =~= bytes@);
                if word_matches(bytes, 0, bytes.len(), true_word.as_slice()) {
                    Ok(true)
                } else if word_matches(bytes, 0, bytes.len(), false_word.as_slice()) {
                    Ok(false)
                } else {
                    Err(Error::new(ErrorKind::TypeMismatch, "need bool but get string"))
                }
            },
            _ => Err(Error::new(ErrorKind::TypeMismatch, "need bool")),
        }
    }

    /// Convert to `i8`.
    pub fn as_i8(&self) -> (r: Result<i8, Error>)
        ensures
            granted(r, i8_of(self@)),
    {
        match self {
            JsonValue::Null => Err(Error::new(ErrorKind::ValueIsNull, "value is null")),
            JsonValue::Uint(value) => Ok(#[verifier::truncate] (*value as i8)),
            JsonValue::Int(value) => Ok(#[verifier::truncate] (*value as i8)),
            _ => Err(Error::new(ErrorKind::TypeMismatch, "need i8")),
        }
    }

    /// Convert to `i16`.
    pub fn as_i16(&self) -> (r: Result<i16, Error>)
        ensures
            granted(r, i16_of(self@)),
    {
        match self {
            JsonValue::Null => Err(Error::new(ErrorKind::ValueIsNull, "value is null")),
            JsonValue::Uint(value) => Ok(#[verifier::truncate] (*value as i16)),
            JsonValue::Int(value) => Ok(#[verifier::truncate] (*value as i16)),
            _ => Err(Error::new(ErrorKind::TypeMismatch, "need i16")),
        }
    }

    /// Convert to `i32`.
    pub fn as_i32(&self) -> (r: Result<i32, Error>)
        ensures
            granted(r, i32_of(self@)),
    {
        match self {
            JsonValue::Null => Err(Error::new(ErrorKind::ValueIsNull, "value is null")),
            JsonValue::Uint(value) => Ok(#[verifier::truncate] (*value as i32)),
            JsonValue::Int(value) => Ok(#[verifier::truncate] (*value as i32)),
            _ => Err(Error::new(ErrorKind::TypeMismatch, "need i32")),
        }
    }

    /// Convert to `i64`.
    pub fn as_i64(&self) -> (r: Result<i64, Error>)
        ensures
            granted(r, i64_of(self@)),
    {
        match self {
            JsonValue::Null => Err(Error::new(ErrorKind::ValueIsNull, "value is null")),
            JsonValue::Uint(value) => Ok(#[verifier::truncate] (*value as i64)),
            JsonValue::Int(value) => Ok(#[verifier::truncate] (*value as i64)),
            _ => Err(Error::new(ErrorKind::TypeMismatch, "need i64")),
        }
    }

    /// Convert to `i128`.
    pub fn as_i128(&self) -> (r: Result<i128, Error>)
        ensures
            granted(r, i128_of(self@)),
    {
        match self {
            JsonValue::Null => Err(Error::new(ErrorKind::ValueIsNull, "value is null")),
            JsonValue::Uint(value) => Ok(#[verifier::truncate] (*value as i128)),
            JsonValue::Int(value) => Ok(*value),
            _ => Err(Error::new(ErrorKind::TypeMismatch, "need i128")),
        }
    }

    /// Convert to `u8`.
    pub fn as_u8(&self) -> (r: Result<u8, Error>)
        ensures
            granted(r, u8_of(self@)),
    {
        match self {
            JsonValue::Null => Err(Error::new(ErrorKind::ValueIsNull, "value is null")),
            JsonValue::Uint(value) => Ok(#[verifier::truncate] (*value as u8)),
            JsonValue::Int(value) => {
                if *value >= 0 {
                    Ok(#[verifier::truncate] (*value as u8))
                } else {
                    Err(Error::new(ErrorKind::TypeMismatch, "need u8 but get less than 0"))
                }
            },
            _ => Err(Error::new(ErrorKind::TypeMismatch, "need u8")),
        }
    }

    /// Convert to `u16`.
    pub fn as_u16(&self) -> (r: Result<u16, Error>)
        ensures
            granted(r, u16_of(self@)),
    {
        match self {
            JsonValue::Null => Err(Error::new(ErrorKind::ValueIsNull, "value is null")),
            JsonValue::Uint(value) => Ok(#[verifier::truncate] (*value as u16)),
            JsonValue::Int(value) => {
                if *value >= 0 {
                    Ok(#[verifier::truncate] (*value as u16))
                } else {
                    Err(Error::new(ErrorKind::TypeMismatch, "need u16 but get less than 0"))
                }
            },
            _ => Err(Error::new(ErrorKind::TypeMismatch, "need u16")),
        }
    }

    /// Convert to `u32`.
    pub fn as_u32(&self) -> (r: Result<u32, Error>)
        ensures
            granted(r, u32_of(self@)),
    {
        match self {
            JsonValue::Null => Err(Error::new(ErrorKind::ValueIsNull, "value is null")),
            JsonValue::Uint(value) => Ok(#[verifier::truncate] (*value as u32)),
            JsonValue::Int(value) => {
                if *value >= 0 {
                    Ok(#[verifier::truncate] (*value as u32))
                } else {
                    Err(Error::new(ErrorKind::TypeMismatch, "need u32 but get less than 0"))
                }
            },
            _ => Err(Error::new(ErrorKind::TypeMismatch, "need u32")),
        }
    }

    /// Convert to `u64`.
    pub fn as_u64(&self) -> (r: Result<u64, Error>)
        ensures
            granted(r, u64_of(self@)),
    {
        match self {
            JsonValue::Null => Err(Error::new(ErrorKind::ValueIsNull, "value is null")),
            JsonValue::Uint(value) => Ok(#[verifier::truncate] (*value as u64)),
            JsonValue::Int(value) => {
                if *value >= 0 {
                    Ok(#[verifier::truncate] (*value as u64))
                } else {
                    Err(Error::new(ErrorKind::TypeMismatch, "need u64 but get less than 0"))
                }
            },
            _ => Err(Error::new(ErrorKind::TypeMismatch, "need u64")),
        }
    }

    /// Convert to `u128`.
    pub fn as_u128(&self) -> (r: Result<u128, Error>)
        ensures
            granted(r, u128_of(self@)),
    {
        match self {
            JsonValue::Null => Err(Error::new(ErrorKind::ValueIsNull, "value is null")),
            JsonValue::Uint(value) => Ok(*value),
            JsonValue::Int(value) => {
                if *value >= 0 {
                    Ok(#[verifier::truncate] (*value as u128))
                } else {
                    Err(Error::new(ErrorKind::TypeMismatch, "need u128 but get less than 0"))
                }
            },
            _ => Err(Error::new(ErrorKind::TypeMismatch, "need u128")),
        }
    }

    /// Convert to `&str`.
    pub fn as_str(&self) -> (r: Result<&str, Error>)
        ensures
            match text_of(self@) {
                Ok(text) => r is Ok && r->Ok_0@ == text,
                Err(kind) => failed(r, kind),
            },
    {
        match self {
            JsonValue::Null => Err(Error::new(ErrorKind::ValueIsNull, "value is null")),
            JsonValue::String(str) => Ok(str.as_str()),
            _ => Err(Error::new(ErrorKind::TypeMismatch, "need string")),
        }
    }

    /// Convert to `&mut JsonObject`.
    pub fn as_object_mut_ref(&mut self) -> (r: Result<&mut JsonObject, Error>)
        ensures
            match entries_of(old(self)@) {
                Ok(entries) => r is Ok && (*r->Ok_0)@ == entries && final(self)@ == Json::Object(
                    (*final(r->Ok_0))@,
                ),
                Err(kind) => failed(r, kind) && final(self)@ == old(self)@,
            },
    {
        match self {
            JsonValue::Null => Err(Error::new(ErrorKind::ValueIsNull, "value is null")),
            JsonValue::Object(object) => Ok(object),
            _ => Err(Error::new(ErrorKind::TypeMismatch, "need json object")),
        }
    }

    /// Convert to `&mut JsonArray`.
    pub fn as_array_mut_ref(&mut self) -> (r: Result<&mut JsonArray, Error>)
        ensures
            match items_of(old(self)@) {
                Ok(items) => r is Ok && (*r->Ok_0)@ == items && final(self)@ == Json::Array(
                    (*final(r->Ok_0))@,
                ),
                Err(kind) => failed(r, kind) && final(self)@ == old(self)@,
            },
    {
        match self {
            JsonValue::Null => Err(Error::new(ErrorKind::ValueIsNull, "value is null")),
            JsonValue::Array(array) => Ok(array),
            _ => Err(Error::new(ErrorKind::TypeMismatch, "need json array")),
        }
    }

    /// Convert to `&mut str`.
    pub fn as_mut_str(&mut self) -> (r: Result<&mut str, Error>)
        ensures
            match text_of(old(self)@) {
                Ok(text) => r is Ok && (*r->Ok_0)@ == text && final(self)@ == Json::String(
                    (*final(r->Ok_0))@,
                ),
                Err(kind) => failed(r, kind) && final(self)@ == old(self)@,
            },
    {
        match self {
            JsonValue::Null => Err(Error::new(ErrorKind::ValueIsNull, "value is null")),
            JsonValue::String(str) => Ok(str.as_mut_str()),
            _ => Err(Error::new(ErrorKind::TypeMismatch, "need string")),
        }
    }

    /// Convert to `&mut str`.
    pub fn opt_mut_str(&mut self) -> (r: Option<&mut str>)
        ensures
            match text_of(old(self)@) {
                Ok(text) => r is Some && (*r->Some_0)@ == text && final(self)@ == Json::String(
                    (*final(r->Some_0))@,
                ),
                Err(_) => r is None && final(self)@ == old(self)@,
            },
    {
        match self {
            JsonValue::String(str) => Some(str.as_mut_str()),
            _ => None,
        }
    }

    /// Convert to `&mut JsonObject`.
    pub fn opt_object_mut_ref(&mut self) -> (r: Option<&mut JsonObject>)
        ensures
            match entries_of(old(self)@) {
                Ok(entries) => r is Some && (*r->Some_0)@ == entries && final(self)@
                    == Json::Object((*final(r->Some_0))@),
                Err(_) => r is None && final(self)@ == old(self)@,
            },
    {
        match self {
            JsonValue::Object(object) => Some(object),
            _ => None,
        }
    }

    /// Convert to `&mut JsonArray`.
    pub fn opt_array_mut_ref(&mut self) -> (r: Option<&mut JsonArray>)
        ensures
            match items_of(old(self)@) {
                Ok(items) => r is Some && (*r->Some_0)@ == items && final(self)@ == Json::Array(
                    (*final(r->Some_0))@,
                ),
                Err(_) => r is None && final(self)@ == old(self)@,
            },
    {
        match self {
            JsonValue::Array(array) => Some(array),
            _ => None,
        }
    }

    /// Convert to `String`.
    pub fn as_string(self) -> (r: Result<String, Error>)
        ensures
            match text_of(self@) {
                Ok(text) => r is Ok && r->Ok_0@ == text,
                Err(kind) => failed(r, kind),
            },
    {
        match self {
            JsonValue::Null => Err(Error::new(ErrorKind::ValueIsNull, "value is null")),
            JsonValue::String(str) => Ok(str),
            _ => Err(Error::new(ErrorKind::TypeMismatch, "need string")),
        }
    }

    /// Convert to `&JsonObject`.
    pub fn as_object_ref(&self) -> (r: Result<&JsonObject, Error>)
        ensures
            match entries_of(self@) {
                Ok(entries) => r is Ok && r->Ok_0@ == entries,
                Err(kind) => failed(r, kind),
            },
    {
        match self {
            JsonValue::Null => Err(Error::new(ErrorKind::ValueIsNull, "value is null")),
            JsonValue::Object(object) => Ok(object),
            _ => Err(Error::new(ErrorKind::TypeMismatch, "need json object")),
        }
    }

    /// Convert to `JsonObject`.
    pub fn as_object(self) -> (r: Result<JsonObject, Error>)
        ensures
            match entries_of(self@) {
                Ok(entries) => r is Ok && r->Ok_0@ == entries,
                Err(kind) => failed(r, kind),
            },
    {
        match self {
            JsonValue::Null => Err(Error::new(ErrorKind::ValueIsNull, "value is null")),
            JsonValue::Object(object) => Ok(object),
            _ => Err(Error::new(ErrorKind::TypeMismatch, "need json object")),
        }
    }

    /// Convert to `&JsonArray`.
    pub fn as_array_ref(&self) -> (r: Result<&JsonArray, Error>)
        ensures
            match items_of(self@) {
                Ok(items) => r is Ok && r->Ok_0@ == items,
                Err(kind) => failed(r, kind),
            },
    {
        match self {
            JsonValue::Null => Err(Error::new(ErrorKind::ValueIsNull, "value is null")),
            JsonValue::Array(array) => Ok(array),
            _ => Err(Error::new(ErrorKind::TypeMismatch, "need json array")),
        }
    }

    /// Convert to `JsonArray`.
    pub fn as_array(self) -> (r: Result<JsonArray, Error>)
        ensures
            match items_of(self@) {
                Ok(items) => r is Ok && r->Ok_0@ == items,
                Err(kind) => failed(r, kind),
            },
    {
        match self {
            JsonValue::Null => Err(Error::new(ErrorKind::ValueIsNull, "value is null")),
            JsonValue::Array(array) => Ok(array),
            _ => Err(Error::new(ErrorKind::TypeMismatch, "need json array")),
        }
    }

    /// Convert to `bool`.
    pub fn opt_bool(&self) -> (r: Option<bool>)
        ensures
            r == value_of(bool_of(self@)),
    {
        ok_of(self.as_bool())
    }

    /// Convert to `i8`.
    pub fn opt_i8(&self) -> (r: Option<i8>)
        ensures
            r == value_of(i8_of(self@)),
    {
        ok_of(self.as_i8())
    }

    /// Convert to `i16`.
    pub fn opt_i16(&self) -> (r: Option<i16>)
        ensures
            r == value_of(i16_of(self@)),
    {
        ok_of(self.as_i16())
    }

    /// Convert to `i32`.
    pub fn opt_i32(&self) -> (r: Option<i32>)
        ensures
            r == value_of(i32_of(self@)),
    {
        ok_of(self.as_i32())
    }

    /// Convert to `i64`.
    pub fn opt_i64(&self) -> (r: Option<i64>)
        ensures
            r == value_of(i64_of(self@)),
    {
        ok_of(self.as_i64())
    }

    /// Convert to `i128`.
    pub fn opt_i128(&self) -> (r: Option<i128>)
        ensures
            r == value_of(i128_of(self@)),
    {
        ok_of(self.as_i128())
    }

    /// Convert to `u8`.
    pub fn opt_u8(&self) -> (r: Option<u8>)
        ensures
            r == value_of(u8_of(self@)),
    {
        ok_of(self.as_u8())
    }

    /// Convert to `u16`.
    pub fn opt_u16(&self) -> (r: Option<u16>)
        ensures
            r == value_of(u16_of(self@)),
    {
        ok_of(self.as_u16())
    }

    /// Convert to `u32`.
    pub fn opt_u32(&self) -> (r: Option<u32>)
        ensures
            r == value_of(u32_of(self@)),
    {
        ok_of(self.as_u32())
    }

    /// Convert to `u64`.
    pub fn opt_u64(&self) -> (r: Option<u64>)
        ensures
            r == value_of(u64_of(self@)),
    {
        ok_of(self.as_u64())
    }

    /// Convert to `u128`.
    pub fn opt_u128(&self) -> (r: Option<u128>)
        ensures
            r == value_of(u128_of(self@)),
    {
        ok_of(self.as_u128())
    }

    /// Convert to `&str`.
    pub fn opt_str(&self) -> (r: Option<&str>)
        ensures
            match text_of(self@) {
                Ok(wanted) => r is Some && r->Some_0@ == wanted,
                Err(_) => r is None,
            },
    {
        ok_of(self.as_str())
    }

    /// Convert to `String`.
    pub fn opt_string(self) -> (r: Option<String>)
        ensures
            match text_of(self@) {
                Ok(wanted) => r is Some && r->Some_0@ == wanted,
                Err(_) => r is None,
            },
    {
        ok_of(self.as_string())
    }

    /// Convert to `&JsonObject`.
    pub fn opt_object_ref(&self) -> (r: Option<&JsonObject>)
        ensures
            match entries_of(self@) {
                Ok(wanted) => r is Some && r->Some_0@ == wanted,
                Err(_) => r is None,
            },
    {
        ok_of(self.as_object_ref())
    }

    /// Convert to `JsonObject`.
    pub fn opt_object(self) -> (r: Option<JsonObject>)
        ensures
            match entries_of(self@) {
                Ok(wanted) => r is Some && r->Some_0@ == wanted,
                Err(_) => r is None,
            },
    {
        ok_of(self.as_object())
    }

    /// Convert to `&JsonArray`.
    pub fn opt_array_ref(&self) -> (r: Option<&JsonArray>)
        ensures
            match items_of(self@) {
                Ok(wanted) => r is Some && r->Some_0@ == wanted,
                Err(_) => r is None,
            },
    {
        ok_of(self.as_array_ref())
    }

    /// Convert to `JsonArray`.
    pub fn opt_array(self) -> (r: Option<JsonArray>)
        ensures
            match items_of(self@) {
                Ok(wanted) => r is Some && r->Some_0@ == wanted,
                Err(_) => r is None,
            },
    {
        ok_of(self.as_array())
    }
}

} // verus!

//! The value tree and its mathematical model.

use crate::json_array::JsonArray;
use crate::json_object::JsonObject;
use vstd::prelude::*;

verus! {

/// What a value tree is, as mathematics: the model that every contract of
/// this library speaks of. Text is a sequence of characters, an object a
/// sequence of key/value pairs in insertion order, an array a sequence of
/// values. A floating-point number is its decimal text.
pub enum Json {
    Null,
    Bool(bool),
    Int(i128),
    Uint(u128),
    Float(Seq<char>),
    String(Seq<char>),
    Object(Seq<(Seq<char>, Json)>),
    Array(Seq<Json>),
}

/// A JSON element.
///
/// An integer literal is held as `Uint` where it has no minus sign and as
/// `Int` where it has one; the typed accessors convert on demand. A
/// floating-point number is held as its decimal text, which the library
/// carries and renders but never computes with.
#[derive(Debug)]
pub enum JsonValue {
    Null,
    Bool(bool),
    Int(i128),
    Uint(u128),
    Float(String),
    String(String),
    Object(JsonObject),
    Array(JsonArray),
}

impl JsonValue {
    /// The model of this value.
    pub open spec fn view(&self) -> Json
        decreases self,
    {
        match self {
            JsonValue::Null => Json::Null,
            JsonValue::Bool(b) => Json::Bool(*b),
            JsonValue::Int(i) => Json::Int(*i),
            JsonValue::Uint(u) => Json::Uint(*u),
            JsonValue::Float(t) => Json::Float(t@),
            JsonValue::String(s) => Json::String(s@),
            JsonValue::Object(o) => Json::Object(o.view()),
            JsonValue::Array(a) => Json::Array(a.view()),
        }
    }
}

impl Clone for JsonValue {
    /// A copy of the whole tree.
    fn clone(&self) -> (r: JsonValue)
        ensures
            r@ == self@,
        decreases self@, 0nat,
    {
        match self {
            JsonValue::Null => JsonValue::Null,
            JsonValue::Bool(b) => JsonValue::Bool(*b),
            JsonValue::Int(i) => JsonValue::Int(*i),
            JsonValue::Uint(u) => JsonValue::Uint(*u),
            JsonValue::Float(t) => JsonValue::Float(t.clone()),
            JsonValue::String(s) => JsonValue::String(s.clone()),
            JsonValue::Object(o) => JsonValue::Object(o.clone()),
            JsonValue::Array(a) => {
                proof {
                    assert(decreases_to!(self@ => self@->Array_0));
                }
                JsonValue::Array(a.clone())
            },
        }
    }
}

} // verus!

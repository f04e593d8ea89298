//! A lenient JSON engine: text is parsed into a value tree, and a value tree
//! is rendered back to text under a formatting configuration.
//!
//! The accepted dialect is a superset of standard JSON: comments, `=` and
//! `=>` as key separators, `;` as element separator, octal and hexadecimal
//! integers and omitted array elements are all read.

pub mod access;
pub mod builder;
pub mod convert;
pub mod error;
pub mod grammar;
pub mod json_array;
pub mod json_object;
pub mod json_value;
pub mod laws;
pub mod number;
mod paint;
pub mod roundtrip;
pub mod search;
pub mod tokener;
pub mod utils;

pub use builder::{BuildConfig, ToJson};
pub use error::{Error, ErrorKind};
pub use json_array::JsonArray;
pub use json_object::JsonObject;
pub use json_value::{Json, JsonValue};
pub use search::{index_of_all, index_of_any};
pub use tokener::JsonTokener;
pub use utils::{replace_escape, utf8_acc_cont_byte, CONT_MASK};

use error::failed;
use grammar::parse_text;
use vstd::prelude::*;

verus! {

/// Parses the first value of `str`.
///
/// What follows that value is ignored.
pub fn parse(str: &str) -> (r: Result<JsonValue, Error>)
    ensures
        match parse_text(str@) {
            Ok(value) => r is Ok && r->Ok_0@ == value,
            Err(kind) => failed(r, kind),
        },
{
    let mut tokener = JsonTokener::new(str);
    tokener.next_value()
}

} // verus!

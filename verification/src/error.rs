//! The failure kinds of parsing and of typed access, with a short message.

use vstd::prelude::*;
use vstd::std_specs::convert::FromSpecImpl;
use vstd::string::StringExecFns;

verus! {

/// Every way in which parsing or a typed access can fail.
#[derive(Debug, Clone, Copy, PartialEq, Eq, Structural)]
pub enum ErrorKind {
    /// The input ended in the middle of a construct.
    EndOfInput,
    /// An unexpected character, or a malformed construct.
    SyntaxError,
    /// A numeric literal, or the digits of a `\u` escape, did not parse.
    NumberParseError,
    /// The bits are well formed but stand for no value of the target type.
    CastError,
    /// No value is stored under the key.
    NotFound,
    /// The value's variant is not the one that was asked for.
    TypeMismatch,
    /// The value is `Null` where a concrete value was asked for.
    ValueIsNull,
}

/// A failure: its kind and a message for the reader.
#[derive(Debug, Clone, Copy)]
pub struct Error {
    pub kind: ErrorKind,
    pub msg: &'static str,
}

/// The name under which a kind is printed.
pub open spec fn kind_name(kind: ErrorKind) -> Seq<char> {
    match kind {
        ErrorKind::EndOfInput => "EndOfInput"@,
        ErrorKind::SyntaxError => "SyntaxError"@,
        ErrorKind::NumberParseError => "NumberParseError"@,
        ErrorKind::CastError => "CastError"@,
        ErrorKind::NotFound => "NotFound"@,
        ErrorKind::TypeMismatch => "TypeMismatch"@,
        ErrorKind::ValueIsNull => "ValueIsNull"@,
    }
}

/// Whether `r` is a failure of the kind `kind`.
pub open spec fn failed<T>(r: Result<T, Error>, kind: ErrorKind) -> bool {
    r is Err && r->Err_0.kind == kind
}

impl ErrorKind {
    /// The kind's name as text.
    pub fn name(&self) -> (r: &'static str)
        ensures
            r@ == kind_name(*self),
    {
        match self {
            ErrorKind::EndOfInput => "EndOfInput",
            ErrorKind::SyntaxError => "SyntaxError",
            ErrorKind::NumberParseError => "NumberParseError",
            ErrorKind::CastError => "CastError",
            ErrorKind::NotFound => "NotFound",
            ErrorKind::TypeMismatch => "TypeMismatch",
            ErrorKind::ValueIsNull => "ValueIsNull",
        }
    }
}

impl Error {
    pub fn new(kind: ErrorKind, msg: &'static str) -> (e: Error)
        ensures
            e.kind == kind,
            e.msg == msg,
    {
        Error { kind, msg }
    }

    /// The printed form: the kind's name, a colon, and the message.
    pub fn to_string(&self) -> (r: String)
        ensures
            r@ == kind_name(self.kind) + ":"@ + self.msg@,
    {
        let mut text = String::from_str(self.kind.name());
        text.append(":");
        text.append(self.msg);
        text
    }
}

/// The failure of reading an integer from text, as the standard library
/// reports it.
#[verifier::external_type_specification]
#[verifier::external_body]
pub struct ExParseIntError(std::num::ParseIntError);

/// The failure of reading a floating-point number from text, as the
/// standard library reports it.
#[verifier::external_type_specification]
#[verifier::external_body]
pub struct ExParseFloatError(std::num::ParseFloatError);

impl From<std::num::ParseIntError> for Error {
    fn from(_e: std::num::ParseIntError) -> (r: Error) {
        Error { kind: ErrorKind::NumberParseError, msg: "parse to int error" }
    }
}

impl FromSpecImpl<std::num::ParseIntError> for Error {
    open spec fn obeys_from_spec() -> bool {
        true
    }

    open spec fn from_spec(_e: std::num::ParseIntError) -> Error {
        Error { kind: ErrorKind::NumberParseError, msg: "parse to int error" }
    }
}

impl From<std::num::ParseFloatError> for Error {
    fn from(_e: std::num::ParseFloatError) -> (r: Error) {
        Error { kind: ErrorKind::NumberParseError, msg: "parse to float error" }
    }
}

impl FromSpecImpl<std::num::ParseFloatError> for Error {
    open spec fn obeys_from_spec() -> bool {
        true
    }

    open spec fn from_spec(_e: std::num::ParseFloatError) -> Error {
        Error { kind: ErrorKind::NumberParseError, msg: "parse to float error" }
    }
}

} // verus!

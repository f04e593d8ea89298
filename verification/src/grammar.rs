//! The lenient grammar, as functions of the input bytes.
//!
//! Every function here reads the input `b` from a position `pos` and says
//! what stands there and how many bytes it takes. The structural characters
//! are all ASCII, so the grammar is stated over bytes; the text of a string
//! or of a number is the UTF-8 decoding of the bytes it spans.

use crate::error::ErrorKind;
use crate::json_object::entries_insert;
use crate::json_value::Json;
use crate::number::{is_float_text, is_word, parse_signed, parse_unsigned};
use vstd::prelude::*;
use vstd::utf8::{decode_utf8, encode_utf8, is_scalar};

verus! {

/// The number of bytes from `pos` to the end of the input.
pub open spec fn rest(b: Seq<u8>, pos: int) -> nat {
    if pos <= b.len() {
        (b.len() - pos) as nat
    } else {
        0
    }
}

/// Tab, space, newline and carriage return.
pub open spec fn is_blank(c: u8) -> bool {
    c == 9 || c == 32 || c == 10 || c == 13
}

/// Newline and carriage return.
pub open spec fn is_line_end(c: u8) -> bool {
    c == 10 || c == 13
}

/// The bytes that end a literal: `{}[]/\:,=;#`, space, tab, form feed,
/// newline and carriage return.
pub open spec fn is_literal_end(c: u8) -> bool {
    c == 123 || c == 125 || c == 91 || c == 93 || c == 47 || c == 92 || c == 58 || c == 44 || c
        == 61 || c == 59 || c == 35 || c == 32 || c == 9 || c == 12 || c == 10 || c == 13
}

/// The length of the rest of the line that starts at `pos`, with the byte
/// that ends it; the line also ends where the input does.
pub open spec fn line_len(b: Seq<u8>, pos: int) -> nat
    decreases rest(b, pos),
{
    if pos < 0 || pos >= b.len() {
        0
    } else if is_line_end(b[pos]) {
        1
    } else {
        1 + line_len(b, pos + 1)
    }
}

/// The length of the rest of a block comment that is open at `pos`, with its
/// closing `*/`; `None` where the input ends before one.
pub open spec fn block_len(b: Seq<u8>, pos: int) -> Option<nat>
    decreases rest(b, pos),
{
    if pos < 0 || pos + 2 > b.len() {
        None
    } else if b[pos] == 42 && b[pos + 1] == 47 {
        Some(2)
    } else {
        match block_len(b, pos + 1) {
            Some(n) => Some(n + 1),
            None => None,
        }
    }
}

/// A count of bytes after `n` more that were skipped before it.
pub open spec fn after(n: nat, r: Result<nat, ErrorKind>) -> Result<nat, ErrorKind> {
    match r {
        Ok(m) => Ok(n + m),
        Err(kind) => Err(kind),
    }
}

/// The number of bytes of white space and comments from `pos` on, up to the
/// next character that is neither.
///
/// `#` and `//` open a comment that runs to the end of the line, `/*` one
/// that runs to the first `*/`. A `/` that opens no comment is a character
/// like any other. `EndOfInput` where nothing but white space and comments
/// is left, `SyntaxError` where a block comment is not closed.
pub open spec fn clean_at(b: Seq<u8>, pos: int) -> Result<nat, ErrorKind>
    decreases rest(b, pos),
{
    if pos < 0 || pos >= b.len() {
        Err(ErrorKind::EndOfInput)
    } else if is_blank(b[pos]) {
        after(1, clean_at(b, pos + 1))
    } else if b[pos] == 35 {
        let n = 1 + line_len(b, pos + 1);
        after(n, clean_at(b, pos + n))
    } else if b[pos] == 47 && pos + 1 < b.len() && b[pos + 1] == 47 {
        let n = 2 + line_len(b, pos + 2);
        after(n, clean_at(b, pos + n))
    } else if b[pos] == 47 && pos + 1 < b.len() && b[pos + 1] == 42 {
        match block_len(b, pos + 2) {
            None => Err(ErrorKind::SyntaxError),
            Some(m) => after(2 + m, clean_at(b, pos + 2 + m)),
        }
    } else {
        Ok(0)
    }
}

/// The code point of a surrogate pair.
pub open spec fn combine_surrogates(hi: u32, lo: u32) -> u32 {
    (((((hi - 0xD800) as u32) << 10) | ((lo - 0xDC00) as u32)) + 0x10000) as u32
}

/// The character of a `\u` escape whose four hexadecimal digits start at
/// `pos`, and the number of bytes that the escape takes from there.
///
/// A first unit in the high-surrogate range `D800..=DBFF` asks for a second
/// escape `\uXXXX` right behind it, and the two are combined. A code that
/// is no character, such as a low surrogate that stands alone, is a
/// `CastError`, and so is a second unit below `DC00`.
pub open spec fn unicode_at(b: Seq<u8>, pos: int) -> Result<(char, nat), ErrorKind> {
    if pos + 3 >= b.len() {
        Err(ErrorKind::EndOfInput)
    } else {
        match parse_unsigned(b.subrange(pos, pos + 4), 16) {
            None => Err(ErrorKind::NumberParseError),
            Some(hi) => if 0xD800 <= hi <= 0xDBFF {
                if !(pos + 5 < b.len() && b[pos + 4] == 92 && b[pos + 5] == 117) {
                    Err(ErrorKind::SyntaxError)
                } else if pos + 9 >= b.len() {
                    Err(ErrorKind::EndOfInput)
                } else {
                    match parse_unsigned(b.subrange(pos + 6, pos + 10), 16) {
                        None => Err(ErrorKind::NumberParseError),
                        Some(lo) => if lo < 0xDC00 {
                            Err(ErrorKind::CastError)
                        } else {
                            let code = combine_surrogates(hi as u32, lo as u32);
                            if is_scalar(code) {
                                Ok((code as char, 10))
                            } else {
                                Err(ErrorKind::CastError)
                            }
                        },
                    }
                }
            } else if is_scalar(hi as u32) {
                Ok((hi as u32 as char, 4))
            } else {
                Err(ErrorKind::CastError)
            },
        }
    }
}

/// The character of the escape whose first byte, the one after the
/// backslash, is at `pos`, and the number of bytes that it takes from there.
pub open spec fn escape_at(b: Seq<u8>, pos: int) -> Result<(char, nat), ErrorKind> {
    let c = b[pos];
    if c == 117 {
        match unicode_at(b, pos + 1) {
            Ok((ch, n)) => Ok((ch, n + 1)),
            Err(kind) => Err(kind),
        }
    } else if c == 116 {
        Ok(('\t', 1))
    } else if c == 98 {
        Ok(('\x08', 1))
    } else if c == 110 {
        Ok(('\n', 1))
    } else if c == 114 {
        Ok(('\r', 1))
    } else if c == 102 {
        Ok(('\x0C', 1))
    } else if c == 39 {
        Ok(('\'', 1))
    } else if c == 34 {
        Ok(('"', 1))
    } else if c == 92 {
        Ok(('\\', 1))
    } else if c == 47 {
        Ok(('/', 1))
    } else {
        Err(ErrorKind::SyntaxError)
    }
}

/// The text of a quoted string and the number of bytes from `pos` through
/// the closing quote. `start` is where the bytes begin that were read since
/// the opening quote or the last escape and stand for themselves.
///
/// A newline or carriage return in the string is a `SyntaxError`; input that
/// ends before the closing quote is `EndOfInput`.
pub open spec fn string_at(b: Seq<u8>, start: int, pos: int, quote: u8) -> Result<
    (Seq<char>, nat),
    ErrorKind,
>
    decreases rest(b, pos),
{
    if pos < 0 || pos >= b.len() {
        Err(ErrorKind::EndOfInput)
    } else if b[pos] == quote {
        Ok((decode_utf8(b.subrange(start, pos)), 1))
    } else if is_line_end(b[pos]) {
        Err(ErrorKind::SyntaxError)
    } else if b[pos] == 92 {
        if pos + 1 >= b.len() {
            Err(ErrorKind::EndOfInput)
        } else {
            match escape_at(b, pos + 1) {
                Err(kind) => Err(kind),
                Ok((ch, n)) => match string_at(b, pos + 1 + n, pos + 1 + n, quote) {
                    Err(kind) => Err(kind),
                    Ok((tail, m)) => Ok(
                        (decode_utf8(b.subrange(start, pos)).push(ch) + tail, 1 + n + m),
                    ),
                },
            }
        }
    } else {
        match string_at(b, start, pos + 1, quote) {
            Err(kind) => Err(kind),
            Ok((text, m)) => Ok((text, 1 + m)),
        }
    }
}

/// The length of the literal that starts at `pos`: the bytes up to the
/// first one that ends a literal, or to the end of the input.
pub open spec fn literal_len(b: Seq<u8>, pos: int) -> nat
    decreases rest(b, pos),
{
    if pos < 0 || pos >= b.len() || is_literal_end(b[pos]) {
        0
    } else {
        1 + literal_len(b, pos + 1)
    }
}

pub open spec fn number_or(r: Option<Json>) -> Result<Json, ErrorKind> {
    match r {
        Some(value) => Ok(value),
        None => Err(ErrorKind::NumberParseError),
    }
}

pub open spec fn uint_of(r: Option<u128>) -> Option<Json> {
    match r {
        Some(value) => Some(Json::Uint(value)),
        None => None,
    }
}

pub open spec fn int_of(r: Option<i128>) -> Option<Json> {
    match r {
        Some(value) => Some(Json::Int(value)),
        None => None,
    }
}

/// The value that the text of a literal denotes.
///
/// `null`, `true` and `false` in any case; with a `.`, a floating-point
/// number; with the prefix `0x` or `0X`, a hexadecimal integer; with a
/// leading `0` and more behind it, an octal integer; else a decimal integer,
/// signed where it starts with `-`.
pub open spec fn literal_value(t: Seq<u8>) -> Result<Json, ErrorKind> {
    if t.len() == 0 {
        Err(ErrorKind::SyntaxError)
    } else if is_word(t, seq![110u8, 117u8, 108u8, 108u8]) {
        Ok(Json::Null)
    } else if is_word(t, seq![116u8, 114u8, 117u8, 101u8]) {
        Ok(Json::Bool(true))
    } else if is_word(t, seq![102u8, 97u8, 108u8, 115u8, 101u8]) {
        Ok(Json::Bool(false))
    } else if t.contains(46u8) {
        if is_float_text(t) {
            Ok(Json::Float(decode_utf8(t)))
        } else {
            Err(ErrorKind::NumberParseError)
        }
    } else if t.len() >= 2 && t[0] == 48 && (t[1] == 120 || t[1] == 88) {
        number_or(uint_of(parse_unsigned(t.subrange(2, t.len() as int), 16)))
    } else if t.len() >= 2 && t[0] == 48 {
        number_or(uint_of(parse_unsigned(t.subrange(1, t.len() as int), 8)))
    } else if t[0] == 45 {
        number_or(int_of(parse_signed(t, 10)))
    } else {
        number_or(uint_of(parse_unsigned(t, 10)))
    }
}

/// The literal that starts at `pos` and its length.
pub open spec fn literal_at(b: Seq<u8>, pos: int) -> Result<(Json, nat), ErrorKind> {
    let n = literal_len(b, pos);
    match literal_value(b.subrange(pos, pos + n)) {
        Ok(value) => Ok((value, n)),
        Err(kind) => Err(kind),
    }
}

/// The value that starts at `pos`, after white space and comments, and the
/// number of bytes from `pos` through its end.
pub open spec fn value_at(b: Seq<u8>, pos: int) -> Result<(Json, nat), ErrorKind>
    decreases rest(b, pos), 0nat,
{
    match clean_at(b, pos) {
        Err(kind) => Err(kind),
        Ok(s) => {
            let p = pos + s;
            let c = b[p];
            if c == 123 {
                match object_at(b, p + 1) {
                    Ok((entries, n)) => Ok((Json::Object(entries), s + 1 + n)),
                    Err(kind) => Err(kind),
                }
            } else if c == 91 {
                match array_at(b, p + 1, Seq::empty(), false) {
                    Ok((items, n)) => Ok((Json::Array(items), s + 1 + n)),
                    Err(kind) => Err(kind),
                }
            } else if c == 39 || c == 34 {
                match string_at(b, p + 1, p + 1, c) {
                    Ok((text, n)) => Ok((Json::String(text), s + 1 + n)),
                    Err(kind) => Err(kind),
                }
            } else {
                match literal_at(b, p) {
                    Ok((value, n)) => Ok((value, s + n)),
                    Err(kind) => Err(kind),
                }
            }
        },
    }
}

/// The pairs of the object whose opening brace ends just before `pos`, and
/// the number of bytes from `pos` through its closing brace.
pub open spec fn object_at(b: Seq<u8>, pos: int) -> Result<(Seq<(Seq<char>, Json)>, nat), ErrorKind>
    decreases rest(b, pos), 3nat,
{
    match clean_at(b, pos) {
        Err(kind) => Err(kind),
        Ok(s) => if b[pos + s] == 125 {
            Ok((Seq::empty(), s + 1))
        } else {
            match members_at(b, pos + s, Seq::empty()) {
                Ok((entries, n)) => Ok((entries, s + n)),
                Err(kind) => Err(kind),
            }
        },
    }
}

/// The separator between a key and its value, after white space and
/// comments: `:` or `=`, each optionally followed by `>`. Gives the number
/// of bytes from `pos` through the separator.
pub open spec fn separator_at(b: Seq<u8>, pos: int) -> Result<nat, ErrorKind> {
    match clean_at(b, pos) {
        Err(kind) => Err(kind),
        Ok(s) => {
            let p = pos + s;
            if b[p] != 58 && b[p] != 61 {
                Err(ErrorKind::SyntaxError)
            } else if p + 1 < b.len() && b[p + 1] == 62 {
                Ok(s + 2)
            } else {
                Ok(s + 1)
            }
        },
    }
}

/// The character behind an item, after white space and comments: `close`
/// ends the container, `;` or `,` goes on to the next item. Gives the
/// number of bytes from `pos` up to that character, and whether it ends the
/// container.
pub open spec fn closing_at(b: Seq<u8>, pos: int, close: u8) -> Result<(nat, bool), ErrorKind> {
    match clean_at(b, pos) {
        Err(kind) => Err(kind),
        Ok(s) => {
            let p = pos + s;
            if b[p] == close {
                Ok((s, true))
            } else if b[p] == 59 || b[p] == 44 {
                Ok((s, false))
            } else {
                Err(ErrorKind::SyntaxError)
            }
        },
    }
}

/// The member of an object that starts at `pos`: the pairs `acc` with the
/// member's pair inserted, the number of bytes from `pos` up to the
/// character that follows the member, and whether that character closes the
/// object.
///
/// A member is a string, a separator and a value. A pair replaces an
/// earlier one with the same key, and comes last.
pub open spec fn member_at(b: Seq<u8>, pos: int, acc: Seq<(Seq<char>, Json)>) -> Result<
    (Seq<(Seq<char>, Json)>, nat, bool),
    ErrorKind,
>
    decreases rest(b, pos), 1nat,
{
    match value_at(b, pos) {
        Err(kind) => Err(kind),
        Ok((Json::String(name), n1)) => match separator_at(b, pos + n1) {
            Err(kind) => Err(kind),
            Ok(k) => match value_at(b, pos + n1 + k) {
                Err(kind) => Err(kind),
                Ok((value, n2)) => match closing_at(b, pos + n1 + k + n2, 125) {
                    Err(kind) => Err(kind),
                    Ok((s, closed)) => Ok(
                        (entries_insert(acc, name, value), n1 + k + n2 + s, closed),
                    ),
                },
            },
        },
        Ok(_) => Err(ErrorKind::SyntaxError),
    }
}

/// The pairs of an object from the member that starts at `pos` on, added to
/// the pairs `acc` read before, and the number of bytes from `pos` through
/// the closing brace.
pub open spec fn members_at(b: Seq<u8>, pos: int, acc: Seq<(Seq<char>, Json)>) -> Result<
    (Seq<(Seq<char>, Json)>, nat),
    ErrorKind,
>
    decreases rest(b, pos), 2nat,
{
    if pos < 0 || pos >= b.len() {
        Err(ErrorKind::EndOfInput)
    } else {
        match member_at(b, pos, acc) {
            Err(kind) => Err(kind),
            Ok((entries, n, closed)) => if closed {
                Ok((entries, n + 1))
            } else {
                match members_at(b, pos + n + 1, entries) {
                    Ok((all, m)) => Ok((all, n + 1 + m)),
                    Err(kind) => Err(kind),
                }
            },
        }
    }
}

/// One step through an array from `pos`: the elements `acc` with what the
/// step adds, the number of bytes from `pos` up to the character that ends
/// the step, and whether that character closes the array. `trailing` says
/// that a separator was the last thing read.
///
/// A separator, `,` or `;`, where an element could start stands for a
/// `Null` element, and so does the end of the array right after a
/// separator. Otherwise an element is a value, and `]` or a separator
/// follows it.
pub open spec fn element_at(b: Seq<u8>, pos: int, acc: Seq<Json>, trailing: bool) -> Result<
    (Seq<Json>, nat, bool),
    ErrorKind,
>
    decreases rest(b, pos), 1nat,
{
    match clean_at(b, pos) {
        Err(kind) => Err(kind),
        Ok(s) => {
            let p = pos + s;
            if b[p] == 93 {
                Ok(
                    (
                        if trailing {
                            acc.push(Json::Null)
                        } else {
                            acc
                        },
                        s,
                        true,
                    ),
                )
            } else if b[p] == 44 || b[p] == 59 {
                Ok((acc.push(Json::Null), s, false))
            } else {
                match value_at(b, p) {
                    Err(kind) => Err(kind),
                    Ok((value, n)) => match closing_at(b, p + n, 93) {
                        Err(kind) => Err(kind),
                        Ok((s2, closed)) => Ok((acc.push(value), s + n + s2, closed)),
                    },
                }
            }
        },
    }
}

/// The elements of an array from `pos` on, added to the elements `acc` read
/// before, and the number of bytes from `pos` through the closing bracket.
pub open spec fn array_at(b: Seq<u8>, pos: int, acc: Seq<Json>, trailing: bool) -> Result<
    (Seq<Json>, nat),
    ErrorKind,
>
    decreases rest(b, pos), 2nat,
{
    if pos < 0 || pos >= b.len() {
        Err(ErrorKind::EndOfInput)
    } else {
        match element_at(b, pos, acc, trailing) {
            Err(kind) => Err(kind),
            Ok((items, n, closed)) => if closed {
                Ok((items, n + 1))
            } else {
                match array_at(b, pos + n + 1, items, true) {
                    Ok((all, m)) => Ok((all, n + 1 + m)),
                    Err(kind) => Err(kind),
                }
            },
        }
    }
}

/// The input without a byte-order mark at its start.
pub open spec fn strip_bom(b: Seq<u8>) -> Seq<u8> {
    if b.len() >= 3 && b[0] == 0xEF && b[1] == 0xBB && b[2] == 0xBF {
        b.subrange(3, b.len() as int)
    } else {
        b
    }
}

/// The value that a text denotes: the first value after an optional
/// byte-order mark. What follows that value is not looked at.
pub open spec fn parse_bytes(b: Seq<u8>) -> Result<Json, ErrorKind> {
    match value_at(strip_bom(b), 0) {
        Ok((value, _)) => Ok(value),
        Err(kind) => Err(kind),
    }
}

/// The value that a text denotes.
pub open spec fn parse_text(text: Seq<char>) -> Result<Json, ErrorKind> {
    parse_bytes(encode_utf8(text))
}

} // verus!

//! Escaping of text for emission, and the bit arithmetic of UTF-8 decoding.

use vstd::prelude::*;
use vstd::string::StringExecFns;

verus! {

/// `String::push` appends one character to the string.
pub assume_specification[ std::string::String::push ](text: &mut std::string::String, ch: char)
    ensures
        final(text)@ == old(text)@.push(ch),
;

/// The escape sequence of a character that has one; any other character
/// stands for itself.
pub open spec fn escape_char(c: char) -> Seq<char> {
    if c == '\\' {
        seq!['\\', '\\']
    } else if c == '"' {
        seq!['\\', '"']
    } else if c == '\x0C' {
        seq!['\\', 'f']
    } else if c == '\t' {
        seq!['\\', 't']
    } else if c == '\n' {
        seq!['\\', 'n']
    } else if c == '\x08' {
        seq!['\\', 'b']
    } else if c == '\r' {
        seq!['\\', 'r']
    } else {
        seq![c]
    }
}

/// A text with each of its characters escaped.
pub open spec fn escape_text(s: Seq<char>) -> Seq<char>
    decreases s.len(),
{
    if s.len() == 0 {
        Seq::empty()
    } else {
        escape_text(s.drop_last()) + escape_char(s.last())
    }
}

/// Replaces backslash, double quote, form feed, tab, newline, backspace and
/// carriage return by their two-character escape sequences.
pub fn replace_escape(str: &str) -> (result: String)
    ensures
        result@ == escape_text(str@),
{
    let mut result = String::new();
    for ch in it: str.chars()
        invariant
            it.seq() == str@,
            result@ == escape_text(str@.take(it.index() as int)),
    {
        proof {
            let done = str@.take(it.index() as int);
            let more = str@.take(it.index() + 1);
            assert(more.drop_last() =~= done);
            assert(more.last() == ch);
        }
        if ch == '\\' {
            result.append("\\\\");
            proof {
                reveal_strlit("\\\\");
                assert("\\\\"@ =~= seq!['\\', '\\']);
            }
        } else if ch == '"' {
            result.append("\\\"");
            proof {
                reveal_strlit("\\\"");
                assert("\\\""@ =~= seq!['\\', '"']);
            }
        } else if ch == '\x0C' {
            result.append("\\f");
            proof {
                reveal_strlit("\\f");
                assert("\\f"@ =~= seq!['\\', 'f']);
            }
        } else if ch == '\t' {
            result.append("\\t");
            proof {
                reveal_strlit("\\t");
                assert("\\t"@ =~= seq!['\\', 't']);
            }
        } else if ch == '\n' {
            result.append("\\n");
            proof {
                reveal_strlit("\\n");
                assert("\\n"@ =~= seq!['\\', 'n']);
            }
        } else if ch == '\x08' {
            result.append("\\b");
            proof {
                reveal_strlit("\\b");
                assert("\\b"@ =~= seq!['\\', 'b']);
            }
        } else if ch == '\r' {
            result.append("\\r");
            proof {
                reveal_strlit("\\r");
                assert("\\r"@ =~= seq!['\\', 'r']);
            }
        } else {
            let ghost before = result@;
            result.push(ch);
            assert(before.push(ch) =~= before + seq![ch]);
        }
    }
    assert(str@.take(str@.len() as int) =~= str@);
    result
}

/// The six low bits of a byte hold the payload of a continuation byte.
pub const CONT_MASK: u8 = 0b0011_1111;

/// The payload bits of the first byte of a sequence of `width` bytes.
pub(crate) fn utf8_first_byte(byte: u8, width: u32) -> (r: u32)
    requires
        width < 8,
    ensures
        r == (byte & (0x7Fu8 >> width)) as u32,
{
    (byte & (0x7F >> width)) as u32
}

/// The code point bits `ch` with the payload of one more continuation byte
/// behind them.
pub fn utf8_acc_cont_byte(ch: u32, byte: u8) -> (r: u32)
    ensures
        r == (ch << 6) | ((byte & CONT_MASK) as u32),
{
    (ch << 6) | (byte & CONT_MASK) as u32
}

} // verus!

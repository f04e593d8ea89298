//! Reading the rendered bytes of a string.

use crate::error::ErrorKind;
use crate::grammar::{escape_at, string_at, value_at};
use crate::json_value::Json;
use crate::roundtrip::bytes::{lemma_encode_ascii, lemma_encode_concat};
use crate::roundtrip::read::{
    holds, lemma_clean_none, lemma_holds_bounds, lemma_holds_byte, lemma_holds_join,
    lemma_holds_nothing, lemma_holds_split, lemma_holds_subrange,
};
use crate::tokener::{is_plain, lemma_string_skip};
use crate::utils::{escape_char, escape_text};
use vstd::prelude::*;
use vstd::utf8::{
    char_is_scalar, encode_scalar, encode_utf8, encode_utf8_decode_utf8, has_width_1_encoding,
};

verus! {

/// The characters that are written as an escape sequence.
pub open spec fn is_escaped(c: char) -> bool {
    c == '\\' || c == '"' || c == '\x0C' || c == '\t' || c == '\n' || c == '\x08' || c == '\r'
}

/// The byte behind the backslash in the escape sequence of a character.
pub open spec fn escape_code(c: char) -> u8 {
    if c == '\\' {
        92
    } else if c == '"' {
        34
    } else if c == '\x0C' {
        102
    } else if c == '\t' {
        116
    } else if c == '\n' {
        110
    } else if c == '\x08' {
        98
    } else {
        114
    }
}

/// The escaped text of a text is the escape of its first character and the
/// escaped text of the rest.
pub proof fn lemma_escape_front(c: char, r: Seq<char>)
    ensures
        escape_text(seq![c] + r) == escape_char(c) + escape_text(r),
    decreases r.len(),
{
    let whole = seq![c] + r;
    if r.len() == 0 {
        assert(whole.drop_last() =~= Seq::<char>::empty());
        assert(whole.last() == c);
        assert(escape_text(whole.drop_last()) =~= Seq::<char>::empty());
        assert(escape_text(whole) =~= escape_char(c));
        assert(escape_char(c) + escape_text(r) =~= escape_char(c));
    } else {
        lemma_escape_front(c, r.drop_last());
        assert(whole.drop_last() =~= seq![c] + r.drop_last());
        assert(whole.last() == r.last());
        assert((escape_char(c) + escape_text(r.drop_last())) + escape_char(r.last())
            =~= escape_char(c) + (escape_text(r.drop_last()) + escape_char(r.last())));
    }
}

/// The bytes of a character that is not escaped: none is a quote, a line
/// end or a backslash.
pub proof fn lemma_plain_char(c: char)
    requires
        !is_escaped(c),
    ensures
        encode_utf8(seq![c]).len() >= 1,
        forall|i: int|
            0 <= i < encode_utf8(seq![c]).len() ==> is_plain(#[trigger] encode_utf8(seq![c])[i], 34),
{
    let s = seq![c];
    let code = c as u32;
    char_is_scalar(c);
    assert(s.drop_first() =~= Seq::<char>::empty());
    assert(encode_utf8(s.drop_first()) =~= Seq::<u8>::empty());
    assert(encode_utf8(s) =~= encode_scalar(code));
    let e = encode_scalar(code);
    if has_width_1_encoding(code) {
        assert((code & 0x7F) as u8 == code) by (bit_vector)
            requires
                code <= 0x7F,
        ;
    } else {
        let a = ((code >> 6) & 0x1F) as u8;
        let b = ((code >> 12) & 0x0F) as u8;
        let d = ((code >> 18) & 0x7) as u8;
        let l = (code & 0x3F) as u8;
        let m = ((code >> 6) & 0x3F) as u8;
        let n = ((code >> 12) & 0x3F) as u8;
        assert((0xC0u8 | a) >= 0x80) by (bit_vector);
        assert((0xE0u8 | b) >= 0x80) by (bit_vector);
        assert((0xF0u8 | d) >= 0x80) by (bit_vector);
        assert((0x80u8 | l) >= 0x80) by (bit_vector);
        assert((0x80u8 | m) >= 0x80) by (bit_vector);
        assert((0x80u8 | n) >= 0x80) by (bit_vector);
    }
}

/// The bytes of the escape sequence of a character.
pub proof fn lemma_escaped_char(c: char)
    requires
        is_escaped(c),
    ensures
        encode_utf8(escape_char(c)) == seq![92u8, escape_code(c)],
{
    let x = escape_code(c);
    let second = x as char;
    assert(escape_char(c) =~= seq!['\\'] + seq![second]);
    lemma_encode_concat(seq!['\\'], seq![second]);
    lemma_encode_ascii('\\');
    lemma_encode_ascii(second);
    assert(seq![92u8] + seq![x] =~= seq![92u8, x]);
}

/// The rest of a rendered string is read back: behind the raw text `raw`,
/// which was passed since `start`, stands the escaped text of `tail` and the
/// closing quote.
pub proof fn lemma_reads_string_from(
    b: Seq<u8>,
    start: int,
    pos: int,
    raw: Seq<char>,
    tail: Seq<char>,
)
    requires
        0 <= start,
        pos == start + encode_utf8(raw).len(),
        holds(b, start, encode_utf8(raw)),
        holds(b, pos, encode_utf8(escape_text(tail)) + seq![34u8]),
    ensures
        string_at(b, start, pos, 34) == Ok::<(Seq<char>, nat), ErrorKind>(
            (raw + tail, (encode_utf8(escape_text(tail)).len() + 1) as nat),
        ),
    decreases tail.len(),
{
    let body = encode_utf8(escape_text(tail));
    lemma_holds_split(b, pos, body, seq![34u8]);
    if tail.len() == 0 {
        assert(escape_text(tail) =~= Seq::<char>::empty());
        assert(body =~= Seq::<u8>::empty());
        lemma_holds_byte(b, pos + body.len(), seq![34u8], 0);
        lemma_holds_subrange(b, start, encode_utf8(raw));
        encode_utf8_decode_utf8(raw);
        assert(raw + tail =~= raw);
    } else {
        let c = tail[0];
        let next = tail.drop_first();
        assert(tail =~= seq![c] + next);
        lemma_escape_front(c, next);
        let head = encode_utf8(escape_char(c));
        let more = encode_utf8(escape_text(next));
        lemma_encode_concat(escape_char(c), escape_text(next));
        assert(body == head + more);
        lemma_holds_split(b, pos, head, more);
        lemma_holds_join(b, pos + head.len(), more, seq![34u8]);
        lemma_holds_bounds(b, pos + body.len(), seq![34u8]);
        lemma_holds_bounds(b, pos, head);
        if is_escaped(c) {
            lemma_escaped_char(c);
            lemma_holds_byte(b, pos, head, 0);
            lemma_holds_byte(b, pos, head, 1);
            assert(escape_at(b, pos + 1) == Ok::<(char, nat), ErrorKind>((c, 1)));
            assert(encode_utf8(Seq::<char>::empty()) =~= Seq::<u8>::empty());
            lemma_holds_nothing(b, pos + 2);
            lemma_reads_string_from(b, pos + 2, pos + 2, Seq::empty(), next);
            lemma_holds_subrange(b, start, encode_utf8(raw));
            encode_utf8_decode_utf8(raw);
            assert(raw.push(c) + (Seq::<char>::empty() + next) =~= raw + tail);
        } else {
            assert(escape_char(c) =~= seq![c]);
            lemma_plain_char(c);
            assert forall|j: int| pos <= j < pos + head.len() implies is_plain(
                #[trigger] b[j],
                34,
            ) by {
                lemma_holds_byte(b, pos, head, j - pos);
            }
            lemma_string_skip(b, start, pos, head.len(), 34);
            assert(raw.push(c) =~= raw + seq![c]);
            lemma_encode_concat(raw, seq![c]);
            lemma_holds_join(b, start, encode_utf8(raw), head);
            lemma_reads_string_from(b, start, pos + head.len(), raw.push(c), next);
            assert(raw.push(c) + next =~= raw + tail);
            assert(Seq::<char>::empty() + (raw + tail) =~= raw + tail);
        }
    }
}

/// The bytes of a quoted string.
pub open spec fn string_bytes(s: Seq<char>) -> Seq<u8> {
    seq![34u8] + encode_utf8(escape_text(s)) + seq![34u8]
}

/// A rendered string is read back.
pub proof fn lemma_reads_string(b: Seq<u8>, pos: int, s: Seq<char>)
    requires
        holds(b, pos, string_bytes(s)),
    ensures
        value_at(b, pos) == Ok::<(Json, nat), ErrorKind>(
            (Json::String(s), string_bytes(s).len()),
        ),
{
    let body = encode_utf8(escape_text(s));
    assert(string_bytes(s) =~= seq![34u8] + (body + seq![34u8]));
    lemma_holds_split(b, pos, seq![34u8], body + seq![34u8]);
    lemma_holds_byte(b, pos, seq![34u8], 0);
    lemma_holds_bounds(b, pos + 1, body + seq![34u8]);
    lemma_clean_none(b, pos);
    assert(encode_utf8(Seq::<char>::empty()) =~= Seq::<u8>::empty());
    lemma_holds_nothing(b, pos + 1);
    lemma_reads_string_from(b, pos + 1, pos + 1, Seq::empty(), s);
    assert(Seq::<char>::empty() + s =~= s);
}

} // verus!

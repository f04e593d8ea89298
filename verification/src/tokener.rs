//! The tokenizer: a cursor over the bytes of a text, and a recursive-descent
//! reader of the lenient grammar.

use crate::error::{Error, ErrorKind, failed};
use crate::json_array::JsonArray;
use crate::json_object::JsonObject;
use crate::json_value::JsonValue;
use crate::grammar::{
    after, array_at, block_len, clean_at, closing_at, element_at, escape_at, is_blank,
    is_line_end, is_literal_end, line_len, literal_at, literal_len, member_at, members_at,
    object_at, rest, separator_at, string_at, strip_bom, unicode_at, value_at,
};
use crate::number::{
    digits_value, float_text, lemma_unsigned_ascii, parse_unsigned, signed_from_radix,
    unsigned_from_radix, word_matches,
};
use crate::search::{first_all, first_any, index_of_all, index_of_any, matches_at};
use crate::utils::{CONT_MASK, utf8_acc_cont_byte, utf8_first_byte};
use vstd::prelude::*;
use vstd::std_specs::cmp::PartialEqSpec;
use vstd::string::{StringExecFns, StringSliceAdditionalSpecFns};
use vstd::utf8::*;

verus! {

/// `char::from_u32` gives the character with the code `i`, and `None` where
/// `i` is no Unicode scalar value.
pub assume_specification[ char::from_u32 ](i: u32) -> (r: Option<char>)
    ensures
        is_scalar(i) ==> r == Some(i as char),
        !is_scalar(i) ==> r is None,
;

/// The bytes of `b` from `p` on.
pub open spec fn tail(b: Seq<u8>, p: int) -> Seq<u8> {
    b.subrange(p, b.len() as int)
}

/// The character whose encoding starts at `p`.
pub open spec fn char_at(b: Seq<u8>, p: int) -> char {
    decode_first_scalar(tail(b, p)) as char
}

/// The number of bytes of the character whose encoding starts at `p`.
pub open spec fn width_at(b: Seq<u8>, p: int) -> int {
    length_of_first_scalar(tail(b, p))
}

/// The start of the character that ends just before `pos`.
pub open spec fn char_start_before(b: Seq<u8>, pos: int) -> int
    decreases pos,
{
    if pos <= 1 || pos > b.len() {
        0
    } else if !is_continuation_byte(b[pos - 1]) {
        pos - 1
    } else {
        char_start_before(b, pos - 1)
    }
}

/// In valid UTF-8 a character starts at every character boundary before the
/// end, it ends within the input and at a boundary, and all its bytes but
/// the first are continuation bytes.
pub proof fn lemma_char_at_boundary(b: Seq<u8>, p: int)
    requires
        valid_utf8(b),
        0 <= p < b.len(),
        is_char_boundary(b, p),
    ensures
        valid_first_scalar(tail(b, p)),
        1 <= width_at(b, p) <= 4,
        p + width_at(b, p) <= b.len(),
        is_char_boundary(b, p + width_at(b, p)),
        !is_continuation_byte(b[p]),
        forall|k: int| p < k < p + width_at(b, p) ==> is_continuation_byte(#[trigger] b[k]),
        is_scalar(decode_first_scalar(tail(b, p))),
        b[p] < 128 ==> width_at(b, p) == 1 && decode_first_scalar(tail(b, p)) == b[p],
        b[p] >= 128 ==> decode_first_scalar(tail(b, p)) >= 128,
{
    let t = tail(b, p);
    valid_utf8_split(b, p);
    assert(valid_utf8(t));
    assert(t.len() > 0);
    assert(valid_first_scalar(t));
    let w = length_of_first_scalar(t);
    let rest = pop_first_scalar(t);
    assert(valid_utf8(rest));
    assert(forall|k: int| 0 <= k < t.len() ==> t[k] == b[p + k]);
    if p + w < b.len() {
        assert(rest.len() > 0);
        assert(valid_first_scalar(rest));
        assert(rest[0] == b[p + w]);
        is_char_boundary_iff_not_is_continuation_byte(b, p + w);
    } else {
        is_char_boundary_start_end_of_seq(b);
    }
    let x = t[0];
    let code = decode_first_scalar(t);
    if is_leading_byte_width_1(x) {
        assert(x & 0x7F == x) by (bit_vector)
            requires
                x <= 0x7f,
        ;
    } else if is_leading_byte_width_2(x) {
        let y = t[1];
        assert(((((x & 0x1F) as u32) << 6) | ((y & 0x3f) as u32)) <= 0x7FF) by (bit_vector);
    } else if is_leading_byte_width_3(x) {
        let y = t[1];
        let z = t[2];
        assert(((((x & 0x0F) as u32) << 12) | (((y & 0x3f) as u32) << 6) | ((z & 0x3f) as u32))
            <= 0xFFFF) by (bit_vector);
    } else {
    }
}

/// Going on from a boundary by one character and back by one character
/// leads to where one was.
pub proof fn lemma_back_after_next(b: Seq<u8>, p: int)
    requires
        valid_utf8(b),
        0 <= p < b.len(),
        is_char_boundary(b, p),
    ensures
        char_start_before(b, p + width_at(b, p)) == p,
{
    lemma_char_at_boundary(b, p);
    let w = width_at(b, p);
    lemma_start_before(b, p, p + w);
}

proof fn lemma_start_before(b: Seq<u8>, p: int, q: int)
    requires
        0 <= p < q <= b.len(),
        !is_continuation_byte(b[p]) || p == 0,
        forall|k: int| p < k < q ==> is_continuation_byte(#[trigger] b[k]),
    ensures
        char_start_before(b, q) == p,
    decreases q - p,
{
    if q - 1 > p {
        assert(is_continuation_byte(b[q - 1]));
        lemma_start_before(b, p, q - 1);
    }
}

/// The character at a boundary is the ASCII character `x` exactly where the
/// byte there is `x`.
pub proof fn lemma_ascii_at(b: Seq<u8>, p: int, x: u8)
    requires
        valid_utf8(b),
        0 <= p < b.len(),
        is_char_boundary(b, p),
        x < 128,
    ensures
        (char_at(b, p) == x as char) <==> b[p] == x,
        b[p] == x ==> width_at(b, p) == 1,
{
    lemma_char_at_boundary(b, p);
    let code = decode_first_scalar(tail(b, p));
    assert(is_scalar(code));
    assert((code as char) as u32 == code);
    assert((x as char) as u32 == x as u32);
}

/// The place behind an ASCII byte is a character boundary.
pub proof fn lemma_after_ascii(b: Seq<u8>, p: int)
    requires
        valid_utf8(b),
        0 <= p < b.len(),
        b[p] < 128,
    ensures
        is_char_boundary(b, p),
        is_char_boundary(b, p + 1),
        width_at(b, p) == 1,
{
    is_char_boundary_iff_not_is_continuation_byte(b, p);
    lemma_char_at_boundary(b, p);
}

/// The rest of a line ends behind the first line end, or with the input.
pub proof fn lemma_line_len(b: Seq<u8>, from: int)
    requires
        0 <= from <= b.len(),
    ensures
        match first_any(b, seq![13u8, 10u8], from) {
            Some(p) => from <= p < b.len() && p + 1 == from + line_len(b, from) && b[p] < 128,
            None => from + line_len(b, from) == b.len(),
        },
    decreases b.len() - from,
{
    let ends = seq![13u8, 10u8];
    if from < b.len() {
        if is_line_end(b[from]) {
            if b[from] == 13 {
                assert(ends[0].eq_spec(&b[from]));
            } else {
                assert(ends[1].eq_spec(&b[from]));
            }
        } else {
            lemma_line_len(b, from + 1);
        }
    }
}

/// A block comment ends behind the first `*/`.
pub proof fn lemma_block_len(b: Seq<u8>, from: int)
    requires
        0 <= from <= b.len(),
    ensures
        match first_all(b, seq![42u8, 47u8], from) {
            Some(end) => from <= end && end + 2 <= b.len() && b[end + 1] == 47 && block_len(
                b,
                from,
            ) == Some((end + 2 - from) as nat),
            None => block_len(b, from) is None,
        },
    decreases b.len() - from,
{
    let closing = seq![42u8, 47u8];
    if from + 2 <= b.len() {
        if b[from] == 42 && b[from + 1] == 47 {
            assert(matches_at(b, closing, from));
        } else {
            if matches_at(b, closing, from) {
                assert(b[from + 0].eq_spec(&closing[0]));
                assert(b[from + 1].eq_spec(&closing[1]));
            }
            lemma_block_len(b, from + 1);
        }
    }
}

/// Four hexadecimal digits denote a number below 2^16, and with a sign in
/// front, three of them one below 2^12.
pub proof fn lemma_hex4_bound(s: Seq<u8>)
    requires
        s.len() == 4,
    ensures
        parse_unsigned(s, 16) is Some ==> parse_unsigned(s, 16).unwrap() <= 0xFFFF,
{
    reveal_with_fuel(digits_value, 5);
    if parse_unsigned(s, 16) is Some {
        if s[0] == 43 {
            let t = s.drop_first();
            assert(t.drop_last().drop_last().drop_last().len() == 0);
        } else {
            assert(s.drop_last().drop_last().drop_last().drop_last().len() == 0);
        }
    }
}

/// A result of reading a string, with `text` before its text and `n` more
/// bytes counted.
pub open spec fn prepend(text: Seq<char>, n: nat, r: Result<(Seq<char>, nat), ErrorKind>) -> Result<
    (Seq<char>, nat),
    ErrorKind,
> {
    match r {
        Ok((t, m)) => Ok((text + t, n + m)),
        Err(kind) => Err(kind),
    }
}

/// What a string is that goes on with raw text, an escape of `n` bytes
/// behind its backslash, and the rest `r`.
pub open spec fn escaped(raw: Seq<char>, ch: char, n: nat, r: Result<(Seq<char>, nat), ErrorKind>) -> Result<
    (Seq<char>, nat),
    ErrorKind,
> {
    match r {
        Ok((t, m)) => Ok((raw.push(ch) + t, 1 + n + m)),
        Err(kind) => Err(kind),
    }
}

/// A byte that is neither the closing quote nor a line end nor a backslash.
pub open spec fn is_plain(c: u8, quote: u8) -> bool {
    c != quote && !is_line_end(c) && c != 92
}

pub proof fn lemma_prepend_nothing(r: Result<(Seq<char>, nat), ErrorKind>)
    ensures
        prepend(Seq::empty(), 0, r) == r,
{
    match r {
        Ok((t, m)) => {
            assert(Seq::<char>::empty() + t =~= t);
        },
        Err(_) => {},
    }
}

pub proof fn lemma_prepend_escape(
    before: Seq<char>,
    raw: Seq<char>,
    ch: char,
    done: nat,
    n: nat,
    r: Result<(Seq<char>, nat), ErrorKind>,
)
    ensures
        prepend(before, done, escaped(raw, ch, n, r)) == prepend(
            (before + raw).push(ch),
            done + 1 + n,
            r,
        ),
{
    match r {
        Ok((t, m)) => {
            assert(before + (raw.push(ch) + t) =~= (before + raw).push(ch) + t);
        },
        Err(_) => {},
    }
}

pub proof fn lemma_prepend_bump(
    before: Seq<char>,
    done: nat,
    w: nat,
    r: Result<(Seq<char>, nat), ErrorKind>,
)
    ensures
        prepend(before, done, prepend(Seq::empty(), w, r)) == prepend(before, done + w, r),
{
    match r {
        Ok((t, m)) => {
            assert(before + (Seq::<char>::empty() + t) =~= before + t);
        },
        Err(_) => {},
    }
}

/// Bytes that stand for themselves are passed one by one.
pub proof fn lemma_string_skip(b: Seq<u8>, start: int, p: int, w: nat, quote: u8)
    requires
        0 <= p,
        p + w <= b.len(),
        forall|j: int| p <= j < p + w ==> is_plain(#[trigger] b[j], quote),
    ensures
        string_at(b, start, p, quote) == prepend(
            Seq::empty(),
            w,
            string_at(b, start, p + w, quote),
        ),
    decreases w,
{
    if w == 0 {
        lemma_prepend_nothing(string_at(b, start, p, quote));
    } else {
        assert(is_plain(b[p], quote));
        lemma_string_skip(b, start, p + 1, (w - 1) as nat, quote);
        let r = string_at(b, start, p + w, quote);
        match r {
            Ok((t, m)) => {
                assert(Seq::<char>::empty() + t =~= t);
            },
            Err(_) => {},
        }
    }
}

/// Whether the byte ends a literal.
fn ends_literal(c: u8) -> (r: bool)
    ensures
        r == is_literal_end(c),
{
    c == 123 || c == 125 || c == 91 || c == 93 || c == 47 || c == 92 || c == 58 || c == 44 || c
        == 61 || c == 59 || c == 35 || c == 32 || c == 9 || c == 12 || c == 10 || c == 13
}

/// Whether `x` is among `bytes[start..end]`.
fn has_byte(bytes: &[u8], start: usize, end: usize, x: u8) -> (r: bool)
    requires
        start <= end <= bytes@.len(),
    ensures
        r == bytes@.subrange(start as int, end as int).contains(x),
{
    let ghost t = bytes@.subrange(start as int, end as int);
    let mut i: usize = start;
    while i < end
        invariant
            start <= i <= end <= bytes@.len(),
            t == bytes@.subrange(start as int, end as int),
            forall|k: int| 0 <= k < i - start ==> t[k] != x,
        decreases end - i,
    {
        if bytes[i] == x {
            assert(t[i - start] == x);
            return true;
        }
        i = i + 1;
    }
    false
}

/// A result of reading a run of items, with `n` more bytes counted.
pub open spec fn more<T>(n: nat, r: Result<(T, nat), ErrorKind>) -> Result<(T, nat), ErrorKind> {
    match r {
        Ok((items, m)) => Ok((items, n + m)),
        Err(kind) => Err(kind),
    }
}

proof fn lemma_more_more<T>(a: nat, c: nat, r: Result<(T, nat), ErrorKind>)
    ensures
        more(a, more(c, r)) == more(a + c, r),
{
}

/// The character that follows white space and comments starts within the
/// input, at a character boundary.
pub proof fn lemma_clean_boundary(b: Seq<u8>, pos: int)
    requires
        valid_utf8(b),
        0 <= pos <= b.len(),
        is_char_boundary(b, pos),
    ensures
        clean_at(b, pos) is Ok ==> pos + clean_at(b, pos)->Ok_0 < b.len() && is_char_boundary(
            b,
            pos + clean_at(b, pos)->Ok_0,
        ),
    decreases rest(b, pos),
{
    if pos < b.len() {
        if is_blank(b[pos]) {
            lemma_after_ascii(b, pos);
            lemma_clean_boundary(b, pos + 1);
        } else if b[pos] == 35 {
            lemma_after_ascii(b, pos);
            lemma_line_boundary(b, pos + 1);
            lemma_clean_boundary(b, pos + 1 + line_len(b, pos + 1));
        } else if b[pos] == 47 && pos + 1 < b.len() && b[pos + 1] == 47 {
            lemma_after_ascii(b, pos + 1);
            lemma_line_boundary(b, pos + 2);
            lemma_clean_boundary(b, pos + 2 + line_len(b, pos + 2));
        } else if b[pos] == 47 && pos + 1 < b.len() && b[pos + 1] == 42 {
            lemma_after_ascii(b, pos + 1);
            lemma_block_len(b, pos + 2);
            match block_len(b, pos + 2) {
                Some(m) => {
                    lemma_after_ascii(b, pos + 2 + m - 1);
                    lemma_clean_boundary(b, pos + 2 + m);
                },
                None => {},
            }
        }
    }
}

/// Behind the rest of a line stands a character boundary.
proof fn lemma_line_boundary(b: Seq<u8>, from: int)
    requires
        valid_utf8(b),
        0 <= from <= b.len(),
    ensures
        from + line_len(b, from) <= b.len(),
        is_char_boundary(b, from + line_len(b, from)),
{
    lemma_line_len(b, from);
    match first_any(b, seq![13u8, 10u8], from) {
        Some(p) => {
            lemma_after_ascii(b, p);
        },
        None => {
            is_char_boundary_start_end_of_seq(b);
        },
    }
}

/// A cursor over the bytes of a text.
pub struct JsonTokener<'a> {
    text: &'a str,
    bytes: &'a [u8],
    pos: usize,
    len: usize,
}

impl<'a> JsonTokener<'a> {
    /// The bytes that the tokenizer reads: the text without a byte-order
    /// mark at its start.
    pub closed spec fn input(&self) -> Seq<u8> {
        self.bytes@
    }

    /// The index of the next byte to read.
    pub closed spec fn position(&self) -> int {
        self.pos as int
    }

    /// The number of bytes from the cursor to the end of the input.
    pub closed spec fn remaining(&self) -> int {
        self.len - self.pos
    }

    /// The cursor is within the input and at the start of a character.
    pub closed spec fn wf(&self) -> bool {
        &&& self.bytes@ == self.text.spec_bytes()
        &&& valid_utf8(self.bytes@)
        &&& self.len == self.bytes@.len()
        &&& self.pos <= self.len
        &&& is_char_boundary(self.bytes@, self.pos as int)
    }

    /// The same text is read, whatever the position.
    pub closed spec fn same_text(&self, other: &JsonTokener<'a>) -> bool {
        &&& self.text == other.text
        &&& self.bytes == other.bytes
        &&& self.len == other.len
    }

    /// The code point at the cursor and the number of bytes of its encoding.
    fn next_code_point(&self) -> (r: (u32, usize))
        requires
            self.wf(),
            self.pos < self.len,
        ensures
            r.0 == decode_first_scalar(tail(self.bytes@, self.pos as int)),
            r.1 == width_at(self.bytes@, self.pos as int),
    {
        let ghost b = self.bytes@;
        let ghost t = tail(b, self.pos as int);
        proof {
            lemma_char_at_boundary(b, self.pos as int);
            assert(forall|k: int| 0 <= k < t.len() ==> t[k] == b[self.pos + k]);
        }
        let x = self.bytes[self.pos];
        if x < 128 {
            return (x as u32, 1);
        } else {
            let init = utf8_first_byte(x, 2);
            assert(init == (x & 0x1F) as u32) by (bit_vector)
                requires
                    init == (x & (0x7Fu8 >> 2u32)) as u32,
            ;
            let y = self.bytes[self.pos + 1];
            let mut ch = utf8_acc_cont_byte(init, y);
            if x >= 0xE0 {
                let z = self.bytes[self.pos + 2];
                let y_z = utf8_acc_cont_byte((y & CONT_MASK) as u32, z);
                ch = init << 12 | y_z;
                if x >= 0xF0 {
                    let w = self.bytes[self.pos + 3];
                    ch = (init & 7) << 18 | utf8_acc_cont_byte(y_z, w);
                    assert(ch == ((((x & 0x07) as u32) << 18) | (((y & 0x3f) as u32) << 12) | (((z
                        & 0x3f) as u32) << 6) | ((w & 0x3f) as u32))) by (bit_vector)
                        requires
                            ch == ((((x & 0x1F) as u32) & 7) << 18) | ((((((y & 0x3f) as u32) << 6)
                                | ((z & 0x3f) as u32)) << 6) | ((w & 0x3f) as u32)),
                    ;
                    (ch, 4)
                } else {
                    assert(ch == ((((x & 0x0F) as u32) << 12) | (((y & 0x3f) as u32) << 6) | ((z
                        & 0x3f) as u32))) by (bit_vector)
                        requires
                            0xE0 <= x < 0xF0,
                            ch == (((x & 0x1F) as u32) << 12) | ((((y & 0x3f) as u32) << 6) | ((z
                                & 0x3f) as u32)),
                    ;
                    (ch, 3)
                }
            } else {
                (ch, 2)
            }
        }
    }

    /// Reads the character at the cursor and moves the cursor behind it.
    fn next(&mut self) -> (c: char)
        requires
            old(self).wf(),
            old(self).pos < old(self).len,
        ensures
            final(self).wf(),
            final(self).same_text(old(self)),
            c == char_at(old(self).bytes@, old(self).pos as int),
            final(self).pos == old(self).pos + width_at(old(self).bytes@, old(self).pos as int),
    {
        proof {
            lemma_char_at_boundary(self.bytes@, self.pos as int);
        }
        let (code, size) = self.next_code_point();
        self.pos += size;
        match char::from_u32(code) {
            Some(c) => c,
            None => '\u{fffd}',
        }
    }

    /// The character at the cursor; the cursor stays.
    fn current(&self) -> (c: char)
        requires
            self.wf(),
            self.pos < self.len,
        ensures
            c == char_at(self.bytes@, self.pos as int),
    {
        proof {
            lemma_char_at_boundary(self.bytes@, self.pos as int);
        }
        let (code, _) = self.next_code_point();
        match char::from_u32(code) {
            Some(c) => c,
            None => '\u{fffd}',
        }
    }

    /// Whether fewer than `offset + 1` bytes are left.
    fn will_eof(&self, offset: usize) -> (r: bool)
        requires
            self.wf(),
        ensures
            r == (self.pos + offset >= self.len),
    {
        offset >= self.len - self.pos
    }

    /// Moves the cursor back to the start of the character before it.
    fn back(&mut self)
        requires
            old(self).wf(),
            old(self).pos > 0,
        ensures
            final(self).wf(),
            final(self).same_text(old(self)),
            final(self).pos == char_start_before(old(self).bytes@, old(self).pos as int),
            final(self).pos < old(self).pos,
    {
        let ghost b = self.bytes@;
        let ghost from = self.pos as int;
        proof {
            is_char_boundary_start_end_of_seq(b);
            if b.len() > 0 {
                is_char_boundary_iff_not_is_continuation_byte(b, 0);
            }
        }
        self.pos -= 1;
        while self.bytes[self.pos] & 0b1100_0000 == 0b1000_0000
            invariant
                self.bytes@ == b,
                self.text == old(self).text,
                self.bytes == old(self).bytes,
                self.len == old(self).len,
                valid_utf8(b),
                self.len == b.len(),
                0 <= self.pos < from <= b.len(),
                !is_continuation_byte(b[0]),
                char_start_before(b, from) == char_start_before(b, self.pos + 1),
            decreases self.pos,
        {
            let x = self.bytes[self.pos];
            assert(is_continuation_byte(x)) by (bit_vector)
                requires
                    x & 0b1100_0000 == 0b1000_0000,
            ;
            self.pos -= 1;
        }
        proof {
            let x = b[self.pos as int];
            assert(!is_continuation_byte(x)) by (bit_vector)
                requires
                    x & 0b1100_0000 != 0b1000_0000,
            ;
            is_char_boundary_iff_not_is_continuation_byte(b, self.pos as int);
        }
    }

    /// Moves the cursor on by `offset` bytes.
    fn advance(&mut self, offset: usize)
        requires
            old(self).wf(),
            old(self).pos + offset <= old(self).len,
            is_char_boundary(old(self).bytes@, old(self).pos + offset),
        ensures
            final(self).wf(),
            final(self).same_text(old(self)),
            final(self).pos == old(self).pos + offset,
    {
        self.pos += offset;
    }

    /// The text of the bytes from `start` up to `end`.
    fn sub_str(&self, start: usize, end: usize) -> (r: String)
        requires
            self.wf(),
            start <= end <= self.len,
            is_char_boundary(self.bytes@, start as int),
            is_char_boundary(self.bytes@, end as int),
        ensures
            r@ == decode_utf8(self.bytes@.subrange(start as int, end as int)),
    {
        let ghost b = self.bytes@;
        let (head, _) = self.text.split_at(end);
        proof {
            let h = head.spec_bytes();
            assert(h =~= b.subrange(0, end as int));
            encode_utf8_valid_utf8(head@);
            is_char_boundary_start_end_of_seq(h);
            if start < end {
                is_char_boundary_iff_not_is_continuation_byte(b, start as int);
                is_char_boundary_iff_not_is_continuation_byte(h, start as int);
            }
        }
        let (_, middle) = head.split_at(start);
        proof {
            assert(middle.spec_bytes() =~= b.subrange(start as int, end as int));
            encode_utf8_decode_utf8(middle@);
        }
        middle.to_owned()
    }

    /// Creates a tokenizer at the start of `str`, behind a byte-order mark
    /// where the text starts with one.
    pub fn new(str: &'a str) -> (r: JsonTokener<'a>)
        ensures
            r.wf(),
            r.position() == 0,
            r.input() == strip_bom(str.spec_bytes()),
    {
        let raw = str.as_bytes();
        proof {
            encode_utf8_valid_utf8(str@);
            is_char_boundary_start_end_of_seq(raw@);
        }
        let marked = raw.len() >= 3 && raw[0] == 0xEF && raw[1] == 0xBB && raw[2] == 0xBF;
        let text = if marked {
            proof {
                lemma_char_at_boundary(raw@, 0);
                assert(tail(raw@, 0) =~= raw@);
            }
            str.split_at(3).1
        } else {
            str
        };
        let bytes = text.as_bytes();
        let len = bytes.len();
        proof {
            encode_utf8_valid_utf8(text@);
            is_char_boundary_start_end_of_seq(bytes@);
        }
        JsonTokener { text, bytes, pos: 0, len }
    }

    /// Moves the cursor behind the end of the line, or to the end of the
    /// input where the line is the last.
    fn skip_to_end_of_line(&mut self)
        requires
            old(self).wf(),
        ensures
            final(self).wf(),
            final(self).same_text(old(self)),
            final(self).pos == old(self).pos + line_len(old(self).bytes@, old(self).pos as int),
    {
        let ghost b = self.bytes@;
        let ends: [u8; 2] = [13, 10];
        assert(ends@ =~= seq![13u8, 10u8]);
        proof {
            lemma_line_len(b, self.pos as int);
        }
        let end_of_line = index_of_any(self.bytes, ends.as_slice(), self.pos);
        if let Some(pos) = end_of_line {
            proof {
                lemma_after_ascii(b, pos as int);
            }
            self.pos = pos + 1;
        } else {
            proof {
                is_char_boundary_start_end_of_seq(b);
            }
            self.pos = self.len;
        }
    }

    /// Skips white space and comments and reads the next character.
    fn next_clean_internal(&mut self) -> (r: Result<char, Error>)
        requires
            old(self).wf(),
        ensures
            final(self).wf(),
            final(self).same_text(old(self)),
            match clean_at(old(self).bytes@, old(self).pos as int) {
                Ok(s) => {
                    let p = old(self).pos + s;
                    &&& p < old(self).len
                    &&& r == Ok::<char, Error>(char_at(old(self).bytes@, p))
                    &&& final(self).pos == p + width_at(old(self).bytes@, p)
                },
                Err(kind) => failed(r, kind),
            },
    {
        let ghost b = self.bytes@;
        let ghost start = self.pos as int;
        while self.pos < self.len
            invariant
                self.wf(),
                self.same_text(old(self)),
                self.bytes@ == b,
                b == old(self).bytes@,
                start == old(self).pos,
                self.len == old(self).len,
                start <= self.pos,
                clean_at(b, start) == after((self.pos - start) as nat, clean_at(b, self.pos as int)),
            decreases self.len - self.pos,
        {
            let ghost p = self.pos as int;
            proof {
                lemma_char_at_boundary(b, p);
                lemma_ascii_at(b, p, 9);
                lemma_ascii_at(b, p, 32);
                lemma_ascii_at(b, p, 10);
                lemma_ascii_at(b, p, 13);
                lemma_ascii_at(b, p, 47);
                lemma_ascii_at(b, p, 35);
            }
            let c = self.next();
            if c == '\t' || c == ' ' || c == '\n' || c == '\r' {
            } else if c == '/' {
                if self.will_eof(0) {
                    return Ok('/');
                }
                proof {
                    lemma_char_at_boundary(b, p + 1);
                    lemma_ascii_at(b, p + 1, 42);
                    lemma_ascii_at(b, p + 1, 47);
                }
                let follower = self.current();
                if follower == '*' {
                    self.advance(1);
                    let closing: [u8; 2] = [42, 47];
                    assert(closing@ =~= seq![42u8, 47u8]);
                    proof {
                        lemma_block_len(b, p + 2);
                    }
                    let comment_end = index_of_all(self.bytes, closing.as_slice(), self.pos);
                    match comment_end {
                        None => {
                            return JsonTokener::syntax_error(
                                "can't found comment end of C style(*/)",
                            );
                        },
                        Some(end) => {
                            proof {
                                lemma_after_ascii(b, end + 1);
                            }
                            self.pos = end + 2;
                        },
                    }
                } else if follower == '/' {
                    self.advance(1);
                    self.skip_to_end_of_line();
                } else {
                    return Ok('/');
                }
            } else if c == '#' {
                self.skip_to_end_of_line();
            } else {
                return Ok(c);
            }
        }
        Err(Error::new(ErrorKind::EndOfInput, "need next char but return EOF"))
    }

    /// A syntax error with the message `msg`.
    fn syntax_error<T>(msg: &'static str) -> (r: Result<T, Error>)
        ensures
            failed(r, ErrorKind::SyntaxError),
            r->Err_0.msg == msg,
    {
        Err(Error::new(ErrorKind::SyntaxError, msg))
    }

    /// Reads the escape whose backslash was just read, and gives the
    /// character that it stands for.
    fn read_escape_character(&mut self) -> (r: Result<char, Error>)
        requires
            old(self).wf(),
            old(self).pos < old(self).len,
        ensures
            final(self).wf(),
            final(self).same_text(old(self)),
            match escape_at(old(self).bytes@, old(self).pos as int) {
                Ok((ch, n)) => r == Ok::<char, Error>(ch) && final(self).pos == old(self).pos + n,
                Err(kind) => failed(r, kind),
            },
    {
        let ghost b = self.bytes@;
        let ghost p = self.pos as int;
        proof {
            lemma_char_at_boundary(b, p);
            lemma_ascii_at(b, p, 117);
            lemma_ascii_at(b, p, 116);
            lemma_ascii_at(b, p, 98);
            lemma_ascii_at(b, p, 110);
            lemma_ascii_at(b, p, 114);
            lemma_ascii_at(b, p, 102);
            lemma_ascii_at(b, p, 39);
            lemma_ascii_at(b, p, 34);
            lemma_ascii_at(b, p, 92);
            lemma_ascii_at(b, p, 47);
        }
        let c = self.next();
        if c == 'u' {
            self.read_unicode()
        } else if c == 't' {
            Ok('\t')
        } else if c == 'b' {
            Ok('\x08')
        } else if c == 'n' {
            Ok('\n')
        } else if c == 'r' {
            Ok('\r')
        } else if c == 'f' {
            Ok('\x0C')
        } else if c == '\'' {
            Ok('\'')
        } else if c == '"' {
            Ok('"')
        } else if c == '\\' {
            Ok('\\')
        } else if c == '/' {
            Ok('/')
        } else {
            Err(Error::new(ErrorKind::SyntaxError, "error escape"))
        }
    }

    /// Reads four hexadecimal digits at the cursor and moves behind them.
    fn read_hex4(&mut self) -> (r: Result<u32, Error>)
        requires
            old(self).wf(),
        ensures
            final(self).wf(),
            final(self).same_text(old(self)),
            old(self).pos + 3 >= old(self).len ==> failed(r, ErrorKind::EndOfInput),
            old(self).pos + 3 < old(self).len ==> match parse_unsigned(
                old(self).bytes@.subrange(old(self).pos as int, old(self).pos + 4),
                16,
            ) {
                Some(v) => r == Ok::<u32, Error>(v as u32) && v <= 0xFFFF && final(self).pos
                    == old(self).pos + 4,
                None => failed(r, ErrorKind::NumberParseError),
            },
    {
        let ghost b = self.bytes@;
        if self.will_eof(3) {
            return Err(Error::new(ErrorKind::EndOfInput, "read unicode get EOF"));
        }
        match unsigned_from_radix(self.bytes, self.pos, self.pos + 4, 16) {
            None => Err(Error::new(ErrorKind::NumberParseError, "parse to int error")),
            Some(v) => {
                proof {
                    let s = b.subrange(self.pos as int, self.pos + 4);
                    lemma_unsigned_ascii(s, 16);
                    lemma_hex4_bound(s);
                    assert(s[3] == b[self.pos + 3]);
                    lemma_after_ascii(b, self.pos + 3);
                }
                self.advance(4);
                Ok(v as u32)
            },
        }
    }

    /// Reads the digits of a `\u` escape, and those of the escape that
    /// follows a high surrogate, and gives the character.
    fn read_unicode(&mut self) -> (r: Result<char, Error>)
        requires
            old(self).wf(),
        ensures
            final(self).wf(),
            final(self).same_text(old(self)),
            match unicode_at(old(self).bytes@, old(self).pos as int) {
                Ok((ch, n)) => r == Ok::<char, Error>(ch) && final(self).pos == old(self).pos + n,
                Err(kind) => failed(r, kind),
            },
    {
        let ghost b = self.bytes@;
        let ghost p = self.pos as int;
        let unicode = match self.read_hex4() {
            Ok(v) => v,
            Err(e) => {
                return Err(e);
            },
        };
        if 0xD800 <= unicode && unicode <= 0xDBFF {
            if self.will_eof(1) {
                return Err(
                    Error::new(
                        ErrorKind::SyntaxError,
                        "fail read next unicode, beacuse not found \\u",
                    ),
                );
            }
            proof {
                lemma_char_at_boundary(b, p + 4);
                lemma_ascii_at(b, p + 4, 92);
            }
            let c1 = self.next();
            if c1 != '\\' {
                return Err(
                    Error::new(
                        ErrorKind::SyntaxError,
                        "fail read next unicode, beacuse not found \\u",
                    ),
                );
            }
            proof {
                lemma_char_at_boundary(b, p + 5);
                lemma_ascii_at(b, p + 5, 117);
            }
            let c2 = self.next();
            if c2 != 'u' {
                return Err(
                    Error::new(
                        ErrorKind::SyntaxError,
                        "fail read next unicode, beacuse not found \\u",
                    ),
                );
            }
            let low = match self.read_hex4() {
                Ok(v) => v,
                Err(e) => {
                    return Err(e);
                },
            };
            if low < 0xDC00 {
                return Err(
                    Error::new(
                        ErrorKind::CastError,
                        "convert escape unicode string to unicode char failed",
                    ),
                );
            }
            assert((((unicode - 0xD800) as u32) << 10 | ((low - 0xDC00) as u32)) <= 0xFFFFF)
                by (bit_vector)
                requires
                    0xD800 <= unicode <= 0xDBFF,
                    0xDC00 <= low <= 0xFFFF,
            ;
            let code: u32 = (((unicode - 0xD800) << 10) | (low - 0xDC00)) + 0x10000;
            match char::from_u32(code) {
                Some(ch) => Ok(ch),
                None => Err(
                    Error::new(
                        ErrorKind::CastError,
                        "convert escape unicode string to unicode char failed",
                    ),
                ),
            }
        } else {
            match char::from_u32(unicode) {
                Some(ch) => Ok(ch),
                None => Err(
                    Error::new(
                        ErrorKind::CastError,
                        "convert escape unicode string to unicode char failed",
                    ),
                ),
            }
        }
    }

    /// Reads a string up to its closing quote; the opening quote was just
    /// read.
    fn next_string(&mut self, quote: char) -> (r: Result<String, Error>)
        requires
            old(self).wf(),
            quote == '\'' || quote == '"',
        ensures
            final(self).wf(),
            final(self).same_text(old(self)),
            match string_at(
                old(self).bytes@,
                old(self).pos as int,
                old(self).pos as int,
                quote as u8,
            ) {
                Ok((text, n)) => r is Ok && r->Ok_0@ == text && final(self).pos == old(self).pos
                    + n,
                Err(kind) => failed(r, kind),
            },
    {
        let ghost b = self.bytes@;
        let ghost origin = self.pos as int;
        let ghost q = quote as u8;
        let ghost goal = string_at(b, origin, origin, q);
        let mut builder = String::new();
        let mut start = self.pos;
        proof {
            lemma_prepend_nothing(goal);
        }
        while self.pos < self.len
            invariant
                self.wf(),
                self.same_text(old(self)),
                self.bytes@ == b,
                b == old(self).bytes@,
                origin == old(self).pos,
                self.len == old(self).len,
                quote == '\'' || quote == '"',
                q == quote as u8,
                origin <= start <= self.pos,
                is_char_boundary(b, start as int),
                goal == string_at(b, origin, origin, q),
                goal == prepend(
                    builder@,
                    (self.pos - origin) as nat,
                    string_at(b, start as int, self.pos as int, q),
                ),
            decreases self.len - self.pos,
        {
            let ghost p = self.pos as int;
            let ghost s = start as int;
            let ghost before = builder@;
            let ghost raw = decode_utf8(b.subrange(s, p));
            proof {
                assert(is_char_boundary(b, p));
                lemma_char_at_boundary(b, p);
                lemma_ascii_at(b, p, 39);
                lemma_ascii_at(b, p, 34);
                lemma_ascii_at(b, p, 13);
                lemma_ascii_at(b, p, 10);
                lemma_ascii_at(b, p, 92);
            }
            let ch = self.next();
            if ch == quote {
                let piece = self.sub_str(start, self.pos - 1);
                builder.append(piece.as_str());
                return Ok(builder);
            }
            if ch == '\r' || ch == '\n' {
                return Err(Error::new(ErrorKind::SyntaxError, "string can't contain \\r or \\n"));
            }
            if ch == '\\' {
                if self.will_eof(0) {
                    return Err(
                        Error::new(
                            ErrorKind::EndOfInput,
                            "ready to read escape character in string but get EOF",
                        ),
                    );
                }
                let piece = self.sub_str(start, self.pos - 1);
                builder.append(piece.as_str());
                let escape_str = match self.read_escape_character() {
                    Ok(c) => c,
                    Err(e) => {
                        return Err(e);
                    },
                };
                builder.push(escape_str);
                start = self.pos;
                proof {
                    let n = (self.pos - (p + 1)) as nat;
                    let next = string_at(b, self.pos as int, self.pos as int, q);
                    assert(escape_at(b, p + 1) == Ok::<(char, nat), ErrorKind>((escape_str, n)));
                    assert(string_at(b, s, p, q) == escaped(raw, escape_str, n, next));
                    lemma_prepend_escape(before, raw, escape_str, (p - origin) as nat, n, next);
                }
            } else {
                proof {
                    let w = width_at(b, p);
                    assert forall|j: int| p <= j < p + w implies is_plain(#[trigger] b[j], q) by {
                        if j > p {
                            assert(is_continuation_byte(b[j]));
                        }
                    }
                    lemma_string_skip(b, s, p, w as nat, q);
                    lemma_prepend_bump(
                        before,
                        (p - origin) as nat,
                        w as nat,
                        string_at(b, s, p + w, q),
                    );
                }
            }
        }
        Err(Error::new(ErrorKind::EndOfInput, "read string expect quote but get EOF"))
    }

    /// Reads the bytes of a literal: up to the first byte that ends one, or
    /// to the end of the input.
    fn next_to_internal(&mut self) -> (r: String)
        requires
            old(self).wf(),
        ensures
            final(self).wf(),
            final(self).same_text(old(self)),
            final(self).pos == old(self).pos + literal_len(old(self).bytes@, old(self).pos as int),
            r@ == decode_utf8(old(self).bytes@.subrange(old(self).pos as int, final(self).pos as int)),
    {
        let ghost b = self.bytes@;
        let start = self.pos;
        let mut i: usize = self.pos;
        while i < self.len && !ends_literal(self.bytes[i])
            invariant
                self.wf(),
                self.bytes@ == b,
                start == self.pos,
                start <= i <= self.len,
                start + literal_len(b, start as int) == i + literal_len(b, i as int),
            decreases self.len - i,
        {
            i = i + 1;
        }
        proof {
            if i < self.len {
                lemma_after_ascii(b, i as int);
            } else {
                is_char_boundary_start_end_of_seq(b);
            }
        }
        let text = self.sub_str(start, i);
        self.pos = i;
        text
    }

    /// Reads a literal: a number, a boolean or null.
    fn read_literal(&mut self) -> (r: Result<JsonValue, Error>)
        requires
            old(self).wf(),
        ensures
            final(self).wf(),
            final(self).same_text(old(self)),
            match literal_at(old(self).bytes@, old(self).pos as int) {
                Ok((value, n)) => r is Ok && r->Ok_0@ == value && final(self).pos == old(self).pos
                    + n,
                Err(kind) => failed(r, kind),
            },
    {
        let ghost b = self.bytes@;
        let start = self.pos;
        let literal = self.next_to_internal();
        let end = self.pos;
        let ghost t = b.subrange(start as int, end as int);
        if end == start {
            return JsonTokener::syntax_error("read a literal but get empty");
        }
        let null_word: [u8; 4] = [110, 117, 108, 108];
        let true_word: [u8; 4] = [116, 114, 117, 101];
        let false_word: [u8; 5] = [102, 97, 108, 115, 101];
        assert(null_word@ =~= seq![110u8, 117u8, 108u8, 108u8]);
        assert(true_word@ =~= seq![116u8, 114u8, 117u8, 101u8]);
        assert(false_word@ =~= seq![102u8, 97u8, 108u8, 115u8, 101u8]);
        if word_matches(self.bytes, start, end, null_word.as_slice()) {
            return Ok(JsonValue::Null);
        }
        if word_matches(self.bytes, start, end, true_word.as_slice()) {
            return Ok(JsonValue::Bool(true));
        }
        if word_matches(self.bytes, start, end, false_word.as_slice()) {
            return Ok(JsonValue::Bool(false));
        }
        if has_byte(self.bytes, start, end, 46) {
            if float_text(self.bytes, start, end) {
                return Ok(JsonValue::Float(literal));
            } else {
                return Err(Error::new(ErrorKind::NumberParseError, "parse to float error"));
            }
        }
        let first = self.bytes[start];
        if end - start >= 2 && first == 48 && (self.bytes[start + 1] == 120 || self.bytes[start
            + 1] == 88) {
            assert(t.subrange(2, t.len() as int) =~= b.subrange(start + 2, end as int));
            match unsigned_from_radix(self.bytes, start + 2, end, 16) {
                Some(value) => Ok(JsonValue::Uint(value)),
                None => Err(Error::new(ErrorKind::NumberParseError, "parse to int error")),
            }
        } else if end - start >= 2 && first == 48 {
            assert(t.subrange(1, t.len() as int) =~= b.subrange(start + 1, end as int));
            match unsigned_from_radix(self.bytes, start + 1, end, 8) {
                Some(value) => Ok(JsonValue::Uint(value)),
                None => Err(Error::new(ErrorKind::NumberParseError, "parse to int error")),
            }
        } else if first == 45 {
            match signed_from_radix(self.bytes, start, end, 10) {
                Some(value) => Ok(JsonValue::Int(value)),
                None => Err(Error::new(ErrorKind::NumberParseError, "parse to int error")),
            }
        } else {
            match unsigned_from_radix(self.bytes, start, end, 10) {
                Some(value) => Ok(JsonValue::Uint(value)),
                None => Err(Error::new(ErrorKind::NumberParseError, "parse to int error")),
            }
        }
    }

    /// Reads the next value: an object, an array, a string or a literal.
    #[verifier::rlimit(60)]
    pub fn next_value(&mut self) -> (r: Result<JsonValue, Error>)
        requires
            old(self).wf(),
        ensures
            final(self).wf(),
            final(self).same_text(old(self)),
            final(self).input() == old(self).input(),
            match value_at(old(self).input(), old(self).position()) {
                Ok((value, n)) => r is Ok && r->Ok_0@ == value && final(self).position() == old(
                    self,
                ).position() + n,
                Err(kind) => failed(r, kind),
            },
        decreases old(self).remaining(), 0nat,
    {
        let ghost b = self.bytes@;
        let ghost origin = self.pos as int;
        let c = match self.next_clean_internal() {
            Ok(c) => c,
            Err(e) => {
                return Err(e);
            },
        };
        let ghost p = origin + clean_at(b, origin)->Ok_0;
        proof {
            lemma_clean_boundary(b, origin);
            lemma_ascii_at(b, p, 123);
            lemma_ascii_at(b, p, 91);
            lemma_ascii_at(b, p, 39);
            lemma_ascii_at(b, p, 34);
            lemma_back_after_next(b, p);
        }
        if c == '{' {
            match self.read_object() {
                Ok(object) => Ok(JsonValue::Object(object)),
                Err(e) => Err(e),
            }
        } else if c == '[' {
            match self.read_array() {
                Ok(array) => Ok(JsonValue::Array(array)),
                Err(e) => Err(e),
            }
        } else if c == '\'' || c == '"' {
            match self.next_string(c) {
                Ok(text) => Ok(JsonValue::String(text)),
                Err(e) => Err(e),
            }
        } else {
            self.back();
            self.read_literal()
        }
    }

    /// Reads the members of an object and its closing brace; the opening
    /// brace was just read.
    #[verifier::rlimit(60)]
    fn read_object(&mut self) -> (r: Result<JsonObject, Error>)
        requires
            old(self).wf(),
        ensures
            final(self).wf(),
            final(self).same_text(old(self)),
            match object_at(old(self).bytes@, old(self).pos as int) {
                Ok((entries, n)) => r is Ok && r->Ok_0@ == entries && final(self).pos == old(
                    self,
                ).pos + n,
                Err(kind) => failed(r, kind),
            },
        decreases old(self).len - old(self).pos, 3nat,
    {
        let ghost b = self.bytes@;
        let ghost origin = self.pos as int;
        let ghost goal = object_at(b, origin);
        let mut json_object = JsonObject::new();
        let first = match self.next_clean_internal() {
            Ok(c) => c,
            Err(e) => {
                return Err(e);
            },
        };
        proof {
            let p = origin + clean_at(b, origin)->Ok_0;
            lemma_clean_boundary(b, origin);
            lemma_ascii_at(b, p, 125);
            lemma_back_after_next(b, p);
        }
        if first == '}' {
            return Ok(json_object);
        } else {
            self.back();
        }
        loop
            invariant
                self.wf(),
                self.same_text(old(self)),
                self.bytes@ == b,
                b == old(self).bytes@,
                origin == old(self).pos,
                self.len == old(self).len,
                origin <= self.pos,
                goal == object_at(b, origin),
                goal == more(
                    (self.pos - origin) as nat,
                    members_at(b, self.pos as int, json_object@),
                ),
            decreases self.len - self.pos,
        {
            let ghost q = self.pos as int;
            let ghost step = member_at(b, q, json_object@);
            if self.pos >= self.len {
                return Err(Error::new(ErrorKind::EndOfInput, "need next char but return EOF"));
            }
            match self.read_member(&mut json_object) {
                Err(e) => {
                    return Err(e);
                },
                Ok(true) => {
                    return Ok(json_object);
                },
                Ok(false) => {
                    proof {
                        let n = step->Ok_0.1;
                        lemma_more_more(
                            (q - origin) as nat,
                            n + 1,
                            members_at(b, q + n + 1, json_object@),
                        );
                    }
                },
            }
        }
    }

    /// Reads one member of an object into `object`, and the character
    /// behind it; `true` where that character closes the object.
    fn read_member(&mut self, object: &mut JsonObject) -> (r: Result<bool, Error>)
        requires
            old(self).wf(),
        ensures
            final(self).wf(),
            final(self).same_text(old(self)),
            match member_at(old(self).bytes@, old(self).pos as int, old(object)@) {
                Ok((entries, n, closed)) => r == Ok::<bool, Error>(closed) && final(object)@
                    == entries && final(self).pos == old(self).pos + n + 1,
                Err(kind) => failed(r, kind),
            },
        decreases old(self).len - old(self).pos, 1nat,
    {
        let key = match self.next_value() {
            Ok(v) => v,
            Err(e) => {
                return Err(e);
            },
        };
        if let JsonValue::String(name) = key {
            match self.read_separator() {
                Ok(_) => {},
                Err(e) => {
                    return Err(e);
                },
            }
            let value = match self.next_value() {
                Ok(v) => v,
                Err(e) => {
                    return Err(e);
                },
            };
            object.insert_value(name, value);
            self.read_closing('}', "after value only '}' ';' ',' allow in object")
        } else {
            JsonTokener::syntax_error("must has a key for non-empty object")
        }
    }

    /// Reads the separator between a key and its value.
    fn read_separator(&mut self) -> (r: Result<(), Error>)
        requires
            old(self).wf(),
        ensures
            final(self).wf(),
            final(self).same_text(old(self)),
            match separator_at(old(self).bytes@, old(self).pos as int) {
                Ok(n) => r is Ok && final(self).pos == old(self).pos + n,
                Err(kind) => failed(r, kind),
            },
    {
        let ghost b = self.bytes@;
        let ghost q = self.pos as int;
        let separator = match self.next_clean_internal() {
            Ok(c) => c,
            Err(e) => {
                return Err(e);
            },
        };
        let ghost p = q + clean_at(b, q)->Ok_0;
        proof {
            lemma_clean_boundary(b, q);
            lemma_ascii_at(b, p, 58);
            lemma_ascii_at(b, p, 61);
        }
        if separator != ':' && separator != '=' {
            return JsonTokener::syntax_error("after key must have : or => separator in object");
        }
        proof {
            if p + 1 < b.len() {
                lemma_ascii_at(b, p + 1, 62);
                if b[p + 1] == 62 {
                    lemma_after_ascii(b, p + 1);
                }
            }
        }
        if !self.will_eof(0) && self.current() == '>' {
            self.advance(1);
        }
        Ok(())
    }

    /// Reads the character behind an item: `true` where it is `close`,
    /// `false` where it is `;` or `,`.
    fn read_closing(&mut self, close: char, msg: &'static str) -> (r: Result<bool, Error>)
        requires
            old(self).wf(),
            close == '}' || close == ']',
        ensures
            final(self).wf(),
            final(self).same_text(old(self)),
            match closing_at(old(self).bytes@, old(self).pos as int, close as u8) {
                Ok((n, closed)) => r == Ok::<bool, Error>(closed) && final(self).pos == old(
                    self,
                ).pos + n + 1,
                Err(kind) => failed(r, kind),
            },
    {
        let ghost b = self.bytes@;
        let ghost q = self.pos as int;
        let closing = match self.next_clean_internal() {
            Ok(c) => c,
            Err(e) => {
                return Err(e);
            },
        };
        let ghost p = q + clean_at(b, q)->Ok_0;
        proof {
            lemma_clean_boundary(b, q);
            lemma_ascii_at(b, p, 125);
            lemma_ascii_at(b, p, 93);
            lemma_ascii_at(b, p, 59);
            lemma_ascii_at(b, p, 44);
        }
        if closing == close {
            Ok(true)
        } else if closing == ';' || closing == ',' {
            Ok(false)
        } else {
            JsonTokener::syntax_error(msg)
        }
    }

    /// Reads the elements of an array and its closing bracket; the opening
    /// bracket was just read.
    fn read_array(&mut self) -> (r: Result<JsonArray, Error>)
        requires
            old(self).wf(),
        ensures
            final(self).wf(),
            final(self).same_text(old(self)),
            match array_at(old(self).bytes@, old(self).pos as int, Seq::empty(), false) {
                Ok((items, n)) => r is Ok && r->Ok_0@ == items && final(self).pos == old(self).pos
                    + n,
                Err(kind) => failed(r, kind),
            },
        decreases old(self).len - old(self).pos, 2nat,
    {
        let ghost b = self.bytes@;
        let ghost origin = self.pos as int;
        let ghost goal = array_at(b, origin, Seq::empty(), false);
        let mut json_array = JsonArray::new();
        let mut has_trailing_separator = false;
        loop
            invariant
                self.wf(),
                self.same_text(old(self)),
                self.bytes@ == b,
                b == old(self).bytes@,
                origin == old(self).pos,
                self.len == old(self).len,
                origin <= self.pos,
                goal == array_at(b, origin, Seq::empty(), false),
                goal == more(
                    (self.pos - origin) as nat,
                    array_at(b, self.pos as int, json_array@, has_trailing_separator),
                ),
            decreases self.len - self.pos,
        {
            let ghost q = self.pos as int;
            let ghost step = element_at(b, q, json_array@, has_trailing_separator);
            if self.pos >= self.len {
                return Err(Error::new(ErrorKind::EndOfInput, "need next char but return EOF"));
            }
            match self.read_element(&mut json_array, has_trailing_separator) {
                Err(e) => {
                    return Err(e);
                },
                Ok(true) => {
                    return Ok(json_array);
                },
                Ok(false) => {
                    has_trailing_separator = true;
                    proof {
                        let n = step->Ok_0.1;
                        lemma_more_more(
                            (q - origin) as nat,
                            n + 1,
                            array_at(b, q + n + 1, json_array@, true),
                        );
                    }
                },
            }
        }
    }

    /// Reads one step of an array into `array`: the closing bracket, a
    /// separator that stands for an omitted element, or an element and the
    /// character behind it. `true` where the array is closed.
    fn read_element(&mut self, array: &mut JsonArray, trailing: bool) -> (r: Result<bool, Error>)
        requires
            old(self).wf(),
        ensures
            final(self).wf(),
            final(self).same_text(old(self)),
            match element_at(old(self).bytes@, old(self).pos as int, old(array)@, trailing) {
                Ok((items, n, closed)) => r == Ok::<bool, Error>(closed) && final(array)@ == items
                    && final(self).pos == old(self).pos + n + 1,
                Err(kind) => failed(r, kind),
            },
        decreases old(self).len - old(self).pos, 1nat,
    {
        let ghost b = self.bytes@;
        let ghost q = self.pos as int;
        let first = match self.next_clean_internal() {
            Ok(c) => c,
            Err(e) => {
                return Err(e);
            },
        };
        let ghost p = q + clean_at(b, q)->Ok_0;
        proof {
            lemma_clean_boundary(b, q);
            lemma_ascii_at(b, p, 93);
            lemma_ascii_at(b, p, 44);
            lemma_ascii_at(b, p, 59);
            lemma_back_after_next(b, p);
        }
        if first == ']' {
            if trailing {
                array.push_value(JsonValue::Null);
            }
            Ok(true)
        } else if first == ',' || first == ';' {
            array.push_value(JsonValue::Null);
            Ok(false)
        } else {
            self.back();
            let value = match self.next_value() {
                Ok(v) => v,
                Err(e) => {
                    return Err(e);
                },
            };
            array.push_value(value);
            self.read_closing(']', "after value only ']' ',' ';' allow in array")
        }
    }
}

} // verus!

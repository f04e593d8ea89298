//! Reading the rendered bytes of scalars.

use crate::error::ErrorKind;
use crate::grammar::{
    after, clean_at, is_blank, is_literal_end, literal_at, literal_len, literal_value,
};
use crate::json_value::Json;
use crate::number::{
    digit_of, digits_end, digits_value, is_digit, is_float_text, is_number_text, is_sign,
    is_word, lower, parse_signed, parse_unsigned,
};
use crate::roundtrip::bytes::{decimal_bytes, int_bytes};
use vstd::prelude::*;
use vstd::utf8::{
    decode_utf8, decode_utf8_encode_utf8, encode_utf8, encode_utf8_decode_utf8,
    is_leading_byte_width_1, partial_valid_utf8_extend_ascii_block, valid_utf8,
};

verus! {

/// The bytes `t` stand in `b` from `pos` on.
#[verifier::opaque]
pub open spec fn holds(b: Seq<u8>, pos: int, t: Seq<u8>) -> bool {
    &&& 0 <= pos
    &&& pos + t.len() <= b.len()
    &&& forall|i: int| 0 <= i < t.len() ==> #[trigger] b[pos + i] == t[i]
}

/// A literal that ends before `at` ends there: with the input, or with a
/// byte that ends a literal.
pub open spec fn stops(b: Seq<u8>, at: int) -> bool {
    at == b.len() || (0 <= at < b.len() && is_literal_end(b[at]))
}

/// All bytes are white space.
pub open spec fn blank_text(t: Seq<u8>) -> bool {
    forall|i: int| 0 <= i < t.len() ==> is_blank(#[trigger] t[i])
}

/// A byte with which the text of a value can start.
pub open spec fn starts_value(c: u8) -> bool {
    c == 110 || c == 116 || c == 102 || (48 <= c <= 57) || c == 45 || c == 43 || c == 46 || c
        == 34 || c == 123 || c == 91
}

/// Where two texts stand one after the other, each of them stands.
pub proof fn lemma_holds_split(b: Seq<u8>, pos: int, x: Seq<u8>, y: Seq<u8>)
    requires
        holds(b, pos, x + y),
    ensures
        holds(b, pos, x),
        holds(b, pos + x.len(), y),
{
    reveal(holds);
    assert forall|i: int| 0 <= i < x.len() implies #[trigger] b[pos + i] == x[i] by {
        assert((x + y)[i] == x[i]);
    }
    assert forall|i: int| 0 <= i < y.len() implies #[trigger] b[pos + x.len() + i] == y[i] by {
        assert((x + y)[x.len() + i] == y[i]);
        assert(b[pos + (x.len() + i)] == (x + y)[x.len() + i]);
    }
}

/// A byte of a text that stands in `b`.
pub proof fn lemma_holds_byte(b: Seq<u8>, pos: int, t: Seq<u8>, i: int)
    requires
        holds(b, pos, t),
        0 <= i < t.len(),
    ensures
        0 <= pos + i < b.len(),
        b[pos + i] == t[i],
{
    reveal(holds);
}

/// A text that stands in `b` stands within it.
pub proof fn lemma_holds_bounds(b: Seq<u8>, pos: int, t: Seq<u8>)
    requires
        holds(b, pos, t),
    ensures
        0 <= pos,
        pos + t.len() <= b.len(),
{
    reveal(holds);
}

/// The empty text stands everywhere.
pub proof fn lemma_holds_nothing(b: Seq<u8>, pos: int)
    requires
        0 <= pos <= b.len(),
    ensures
        holds(b, pos, Seq::<u8>::empty()),
{
    reveal(holds);
}

/// Two texts that stand one behind the other stand as one.
pub proof fn lemma_holds_join(b: Seq<u8>, pos: int, x: Seq<u8>, y: Seq<u8>)
    requires
        holds(b, pos, x),
        holds(b, pos + x.len(), y),
    ensures
        holds(b, pos, x + y),
{
    reveal(holds);
    assert forall|i: int| 0 <= i < (x + y).len() implies #[trigger] b[pos + i] == (x + y)[i] by {
        if i >= x.len() {
            assert(b[pos + x.len() + (i - x.len())] == y[i - x.len()]);
        }
    }
}

/// White space that stands in `b` is white space of `b`.
pub proof fn lemma_holds_blank(b: Seq<u8>, pos: int, t: Seq<u8>)
    requires
        holds(b, pos, t),
        blank_text(t),
    ensures
        forall|i: int| pos <= i < pos + t.len() ==> is_blank(#[trigger] b[i]),
{
    reveal(holds);
    assert forall|i: int| pos <= i < pos + t.len() implies is_blank(#[trigger] b[i]) by {
        assert(b[pos + (i - pos)] == t[i - pos]);
    }
}

/// The bytes that stand in `b` are the bytes of `b` there.
pub proof fn lemma_holds_subrange(b: Seq<u8>, pos: int, t: Seq<u8>)
    requires
        holds(b, pos, t),
    ensures
        b.subrange(pos, pos + t.len()) == t,
{
    reveal(holds);
    let part = b.subrange(pos, pos + t.len());
    assert forall|i: int| 0 <= i < t.len() implies part[i] == t[i] by {
        assert(b[pos + i] == t[i]);
    }
    assert(part =~= t);
}

/// Nothing is skipped before a byte that starts a value.
pub proof fn lemma_clean_none(b: Seq<u8>, pos: int)
    requires
        0 <= pos < b.len(),
        !is_blank(b[pos]),
        b[pos] != 35,
        b[pos] != 47,
    ensures
        clean_at(b, pos) == Ok::<nat, ErrorKind>(0),
{
}

/// White space is skipped.
pub proof fn lemma_clean_blanks(b: Seq<u8>, pos: int, k: nat)
    requires
        0 <= pos,
        pos + k <= b.len(),
        forall|i: int| pos <= i < pos + k ==> is_blank(#[trigger] b[i]),
    ensures
        clean_at(b, pos) == after(k, clean_at(b, pos + k)),
    decreases k,
{
    if k > 0 {
        assert(is_blank(b[pos]));
        lemma_clean_blanks(b, pos + 1, (k - 1) as nat);
    }
}

/// A literal goes on over bytes that do not end one.
pub proof fn lemma_literal_len(b: Seq<u8>, pos: int, k: nat)
    requires
        0 <= pos,
        pos + k <= b.len(),
        forall|i: int| pos <= i < pos + k ==> !is_literal_end(#[trigger] b[i]),
        stops(b, pos + k),
    ensures
        literal_len(b, pos) == k,
    decreases k,
{
    if k > 0 {
        assert(!is_literal_end(b[pos]));
        lemma_literal_len(b, pos + 1, (k - 1) as nat);
    }
}

/// A literal whose bytes do not end one is read whole.
pub proof fn lemma_reads_literal(b: Seq<u8>, pos: int, t: Seq<u8>)
    requires
        holds(b, pos, t),
        forall|i: int| 0 <= i < t.len() ==> !is_literal_end(#[trigger] t[i]),
        stops(b, pos + t.len()),
    ensures
        literal_at(b, pos) == match literal_value(t) {
            Ok(value) => Ok::<(Json, nat), ErrorKind>((value, t.len())),
            Err(kind) => Err(kind),
        },
{
    reveal(holds);
    assert forall|i: int| pos <= i < pos + t.len() implies !is_literal_end(#[trigger] b[i]) by {
        assert(b[pos + (i - pos)] == t[i - pos]);
    }
    lemma_literal_len(b, pos, t.len());
    lemma_holds_subrange(b, pos, t);
}

/// The three keywords denote their values.
pub proof fn lemma_keyword_values()
    ensures
        literal_value(seq![110u8, 117u8, 108u8, 108u8]) == Ok::<Json, ErrorKind>(Json::Null),
        literal_value(seq![116u8, 114u8, 117u8, 101u8]) == Ok::<Json, ErrorKind>(Json::Bool(true)),
        literal_value(seq![102u8, 97u8, 108u8, 115u8, 101u8]) == Ok::<Json, ErrorKind>(
            Json::Bool(false),
        ),
{
    let n = seq![110u8, 117u8, 108u8, 108u8];
    let t = seq![116u8, 114u8, 117u8, 101u8];
    let f = seq![102u8, 97u8, 108u8, 115u8, 101u8];
    assert(is_word(n, n));
    assert(is_word(t, t));
    assert(is_word(f, f));
    assert(lower(t[0]) != n[0]);
    assert(!is_word(t, n));
    assert(!is_word(f, n));
    assert(!is_word(f, t));
}

/// The decimal digits are digits, at least one, and the first is no zero
/// where there are several.
pub proof fn lemma_decimal_digits(n: nat)
    ensures
        decimal_bytes(n).len() >= 1,
        forall|i: int| 0 <= i < decimal_bytes(n).len() ==> 48 <= #[trigger] decimal_bytes(n)[i] <= 57,
        n >= 10 ==> decimal_bytes(n).len() >= 2 && decimal_bytes(n)[0] != 48,
        n < 10 ==> decimal_bytes(n).len() == 1,
        digits_value(decimal_bytes(n), 10) == Some(n as int),
    decreases n,
{
    if n < 10 {
        let t = decimal_bytes(n);
        assert(t.drop_last() =~= Seq::<u8>::empty());
        assert(digits_value(t.drop_last(), 10) == Some(0int));
        assert(digit_of(t.last(), 10) == Some(n as int));
    } else {
        lemma_decimal_digits(n / 10);
        let front = decimal_bytes(n / 10);
        let t = decimal_bytes(n);
        assert(t.drop_last() =~= front);
        assert(digit_of(t.last(), 10) == Some((n % 10) as int));
        assert(t[0] == front[0]);
        if n / 10 < 10 {
            assert(front[0] == 48 + n / 10);
        }
        assert forall|i: int| 0 <= i < t.len() implies 48 <= #[trigger] t[i] <= 57 by {
            if i < front.len() {
                assert(t[i] == front[i]);
            }
        }
    }
}

/// The digits of an unsigned integer denote it.
pub proof fn lemma_uint_value(u: u128)
    ensures
        literal_value(int_bytes(u as int)) == Ok::<Json, ErrorKind>(Json::Uint(u)),
        forall|i: int|
            0 <= i < int_bytes(u as int).len() ==> !is_literal_end(#[trigger] int_bytes(u as int)[i]),
        int_bytes(u as int).len() >= 1,
        48 <= int_bytes(u as int)[0] <= 57,
{
    let t = int_bytes(u as int);
    lemma_decimal_digits(u as nat);
    assert(t == decimal_bytes(u as nat));
    assert(48 <= t[0] <= 57);
    assert(lower(t[0]) == t[0]);
    assert(!is_word(t, seq![110u8, 117u8, 108u8, 108u8]));
    assert(!is_word(t, seq![116u8, 114u8, 117u8, 101u8]));
    assert(!is_word(t, seq![102u8, 97u8, 108u8, 115u8, 101u8]));
    assert(!t.contains(46u8));
    if t.len() >= 2 {
        assert(48 <= t[1] <= 57);
    }
    assert(parse_unsigned(t, 10) == Some(u));
}

/// The digits of a negative integer, behind their minus sign, denote it.
pub proof fn lemma_int_value(i: i128)
    requires
        i < 0,
    ensures
        literal_value(int_bytes(i as int)) == Ok::<Json, ErrorKind>(Json::Int(i)),
        forall|k: int|
            0 <= k < int_bytes(i as int).len() ==> !is_literal_end(#[trigger] int_bytes(i as int)[k]),
        int_bytes(i as int).len() >= 2,
        int_bytes(i as int)[0] == 45,
{
    let m = (-i) as nat;
    let digits = decimal_bytes(m);
    let t = int_bytes(i as int);
    lemma_decimal_digits(m);
    assert(t == seq![45u8] + digits);
    assert(t[0] == 45);
    assert(lower(t[0]) == 45);
    assert(!is_word(t, seq![110u8, 117u8, 108u8, 108u8]));
    assert(!is_word(t, seq![116u8, 114u8, 117u8, 101u8]));
    assert(!is_word(t, seq![102u8, 97u8, 108u8, 115u8, 101u8]));
    assert forall|k: int| 0 <= k < t.len() implies !is_literal_end(#[trigger] t[k]) && t[k]
        != 46 by {
        if k > 0 {
            assert(t[k] == digits[k - 1]);
        }
    }
    assert(!t.contains(46u8));
    assert(t[1] == digits[0]);
    assert(t.drop_first() =~= digits);
    assert(parse_signed(t, 10) == Some(i));
}

/// A text that is read as a floating-point number: it has a point and
/// meets the grammar of floating-point literals.
pub open spec fn float_literal(t: Seq<char>) -> bool {
    is_float_text(encode_utf8(t)) && encode_utf8(t).contains(46u8)
}

/// A byte of a decimal number with point and exponent.
pub open spec fn number_byte(c: u8) -> bool {
    is_digit(c) || c == 46 || c == 101 || c == 69 || is_sign(c)
}

/// A run of digits lies within the text and holds digits only.
pub proof fn lemma_digit_run(s: Seq<u8>, i: int)
    requires
        0 <= i <= s.len(),
    ensures
        i <= digits_end(s, i) <= s.len(),
        forall|j: int| i <= j < digits_end(s, i) ==> is_digit(#[trigger] s[j]),
    decreases s.len() - i,
{
    if i < s.len() && is_digit(s[i]) {
        lemma_digit_run(s, i + 1);
    }
}

/// A decimal number holds no byte but digits, a point, an exponent mark and
/// signs.
pub proof fn lemma_number_bytes(s: Seq<u8>)
    requires
        is_number_text(s),
    ensures
        forall|j: int| 0 <= j < s.len() ==> number_byte(#[trigger] s[j]),
        s.len() >= 1,
        number_byte(s[0]),
{
    let a = digits_end(s, 0);
    lemma_digit_run(s, 0);
    let pointed = a < s.len() && s[a] == 46;
    if pointed {
        lemma_digit_run(s, a + 1);
    }
    let b = if pointed {
        digits_end(s, a + 1)
    } else {
        a
    };
    let c = if b + 1 < s.len() && is_sign(s[b + 1]) {
        b + 2
    } else {
        b + 1
    };
    if b < s.len() {
        lemma_digit_run(s, c);
    }
    assert forall|j: int| 0 <= j < s.len() implies number_byte(#[trigger] s[j]) by {
        if j < a {
        } else if pointed && j == a {
        } else if j < b {
        } else if j == b {
        } else if j < c {
        } else {
        }
    }
}

/// A text with a point is none of the words of the grammar.
pub proof fn lemma_pointed_is_no_word(s: Seq<u8>, word: Seq<u8>)
    requires
        s.contains(46u8),
        forall|k: int| 0 <= k < word.len() ==> #[trigger] word[k] != 46,
    ensures
        !is_word(s, word),
{
    let i = choose|i: int| 0 <= i < s.len() && s[i] == 46u8;
    if is_word(s, word) {
        assert(lower(s[i]) == word[i]);
    }
}

/// A floating-point literal with a point holds no byte but digits, points,
/// exponent marks and signs, and is none of the keywords.
pub proof fn lemma_float_bytes(s: Seq<u8>)
    requires
        is_float_text(s),
        s.contains(46u8),
    ensures
        forall|j: int| 0 <= j < s.len() ==> number_byte(#[trigger] s[j]),
        s.len() >= 1,
        number_byte(s[0]),
        !is_word(s, seq![110u8, 117u8, 108u8, 108u8]),
        !is_word(s, seq![116u8, 114u8, 117u8, 101u8]),
        !is_word(s, seq![102u8, 97u8, 108u8, 115u8, 101u8]),
{
    let i = choose|i: int| 0 <= i < s.len() && s[i] == 46u8;
    let null_word = seq![110u8, 117u8, 108u8, 108u8];
    let true_word = seq![116u8, 114u8, 117u8, 101u8];
    let false_word = seq![102u8, 97u8, 108u8, 115u8, 101u8];
    let inf = seq![105u8, 110u8, 102u8];
    let infinity = seq![105u8, 110u8, 102u8, 105u8, 110u8, 105u8, 116u8, 121u8];
    let nan = seq![110u8, 97u8, 110u8];
    lemma_pointed_is_no_word(s, null_word);
    lemma_pointed_is_no_word(s, true_word);
    lemma_pointed_is_no_word(s, false_word);
    let signed = s.len() > 0 && is_sign(s[0]);
    let body = if signed {
        s.drop_first()
    } else {
        s
    };
    if signed {
        assert(i > 0);
        assert(body[i - 1] == 46u8);
    }
    assert(body.contains(46u8));
    lemma_pointed_is_no_word(body, inf);
    lemma_pointed_is_no_word(body, infinity);
    lemma_pointed_is_no_word(body, nan);
    assert(is_number_text(body));
    lemma_number_bytes(body);
    assert forall|j: int| 0 <= j < s.len() implies number_byte(#[trigger] s[j]) by {
        if signed && j > 0 {
            assert(s[j] == body[j - 1]);
        }
    }
    assert(number_byte(s[0]));
}

/// The bytes of a floating-point literal with a point denote the number
/// with that text.
pub proof fn lemma_float_value(t: Seq<char>)
    requires
        float_literal(t),
    ensures
        literal_value(encode_utf8(t)) == Ok::<Json, ErrorKind>(Json::Float(t)),
        forall|i: int|
            0 <= i < encode_utf8(t).len() ==> !is_literal_end(#[trigger] encode_utf8(t)[i]),
        encode_utf8(t).len() >= 1,
        starts_value(encode_utf8(t)[0]),
{
    let s = encode_utf8(t);
    lemma_float_bytes(s);
    encode_utf8_decode_utf8(t);
    assert(number_byte(s[0]));
}

/// The text of the bytes of a floating-point literal with a point is such a
/// literal.
pub proof fn lemma_float_text(s: Seq<u8>)
    requires
        is_float_text(s),
        s.contains(46u8),
    ensures
        float_literal(decode_utf8(s)),
{
    lemma_float_bytes(s);
    assert(valid_utf8(s.subrange(0, 0)));
    assert forall|i: int| 0 <= i < s.len() implies #[trigger] is_leading_byte_width_1(s[i]) by {
        assert(number_byte(s[i]));
    }
    partial_valid_utf8_extend_ascii_block(s, 0, s.len() as int);
    assert(s.subrange(0, s.len() as int) =~= s);
    decode_utf8_encode_utf8(s);
}

} // verus!

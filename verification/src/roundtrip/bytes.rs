//! The rendered text of a value as bytes.

use crate::builder::{
    decimal, digit_char, flat, int_text, item_pieces, line_pieces, member_pieces, one_item,
    one_member, Piece, pieces, plain, plain_parts,
};
use crate::json_value::Json;
use crate::utils::escape_text;
use vstd::prelude::*;
use vstd::utf8::{encode_scalar, encode_utf8, is_ascii_chars, is_ascii_chars_encode_utf8};

verus! {

/// The bytes of the pieces: their plain texts one after the other, encoded.
pub open spec fn text_bytes(pieces: Seq<Piece>) -> Seq<u8> {
    encode_utf8(flat(plain_parts(pieces)))
}

/// The encoding of two texts one after the other is the two encodings one
/// after the other.
pub proof fn lemma_encode_concat(a: Seq<char>, b: Seq<char>)
    ensures
        encode_utf8(a + b) == encode_utf8(a) + encode_utf8(b),
    decreases a.len(),
{
    if a.len() == 0 {
        assert(a + b =~= b);
        assert(encode_utf8(a) + encode_utf8(b) =~= encode_utf8(b));
    } else {
        lemma_encode_concat(a.drop_first(), b);
        assert((a + b).drop_first() =~= a.drop_first() + b);
        assert(encode_scalar(a[0] as u32) + (encode_utf8(a.drop_first()) + encode_utf8(b))
            =~= (encode_scalar(a[0] as u32) + encode_utf8(a.drop_first())) + encode_utf8(b));
    }
}

/// The texts of two runs of parts one after the other.
pub proof fn lemma_flat_concat(x: Seq<Seq<char>>, y: Seq<Seq<char>>)
    ensures
        flat(x + y) == flat(x) + flat(y),
    decreases y.len(),
{
    if y.len() == 0 {
        assert(x + y =~= x);
        assert(flat(x) + flat(y) =~= flat(x));
    } else {
        lemma_flat_concat(x, y.drop_last());
        assert((x + y).drop_last() =~= x + y.drop_last());
        assert((flat(x) + flat(y.drop_last())) + y.last() =~= flat(x) + (flat(y.drop_last())
            + y.last()));
    }
}

/// The bytes of two runs of pieces one after the other.
pub proof fn lemma_text_concat(a: Seq<Piece>, b: Seq<Piece>)
    ensures
        text_bytes(a + b) == text_bytes(a) + text_bytes(b),
{
    assert(plain_parts(a + b) =~= plain_parts(a) + plain_parts(b));
    lemma_flat_concat(plain_parts(a), plain_parts(b));
    lemma_encode_concat(flat(plain_parts(a)), flat(plain_parts(b)));
}

/// The bytes of a single piece.
pub proof fn lemma_text_one(piece: Piece)
    ensures
        text_bytes(seq![piece]) == encode_utf8(plain(piece)),
{
    let parts = plain_parts(seq![piece]);
    assert(parts =~= seq![plain(piece)]);
    assert(parts.drop_last() =~= Seq::<Seq<char>>::empty());
    assert(parts.last() == plain(piece));
    assert(flat(parts.drop_last()) =~= Seq::<char>::empty());
    assert(flat(parts) =~= flat(parts.drop_last()) + parts.last());
    assert(flat(parts) =~= plain(piece));
}

/// No pieces, no bytes.
pub proof fn lemma_text_none()
    ensures
        text_bytes(Seq::<Piece>::empty()) == Seq::<u8>::empty(),
{
    assert(plain_parts(Seq::<Piece>::empty()) =~= Seq::<Seq<char>>::empty());
}

/// The bytes of one ASCII character.
pub proof fn lemma_encode_ascii(c: char)
    requires
        (c as u32) < 128,
    ensures
        encode_utf8(seq![c]) == seq![c as u8],
{
    let s = seq![c];
    assert(is_ascii_chars(s));
    is_ascii_chars_encode_utf8(s);
    assert(encode_utf8(s) =~= seq![c as u8]);
}

/// The bytes of a control character.
pub proof fn lemma_text_control(c: char)
    requires
        (c as u32) < 128,
    ensures
        text_bytes(seq![Piece::Control(c)]) == seq![c as u8],
{
    lemma_text_one(Piece::Control(c));
    lemma_encode_ascii(c);
}

/// What stands before an element in pretty printing, as bytes.
pub open spec fn line_bytes(prefix: Seq<u8>, pretty: bool) -> Seq<u8> {
    if pretty {
        seq![10u8] + prefix
    } else {
        Seq::empty()
    }
}

pub open spec fn comma_bytes(more: bool) -> Seq<u8> {
    if more {
        seq![44u8]
    } else {
        Seq::empty()
    }
}

pub open spec fn space_bytes(pretty: bool) -> Seq<u8> {
    if pretty {
        seq![32u8]
    } else {
        Seq::empty()
    }
}

/// The decimal digits of a natural number as bytes.
pub open spec fn decimal_bytes(n: nat) -> Seq<u8>
    decreases n,
{
    if n < 10 {
        seq![(48 + n) as u8]
    } else {
        decimal_bytes(n / 10).push((48 + n % 10) as u8)
    }
}

/// The decimal text of an integer as bytes.
pub open spec fn int_bytes(i: int) -> Seq<u8> {
    if i < 0 {
        seq![45u8] + decimal_bytes((-i) as nat)
    } else {
        decimal_bytes(i as nat)
    }
}

/// The rendered bytes of a value.
#[verifier::opaque]
pub open spec fn value_bytes(v: Json, prefix: Seq<u8>, pretty: bool, indent: Seq<u8>) -> Seq<u8>
    decreases v, 0nat,
{
    match v {
        Json::Null => seq![110u8, 117u8, 108u8, 108u8],
        Json::Bool(b) => if b {
            seq![116u8, 114u8, 117u8, 101u8]
        } else {
            seq![102u8, 97u8, 108u8, 115u8, 101u8]
        },
        Json::Int(i) => int_bytes(i as int),
        Json::Uint(u) => int_bytes(u as int),
        Json::Float(t) => encode_utf8(t),
        Json::String(s) => seq![34u8] + encode_utf8(escape_text(s)) + seq![34u8],
        Json::Object(entries) => seq![123u8] + members_bytes(
            entries,
            entries.len(),
            prefix,
            pretty,
            indent,
        ) + line_bytes(prefix, pretty) + seq![125u8],
        Json::Array(items) => seq![91u8] + items_bytes(items, items.len(), prefix, pretty, indent)
            + line_bytes(prefix, pretty) + seq![93u8],
    }
}

/// The key of a member with its quotes and colon, as bytes.
pub open spec fn key_bytes(key: Seq<char>, pretty: bool) -> Seq<u8> {
    seq![34u8] + encode_utf8(escape_text(key)) + seq![34u8] + seq![58u8] + space_bytes(pretty)
}

/// The rendered bytes of one member of an object.
pub open spec fn member_bytes(
    entries: Seq<(Seq<char>, Json)>,
    i: int,
    prefix: Seq<u8>,
    pretty: bool,
    indent: Seq<u8>,
) -> Seq<u8>
    decreases entries, 0nat, 1nat,
{
    if 0 <= i < entries.len() {
        line_bytes(prefix + indent, pretty) + key_bytes(entries[i].0, pretty) + value_bytes(
            entries[i].1,
            prefix + indent,
            pretty,
            indent,
        ) + comma_bytes(i + 1 < entries.len())
    } else {
        Seq::empty()
    }
}

/// The rendered bytes of the first `n` members of an object.
pub open spec fn members_bytes(
    entries: Seq<(Seq<char>, Json)>,
    n: nat,
    prefix: Seq<u8>,
    pretty: bool,
    indent: Seq<u8>,
) -> Seq<u8>
    decreases entries, n, 2nat,
{
    if n == 0 {
        Seq::empty()
    } else {
        members_bytes(entries, (n - 1) as nat, prefix, pretty, indent) + member_bytes(
            entries,
            n - 1,
            prefix,
            pretty,
            indent,
        )
    }
}

/// The rendered bytes of one element of an array.
pub open spec fn item_bytes(
    items: Seq<Json>,
    i: int,
    prefix: Seq<u8>,
    pretty: bool,
    indent: Seq<u8>,
) -> Seq<u8>
    decreases items, 0nat, 1nat,
{
    if 0 <= i < items.len() {
        line_bytes(prefix + indent, pretty) + value_bytes(items[i], prefix + indent, pretty, indent)
            + comma_bytes(i + 1 < items.len())
    } else {
        Seq::empty()
    }
}

/// The rendered bytes of the first `n` elements of an array.
pub open spec fn items_bytes(
    items: Seq<Json>,
    n: nat,
    prefix: Seq<u8>,
    pretty: bool,
    indent: Seq<u8>,
) -> Seq<u8>
    decreases items, n, 2nat,
{
    if n == 0 {
        Seq::empty()
    } else {
        items_bytes(items, (n - 1) as nat, prefix, pretty, indent) + item_bytes(
            items,
            n - 1,
            prefix,
            pretty,
            indent,
        )
    }
}

/// The decimal digits as characters, encoded, are the decimal digits as
/// bytes.
pub proof fn lemma_decimal_bytes(n: nat)
    ensures
        encode_utf8(decimal(n)) == decimal_bytes(n),
    decreases n,
{
    if n < 10 {
        lemma_encode_ascii(digit_char(n));
    } else {
        lemma_decimal_bytes(n / 10);
        let d = digit_char(n % 10);
        lemma_encode_ascii(d);
        assert(decimal(n / 10).push(d) =~= decimal(n / 10) + seq![d]);
        lemma_encode_concat(decimal(n / 10), seq![d]);
        assert(decimal_bytes(n / 10).push((48 + n % 10) as u8) =~= decimal_bytes(n / 10) + seq![
            d as u8,
        ]);
    }
}

/// The text of an integer, encoded.
pub proof fn lemma_int_bytes(i: int)
    ensures
        encode_utf8(int_text(i)) == int_bytes(i),
{
    if i < 0 {
        lemma_decimal_bytes((-i) as nat);
        lemma_encode_ascii('-');
        lemma_encode_concat(seq!['-'], decimal((-i) as nat));
    } else {
        lemma_decimal_bytes(i as nat);
    }
}

/// The bytes of a line break and an indentation.
pub proof fn lemma_line_bytes(prefix: Seq<char>, pretty: bool)
    ensures
        text_bytes(line_pieces(prefix, pretty)) == line_bytes(encode_utf8(prefix), pretty),
{
    if pretty {
        let a = seq![Piece::Layout(seq!['\n'])];
        let b = seq![Piece::Layout(prefix)];
        assert(line_pieces(prefix, pretty) =~= a + b);
        lemma_text_concat(a, b);
        lemma_text_one(Piece::Layout(seq!['\n']));
        lemma_text_one(Piece::Layout(prefix));
        lemma_encode_ascii('\n');
    } else {
        lemma_text_none();
    }
}

/// The bytes of the three keywords.
pub proof fn lemma_keyword_bytes()
    ensures
        encode_utf8("null"@) == seq![110u8, 117u8, 108u8, 108u8],
        encode_utf8("true"@) == seq![116u8, 114u8, 117u8, 101u8],
        encode_utf8("false"@) == seq![102u8, 97u8, 108u8, 115u8, 101u8],
{
    reveal_strlit("null");
    reveal_strlit("true");
    reveal_strlit("false");
    assert(is_ascii_chars("null"@));
    assert(is_ascii_chars("true"@));
    assert(is_ascii_chars("false"@));
    is_ascii_chars_encode_utf8("null"@);
    is_ascii_chars_encode_utf8("true"@);
    is_ascii_chars_encode_utf8("false"@);
    assert(encode_utf8("null"@) =~= seq![110u8, 117u8, 108u8, 108u8]);
    assert(encode_utf8("true"@) =~= seq![116u8, 114u8, 117u8, 101u8]);
    assert(encode_utf8("false"@) =~= seq![102u8, 97u8, 108u8, 115u8, 101u8]);
}

/// The bytes of a quoted text.
pub proof fn lemma_quoted_bytes(first: Piece, body: Seq<char>)
    requires
        plain(first) == body,
    ensures
        text_bytes(seq![Piece::Control('"'), first, Piece::Control('"')]) == seq![34u8]
            + encode_utf8(body) + seq![34u8],
{
    let q = seq![Piece::Control('"')];
    let m = seq![first];
    assert(seq![Piece::Control('"'), first, Piece::Control('"')] =~= q + m + q);
    lemma_text_concat(q + m, q);
    lemma_text_concat(q, m);
    lemma_text_control('"');
    lemma_text_one(first);
}

/// The bytes of the pieces of a value are the rendered bytes of the value.
pub proof fn lemma_value_text(v: Json, prefix: Seq<char>, pretty: bool, indent: Seq<char>)
    ensures
        text_bytes(pieces(v, prefix, pretty, indent)) == value_bytes(
            v,
            encode_utf8(prefix),
            pretty,
            encode_utf8(indent),
        ),
    decreases v, 0nat,
{
    reveal_with_fuel(value_bytes, 1);
    let p = encode_utf8(prefix);
    let d = encode_utf8(indent);
    match v {
        Json::Null => {
            lemma_keyword_bytes();
            lemma_text_one(Piece::Keyword("null"@));
        },
        Json::Bool(b) => {
            lemma_keyword_bytes();
            lemma_text_one(Piece::Keyword("true"@));
            lemma_text_one(Piece::Keyword("false"@));
        },
        Json::Int(i) => {
            lemma_text_one(Piece::Number(int_text(i as int)));
            lemma_int_bytes(i as int);
        },
        Json::Uint(u) => {
            lemma_text_one(Piece::Number(int_text(u as int)));
            lemma_int_bytes(u as int);
        },
        Json::Float(t) => {
            lemma_text_one(Piece::Number(t));
        },
        Json::String(s) => {
            lemma_quoted_bytes(Piece::Text(escape_text(s)), escape_text(s));
        },
        Json::Object(entries) => {
            let open = seq![Piece::Control('{')];
            let body = member_pieces(entries, entries.len(), prefix, pretty, indent);
            let line = line_pieces(prefix, pretty);
            let close = seq![Piece::Control('}')];
            lemma_members_text(entries, entries.len(), prefix, pretty, indent);
            lemma_line_bytes(prefix, pretty);
            lemma_text_control('{');
            lemma_text_control('}');
            lemma_text_concat(open + body + line, close);
            lemma_text_concat(open + body, line);
            lemma_text_concat(open, body);
        },
        Json::Array(items) => {
            let open = seq![Piece::Control('[')];
            let body = item_pieces(items, items.len(), prefix, pretty, indent);
            let line = line_pieces(prefix, pretty);
            let close = seq![Piece::Control(']')];
            lemma_items_text(items, items.len(), prefix, pretty, indent);
            lemma_line_bytes(prefix, pretty);
            lemma_text_control('[');
            lemma_text_control(']');
            lemma_text_concat(open + body + line, close);
            lemma_text_concat(open + body, line);
            lemma_text_concat(open, body);
        },
    }
}

/// The bytes of the pieces of one member.
pub proof fn lemma_member_text(
    entries: Seq<(Seq<char>, Json)>,
    i: int,
    prefix: Seq<char>,
    pretty: bool,
    indent: Seq<char>,
)
    requires
        0 <= i < entries.len(),
    ensures
        text_bytes(one_member(entries, i, prefix, pretty, indent)) == member_bytes(
            entries,
            i,
            encode_utf8(prefix),
            pretty,
            encode_utf8(indent),
        ),
    decreases entries, 0nat, 1nat,
{
    reveal_with_fuel(value_bytes, 1);
    let inner = prefix + indent;
    lemma_encode_concat(prefix, indent);
    let line = line_pieces(inner, pretty);
    let key = seq![
        Piece::Control('"'),
        Piece::Key(escape_text(entries[i].0)),
        Piece::Control('"'),
        Piece::Control(':'),
    ];
    let space = if pretty {
        seq![Piece::Layout(seq![' '])]
    } else {
        Seq::<Piece>::empty()
    };
    let value = pieces(entries[i].1, inner, pretty, indent);
    let comma = if i + 1 < entries.len() {
        seq![Piece::Control(',')]
    } else {
        Seq::<Piece>::empty()
    };
    lemma_line_bytes(inner, pretty);
    let quoted = seq![
        Piece::Control('"'),
        Piece::Key(escape_text(entries[i].0)),
        Piece::Control('"'),
    ];
    assert(key =~= quoted + seq![Piece::Control(':')]);
    lemma_text_concat(quoted, seq![Piece::Control(':')]);
    lemma_quoted_bytes(Piece::Key(escape_text(entries[i].0)), escape_text(entries[i].0));
    lemma_text_control(':');
    if pretty {
        lemma_text_one(Piece::Layout(seq![' ']));
        lemma_encode_ascii(' ');
    } else {
        lemma_text_none();
    }
    lemma_value_text(entries[i].1, inner, pretty, indent);
    if i + 1 < entries.len() {
        lemma_text_control(',');
    } else {
        lemma_text_none();
    }
    lemma_text_concat(line + key + space + value, comma);
    lemma_text_concat(line + key + space, value);
    lemma_text_concat(line + key, space);
    lemma_text_concat(line, key);
    assert(text_bytes(line) + text_bytes(key) + text_bytes(space) =~= text_bytes(line) + key_bytes(
        entries[i].0,
        pretty,
    ));
}

/// The bytes of the pieces of the first `n` members.
pub proof fn lemma_members_text(
    entries: Seq<(Seq<char>, Json)>,
    n: nat,
    prefix: Seq<char>,
    pretty: bool,
    indent: Seq<char>,
)
    requires
        n <= entries.len(),
    ensures
        text_bytes(member_pieces(entries, n, prefix, pretty, indent)) == members_bytes(
            entries,
            n,
            encode_utf8(prefix),
            pretty,
            encode_utf8(indent),
        ),
    decreases entries, n, 2nat,
{
    if n == 0 {
        lemma_text_none();
    } else {
        lemma_members_text(entries, (n - 1) as nat, prefix, pretty, indent);
        lemma_member_text(entries, n - 1, prefix, pretty, indent);
        lemma_text_concat(
            member_pieces(entries, (n - 1) as nat, prefix, pretty, indent),
            one_member(entries, n - 1, prefix, pretty, indent),
        );
    }
}

/// The bytes of the pieces of one element.
pub proof fn lemma_item_text(
    items: Seq<Json>,
    i: int,
    prefix: Seq<char>,
    pretty: bool,
    indent: Seq<char>,
)
    requires
        0 <= i < items.len(),
    ensures
        text_bytes(one_item(items, i, prefix, pretty, indent)) == item_bytes(
            items,
            i,
            encode_utf8(prefix),
            pretty,
            encode_utf8(indent),
        ),
    decreases items, 0nat, 1nat,
{
    reveal_with_fuel(value_bytes, 1);
    let inner = prefix + indent;
    lemma_encode_concat(prefix, indent);
    let line = line_pieces(inner, pretty);
    let value = pieces(items[i], inner, pretty, indent);
    let comma = if i + 1 < items.len() {
        seq![Piece::Control(',')]
    } else {
        Seq::<Piece>::empty()
    };
    lemma_line_bytes(inner, pretty);
    lemma_value_text(items[i], inner, pretty, indent);
    if i + 1 < items.len() {
        lemma_text_control(',');
    } else {
        lemma_text_none();
    }
    lemma_text_concat(line + value, comma);
    lemma_text_concat(line, value);
}

/// The bytes of the pieces of the first `n` elements.
pub proof fn lemma_items_text(
    items: Seq<Json>,
    n: nat,
    prefix: Seq<char>,
    pretty: bool,
    indent: Seq<char>,
)
    requires
        n <= items.len(),
    ensures
        text_bytes(item_pieces(items, n, prefix, pretty, indent)) == items_bytes(
            items,
            n,
            encode_utf8(prefix),
            pretty,
            encode_utf8(indent),
        ),
    decreases items, n, 2nat,
{
    if n == 0 {
        lemma_text_none();
    } else {
        lemma_items_text(items, (n - 1) as nat, prefix, pretty, indent);
        lemma_item_text(items, n - 1, prefix, pretty, indent);
        lemma_text_concat(
            item_pieces(items, (n - 1) as nat, prefix, pretty, indent),
            one_item(items, n - 1, prefix, pretty, indent),
        );
    }
}

} // verus!

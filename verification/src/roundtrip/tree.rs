//! Reading the rendered bytes of arrays, objects and whole values.

use crate::error::ErrorKind;
use crate::grammar::{is_blank, is_literal_end, literal_value};
use crate::json_object::{distinct_keys, entries_insert, entries_without};
use crate::json_value::Json;
use crate::roundtrip::bytes::{line_bytes, space_bytes, value_bytes};
use crate::roundtrip::read::{
    blank_text, float_literal, holds, lemma_clean_none, lemma_float_value, lemma_holds_bounds,
    lemma_holds_byte, lemma_holds_nothing, lemma_holds_split, lemma_int_value,
    lemma_keyword_values, lemma_reads_literal, lemma_uint_value, starts_value, stops,
};
use crate::roundtrip::shape::{
    array_rest, lemma_array_bytes, lemma_array_rest, lemma_member_rest, lemma_object_bytes,
    lemma_scalar_bytes, member_rest,
};
use crate::roundtrip::steps::{
    array_reads, clean_is, closing_is, lemma_array_closed, lemma_array_goes_on,
    lemma_clean_is_blanks, lemma_clean_is_none, lemma_closing, lemma_element_closes,
    lemma_element_value, lemma_member, lemma_members_closed, lemma_members_go_on,
    lemma_object_empty, lemma_object_members, lemma_separator, lemma_value_after_blanks,
    lemma_value_is_array, lemma_value_is_object, members_read, value_reads,
};
use crate::roundtrip::text::{lemma_reads_string, string_bytes};
use vstd::prelude::*;
use vstd::utf8::encode_utf8;

verus! {

/// A value as parsing gives it: an integer is `Int` only where it is
/// negative, the text of a floating-point number is a literal with a
/// point, and no object holds a key twice.
pub open spec fn canonical(v: Json) -> bool
    decreases v,
{
    match v {
        Json::Null => true,
        Json::Bool(_) => true,
        Json::Int(i) => i < 0,
        Json::Uint(_) => true,
        Json::Float(t) => float_literal(t),
        Json::String(_) => true,
        Json::Object(entries) => distinct_keys(entries) && forall|i: int|
            0 <= i < entries.len() ==> canonical(#[trigger] entries[i].1),
        Json::Array(items) => forall|i: int| 0 <= i < items.len() ==> canonical(#[trigger] items[i]),
    }
}

/// All elements are canonical.
#[verifier::opaque]
pub open spec fn canonical_items(items: Seq<Json>) -> bool {
    forall|i: int| 0 <= i < items.len() ==> canonical(#[trigger] items[i])
}

/// All values are canonical, and no two pairs have the same key.
#[verifier::opaque]
pub open spec fn canonical_entries(entries: Seq<(Seq<char>, Json)>) -> bool {
    distinct_keys(entries) && forall|i: int|
        0 <= i < entries.len() ==> canonical(#[trigger] entries[i].1)
}

pub proof fn lemma_canonical_item(items: Seq<Json>, k: int)
    requires
        canonical_items(items),
        0 <= k < items.len(),
    ensures
        canonical(items[k]),
{
    reveal(canonical_items);
}

/// Taking out a key that no pair has changes nothing.
pub proof fn lemma_without_absent(entries: Seq<(Seq<char>, Json)>, key: Seq<char>)
    requires
        forall|i: int| 0 <= i < entries.len() ==> (#[trigger] entries[i]).0 != key,
    ensures
        entries_without(entries, key) == entries,
    decreases entries.len(),
{
    if entries.len() > 0 {
        let front = entries.drop_last();
        assert forall|i: int| 0 <= i < front.len() implies (#[trigger] front[i]).0 != key by {
            assert(front[i] == entries[i]);
        }
        lemma_without_absent(front, key);
        assert(entries.last() == entries[entries.len() - 1]);
        assert(front.push(entries.last()) =~= entries);
    }
}

/// A pair with a new key is put behind the others, and its value is
/// canonical.
pub proof fn lemma_canonical_entry(entries: Seq<(Seq<char>, Json)>, k: int)
    requires
        canonical_entries(entries),
        0 <= k < entries.len(),
    ensures
        entries_insert(entries.take(k), entries[k].0, entries[k].1) == entries.take(k + 1),
        canonical(entries[k].1),
        k + 1 == entries.len() ==> entries.take(k + 1) == entries,
{
    reveal(canonical_entries);
    lemma_without_absent(entries.take(k), entries[k].0);
    assert(entries.take(k).push((entries[k].0, entries[k].1)) =~= entries.take(k + 1));
    if k + 1 == entries.len() {
        assert(entries.take(k + 1) =~= entries);
    }
}

/// White space with white space behind it is white space.
pub proof fn lemma_blank_line(prefix: Seq<u8>, indent: Seq<u8>, pretty: bool)
    requires
        blank_text(prefix),
        blank_text(indent),
    ensures
        blank_text(prefix + indent),
        blank_text(line_bytes(prefix, pretty)),
        blank_text(line_bytes(prefix + indent, pretty)),
        blank_text(space_bytes(pretty)),
        blank_text(Seq::<u8>::empty()),
{
    let inner = prefix + indent;
    assert forall|i: int| 0 <= i < inner.len() implies is_blank(#[trigger] inner[i]) by {
        if i < prefix.len() {
            assert(inner[i] == prefix[i]);
        } else {
            assert(inner[i] == indent[i - prefix.len()]);
        }
    }
    let a = line_bytes(prefix, pretty);
    assert forall|i: int| 0 <= i < a.len() implies is_blank(#[trigger] a[i]) by {
        if i > 0 {
            assert(a[i] == prefix[i - 1]);
        }
    }
    let c = line_bytes(inner, pretty);
    assert forall|i: int| 0 <= i < c.len() implies is_blank(#[trigger] c[i]) by {
        if i > 0 {
            assert(c[i] == inner[i - 1]);
        }
    }
}

/// The closing character on a line of its own, behind the last item.
pub proof fn lemma_closing_end(b: Seq<u8>, at: int, prefix: Seq<u8>, pretty: bool, close: u8)
    requires
        blank_text(prefix),
        holds(b, at, line_bytes(prefix, pretty) + seq![close]),
        close == 125 || close == 93,
    ensures
        closing_is(b, at, close, line_bytes(prefix, pretty).len(), true),
        clean_is(b, at, line_bytes(prefix, pretty).len()),
        0 <= at,
        at + line_bytes(prefix, pretty).len() < b.len(),
        b[at + line_bytes(prefix, pretty).len()] == close,
        stops(b, at),
{
    let line = line_bytes(prefix, pretty);
    lemma_blank_line(prefix, Seq::empty(), pretty);
    lemma_holds_split(b, at, line, seq![close]);
    lemma_holds_byte(b, at + line.len(), seq![close], 0);
    lemma_holds_bounds(b, at, line);
    lemma_clean_is_none(b, at + line.len());
    lemma_clean_is_blanks(b, at, line, 0);
    lemma_closing(b, at, close, line.len());
    if pretty {
        lemma_holds_byte(b, at, line, 0);
    }
}

/// A comma behind an item that is not the last.
pub proof fn lemma_closing_comma(b: Seq<u8>, at: int, close: u8, others: Seq<u8>)
    requires
        holds(b, at, seq![44u8] + others),
        close == 125 || close == 93,
    ensures
        closing_is(b, at, close, 0, false),
        stops(b, at),
        holds(b, at + 1, others),
        0 <= at < b.len(),
{
    lemma_holds_split(b, at, seq![44u8], others);
    lemma_holds_byte(b, at, seq![44u8], 0);
    lemma_clean_is_none(b, at);
    lemma_closing(b, at, close, 0);
}

/// A rendered literal is read back.
pub proof fn lemma_reads_literal_value(b: Seq<u8>, pos: int, v: Json, t: Seq<u8>)
    requires
        holds(b, pos, t),
        stops(b, pos + t.len()),
        t.len() >= 1,
        starts_value(t[0]),
        t[0] != 34,
        t[0] != 123,
        t[0] != 91,
        forall|i: int| 0 <= i < t.len() ==> !is_literal_end(#[trigger] t[i]),
        literal_value(t) == Ok::<Json, ErrorKind>(v),
    ensures
        value_reads(b, pos, v, t.len()),
        clean_is(b, pos, 0),
        0 <= pos < b.len(),
        starts_value(b[pos]),
{
    reveal(value_reads);
    lemma_holds_byte(b, pos, t, 0);
    lemma_reads_literal(b, pos, t);
    lemma_clean_none(b, pos);
    lemma_clean_is_none(b, pos);
}

/// A rendered string is read back.
pub proof fn lemma_reads_text(b: Seq<u8>, pos: int, s: Seq<char>)
    requires
        holds(b, pos, string_bytes(s)),
    ensures
        value_reads(b, pos, Json::String(s), string_bytes(s).len()),
        clean_is(b, pos, 0),
        0 <= pos < b.len(),
        starts_value(b[pos]),
{
    reveal(value_reads);
    lemma_holds_byte(b, pos, string_bytes(s), 0);
    lemma_reads_string(b, pos, s);
    lemma_clean_is_none(b, pos);
}

/// The bytes `t` are a literal that denotes `v`: none of them ends a
/// literal, and the first can start a value but no string or container.
#[verifier::opaque]
pub open spec fn literal_of(t: Seq<u8>, v: Json) -> bool {
    &&& t.len() >= 1
    &&& starts_value(t[0])
    &&& t[0] != 34
    &&& t[0] != 123
    &&& t[0] != 91
    &&& forall|i: int| 0 <= i < t.len() ==> !is_literal_end(#[trigger] t[i])
    &&& literal_value(t) == Ok::<Json, ErrorKind>(v)
}

/// The bytes of a keyword are a literal that denotes it.
pub proof fn lemma_keyword_literal(v: Json)
    requires
        v is Null || v is Bool,
    ensures
        literal_of(value_bytes(v, Seq::empty(), false, Seq::empty()), v),
{
    reveal_with_fuel(value_bytes, 1);
    reveal(literal_of);
    lemma_keyword_values();
}

/// The bytes of an integer are a literal that denotes it.
pub proof fn lemma_integer_literal(v: Json)
    requires
        canonical(v),
        v is Int || v is Uint,
    ensures
        literal_of(value_bytes(v, Seq::empty(), false, Seq::empty()), v),
{
    reveal_with_fuel(value_bytes, 1);
    reveal(literal_of);
    match v {
        Json::Int(i) => {
            lemma_int_value(i);
        },
        Json::Uint(u) => {
            lemma_uint_value(u);
        },
        _ => {},
    }
}

/// The bytes of a floating-point number are a literal that denotes it.
pub proof fn lemma_point_literal(v: Json)
    requires
        canonical(v),
        v is Float,
    ensures
        literal_of(value_bytes(v, Seq::empty(), false, Seq::empty()), v),
{
    reveal_with_fuel(value_bytes, 1);
    reveal(literal_of);
    match v {
        Json::Float(text) => {
            lemma_float_value(text);
            let t = encode_utf8(text);
            assert(!is_literal_end(t[0]));
        },
        _ => {},
    }
}

/// The bytes of a scalar that is no string are a literal that denotes it.
pub proof fn lemma_scalar_literal(v: Json)
    requires
        canonical(v),
        v is Null || v is Bool || v is Int || v is Uint || v is Float,
    ensures
        literal_of(value_bytes(v, Seq::empty(), false, Seq::empty()), v),
{
    if v is Null || v is Bool {
        lemma_keyword_literal(v);
    } else if v is Float {
        lemma_point_literal(v);
    } else {
        lemma_integer_literal(v);
    }
}

/// A rendered scalar is read back.
pub proof fn lemma_reads_scalar(b: Seq<u8>, pos: int, v: Json)
    requires
        canonical(v),
        !(v is Array),
        !(v is Object),
        holds(b, pos, value_bytes(v, Seq::empty(), false, Seq::empty())),
        stops(b, pos + value_bytes(v, Seq::empty(), false, Seq::empty()).len()),
    ensures
        value_reads(b, pos, v, value_bytes(v, Seq::empty(), false, Seq::empty()).len()),
        clean_is(b, pos, 0),
        0 <= pos < b.len(),
        starts_value(b[pos]),
{
    let t = value_bytes(v, Seq::empty(), false, Seq::empty());
    match v {
        Json::String(s) => {
            assert(t == string_bytes(s)) by {
                reveal_with_fuel(value_bytes, 1);
            }
            lemma_reads_text(b, pos, s);
        },
        _ => {
            lemma_scalar_literal(v);
            reveal(literal_of);
            lemma_reads_literal_value(b, pos, v, t);
        },
    }
}

/// A rendered value is read back.
pub proof fn lemma_reads_value(
    b: Seq<u8>,
    pos: int,
    v: Json,
    prefix: Seq<u8>,
    pretty: bool,
    indent: Seq<u8>,
)
    requires
        canonical(v),
        blank_text(prefix),
        blank_text(indent),
        holds(b, pos, value_bytes(v, prefix, pretty, indent)),
        stops(b, pos + value_bytes(v, prefix, pretty, indent).len()),
    ensures
        value_reads(b, pos, v, value_bytes(v, prefix, pretty, indent).len()),
        clean_is(b, pos, 0),
        0 <= pos < b.len(),
        starts_value(b[pos]),
    decreases v, 0nat,
{
    match v {
        Json::Array(items) => {
            assert(canonical_items(items)) by {
                reveal(canonical_items);
            }
            lemma_reads_array(b, pos, items, prefix, pretty, indent);
        },
        Json::Object(entries) => {
            assert(canonical_entries(entries)) by {
                reveal(canonical_entries);
            }
            lemma_reads_object(b, pos, entries, prefix, pretty, indent);
        },
        _ => {
            lemma_scalar_bytes(v, prefix, pretty, indent);
            lemma_reads_scalar(b, pos, v);
        },
    }
}

/// A rendered array is read back.
pub proof fn lemma_reads_array(
    b: Seq<u8>,
    pos: int,
    items: Seq<Json>,
    prefix: Seq<u8>,
    pretty: bool,
    indent: Seq<u8>,
)
    requires
        canonical_items(items),
        blank_text(prefix),
        blank_text(indent),
        holds(b, pos, value_bytes(Json::Array(items), prefix, pretty, indent)),
    ensures
        value_reads(
            b,
            pos,
            Json::Array(items),
            value_bytes(Json::Array(items), prefix, pretty, indent).len(),
        ),
        clean_is(b, pos, 0),
        0 <= pos < b.len(),
        starts_value(b[pos]),
    decreases items, (items.len() + 2) as nat,
{
    lemma_array_bytes(items, prefix, pretty, indent);
    let inner = array_rest(items, 0, prefix, pretty, indent);
    lemma_holds_split(b, pos, seq![91u8], inner);
    lemma_holds_byte(b, pos, seq![91u8], 0);
    lemma_clean_is_none(b, pos);
    assert(items.take(0) =~= Seq::<Json>::empty());
    lemma_reads_items(b, pos + 1, items, 0, prefix, pretty, indent);
    lemma_value_is_array(b, pos, items, inner.len());
}

/// The rendered elements of an array from the one at `k` on are read back,
/// with the closing bracket.
pub proof fn lemma_reads_items(
    b: Seq<u8>,
    at: int,
    items: Seq<Json>,
    k: int,
    prefix: Seq<u8>,
    pretty: bool,
    indent: Seq<u8>,
)
    requires
        0 <= k <= items.len(),
        k < items.len() || items.len() == 0,
        canonical_items(items),
        blank_text(prefix),
        blank_text(indent),
        holds(b, at, array_rest(items, k, prefix, pretty, indent)),
    ensures
        array_reads(
            b,
            at,
            items.take(k),
            k > 0,
            items,
            array_rest(items, k, prefix, pretty, indent).len(),
        ),
    decreases items, (items.len() - k + 1) as nat,
{
    let acc = items.take(k);
    let line = line_bytes(prefix, pretty);
    lemma_array_rest(items, k, prefix, pretty, indent);
    if items.len() == 0 {
        lemma_closing_end(b, at, prefix, pretty, 93);
        lemma_element_closes(b, at, acc, line.len());
        lemma_array_closed(b, at, acc, false, acc, line.len());
        assert(acc =~= items);
    } else {
        let inner = prefix + indent;
        let lead = line_bytes(inner, pretty);
        let value = value_bytes(items[k], inner, pretty, indent);
        let more = k + 1 < items.len();
        let next = array_rest(items, k + 1, prefix, pretty, indent);
        let behind = if more {
            seq![44u8] + next
        } else {
            line + seq![93u8]
        };
        lemma_blank_line(prefix, indent, pretty);
        lemma_canonical_item(items, k);
        lemma_holds_split(b, at, lead, value + behind);
        let p = at + lead.len();
        lemma_holds_split(b, p, value, behind);
        let q = p + value.len();
        lemma_holds_bounds(b, at, lead);
        let gap: nat = if more {
            0
        } else {
            line.len()
        };
        if more {
            lemma_closing_comma(b, q, 93, next);
        } else {
            lemma_closing_end(b, q, prefix, pretty, 93);
        }
        lemma_reads_value(b, p, items[k], inner, pretty, indent);
        lemma_value_after_blanks(b, at, lead, items[k], value.len());
        lemma_element_value(b, at, acc, k > 0, lead.len(), items[k], value.len(), gap, !more);
        assert(acc.push(items[k]) =~= items.take(k + 1));
        if more {
            lemma_reads_items(b, q + 1, items, k + 1, prefix, pretty, indent);
            lemma_array_goes_on(
                b,
                at,
                acc,
                k > 0,
                items.take(k + 1),
                lead.len() + value.len() + gap,
                items,
                next.len(),
            );
        } else {
            assert(items.take(k + 1) =~= items);
            lemma_array_closed(b, at, acc, k > 0, items, lead.len() + value.len() + gap);
        }
    }
}

/// One rendered member of an object is read back, up to the character that
/// follows it. `lead` is the white space in front of the member that is
/// still to be read.
pub proof fn lemma_reads_member(
    b: Seq<u8>,
    at: int,
    lead: Seq<u8>,
    name: Seq<char>,
    v: Json,
    behind: Seq<u8>,
    prefix: Seq<u8>,
    pretty: bool,
    indent: Seq<u8>,
)
    requires
        canonical(v),
        blank_text(prefix),
        blank_text(indent),
        blank_text(lead),
        holds(b, at, lead),
        holds(
            b,
            at + lead.len(),
            string_bytes(name) + (seq![58u8] + (space_bytes(pretty) + (value_bytes(
                v,
                prefix + indent,
                pretty,
                indent,
            ) + behind))),
        ),
        stops(
            b,
            at + lead.len() + string_bytes(name).len() + 1 + space_bytes(pretty).len()
                + value_bytes(v, prefix + indent, pretty, indent).len(),
        ),
    ensures
        value_reads(b, at, Json::String(name), lead.len() + string_bytes(name).len()),
        crate::roundtrip::steps::separator_is(b, at + lead.len() + string_bytes(name).len(), 1),
        value_reads(
            b,
            at + lead.len() + string_bytes(name).len() + 1,
            v,
            space_bytes(pretty).len() + value_bytes(v, prefix + indent, pretty, indent).len(),
        ),
        holds(
            b,
            at + lead.len() + string_bytes(name).len() + 1 + space_bytes(pretty).len()
                + value_bytes(v, prefix + indent, pretty, indent).len(),
            behind,
        ),
    decreases v, 1nat,
{
    let inner = prefix + indent;
    let quoted = string_bytes(name);
    let colon = seq![58u8];
    let space = space_bytes(pretty);
    let value = value_bytes(v, inner, pretty, indent);
    lemma_blank_line(prefix, indent, pretty);
    lemma_holds_bounds(b, at, lead);
    let p = at + lead.len();
    lemma_holds_split(b, p, quoted, colon + (space + (value + behind)));
    let c = p + quoted.len();
    lemma_holds_split(b, c, colon, space + (value + behind));
    lemma_holds_split(b, c + 1, space, value + behind);
    let w = c + 1 + space.len();
    lemma_holds_split(b, w, value, behind);
    // the key
    lemma_holds_byte(b, p, quoted, 0);
    lemma_clean_is_none(b, p);
    lemma_reads_string(b, p, name);
    assert(value_reads(b, p, Json::String(name), quoted.len())) by {
        reveal(value_reads);
    }
    lemma_value_after_blanks(b, at, lead, Json::String(name), quoted.len());
    // the value
    lemma_reads_value(b, w, v, inner, pretty, indent);
    lemma_value_after_blanks(b, c + 1, space, v, value.len());
    // the separator
    lemma_holds_byte(b, c, colon, 0);
    if pretty {
        lemma_holds_byte(b, c + 1, space, 0);
    }
    lemma_separator(b, c);
}

/// The rendered members of an object from the one at `k` on are read back,
/// with the closing brace. `lead` is the white space in front of the
/// member at `k` that is still to be read.
pub proof fn lemma_reads_members(
    b: Seq<u8>,
    at: int,
    lead: Seq<u8>,
    entries: Seq<(Seq<char>, Json)>,
    k: int,
    prefix: Seq<u8>,
    pretty: bool,
    indent: Seq<u8>,
)
    requires
        0 <= k < entries.len(),
        canonical_entries(entries),
        blank_text(prefix),
        blank_text(indent),
        blank_text(lead),
        holds(b, at, lead),
        holds(b, at + lead.len(), member_rest(entries, k, prefix, pretty, indent)),
    ensures
        members_read(
            b,
            at,
            entries.take(k),
            entries,
            lead.len() + member_rest(entries, k, prefix, pretty, indent).len(),
        ),
    decreases entries, (entries.len() - k + 1) as nat,
{
    let acc = entries.take(k);
    let inner = prefix + indent;
    let line = line_bytes(prefix, pretty);
    let name = entries[k].0;
    let quoted = string_bytes(name);
    let space = space_bytes(pretty);
    let value = value_bytes(entries[k].1, inner, pretty, indent);
    let more = k + 1 < entries.len();
    let front = line_bytes(inner, pretty);
    let next = member_rest(entries, k + 1, prefix, pretty, indent);
    let behind = if more {
        seq![44u8] + (front + next)
    } else {
        line + seq![125u8]
    };
    lemma_member_rest(entries, k, prefix, pretty, indent);
    lemma_canonical_entry(entries, k);
    lemma_blank_line(prefix, indent, pretty);
    lemma_holds_bounds(b, at, lead);
    let q = at + lead.len() + quoted.len() + 1 + space.len() + value.len();
    // what follows the value
    let p = at + lead.len();
    lemma_holds_split(b, p, quoted, seq![58u8] + (space + (value + behind)));
    lemma_holds_split(b, p + quoted.len(), seq![58u8], space + (value + behind));
    lemma_holds_split(b, p + quoted.len() + 1, space, value + behind);
    lemma_holds_split(b, p + quoted.len() + 1 + space.len(), value, behind);
    let gap: nat = if more {
        0
    } else {
        line.len()
    };
    if more {
        lemma_closing_comma(b, q, 125, front + next);
    } else {
        lemma_closing_end(b, q, prefix, pretty, 125);
    }
    assert(decreases_to!(entries => entries[k]));
    assert(decreases_to!(entries[k] => entries[k].1));
    lemma_reads_member(b, at, lead, name, entries[k].1, behind, prefix, pretty, indent);
    lemma_member(
        b,
        at,
        acc,
        name,
        lead.len() + quoted.len(),
        1,
        entries[k].1,
        space.len() + value.len(),
        gap,
        !more,
    );
    let used: nat = lead.len() + quoted.len() + 1 + space.len() + value.len() + gap;
    if more {
        lemma_holds_split(b, q + 1, front, next);
        lemma_reads_members(b, q + 1, front, entries, k + 1, prefix, pretty, indent);
        lemma_members_go_on(
            b,
            at,
            acc,
            entries.take(k + 1),
            used,
            entries,
            front.len() + next.len(),
        );
    } else {
        lemma_members_closed(b, at, acc, entries, used);
    }
}

/// A rendered object is read back.
pub proof fn lemma_reads_object(
    b: Seq<u8>,
    pos: int,
    entries: Seq<(Seq<char>, Json)>,
    prefix: Seq<u8>,
    pretty: bool,
    indent: Seq<u8>,
)
    requires
        canonical_entries(entries),
        blank_text(prefix),
        blank_text(indent),
        holds(b, pos, value_bytes(Json::Object(entries), prefix, pretty, indent)),
    ensures
        value_reads(
            b,
            pos,
            Json::Object(entries),
            value_bytes(Json::Object(entries), prefix, pretty, indent).len(),
        ),
        clean_is(b, pos, 0),
        0 <= pos < b.len(),
        starts_value(b[pos]),
    decreases entries, (entries.len() + 2) as nat,
{
    lemma_object_bytes(entries, prefix, pretty, indent);
    let line = line_bytes(prefix, pretty);
    let front = line_bytes(prefix + indent, pretty);
    let rest = member_rest(entries, 0, prefix, pretty, indent);
    let inner = if entries.len() == 0 {
        line + seq![125u8]
    } else {
        front + rest
    };
    lemma_holds_split(b, pos, seq![123u8], inner);
    lemma_holds_byte(b, pos, seq![123u8], 0);
    lemma_clean_is_none(b, pos);
    lemma_blank_line(prefix, indent, pretty);
    if entries.len() == 0 {
        lemma_closing_end(b, pos + 1, prefix, pretty, 125);
        lemma_object_empty(b, pos + 1, line.len());
        assert(entries =~= Seq::<(Seq<char>, Json)>::empty());
        lemma_value_is_object(b, pos, entries, line.len() + 1);
    } else {
        lemma_holds_split(b, pos + 1, front, rest);
        let p = pos + 1 + front.len();
        lemma_holds_bounds(b, pos + 1, front);
        lemma_holds_bounds(b, p, rest);
        lemma_member_rest(entries, 0, prefix, pretty, indent);
        lemma_holds_byte(b, p, rest, 0);
        assert(rest[0] == 34);
        lemma_clean_is_none(b, p);
        lemma_clean_is_blanks(b, pos + 1, front, 0);
        assert(entries.take(0) =~= Seq::<(Seq<char>, Json)>::empty());
        lemma_holds_nothing(b, p);
        lemma_reads_members(b, p, Seq::empty(), entries, 0, prefix, pretty, indent);
        lemma_object_members(b, pos + 1, front.len(), entries, rest.len());
        lemma_value_is_object(b, pos, entries, front.len() + rest.len());
    }
}

} // verus!

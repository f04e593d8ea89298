//! What holds of parsing and rendering together.

use crate::builder::render;
use crate::error::ErrorKind;
use crate::grammar::{parse_text, strip_bom};
use crate::json_value::Json;
use crate::roundtrip::bytes::{lemma_value_text, value_bytes};
use crate::roundtrip::normal::{
    lemma_canonical_is_readable, lemma_normal_is_canonical, lemma_normal_of_canonical,
    lemma_normal_pieces,
};
use crate::roundtrip::parsed::lemma_value_readable;
use crate::roundtrip::read::{blank_text, holds};
use crate::roundtrip::steps::value_reads;
use crate::roundtrip::tree::lemma_reads_value;
use vstd::prelude::*;
use vstd::utf8::{encode_utf8, is_ascii_chars, is_ascii_chars_encode_utf8};

pub use crate::roundtrip::read::float_literal;
pub use crate::roundtrip::normal::{normal, readable};
pub use crate::roundtrip::tree::canonical;

verus! {

/// An indentation that a parser skips: tabs, spaces, newlines and carriage
/// returns.
pub open spec fn blank_indent(indent: Seq<char>) -> bool {
    forall|i: int|
        0 <= i < indent.len() ==> {
            let c = #[trigger] indent[i];
            c == '\t' || c == ' ' || c == '\n' || c == '\r'
        }
}

/// The bytes of a blank indentation are white space.
pub proof fn lemma_blank_indent(indent: Seq<char>)
    requires
        blank_indent(indent),
    ensures
        blank_text(encode_utf8(indent)),
{
    assert(is_ascii_chars(indent));
    is_ascii_chars_encode_utf8(indent);
    let bytes = encode_utf8(indent);
    assert forall|i: int| 0 <= i < bytes.len() implies crate::grammar::is_blank(
        #[trigger] bytes[i],
    ) by {
        assert(indent[i] as u8 == bytes[i]);
    }
}

/// Parsing gives back what was rendered, in normal form.
///
/// For every readable value, and every configuration without color whose
/// indentation is blank, the rendered text of the value parses to the
/// normal form of the value.
pub proof fn lemma_parse_of_render(v: Json, pretty: bool, indent: Seq<char>)
    requires
        readable(v),
        blank_indent(indent),
    ensures
        parse_text(render(v, pretty, indent)) == Ok::<Json, ErrorKind>(normal(v)),
        render(normal(v), pretty, indent) == render(v, pretty, indent),
{
    let empty = Seq::<char>::empty();
    let w = normal(v);
    lemma_normal_is_canonical(v);
    lemma_normal_pieces(v, empty, pretty, indent);
    lemma_value_text(w, empty, pretty, indent);
    lemma_blank_indent(indent);
    assert(encode_utf8(empty) =~= Seq::<u8>::empty());
    let b = value_bytes(w, Seq::<u8>::empty(), pretty, encode_utf8(indent));
    assert(encode_utf8(render(v, pretty, indent)) == b);
    assert(holds(b, 0, b)) by {
        reveal(holds);
    }
    lemma_reads_value(b, 0, w, Seq::<u8>::empty(), pretty, encode_utf8(indent));
    reveal(value_reads);
    assert(strip_bom(b) == b);
}

/// Round trip: the compact text of a canonical value parses to the value.
pub proof fn lemma_round_trip(v: Json)
    requires
        canonical(v),
    ensures
        parse_text(render(v, false, Seq::empty())) == Ok::<Json, ErrorKind>(v),
{
    lemma_normal_of_canonical(v);
    lemma_canonical_is_readable(v);
    lemma_parse_of_render(v, false, Seq::empty());
}

/// Idempotence: the pretty text of a readable value, parsed and rendered
/// again with the same blank indentation, is the same text.
pub proof fn lemma_pretty_idempotent(v: Json, indent: Seq<char>)
    requires
        readable(v),
        blank_indent(indent),
    ensures
        match parse_text(render(v, true, indent)) {
            Ok(w) => render(w, true, indent) == render(v, true, indent),
            Err(_) => false,
        },
{
    lemma_parse_of_render(v, true, indent);
}

/// What parsing gives is readable: the text of each floating-point number
/// is a literal with a point, and no object holds a key twice.
pub proof fn lemma_parsed_is_readable(text: Seq<char>)
    ensures
        parse_text(text) matches Ok(v) ==> readable(v),
{
    lemma_value_readable(strip_bom(encode_utf8(text)), 0);
}

/// What parsing gives can be rendered and parsed again: in every
/// configuration without color whose indentation is blank, the rendered
/// text of a parsed value parses to the normal form of that value, and the
/// normal form is rendered as the value is.
pub proof fn lemma_render_of_parsed(text: Seq<char>, pretty: bool, indent: Seq<char>)
    requires
        blank_indent(indent),
    ensures
        parse_text(text) matches Ok(v) ==> parse_text(render(v, pretty, indent)) == Ok::<
            Json,
            ErrorKind,
        >(normal(v)) && render(normal(v), pretty, indent) == render(v, pretty, indent),
{
    lemma_parsed_is_readable(text);
    match parse_text(text) {
        Ok(v) => {
            lemma_parse_of_render(v, pretty, indent);
        },
        Err(_) => {},
    }
}

} // verus!

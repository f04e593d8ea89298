//! The form in which parsing gives a value: an integer that is not negative
//! is `Uint`.

use crate::builder::{item_pieces, member_pieces, one_item, one_member, pieces};
use crate::json_value::Json;
use crate::json_object::distinct_keys;
use crate::roundtrip::read::float_literal;
use crate::roundtrip::tree::canonical;
use vstd::prelude::*;

verus! {

/// The pairs with each value in normal form.
pub open spec fn normal_entries(entries: Seq<(Seq<char>, Json)>) -> Seq<(Seq<char>, Json)>
    decreases entries, 1nat,
{
    Seq::new(
        entries.len(),
        |k: int|
            if 0 <= k < entries.len() {
                (entries[k].0, normal(entries[k].1))
            } else {
                (Seq::empty(), Json::Null)
            },
    )
}

/// The elements in normal form.
pub open spec fn normal_items(items: Seq<Json>) -> Seq<Json>
    decreases items, 1nat,
{
    Seq::new(
        items.len(),
        |k: int|
            if 0 <= k < items.len() {
                normal(items[k])
            } else {
                Json::Null
            },
    )
}

/// The value with each integer that is not negative held as `Uint`.
pub open spec fn normal(v: Json) -> Json
    decreases v, 0nat,
{
    match v {
        Json::Int(i) => if i >= 0 {
            Json::Uint(i as u128)
        } else {
            v
        },
        Json::Object(entries) => Json::Object(normal_entries(entries)),
        Json::Array(items) => Json::Array(normal_items(items)),
        _ => v,
    }
}

/// A value that can be rendered and read back: the text of each
/// floating-point number is a literal with a point, and no object holds a
/// key twice.
pub open spec fn readable(v: Json) -> bool
    decreases v,
{
    match v {
        Json::Float(t) => float_literal(t),
        Json::Object(entries) => distinct_keys(entries) && forall|i: int|
            0 <= i < entries.len() ==> readable(#[trigger] entries[i].1),
        Json::Array(items) => forall|i: int| 0 <= i < items.len() ==> readable(#[trigger] items[i]),
        _ => true,
    }
}

/// The normal form of a readable value is canonical.
pub proof fn lemma_normal_is_canonical(v: Json)
    requires
        readable(v),
    ensures
        canonical(normal(v)),
    decreases v,
{
    match v {
        Json::Object(entries) => {
            let normed = normal_entries(entries);
            assert forall|i: int| 0 <= i < normed.len() implies canonical(
                #[trigger] normed[i].1,
            ) by {
                assert(readable(entries[i].1));
                lemma_normal_is_canonical(entries[i].1);
            }
            assert forall|i: int, j: int| 0 <= i < j < normed.len() implies normed[i].0
                != normed[j].0 by {
                assert(normed[i].0 == entries[i].0 && normed[j].0 == entries[j].0);
            }
        },
        Json::Array(items) => {
            let normed = normal_items(items);
            assert forall|i: int| 0 <= i < normed.len() implies canonical(#[trigger] normed[i]) by {
                assert(readable(items[i]));
                lemma_normal_is_canonical(items[i]);
            }
        },
        _ => {},
    }
}

/// A canonical value is readable.
pub proof fn lemma_canonical_is_readable(v: Json)
    requires
        canonical(v),
    ensures
        readable(v),
    decreases v,
{
    match v {
        Json::Object(entries) => {
            assert forall|i: int| 0 <= i < entries.len() implies readable(
                #[trigger] entries[i].1,
            ) by {
                assert(canonical(entries[i].1));
                lemma_canonical_is_readable(entries[i].1);
            }
        },
        Json::Array(items) => {
            assert forall|i: int| 0 <= i < items.len() implies readable(#[trigger] items[i]) by {
                assert(canonical(items[i]));
                lemma_canonical_is_readable(items[i]);
            }
        },
        _ => {},
    }
}

/// The normal form is rendered as the value is.
pub proof fn lemma_normal_pieces(v: Json, prefix: Seq<char>, pretty: bool, indent: Seq<char>)
    ensures
        pieces(normal(v), prefix, pretty, indent) == pieces(v, prefix, pretty, indent),
    decreases v, 0nat,
{
    match v {
        Json::Object(entries) => {
            lemma_normal_members(entries, entries.len(), prefix, pretty, indent);
        },
        Json::Array(items) => {
            lemma_normal_items(items, items.len(), prefix, pretty, indent);
        },
        _ => {},
    }
}

/// The first members in normal form are rendered as they are.
pub proof fn lemma_normal_members(
    entries: Seq<(Seq<char>, Json)>,
    n: nat,
    prefix: Seq<char>,
    pretty: bool,
    indent: Seq<char>,
)
    requires
        n <= entries.len(),
    ensures
        member_pieces(normal_entries(entries), n, prefix, pretty, indent) == member_pieces(
            entries,
            n,
            prefix,
            pretty,
            indent,
        ),
    decreases entries, n,
{
    if n > 0 {
        lemma_normal_members(entries, (n - 1) as nat, prefix, pretty, indent);
        let k = n - 1;
        lemma_normal_pieces(entries[k].1, prefix + indent, pretty, indent);
        assert(normal_entries(entries)[k] == (entries[k].0, normal(entries[k].1)));
        assert(one_member(normal_entries(entries), k, prefix, pretty, indent) == one_member(
            entries,
            k,
            prefix,
            pretty,
            indent,
        ));
    }
}

/// The first elements in normal form are rendered as they are.
pub proof fn lemma_normal_items(
    items: Seq<Json>,
    n: nat,
    prefix: Seq<char>,
    pretty: bool,
    indent: Seq<char>,
)
    requires
        n <= items.len(),
    ensures
        item_pieces(normal_items(items), n, prefix, pretty, indent) == item_pieces(
            items,
            n,
            prefix,
            pretty,
            indent,
        ),
    decreases items, n,
{
    if n > 0 {
        lemma_normal_items(items, (n - 1) as nat, prefix, pretty, indent);
        let k = n - 1;
        lemma_normal_pieces(items[k], prefix + indent, pretty, indent);
        assert(normal_items(items)[k] == normal(items[k]));
        assert(one_item(normal_items(items), k, prefix, pretty, indent) == one_item(
            items,
            k,
            prefix,
            pretty,
            indent,
        ));
    }
}

/// A canonical value is its own normal form.
pub proof fn lemma_normal_of_canonical(v: Json)
    requires
        canonical(v),
    ensures
        normal(v) == v,
    decreases v,
{
    match v {
        Json::Object(entries) => {
            assert forall|k: int| 0 <= k < entries.len() implies normal_entries(entries)[k]
                == entries[k] by {
                lemma_normal_of_canonical(entries[k].1);
            }
            assert(normal_entries(entries) =~= entries);
        },
        Json::Array(items) => {
            assert forall|k: int| 0 <= k < items.len() implies normal_items(items)[k]
                == items[k] by {
                lemma_normal_of_canonical(items[k]);
            }
            assert(normal_items(items) =~= items);
        },
        _ => {},
    }
}

} // verus!

//! The rendered bytes of a container, grouped as they are read: each part
//! followed by all that stands behind it.

use crate::json_value::Json;
use crate::roundtrip::bytes::{
    comma_bytes, item_bytes, items_bytes, key_bytes, line_bytes, member_bytes, members_bytes,
    space_bytes, value_bytes,
};
use crate::roundtrip::text::string_bytes;
use vstd::prelude::*;

verus! {

pub proof fn lemma_assoc(a: Seq<u8>, b: Seq<u8>, c: Seq<u8>)
    ensures
        (a + b) + c == a + (b + c),
{
    assert((a + b) + c =~= a + (b + c));
}

pub proof fn lemma_right_empty(a: Seq<u8>)
    ensures
        a + Seq::<u8>::empty() == a,
{
    assert(a + Seq::<u8>::empty() =~= a);
}

pub proof fn lemma_left_empty(a: Seq<u8>)
    ensures
        Seq::<u8>::empty() + a == a,
{
    assert(Seq::<u8>::empty() + a =~= a);
}

/// The rendered bytes of the elements of an array from the one at `k` on.
pub open spec fn later_items(
    items: Seq<Json>,
    k: int,
    prefix: Seq<u8>,
    pretty: bool,
    indent: Seq<u8>,
) -> Seq<u8>
    decreases items.len() - k,
{
    if 0 <= k < items.len() {
        item_bytes(items, k, prefix, pretty, indent) + later_items(
            items,
            k + 1,
            prefix,
            pretty,
            indent,
        )
    } else {
        Seq::empty()
    }
}

/// The elements are the first ones and the later ones.
pub proof fn lemma_items_split(
    items: Seq<Json>,
    k: int,
    prefix: Seq<u8>,
    pretty: bool,
    indent: Seq<u8>,
)
    requires
        0 <= k <= items.len(),
    ensures
        items_bytes(items, k as nat, prefix, pretty, indent) + later_items(
            items,
            k,
            prefix,
            pretty,
            indent,
        ) == items_bytes(items, items.len(), prefix, pretty, indent),
    decreases items.len() - k,
{
    let a = items_bytes(items, k as nat, prefix, pretty, indent);
    if k < items.len() {
        lemma_items_split(items, k + 1, prefix, pretty, indent);
        let x = item_bytes(items, k, prefix, pretty, indent);
        let r = later_items(items, k + 1, prefix, pretty, indent);
        assert(items_bytes(items, (k + 1) as nat, prefix, pretty, indent) == a + x);
        lemma_assoc(a, x, r);
    } else {
        lemma_right_empty(a);
    }
}

/// What stands behind the opening bracket of an array once `k` elements
/// are read: the line break, the element at `k`, and what stands behind it.
#[verifier::opaque]
pub open spec fn array_rest(
    items: Seq<Json>,
    k: int,
    prefix: Seq<u8>,
    pretty: bool,
    indent: Seq<u8>,
) -> Seq<u8>
    decreases items.len() - k,
{
    if 0 <= k < items.len() {
        line_bytes(prefix + indent, pretty) + (value_bytes(
            items[k],
            prefix + indent,
            pretty,
            indent,
        ) + (if k + 1 < items.len() {
            seq![44u8] + array_rest(items, k + 1, prefix, pretty, indent)
        } else {
            line_bytes(prefix, pretty) + seq![93u8]
        }))
    } else {
        line_bytes(prefix, pretty) + seq![93u8]
    }
}

/// The later elements and the closing bracket, grouped as they are read.
pub proof fn lemma_later_items(
    items: Seq<Json>,
    k: int,
    prefix: Seq<u8>,
    pretty: bool,
    indent: Seq<u8>,
)
    requires
        0 <= k <= items.len(),
        k < items.len() || items.len() == 0,
    ensures
        later_items(items, k, prefix, pretty, indent) + (line_bytes(prefix, pretty) + seq![93u8])
            == array_rest(items, k, prefix, pretty, indent),
    decreases items.len() - k,
{
    reveal_with_fuel(array_rest, 1);
    reveal_with_fuel(value_bytes, 1);
    let end = line_bytes(prefix, pretty) + seq![93u8];
    if k < items.len() {
        let lead = line_bytes(prefix + indent, pretty);
        let value = value_bytes(items[k], prefix + indent, pretty, indent);
        let more = k + 1 < items.len();
        let comma = comma_bytes(more);
        let next = later_items(items, k + 1, prefix, pretty, indent);
        assert(item_bytes(items, k, prefix, pretty, indent) == (lead + value) + comma);
        // ((lead + value) + comma) + next) + end
        lemma_assoc((lead + value) + comma, next, end);
        lemma_assoc(lead + value, comma, next + end);
        lemma_assoc(lead, value, comma + (next + end));
        if more {
            lemma_later_items(items, k + 1, prefix, pretty, indent);
        } else {
            lemma_left_empty(end);
            lemma_left_empty(next + end);
        }
    } else {
        lemma_left_empty(end);
    }
}

/// The bytes of an array are the opening bracket and what stands behind
/// it.
pub proof fn lemma_array_bytes(items: Seq<Json>, prefix: Seq<u8>, pretty: bool, indent: Seq<u8>)
    ensures
        value_bytes(Json::Array(items), prefix, pretty, indent) == seq![91u8] + array_rest(
            items,
            0,
            prefix,
            pretty,
            indent,
        ),
{
    reveal_with_fuel(value_bytes, 1);
    let body = items_bytes(items, items.len(), prefix, pretty, indent);
    let line = line_bytes(prefix, pretty);
    lemma_items_split(items, 0, prefix, pretty, indent);
    lemma_left_empty(later_items(items, 0, prefix, pretty, indent));
    lemma_later_items(items, 0, prefix, pretty, indent);
    lemma_assoc(seq![91u8] + body, line, seq![93u8]);
    lemma_assoc(seq![91u8], body, line + seq![93u8]);
}

/// The rendered bytes of the members of an object from the one at `k` on.
pub open spec fn later_members(
    entries: Seq<(Seq<char>, Json)>,
    k: int,
    prefix: Seq<u8>,
    pretty: bool,
    indent: Seq<u8>,
) -> Seq<u8>
    decreases entries.len() - k,
{
    if 0 <= k < entries.len() {
        member_bytes(entries, k, prefix, pretty, indent) + later_members(
            entries,
            k + 1,
            prefix,
            pretty,
            indent,
        )
    } else {
        Seq::empty()
    }
}

/// The members are the first ones and the later ones.
pub proof fn lemma_members_split(
    entries: Seq<(Seq<char>, Json)>,
    k: int,
    prefix: Seq<u8>,
    pretty: bool,
    indent: Seq<u8>,
)
    requires
        0 <= k <= entries.len(),
    ensures
        members_bytes(entries, k as nat, prefix, pretty, indent) + later_members(
            entries,
            k,
            prefix,
            pretty,
            indent,
        ) == members_bytes(entries, entries.len(), prefix, pretty, indent),
    decreases entries.len() - k,
{
    let a = members_bytes(entries, k as nat, prefix, pretty, indent);
    if k < entries.len() {
        lemma_members_split(entries, k + 1, prefix, pretty, indent);
        let x = member_bytes(entries, k, prefix, pretty, indent);
        let r = later_members(entries, k + 1, prefix, pretty, indent);
        assert(members_bytes(entries, (k + 1) as nat, prefix, pretty, indent) == a + x);
        lemma_assoc(a, x, r);
    } else {
        lemma_right_empty(a);
    }
}

/// What stands behind the white space in front of the member at `k`: its
/// key, the colon, its value, and what stands behind it.
#[verifier::opaque]
pub open spec fn member_rest(
    entries: Seq<(Seq<char>, Json)>,
    k: int,
    prefix: Seq<u8>,
    pretty: bool,
    indent: Seq<u8>,
) -> Seq<u8>
    decreases entries.len() - k,
{
    if 0 <= k < entries.len() {
        string_bytes(entries[k].0) + (seq![58u8] + (space_bytes(pretty) + (value_bytes(
            entries[k].1,
            prefix + indent,
            pretty,
            indent,
        ) + (if k + 1 < entries.len() {
            seq![44u8] + (line_bytes(prefix + indent, pretty) + member_rest(
                entries,
                k + 1,
                prefix,
                pretty,
                indent,
            ))
        } else {
            line_bytes(prefix, pretty) + seq![125u8]
        }))))
    } else {
        Seq::empty()
    }
}

/// The later members and the closing brace, grouped as they are read.
pub proof fn lemma_later_members(
    entries: Seq<(Seq<char>, Json)>,
    k: int,
    prefix: Seq<u8>,
    pretty: bool,
    indent: Seq<u8>,
)
    requires
        0 <= k < entries.len(),
    ensures
        later_members(entries, k, prefix, pretty, indent) + (line_bytes(prefix, pretty) + seq![
            125u8,
        ]) == line_bytes(prefix + indent, pretty) + member_rest(
            entries,
            k,
            prefix,
            pretty,
            indent,
        ),
    decreases entries.len() - k,
{
    reveal_with_fuel(member_rest, 1);
    reveal_with_fuel(value_bytes, 1);
    let end = line_bytes(prefix, pretty) + seq![125u8];
    let lead = line_bytes(prefix + indent, pretty);
    let quoted = string_bytes(entries[k].0);
    let colon = seq![58u8];
    let space = space_bytes(pretty);
    let key = key_bytes(entries[k].0, pretty);
    let value = value_bytes(entries[k].1, prefix + indent, pretty, indent);
    let more = k + 1 < entries.len();
    let comma = comma_bytes(more);
    let next = later_members(entries, k + 1, prefix, pretty, indent);
    assert(key == (quoted + colon) + space);
    assert(member_bytes(entries, k, prefix, pretty, indent) == ((lead + key) + value) + comma);
    let behind = comma + (next + end);
    lemma_assoc(((lead + key) + value) + comma, next, end);
    lemma_assoc((lead + key) + value, comma, next + end);
    lemma_assoc(lead + key, value, behind);
    lemma_assoc(lead, key, value + behind);
    lemma_assoc(quoted + colon, space, value + behind);
    lemma_assoc(quoted, colon, space + (value + behind));
    if more {
        lemma_later_members(entries, k + 1, prefix, pretty, indent);
    } else {
        lemma_left_empty(end);
        lemma_left_empty(next + end);
    }
}

/// The bytes of an object are the opening brace and what stands behind it.
pub proof fn lemma_object_bytes(
    entries: Seq<(Seq<char>, Json)>,
    prefix: Seq<u8>,
    pretty: bool,
    indent: Seq<u8>,
)
    ensures
        value_bytes(Json::Object(entries), prefix, pretty, indent) == seq![123u8] + (
        if entries.len() == 0 {
            line_bytes(prefix, pretty) + seq![125u8]
        } else {
            line_bytes(prefix + indent, pretty) + member_rest(entries, 0, prefix, pretty, indent)
        }),
{
    reveal_with_fuel(value_bytes, 1);
    let body = members_bytes(entries, entries.len(), prefix, pretty, indent);
    let line = line_bytes(prefix, pretty);
    lemma_members_split(entries, 0, prefix, pretty, indent);
    lemma_left_empty(later_members(entries, 0, prefix, pretty, indent));
    lemma_assoc(seq![123u8] + body, line, seq![125u8]);
    lemma_assoc(seq![123u8], body, line + seq![125u8]);
    if entries.len() == 0 {
        lemma_left_empty(line + seq![125u8]);
    } else {
        lemma_later_members(entries, 0, prefix, pretty, indent);
    }
}

/// What stands behind the opening bracket, part by part.
pub proof fn lemma_array_rest(
    items: Seq<Json>,
    k: int,
    prefix: Seq<u8>,
    pretty: bool,
    indent: Seq<u8>,
)
    ensures
        0 <= k < items.len() ==> array_rest(items, k, prefix, pretty, indent) == line_bytes(
            prefix + indent,
            pretty,
        ) + (value_bytes(items[k], prefix + indent, pretty, indent) + (if k + 1 < items.len() {
            seq![44u8] + array_rest(items, k + 1, prefix, pretty, indent)
        } else {
            line_bytes(prefix, pretty) + seq![93u8]
        })),
        !(0 <= k < items.len()) ==> array_rest(items, k, prefix, pretty, indent) == line_bytes(
            prefix,
            pretty,
        ) + seq![93u8],
{
    reveal_with_fuel(array_rest, 1);
}

/// What stands behind the white space in front of a member, part by part.
pub proof fn lemma_member_rest(
    entries: Seq<(Seq<char>, Json)>,
    k: int,
    prefix: Seq<u8>,
    pretty: bool,
    indent: Seq<u8>,
)
    requires
        0 <= k < entries.len(),
    ensures
        member_rest(entries, k, prefix, pretty, indent) == string_bytes(entries[k].0) + (seq![
            58u8,
        ] + (space_bytes(pretty) + (value_bytes(entries[k].1, prefix + indent, pretty, indent) + (
        if k + 1 < entries.len() {
            seq![44u8] + (line_bytes(prefix + indent, pretty) + member_rest(
                entries,
                k + 1,
                prefix,
                pretty,
                indent,
            ))
        } else {
            line_bytes(prefix, pretty) + seq![125u8]
        })))),
{
    reveal_with_fuel(member_rest, 1);
}

/// The bytes of a scalar do not depend on the indentation.
pub proof fn lemma_scalar_bytes(v: Json, prefix: Seq<u8>, pretty: bool, indent: Seq<u8>)
    requires
        !(v is Array),
        !(v is Object),
    ensures
        value_bytes(v, prefix, pretty, indent) == value_bytes(v, Seq::empty(), false, Seq::empty()),
{
    reveal_with_fuel(value_bytes, 1);
}

} // verus!

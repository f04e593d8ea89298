//! Single steps of the grammar: what a container is read as, once its
//! parts are read.

use crate::error::ErrorKind;
use crate::grammar::{
    array_at, clean_at, closing_at, element_at, member_at, members_at, object_at, separator_at,
    value_at,
};
use crate::json_object::entries_insert;
use crate::grammar::is_blank;
use crate::json_value::Json;
use crate::roundtrip::read::{
    blank_text, holds, lemma_clean_blanks, lemma_holds_blank, lemma_holds_bounds,
};
use vstd::prelude::*;

verus! {

/// The value at `pos` is `v` and takes `n` bytes.
#[verifier::opaque]
pub open spec fn value_reads(b: Seq<u8>, pos: int, v: Json, n: nat) -> bool {
    value_at(b, pos) == Ok::<(Json, nat), ErrorKind>((v, n))
}

/// `s` bytes of white space and comments stand at `pos`.
#[verifier::opaque]
pub open spec fn clean_is(b: Seq<u8>, pos: int, s: nat) -> bool {
    clean_at(b, pos) == Ok::<nat, ErrorKind>(s)
}

/// The character behind an item stands `s` bytes behind `at`.
#[verifier::opaque]
pub open spec fn closing_is(b: Seq<u8>, at: int, close: u8, s: nat, closed: bool) -> bool {
    closing_at(b, at, close) == Ok::<(nat, bool), ErrorKind>((s, closed))
}

/// The separator at `at` takes `k` bytes.
#[verifier::opaque]
pub open spec fn separator_is(b: Seq<u8>, at: int, k: nat) -> bool {
    separator_at(b, at) == Ok::<nat, ErrorKind>(k)
}

/// One step through an array at `at`.
#[verifier::opaque]
pub open spec fn element_reads(
    b: Seq<u8>,
    at: int,
    acc: Seq<Json>,
    trailing: bool,
    items: Seq<Json>,
    n: nat,
    closed: bool,
) -> bool {
    element_at(b, at, acc, trailing) == Ok::<(Seq<Json>, nat, bool), ErrorKind>(
        (items, n, closed),
    )
}

/// The rest of an array at `at`.
#[verifier::opaque]
pub open spec fn array_reads(
    b: Seq<u8>,
    at: int,
    acc: Seq<Json>,
    trailing: bool,
    items: Seq<Json>,
    n: nat,
) -> bool {
    array_at(b, at, acc, trailing) == Ok::<(Seq<Json>, nat), ErrorKind>((items, n))
}

/// One member of an object at `at`.
#[verifier::opaque]
pub open spec fn member_reads(
    b: Seq<u8>,
    at: int,
    acc: Seq<(Seq<char>, Json)>,
    entries: Seq<(Seq<char>, Json)>,
    n: nat,
    closed: bool,
) -> bool {
    member_at(b, at, acc) == Ok::<(Seq<(Seq<char>, Json)>, nat, bool), ErrorKind>(
        (entries, n, closed),
    )
}

/// The rest of the members of an object at `at`.
#[verifier::opaque]
pub open spec fn members_read(
    b: Seq<u8>,
    at: int,
    acc: Seq<(Seq<char>, Json)>,
    entries: Seq<(Seq<char>, Json)>,
    n: nat,
) -> bool {
    members_at(b, at, acc) == Ok::<(Seq<(Seq<char>, Json)>, nat), ErrorKind>((entries, n))
}

/// The object behind its opening brace at `at`.
#[verifier::opaque]
pub open spec fn object_reads(
    b: Seq<u8>,
    at: int,
    entries: Seq<(Seq<char>, Json)>,
    n: nat,
) -> bool {
    object_at(b, at) == Ok::<(Seq<(Seq<char>, Json)>, nat), ErrorKind>((entries, n))
}

/// A value that starts with `[` is the array behind it.
pub proof fn lemma_value_is_array(b: Seq<u8>, pos: int, items: Seq<Json>, n: nat)
    requires
        0 <= pos < b.len(),
        clean_is(b, pos, 0),
        b[pos] == 91,
        array_reads(b, pos + 1, Seq::empty(), false, items, n),
    ensures
        value_reads(b, pos, Json::Array(items), 1 + n),
{
    reveal(value_reads);
    reveal(clean_is);
    reveal(closing_is);
    reveal(separator_is);
    reveal(element_reads);
    reveal(array_reads);
    reveal(member_reads);
    reveal(members_read);
    reveal(object_reads);
}

/// A value that starts with `{` is the object behind it.
pub proof fn lemma_value_is_object(
    b: Seq<u8>,
    pos: int,
    entries: Seq<(Seq<char>, Json)>,
    n: nat,
)
    requires
        0 <= pos < b.len(),
        clean_is(b, pos, 0),
        b[pos] == 123,
        object_reads(b, pos + 1, entries, n),
    ensures
        value_reads(b, pos, Json::Object(entries), 1 + n),
{
    reveal(value_reads);
    reveal(clean_is);
    reveal(closing_is);
    reveal(separator_is);
    reveal(element_reads);
    reveal(array_reads);
    reveal(member_reads);
    reveal(members_read);
    reveal(object_reads);
}

/// The closing bracket ends an array that has no trailing separator.
pub proof fn lemma_element_closes(b: Seq<u8>, at: int, acc: Seq<Json>, s: nat)
    requires
        clean_is(b, at, s),
        b[at + s] == 93,
    ensures
        element_reads(b, at, acc, false, acc, s, true),
{
    reveal(value_reads);
    reveal(clean_is);
    reveal(closing_is);
    reveal(separator_is);
    reveal(element_reads);
    reveal(array_reads);
    reveal(member_reads);
    reveal(members_read);
    reveal(object_reads);
}

/// An element is a value and the character behind it.
pub proof fn lemma_element_value(
    b: Seq<u8>,
    at: int,
    acc: Seq<Json>,
    trailing: bool,
    s: nat,
    v: Json,
    n: nat,
    s2: nat,
    closed: bool,
)
    requires
        clean_is(b, at, s),
        b[at + s] != 93,
        b[at + s] != 44,
        b[at + s] != 59,
        value_reads(b, at + s, v, n),
        closing_is(b, at + s + n, 93, s2, closed),
    ensures
        element_reads(b, at, acc, trailing, acc.push(v), s + n + s2, closed),
{
    reveal(value_reads);
    reveal(clean_is);
    reveal(closing_is);
    reveal(separator_is);
    reveal(element_reads);
    reveal(array_reads);
    reveal(member_reads);
    reveal(members_read);
    reveal(object_reads);
}

/// An array ends with the step that closes it.
pub proof fn lemma_array_closed(
    b: Seq<u8>,
    at: int,
    acc: Seq<Json>,
    trailing: bool,
    items: Seq<Json>,
    n: nat,
)
    requires
        0 <= at < b.len(),
        element_reads(b, at, acc, trailing, items, n, true),
    ensures
        array_reads(b, at, acc, trailing, items, n + 1),
{
    reveal(value_reads);
    reveal(clean_is);
    reveal(closing_is);
    reveal(separator_is);
    reveal(element_reads);
    reveal(array_reads);
    reveal(member_reads);
    reveal(members_read);
    reveal(object_reads);
}

/// An array goes on behind a step that does not close it.
pub proof fn lemma_array_goes_on(
    b: Seq<u8>,
    at: int,
    acc: Seq<Json>,
    trailing: bool,
    mid: Seq<Json>,
    n: nat,
    all: Seq<Json>,
    m: nat,
)
    requires
        0 <= at < b.len(),
        element_reads(b, at, acc, trailing, mid, n, false),
        array_reads(b, at + n + 1, mid, true, all, m),
    ensures
        array_reads(b, at, acc, trailing, all, n + 1 + m),
{
    reveal(value_reads);
    reveal(clean_is);
    reveal(closing_is);
    reveal(separator_is);
    reveal(element_reads);
    reveal(array_reads);
    reveal(member_reads);
    reveal(members_read);
    reveal(object_reads);
}

/// A colon that no `>` follows is a separator of one byte.
pub proof fn lemma_separator(b: Seq<u8>, at: int)
    requires
        0 <= at < b.len(),
        b[at] == 58,
        at + 1 >= b.len() || b[at + 1] != 62,
    ensures
        separator_is(b, at, 1),
{
    reveal(value_reads);
    reveal(clean_is);
    reveal(closing_is);
    reveal(separator_is);
    reveal(element_reads);
    reveal(array_reads);
    reveal(member_reads);
    reveal(members_read);
    reveal(object_reads);
}

/// A member is a key, a separator, a value and the character behind it.
pub proof fn lemma_member(
    b: Seq<u8>,
    at: int,
    acc: Seq<(Seq<char>, Json)>,
    name: Seq<char>,
    n1: nat,
    k: nat,
    value: Json,
    n2: nat,
    s: nat,
    closed: bool,
)
    requires
        value_reads(b, at, Json::String(name), n1),
        separator_is(b, at + n1, k),
        value_reads(b, at + n1 + k, value, n2),
        closing_is(b, at + n1 + k + n2, 125, s, closed),
    ensures
        member_reads(b, at, acc, entries_insert(acc, name, value), n1 + k + n2 + s, closed),
{
    reveal(value_reads);
    reveal(clean_is);
    reveal(closing_is);
    reveal(separator_is);
    reveal(element_reads);
    reveal(array_reads);
    reveal(member_reads);
    reveal(members_read);
    reveal(object_reads);
}

/// The members end with the member that closes the object.
pub proof fn lemma_members_closed(
    b: Seq<u8>,
    at: int,
    acc: Seq<(Seq<char>, Json)>,
    entries: Seq<(Seq<char>, Json)>,
    n: nat,
)
    requires
        0 <= at < b.len(),
        member_reads(b, at, acc, entries, n, true),
    ensures
        members_read(b, at, acc, entries, n + 1),
{
    reveal(value_reads);
    reveal(clean_is);
    reveal(closing_is);
    reveal(separator_is);
    reveal(element_reads);
    reveal(array_reads);
    reveal(member_reads);
    reveal(members_read);
    reveal(object_reads);
}

/// The members go on behind a member that does not close the object.
pub proof fn lemma_members_go_on(
    b: Seq<u8>,
    at: int,
    acc: Seq<(Seq<char>, Json)>,
    mid: Seq<(Seq<char>, Json)>,
    n: nat,
    all: Seq<(Seq<char>, Json)>,
    m: nat,
)
    requires
        0 <= at < b.len(),
        member_reads(b, at, acc, mid, n, false),
        members_read(b, at + n + 1, mid, all, m),
    ensures
        members_read(b, at, acc, all, n + 1 + m),
{
    reveal(value_reads);
    reveal(clean_is);
    reveal(closing_is);
    reveal(separator_is);
    reveal(element_reads);
    reveal(array_reads);
    reveal(member_reads);
    reveal(members_read);
    reveal(object_reads);
}

/// A closing brace right behind the opening one is the empty object.
pub proof fn lemma_object_empty(b: Seq<u8>, at: int, s: nat)
    requires
        clean_is(b, at, s),
        b[at + s] == 125,
    ensures
        object_reads(b, at, Seq::empty(), s + 1),
{
    reveal(value_reads);
    reveal(clean_is);
    reveal(closing_is);
    reveal(separator_is);
    reveal(element_reads);
    reveal(array_reads);
    reveal(member_reads);
    reveal(members_read);
    reveal(object_reads);
}

/// An object is its members.
pub proof fn lemma_object_members(
    b: Seq<u8>,
    at: int,
    s: nat,
    entries: Seq<(Seq<char>, Json)>,
    n: nat,
)
    requires
        clean_is(b, at, s),
        b[at + s] != 125,
        members_read(b, at + s, Seq::empty(), entries, n),
    ensures
        object_reads(b, at, entries, s + n),
{
    reveal(value_reads);
    reveal(clean_is);
    reveal(closing_is);
    reveal(separator_is);
    reveal(element_reads);
    reveal(array_reads);
    reveal(member_reads);
    reveal(members_read);
    reveal(object_reads);
}

/// Nothing is skipped before a byte that starts a value.
pub proof fn lemma_clean_is_none(b: Seq<u8>, pos: int)
    requires
        0 <= pos < b.len(),
        !is_blank(b[pos]),
        b[pos] != 35,
        b[pos] != 47,
    ensures
        clean_is(b, pos, 0),
{
    reveal(clean_is);
}

/// White space is skipped.
pub proof fn lemma_clean_is_blanks(b: Seq<u8>, at: int, lead: Seq<u8>, s: nat)
    requires
        holds(b, at, lead),
        blank_text(lead),
        clean_is(b, at + lead.len(), s),
    ensures
        clean_is(b, at, lead.len() + s),
{
    reveal(clean_is);
    lemma_holds_bounds(b, at, lead);
    lemma_holds_blank(b, at, lead);
    lemma_clean_blanks(b, at, lead.len());
}

/// A value behind white space is read as the value is, with the white space
/// counted.
pub proof fn lemma_value_after_blanks(b: Seq<u8>, at: int, lead: Seq<u8>, v: Json, n: nat)
    requires
        holds(b, at, lead),
        blank_text(lead),
        clean_is(b, at + lead.len(), 0),
        value_reads(b, at + lead.len(), v, n),
    ensures
        value_reads(b, at, v, lead.len() + n),
        clean_is(b, at, lead.len()),
{
    lemma_clean_is_blanks(b, at, lead, 0);
    reveal(clean_is);
    reveal(value_reads);
}

/// The closing character, or a separator, behind white space.
pub proof fn lemma_closing(b: Seq<u8>, at: int, close: u8, s: nat)
    requires
        clean_is(b, at, s),
        close == 125 || close == 93,
        b[at + s] == close || b[at + s] == 44,
    ensures
        closing_is(b, at, close, s, b[at + s] == close),
{
    reveal(clean_is);
    reveal(closing_is);
}

} // verus!

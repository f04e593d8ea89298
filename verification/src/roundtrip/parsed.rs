//! What parsing gives is readable: it can be rendered and read back.

use crate::error::ErrorKind;
use crate::grammar::{
    array_at, clean_at, closing_at, element_at, literal_at, literal_value, member_at, members_at,
    object_at, rest, separator_at, string_at, value_at,
};
use crate::json_object::{
    distinct_keys, entries_insert, entries_without, lemma_get_after_insert, lemma_without_keeps,
};
use crate::json_value::Json;
use crate::roundtrip::normal::readable;
use crate::roundtrip::read::lemma_float_text;
use vstd::prelude::*;

verus! {

/// All elements are readable.
pub open spec fn readable_items(items: Seq<Json>) -> bool {
    forall|i: int| 0 <= i < items.len() ==> readable(#[trigger] items[i])
}

/// All values are readable, and no two pairs have the same key.
pub open spec fn readable_entries(entries: Seq<(Seq<char>, Json)>) -> bool {
    distinct_keys(entries) && forall|i: int|
        0 <= i < entries.len() ==> readable(#[trigger] entries[i].1)
}

/// What a literal denotes is readable.
pub proof fn lemma_literal_readable(t: Seq<u8>)
    ensures
        literal_value(t) matches Ok(v) ==> readable(v),
{
    if t.len() > 0 && t.contains(46u8) && crate::number::is_float_text(t) {
        lemma_float_text(t);
    }
}

/// One more readable element behind readable elements.
pub proof fn lemma_push_readable(items: Seq<Json>, v: Json)
    requires
        readable_items(items),
        readable(v),
    ensures
        readable_items(items.push(v)),
{
    assert forall|i: int| 0 <= i < items.push(v).len() implies readable(
        #[trigger] items.push(v)[i],
    ) by {
        if i < items.len() {
            assert(items.push(v)[i] == items[i]);
        }
    }
}

/// A readable value inserted among readable pairs.
pub proof fn lemma_insert_readable(entries: Seq<(Seq<char>, Json)>, key: Seq<char>, v: Json)
    requires
        readable_entries(entries),
        readable(v),
    ensures
        readable_entries(entries_insert(entries, key, v)),
{
    let taken = entries_without(entries, key);
    let after = entries_insert(entries, key, v);
    lemma_get_after_insert(entries, key, v, key);
    lemma_without_keeps(entries, key);
    assert forall|i: int| 0 <= i < after.len() implies readable(#[trigger] after[i].1) by {
        if i < taken.len() {
            assert(after[i] == taken[i]);
            let j = choose|j: int| i <= j < entries.len() && entries[j] == taken[i];
            assert(readable(entries[j].1));
        }
    }
}

/// The value that is read at `pos` is readable.
pub proof fn lemma_value_readable(b: Seq<u8>, pos: int)
    ensures
        value_at(b, pos) matches Ok((v, _)) ==> readable(v),
    decreases rest(b, pos), 0nat,
{
    match clean_at(b, pos) {
        Err(_) => {},
        Ok(s) => {
            let p = pos + s;
            let c = b[p];
            if c == 123 {
                lemma_object_readable(b, p + 1);
            } else if c == 91 {
                assert(readable_items(Seq::<Json>::empty()));
                lemma_array_readable(b, p + 1, Seq::empty(), false);
            } else if c == 39 || c == 34 {
            } else {
                lemma_literal_readable(b.subrange(p, p + crate::grammar::literal_len(b, p)));
            }
        },
    }
}

/// The object that is read at `pos` holds readable pairs.
pub proof fn lemma_object_readable(b: Seq<u8>, pos: int)
    ensures
        object_at(b, pos) matches Ok((entries, _)) ==> readable_entries(entries),
    decreases rest(b, pos), 3nat,
{
    match clean_at(b, pos) {
        Err(_) => {},
        Ok(s) => {
            assert(readable_entries(Seq::<(Seq<char>, Json)>::empty()));
            if b[pos + s] != 125 {
                lemma_members_readable(b, pos + s, Seq::empty());
            }
        },
    }
}

/// The member that is read at `pos` leaves readable pairs.
pub proof fn lemma_member_readable(b: Seq<u8>, pos: int, acc: Seq<(Seq<char>, Json)>)
    requires
        readable_entries(acc),
    ensures
        member_at(b, pos, acc) matches Ok((entries, _, _)) ==> readable_entries(entries),
    decreases rest(b, pos), 1nat,
{
    lemma_value_readable(b, pos);
    match value_at(b, pos) {
        Ok((Json::String(name), n1)) => {
            match separator_at(b, pos + n1) {
                Ok(k) => {
                    lemma_value_readable(b, pos + n1 + k);
                    match value_at(b, pos + n1 + k) {
                        Ok((value, n2)) => {
                            lemma_insert_readable(acc, name, value);
                        },
                        Err(_) => {},
                    }
                },
                Err(_) => {},
            }
        },
        _ => {},
    }
}

/// The members that are read from `pos` on leave readable pairs.
pub proof fn lemma_members_readable(b: Seq<u8>, pos: int, acc: Seq<(Seq<char>, Json)>)
    requires
        readable_entries(acc),
    ensures
        members_at(b, pos, acc) matches Ok((entries, _)) ==> readable_entries(entries),
    decreases rest(b, pos), 2nat,
{
    if 0 <= pos < b.len() {
        lemma_member_readable(b, pos, acc);
        match member_at(b, pos, acc) {
            Ok((entries, n, closed)) => {
                if !closed {
                    lemma_members_readable(b, pos + n + 1, entries);
                }
            },
            Err(_) => {},
        }
    }
}

/// The step through an array at `pos` leaves readable elements.
pub proof fn lemma_element_readable(b: Seq<u8>, pos: int, acc: Seq<Json>, trailing: bool)
    requires
        readable_items(acc),
    ensures
        element_at(b, pos, acc, trailing) matches Ok((items, _, _)) ==> readable_items(items),
    decreases rest(b, pos), 1nat,
{
    lemma_push_readable(acc, Json::Null);
    match clean_at(b, pos) {
        Err(_) => {},
        Ok(s) => {
            let p = pos + s;
            if b[p] == 93 {
            } else if b[p] == 44 || b[p] == 59 {
            } else {
                lemma_value_readable(b, p);
                match value_at(b, p) {
                    Ok((value, n)) => {
                        lemma_push_readable(acc, value);
                    },
                    Err(_) => {},
                }
            }
        },
    }
}

/// The steps through an array from `pos` on leave readable elements.
pub proof fn lemma_array_readable(b: Seq<u8>, pos: int, acc: Seq<Json>, trailing: bool)
    requires
        readable_items(acc),
    ensures
        array_at(b, pos, acc, trailing) matches Ok((items, _)) ==> readable_items(items),
    decreases rest(b, pos), 2nat,
{
    if 0 <= pos < b.len() {
        lemma_element_readable(b, pos, acc, trailing);
        match element_at(b, pos, acc, trailing) {
            Ok((items, n, closed)) => {
                if !closed {
                    lemma_array_readable(b, pos + n + 1, items, true);
                }
            },
            Err(_) => {},
        }
    }
}

} // verus!

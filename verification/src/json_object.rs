//! The object container: key/value pairs with unique keys, in insertion order.

use crate::error::{Error, ErrorKind, failed};
use crate::grammar::parse_text;
use crate::json_array::JsonArray;
use crate::json_value::{Json, JsonValue};
use crate::tokener::JsonTokener;
use linked_hash_map::LinkedHashMap;
use vstd::prelude::*;
use vstd::std_specs::convert::IntoSpec;

verus! {

/// A set of name/value mappings that keeps the order of insertion.
///
/// The pairs live in a linked hash map, which Verus does not look into: what
/// it holds is named by [`object_entries`], and the methods that touch the
/// map state over that name what the map does.
#[verifier::external_body]
#[derive(Debug)]
pub struct JsonObject {
    map: LinkedHashMap<String, JsonValue>,
}

/// The pairs that an object holds, oldest insertion first, each value by its
/// model.
pub uninterp spec fn object_entries(object: JsonObject) -> Seq<(Seq<char>, Json)>;

/// The value stored under `key`, if there is one.
pub open spec fn entries_get(entries: Seq<(Seq<char>, Json)>, key: Seq<char>) -> Option<Json>
    decreases entries.len(),
{
    if entries.len() == 0 {
        None
    } else if entries.last().0 == key {
        Some(entries.last().1)
    } else {
        entries_get(entries.drop_last(), key)
    }
}

/// The pairs without those stored under `key`, in the same order.
pub open spec fn entries_without(entries: Seq<(Seq<char>, Json)>, key: Seq<char>) -> Seq<
    (Seq<char>, Json),
>
    decreases entries.len(),
{
    if entries.len() == 0 {
        entries
    } else if entries.last().0 == key {
        entries_without(entries.drop_last(), key)
    } else {
        entries_without(entries.drop_last(), key).push(entries.last())
    }
}

/// The pairs after an insertion: a pair stored under the same key leaves,
/// and the new pair comes last.
pub open spec fn entries_insert(
    entries: Seq<(Seq<char>, Json)>,
    key: Seq<char>,
    value: Json,
) -> Seq<(Seq<char>, Json)> {
    entries_without(entries, key).push((key, value))
}

/// The pairs with the value under `key` replaced in place.
pub open spec fn entries_replace(
    entries: Seq<(Seq<char>, Json)>,
    key: Seq<char>,
    value: Json,
) -> Seq<(Seq<char>, Json)> {
    Seq::new(
        entries.len(),
        |i: int|
            if entries[i].0 == key {
                (key, value)
            } else {
                entries[i]
            },
    )
}

/// The pairs after `value` was accumulated under `key`: inserted where the
/// key is new, appended to the array that the key holds, or put into a new
/// array behind the value that the key holds. The pair comes last.
pub open spec fn entries_accumulate(
    entries: Seq<(Seq<char>, Json)>,
    key: Seq<char>,
    value: Json,
) -> Seq<(Seq<char>, Json)> {
    match entries_get(entries, key) {
        None => entries_insert(entries, key, value),
        Some(Json::Array(items)) => entries_insert(entries, key, Json::Array(items.push(value))),
        Some(other) => entries_insert(entries, key, Json::Array(seq![other, value])),
    }
}

/// Taking the pairs under a key out a second time changes nothing.
pub proof fn lemma_without_twice(entries: Seq<(Seq<char>, Json)>, key: Seq<char>)
    ensures
        entries_without(entries_without(entries, key), key) == entries_without(entries, key),
        entries_get(entries_without(entries, key), key) is None,
    decreases entries.len(),
{
    if entries.len() > 0 {
        lemma_without_twice(entries.drop_last(), key);
        if entries.last().0 != key {
            let taken = entries_without(entries.drop_last(), key);
            assert(taken.push(entries.last()).drop_last() =~= taken);
        }
    }
}

/// No two pairs have the same key.
pub open spec fn distinct_keys(entries: Seq<(Seq<char>, Json)>) -> bool {
    forall|i: int, j: int| 0 <= i < j < entries.len() ==> entries[i].0 != entries[j].0
}

/// What is left after pairs were taken out is a part of what was there: each
/// pair that stays was there before, in the same order, and none has the
/// key.
pub proof fn lemma_without_keeps(entries: Seq<(Seq<char>, Json)>, key: Seq<char>)
    ensures
        entries_without(entries, key).len() <= entries.len(),
        forall|i: int|
            0 <= i < entries_without(entries, key).len() ==> (#[trigger] entries_without(
                entries,
                key,
            )[i]).0 != key,
        distinct_keys(entries) ==> distinct_keys(entries_without(entries, key)),
        forall|i: int|
            0 <= i < entries_without(entries, key).len() ==> exists|j: int|
                i <= j < entries.len() && entries[j] == #[trigger] entries_without(entries, key)[i],
    decreases entries.len(),
{
    let taken = entries_without(entries, key);
    if entries.len() > 0 {
        let front = entries.drop_last();
        let rest = entries_without(front, key);
        lemma_without_keeps(front, key);
        assert forall|i: int| 0 <= i < taken.len() implies exists|j: int|
            i <= j < entries.len() && entries[j] == #[trigger] taken[i] by {
            if i < rest.len() {
                let j = choose|j: int| i <= j < front.len() && front[j] == rest[i];
                assert(entries[j] == taken[i]);
            } else {
                assert(entries[entries.len() - 1] == taken[i]);
            }
        }
        if distinct_keys(entries) {
            assert(distinct_keys(front)) by {
                assert forall|i: int, j: int| 0 <= i < j < front.len() implies front[i].0
                    != front[j].0 by {
                    assert(front[i] == entries[i] && front[j] == entries[j]);
                }
            }
            if entries.last().0 != key {
                assert forall|i: int, j: int| 0 <= i < j < taken.len() implies taken[i].0
                    != taken[j].0 by {
                    if j == taken.len() - 1 {
                        let m = choose|m: int| i <= m < front.len() && front[m] == rest[i];
                        assert(front[m] == entries[m]);
                        assert(taken[j] == entries[entries.len() - 1]);
                    } else {
                        assert(taken[i] == rest[i] && taken[j] == rest[j]);
                    }
                }
            }
        }
    }
}

/// Last insertion wins: after an insertion the key holds the new value,
/// every other key holds what it held, and no key is held twice.
pub proof fn lemma_get_after_insert(
    entries: Seq<(Seq<char>, Json)>,
    key: Seq<char>,
    value: Json,
    other: Seq<char>,
)
    ensures
        entries_get(entries_insert(entries, key, value), key) == Some(value),
        other != key ==> entries_get(entries_insert(entries, key, value), other) == entries_get(
            entries,
            other,
        ),
        distinct_keys(entries) ==> distinct_keys(entries_insert(entries, key, value)),
{
    let taken = entries_without(entries, key);
    let after = entries_insert(entries, key, value);
    assert(after.drop_last() =~= taken);
    lemma_get_after_without(entries, key, other);
    lemma_without_keeps(entries, key);
    if distinct_keys(entries) {
        assert forall|i: int, j: int| 0 <= i < j < after.len() implies after[i].0
            != after[j].0 by {
            assert(after[i] == taken[i]);
            if j < taken.len() {
                assert(after[j] == taken[j]);
            }
        }
    }
}

/// After the pairs under a key were taken out, the key holds nothing and
/// every other key holds what it held.
pub proof fn lemma_get_after_without(
    entries: Seq<(Seq<char>, Json)>,
    key: Seq<char>,
    other: Seq<char>,
)
    ensures
        entries_get(entries_without(entries, key), key) is None,
        other != key ==> entries_get(entries_without(entries, key), other) == entries_get(
            entries,
            other,
        ),
    decreases entries.len(),
{
    if entries.len() > 0 {
        lemma_get_after_without(entries.drop_last(), key, other);
        if entries.last().0 != key {
            let taken = entries_without(entries.drop_last(), key);
            assert(taken.push(entries.last()).drop_last() =~= taken);
        }
    }
}

impl JsonObject {
    /// The pairs of this object in insertion order.
    pub open spec fn view(&self) -> Seq<(Seq<char>, Json)> {
        object_entries(*self)
    }

    /// Creates an empty object. Calls `LinkedHashMap::new`, which makes a map
    /// without entries.
    #[verifier::external_body]
    pub fn new() -> (r: JsonObject)
        ensures
            object_entries(r) == Seq::<(Seq<char>, Json)>::empty(),
    {
        JsonObject { map: LinkedHashMap::new() }
    }

    /// Parses `json`, which must hold an object.
    pub fn create(json: &str) -> (r: Result<JsonObject, Error>)
        ensures
            match parse_text(json@) {
                Ok(Json::Object(entries)) => r is Ok && r->Ok_0@ == entries,
                Ok(_) => failed(r, ErrorKind::TypeMismatch),
                Err(kind) => failed(r, kind),
            },
    {
        let mut tokener = JsonTokener::new(json);
        match tokener.next_value() {
            Ok(JsonValue::Object(object)) => Ok(object),
            Ok(_) => Err(Error::new(ErrorKind::TypeMismatch, "Need JsonValue::Object but not.")),
            Err(e) => Err(e),
        }
    }

    /// The number of pairs. Calls `LinkedHashMap::len`.
    #[verifier::external_body]
    pub fn len(&self) -> (n: usize)
        ensures
            n == object_entries(*self).len(),
    {
        self.map.len()
    }

    /// Whether the object holds no pair.
    pub fn is_empty(&self) -> (r: bool)
        ensures
            r == (self@.len() == 0),
    {
        self.len() == 0
    }

    /// Calls `LinkedHashMap::insert`, which replaces the value of a key that
    /// is present and moves that pair to the end, and otherwise appends the
    /// pair.
    #[verifier::external_body]
    fn map_insert(&mut self, key: String, value: JsonValue)
        ensures
            object_entries(*final(self)) == entries_insert(
                object_entries(*old(self)),
                key@,
                value@,
            ),
    {
        self.map.insert(key, value);
    }

    /// Maps `key` to `value`: a pair stored under the same key leaves, and
    /// the new pair comes last.
    pub fn insert_value(&mut self, key: String, value: JsonValue)
        ensures
            final(self)@ == entries_insert(old(self)@, key@, value@),
    {
        self.map_insert(key, value);
    }

    /// The value under `key`. Calls `LinkedHashMap::get`, which finds the
    /// pair whose key equals `key` and changes nothing.
    #[verifier::external_body]
    pub fn get(&self, key: &str) -> (r: Option<&JsonValue>)
        ensures
            match r {
                Some(value) => entries_get(object_entries(*self), key@) == Some(value@),
                None => entries_get(object_entries(*self), key@) is None,
            },
    {
        self.map.get(key)
    }

    /// The value under `key` for changing it. Calls
    /// `LinkedHashMap::get_mut`, which finds the pair whose key equals `key`
    /// and lends its value; the pair stays where it is.
    #[verifier::external_body]
    pub fn get_mut(&mut self, key: &str) -> (r: Option<&mut JsonValue>)
        ensures
            match r {
                Some(value) => entries_get(object_entries(*old(self)), key@) == Some((*value)@)
                    && object_entries(*final(self)) == entries_replace(
                    object_entries(*old(self)),
                    key@,
                    (*final(value))@,
                ),
                None => entries_get(object_entries(*old(self)), key@) is None && object_entries(
                    *final(self),
                ) == object_entries(*old(self)),
            },
    {
        self.map.get_mut(key)
    }

    /// Removes and returns the value under `key`. Calls
    /// `LinkedHashMap::remove`, which takes the pair out and keeps the order
    /// of the others.
    #[verifier::external_body]
    pub fn remove(&mut self, key: &str) -> (r: Option<JsonValue>)
        ensures
            match r {
                Some(value) => entries_get(object_entries(*old(self)), key@) == Some(value@),
                None => entries_get(object_entries(*old(self)), key@) is None,
            },
            object_entries(*final(self)) == entries_without(object_entries(*old(self)), key@),
    {
        self.map.remove(key)
    }

    /// The pairs in insertion order. Calls `LinkedHashMap::iter`, which walks
    /// the pairs from the oldest insertion to the newest.
    #[verifier::external_body]
    pub(crate) fn pairs(&self) -> (r: Vec<(&String, &JsonValue)>)
        ensures
            r@.len() == object_entries(*self).len(),
            forall|i: int|
                0 <= i < r@.len() ==> (#[trigger] r@[i]).0@ == object_entries(*self)[i].0
                    && r@[i].1@ == object_entries(*self)[i].1,
    {
        self.map.iter().collect()
    }

    /// Maps what `key` converts to onto what `value` converts to.
    pub fn insert<K: Into<String>, V: Into<JsonValue>>(&mut self, key: K, value: V)
        ensures
            K::obeys_into_spec() && V::obeys_into_spec() ==> final(self)@ == entries_insert(
                old(self)@,
                key.into_spec()@,
                value.into_spec()@,
            ),
            exists|name: Seq<char>, converted: Json|
                final(self)@ == #[trigger] entries_insert(old(self)@, name, converted),
    {
        let name: String = key.into();
        let converted: JsonValue = value.into();
        let ghost pair = (name@, converted@);
        self.insert_value(name, converted);
        assert(self@ == entries_insert(old(self)@, pair.0, pair.1));
    }

    /// Adds `value` under `key`: as the value of a new key, as one more
    /// element of the array that the key holds, or in a new array behind
    /// the value that the key holds.
    pub fn accumulate_value(&mut self, key: String, value: JsonValue)
        ensures
            final(self)@ == entries_accumulate(old(self)@, key@, value@),
    {
        proof {
            lemma_without_twice(self@, key@);
        }
        match self.remove(key.as_str()) {
            None => {
                self.insert_value(key, value);
            },
            Some(current) => match current {
                JsonValue::Array(array) => {
                    let mut array = array;
                    array.push_value(value);
                    self.insert_value(key, JsonValue::Array(array));
                },
                other => {
                    let mut array = JsonArray::new();
                    array.push_value(other);
                    array.push_value(value);
                    assert(array@ =~= seq![other@, value@]);
                    self.insert_value(key, JsonValue::Array(array));
                },
            },
        }
    }

    /// Adds what `value` converts to under `key`, as `accumulate_value`
    /// does.
    pub fn accumulate<T: Into<JsonValue>>(&mut self, key: String, value: T)
        ensures
            T::obeys_into_spec() ==> final(self)@ == entries_accumulate(
                old(self)@,
                key@,
                value.into_spec()@,
            ),
            exists|converted: Json|
                final(self)@ == #[trigger] entries_accumulate(old(self)@, key@, converted),
    {
        let converted: JsonValue = value.into();
        let ghost model = converted@;
        self.accumulate_value(key, converted);
        assert(self@ == entries_accumulate(old(self)@, key@, model));
    }

    /// Whether a value is stored under `key` and is `Null`.
    pub fn is_null(&self, key: &str) -> (r: bool)
        ensures
            r == (entries_get(self@, key@) == Some(Json::Null)),
    {
        match self.get(key) {
            Some(JsonValue::Null) => true,
            _ => false,
        }
    }
}

impl Clone for JsonObject {
    /// A copy of the object. Calls `LinkedHashMap::clone`, which makes a map
    /// of the copies of the pairs in the same order.
    #[verifier::external_body]
    fn clone(&self) -> (r: JsonObject)
        ensures
            object_entries(r) == object_entries(*self),
    {
        JsonObject { map: self.map.clone() }
    }
}

} // verus!

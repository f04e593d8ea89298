//! The array container: a dense sequence of values in index order.

use crate::error::{Error, ErrorKind, failed};
use crate::grammar::parse_text;
use crate::json_value::{Json, JsonValue};
use crate::tokener::JsonTokener;
use vstd::prelude::*;
use vstd::std_specs::convert::IntoSpec;

verus! {

/// A dense indexed sequence of values.
#[derive(Debug)]
pub struct JsonArray {
    list: Vec<JsonValue>,
}

impl JsonArray {
    /// The models of the elements, in index order.
    pub closed spec fn view(&self) -> Seq<Json>
        decreases self,
    {
        Seq::new(
            self.list@.len(),
            |i: int|
                if 0 <= i < self.list@.len() {
                    self.list@[i].view()
                } else {
                    Json::Null
                },
        )
    }

    /// Creates an empty array.
    pub fn new() -> (r: JsonArray)
        ensures
            r@ == Seq::<Json>::empty(),
    {
        let r = JsonArray { list: Vec::new() };
        assert(r@ =~= Seq::<Json>::empty());
        r
    }

    /// Parses `json`, which must hold an array.
    pub fn create(json: &str) -> (r: Result<JsonArray, Error>)
        ensures
            match parse_text(json@) {
                Ok(Json::Array(items)) => r is Ok && r->Ok_0@ == items,
                Ok(_) => failed(r, ErrorKind::TypeMismatch),
                Err(kind) => failed(r, kind),
            },
    {
        let mut tokener = JsonTokener::new(json);
        match tokener.next_value() {
            Ok(JsonValue::Array(array)) => Ok(array),
            Ok(_) => Err(Error::new(ErrorKind::TypeMismatch, "Need JsonValue::Array but not.")),
            Err(e) => Err(e),
        }
    }

    /// Appends what `value` converts to.
    pub fn push<T: Into<JsonValue>>(&mut self, value: T)
        ensures
            T::obeys_into_spec() ==> final(self)@ == old(self)@.push(value.into_spec()@),
            final(self)@.len() == old(self)@.len() + 1,
            final(self)@.drop_last() == old(self)@,
    {
        let converted: JsonValue = value.into();
        self.push_value(converted);
        assert(self@.drop_last() =~= old(self)@);
    }

    /// Puts what `value` converts to at `index` and moves the later elements
    /// up by one.
    pub fn insert<T: Into<JsonValue>>(&mut self, value: T, index: usize)
        requires
            index <= old(self)@.len(),
        ensures
            T::obeys_into_spec() ==> final(self)@ == old(self)@.insert(
                index as int,
                value.into_spec()@,
            ),
            final(self)@.len() == old(self)@.len() + 1,
            final(self)@.remove(index as int) == old(self)@,
    {
        let converted: JsonValue = value.into();
        self.insert_value(converted, index);
        assert(self@.remove(index as int) =~= old(self)@);
    }

    /// Appends a value.
    pub fn push_value(&mut self, value: JsonValue)
        ensures
            final(self)@ == old(self)@.push(value@),
    {
        self.list.push(value);
        assert(self@ =~= old(self)@.push(value@));
    }

    /// Puts a value at `index` and moves the later elements up by one.
    pub fn insert_value(&mut self, value: JsonValue, index: usize)
        requires
            index <= old(self)@.len(),
        ensures
            final(self)@ == old(self)@.insert(index as int, value@),
    {
        self.list.insert(index, value);
        assert(self@ =~= old(self)@.insert(index as int, value@));
    }

    /// The value at `index`, or `None` where `index` is out of bounds.
    pub fn get(&self, index: usize) -> (r: Option<&JsonValue>)
        ensures
            index < self@.len() ==> r is Some && r.unwrap()@ == self@[index as int],
            index >= self@.len() ==> r is None,
    {
        if index < self.list.len() {
            Some(&self.list[index])
        } else {
            None
        }
    }

    /// The value at `index` for changing it, or `None` where `index` is out
    /// of bounds.
    pub fn get_mut(&mut self, index: usize) -> (r: Option<&mut JsonValue>)
        ensures
            index >= old(self)@.len() ==> r is None && final(self)@ == old(self)@,
            index < old(self)@.len() ==> r is Some && (*r->Some_0)@ == old(self)@[index as int]
                && final(self)@ == old(self)@.update(index as int, (*final(r->Some_0))@),
    {
        if index < self.list.len() {
            Some(&mut self.list[index])
        } else {
            None
        }
    }

    /// Whether the value at `index` is there and is `Null`.
    pub fn is_null(&self, index: usize) -> (r: bool)
        ensures
            r == (index < self@.len() && self@[index as int] is Null),
    {
        match self.get(index) {
            Some(JsonValue::Null) => true,
            _ => false,
        }
    }

    /// Removes and returns the value at `index`; `None`, and no change,
    /// where `index` is out of bounds.
    pub fn remove(&mut self, index: usize) -> (r: Option<JsonValue>)
        ensures
            index < old(self)@.len() ==> r is Some && r.unwrap()@ == old(self)@[index as int]
                && final(self)@ == old(self)@.remove(index as int),
            index >= old(self)@.len() ==> r is None && final(self)@ == old(self)@,
    {
        if index < self.len() {
            let value = self.list.remove(index);
            assert(self@ =~= old(self)@.remove(index as int));
            Some(value)
        } else {
            None
        }
    }

    /// The number of values in this array.
    pub fn len(&self) -> (n: usize)
        ensures
            n == self@.len(),
    {
        self.list.len()
    }

    /// Whether the array holds no value.
    pub fn is_empty(&self) -> (r: bool)
        ensures
            r == (self@.len() == 0),
    {
        self.len() == 0
    }
}

impl Clone for JsonArray {
    /// A copy of the array and of its elements.
    fn clone(&self) -> (r: JsonArray)
        ensures
            r@ == self@,
        decreases self@, 1nat,
    {
        let mut list: Vec<JsonValue> = Vec::new();
        let mut index: usize = 0;
        while index < self.list.len()
            invariant
                index <= self.list@.len(),
                list@.len() == index,
                forall|i: int| 0 <= i < index ==> (#[trigger] list@[i]).view() == self.list@[i].view(),
            decreases self.list@.len() - index,
        {
            proof {
                assert(self@[index as int] == self.list@[index as int].view());
                assert(decreases_to!(self@ => self@[index as int]));
            }
            let item = self.list[index].clone();
            list.push(item);
            index = index + 1;
        }
        let r = JsonArray { list };
        assert(r@ =~= self@);
        r
    }
}

} // verus!

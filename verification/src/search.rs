//! Searching a slice for one of several items, or for a run of items.

use vstd::prelude::*;
use vstd::std_specs::cmp::PartialEqSpec;

verus! {

/// Whether one of `finds` equals `item`.
pub open spec fn any_equal<T: PartialEq>(finds: Seq<T>, item: T) -> bool {
    exists|j: int| 0 <= j < finds.len() && (#[trigger] finds[j]).eq_spec(&item)
}

/// The first index at or after `from` whose item equals one of `finds`.
pub open spec fn first_any<T: PartialEq>(list: Seq<T>, finds: Seq<T>, from: int) -> Option<int>
    decreases list.len() - from,
{
    if from < 0 || from >= list.len() {
        None
    } else if any_equal(finds, list[from]) {
        Some(from)
    } else {
        first_any(list, finds, from + 1)
    }
}

/// Whether the items of `list` from `at` on equal those of `finds`, one by
/// one.
pub open spec fn matches_at<T: PartialEq>(list: Seq<T>, finds: Seq<T>, at: int) -> bool {
    &&& 0 <= at
    &&& at + finds.len() <= list.len()
    &&& forall|j: int| 0 <= j < finds.len() ==> (#[trigger] list[at + j]).eq_spec(&finds[j])
}

/// The first index at or after `from` where the whole of `finds` stands in
/// `list`; `None` also where `finds` is empty.
pub open spec fn first_all<T: PartialEq>(list: Seq<T>, finds: Seq<T>, from: int) -> Option<int>
    decreases list.len() - from,
{
    if from < 0 || finds.len() == 0 || from + finds.len() > list.len() {
        None
    } else if matches_at(list, finds, from) {
        Some(from)
    } else {
        first_all(list, finds, from + 1)
    }
}

/// An index as a number of the machine.
pub open spec fn as_index(i: Option<int>) -> Option<usize> {
    match i {
        Some(i) => Some(i as usize),
        None => None,
    }
}

proof fn lemma_nothing_to_find<T: PartialEq>(list: Seq<T>, finds: Seq<T>, from: int)
    requires
        finds.len() == 0,
    ensures
        first_any(list, finds, from) is None,
    decreases list.len() - from,
{
    if 0 <= from < list.len() {
        lemma_nothing_to_find(list, finds, from + 1);
    }
}

/// The index of the first item at or after `from` that equals one of
/// `finds`.
pub fn index_of_any<T: Eq>(list: &[T], finds: &[T], from: usize) -> (r: Option<usize>)
    ensures
        T::obeys_eq_spec() ==> r == as_index(first_any(list@, finds@, from as int)),
        r matches Some(i) ==> from <= i < list@.len() && finds@.len() > 0,
{
    if list.len() == 0 {
        return None;
    }
    if finds.len() == 0 {
        proof {
            lemma_nothing_to_find(list@, finds@, from as int);
        }
        return None;
    }
    if from > list.len() - 1 {
        return None;
    }
    let mut i: usize = from;
    while i < list.len()
        invariant
            from <= i <= list@.len(),
            finds@.len() > 0,
            T::obeys_eq_spec() ==> first_any(list@, finds@, from as int) == first_any(
                list@,
                finds@,
                i as int,
            ),
        decreases list@.len() - i,
    {
        let mut j: usize = 0;
        let mut found = false;
        while j < finds.len() && !found
            invariant
                i < list@.len(),
                j <= finds@.len(),
                T::obeys_eq_spec() && found ==> any_equal(finds@, list@[i as int]),
                T::obeys_eq_spec() && !found ==> forall|k: int|
                    0 <= k < j ==> !(#[trigger] finds@[k]).eq_spec(&list@[i as int]),
            decreases finds@.len() - j,
        {
            if finds[j] == list[i] {
                found = true;
            }
            j = j + 1;
        }
        if found {
            return Some(i);
        }
        i = i + 1;
    }
    None
}

/// The index of the first place at or after `from` where the whole of
/// `finds` stands in `list`.
pub fn index_of_all<T: Eq>(list: &[T], finds: &[T], from: usize) -> (r: Option<usize>)
    ensures
        T::obeys_eq_spec() ==> r == as_index(first_all(list@, finds@, from as int)),
        r matches Some(i) ==> from <= i && i + finds@.len() <= list@.len() && finds@.len() > 0,
{
    if list.len() == 0 {
        return None;
    }
    if finds.len() == 0 {
        return None;
    }
    if finds.len() > list.len() || from > list.len() - finds.len() {
        return None;
    }
    let last: usize = list.len() - finds.len();
    let mut i: usize = from;
    while i <= last
        invariant
            finds@.len() > 0,
            finds@.len() <= list@.len() <= usize::MAX,
            last == list@.len() - finds@.len(),
            from <= i <= last + 1,
            T::obeys_eq_spec() ==> first_all(list@, finds@, from as int) == first_all(
                list@,
                finds@,
                i as int,
            ),
        decreases last + 1 - i,
    {
        let mut j: usize = 0;
        let mut same = true;
        while j < finds.len() && same
            invariant
                i <= last,
                last == list@.len() - finds@.len(),
                j <= finds@.len() <= list@.len() <= usize::MAX,
                T::obeys_eq_spec() && same ==> forall|k: int|
                    0 <= k < j ==> (#[trigger] list@[i + k]).eq_spec(&finds@[k]),
                T::obeys_eq_spec() && !same ==> !matches_at(list@, finds@, i as int),
            decreases finds@.len() - j,
        {
            if list[i + j] != finds[j] {
                same = false;
                assert(T::obeys_eq_spec() ==> !(list@[i + j]).eq_spec(&finds@[j as int]));
            }
            j = j + 1;
        }
        if same {
            return Some(i);
        }
        i = i + 1;
    }
    None
}

} // verus!

//! What an array shares with a slice.
use crate::boxed::Box;
use crate::slot::Slot;
use crate::vec::Vec;
use std::ops::{Deref, DerefMut};
use vstd::prelude::*;
use vstd::std_specs::cmp::{
    PartialEqSpec, PartialEqSpecImpl, PartialOrdSpec, PartialOrdSpecImpl,
};
use vstd::std_specs::convert::FromSpecImpl;

verus! {

impl<T> Deref for Vec<T> {
    type Target = [T];

    fn deref(&self) -> (slice: &[T])
        ensures
            slice@ == self@,
    {
        self.elems.as_slice()
    }
}

impl<T> DerefMut for Vec<T> {
    fn deref_mut(&mut self) -> (slice: &mut [T])
        ensures
            slice@ == old(self)@,
            final(self)@ == final(slice)@,
            final(self).ptr() == old(self).ptr(),
            final(self).cap() == old(self).cap(),
    {
        self.elems.as_mut_slice()
    }
}

impl<T> From<Vec<T>> for Slot<[T]> {
    fn from(value: Vec<T>) -> (slot: Slot<[T]>)
        ensures
            slot.val()@ == value@,
            slot.ptr() == value.ptr(),
    {
        value.into_slice()
    }
}

impl<T> FromSpecImpl<Vec<T>> for Slot<[T]> {
    open spec fn obeys_from_spec() -> bool {
        false
    }

    open spec fn from_spec(value: Vec<T>) -> Slot<[T]> {
        arbitrary()
    }
}

impl<T> From<Vec<T>> for Box<[T]> {
    fn from(value: Vec<T>) -> (boxed: Box<[T]>)
        ensures
            boxed.val()@ == value@,
            boxed.ptr() == value.ptr(),
    {
        value.into_boxed_slice()
    }
}

impl<T> FromSpecImpl<Vec<T>> for Box<[T]> {
    open spec fn obeys_from_spec() -> bool {
        false
    }

    open spec fn from_spec(value: Vec<T>) -> Box<[T]> {
        arbitrary()
    }
}

impl<T: PartialEq> PartialEq for Vec<T> {
    fn eq(&self, other: &Self) -> (result: bool)
        ensures
            result ==> self@.len() == other@.len() && forall|i: int|
                0 <= i < self@.len() ==> call_ensures(
                    <T as PartialEq>::eq,
                    (&#[trigger] self@[i], &other@[i]),
                    true,
                ),
            !result ==> self@.len() != other@.len() || exists|i: int|
                0 <= i < self@.len() && call_ensures(
                    <T as PartialEq>::eq,
                    (&#[trigger] self@[i], &other@[i]),
                    false,
                ),
    {
        if self.elems.len() != other.elems.len() {
            return false;
        }
        let mut i: usize = 0;
        while i < self.elems.len()
            invariant
                i <= self@.len(),
                self@.len() == other@.len(),
                T::obeys_eq_spec() ==> forall|j: int|
                    0 <= j < i ==> (#[trigger] self@[j]).eq_spec(&other@[j]),
                forall|j: int|
                    0 <= j < i ==> call_ensures(
                        <T as PartialEq>::eq,
                        (&#[trigger] self@[j], &other@[j]),
                        true,
                    ),
            decreases self@.len() - i,
        {
            if !self.elems[i].eq(&other.elems[i]) {
                return false;
            }
            i = i + 1;
        }
        true
    }
}

impl<T: PartialEq> PartialEqSpecImpl for Vec<T> {
    open spec fn obeys_eq_spec() -> bool {
        T::obeys_eq_spec()
    }

    open spec fn eq_spec(&self, other: &Self) -> bool {
        &&& self@.len() == other@.len()
        &&& forall|i: int| 0 <= i < self@.len() ==> (#[trigger] self@[i]).eq_spec(&other@[i])
    }
}

impl<T: Eq> Eq for Vec<T> {

}

impl<T: PartialOrd> PartialOrd for Vec<T> {
    fn partial_cmp(&self, other: &Self) -> (result: Option<std::cmp::Ordering>)
        ensures
            exists|k: int| #[trigger] decided_at(self@, other@, k, result),
    {
        let mut i: usize = 0;
        let ghost mut k: int = 0;
        assert(rest(self@, 0) =~= self@);
        assert(rest(other@, 0) =~= other@);
        while i < self.elems.len() && i < other.elems.len()
            invariant
                i <= self@.len(),
                i <= other@.len(),
                k == i,
                forall|j: int|
                    0 <= j < k ==> call_ensures(
                        T::partial_cmp,
                        (&#[trigger] self@[j], &other@[j]),
                        Some(std::cmp::Ordering::Equal),
                    ),
                T::obeys_partial_cmp_spec() ==> lexicographic(self@, other@) == lexicographic(
                    rest(self@, i),
                    rest(other@, i),
                ),
            decreases self@.len() - i,
        {
            let ghost before = i;
            match self.elems[i].partial_cmp(&other.elems[i]) {
                Some(std::cmp::Ordering::Equal) => {},
                unequal => {
                    assert(decided_at(self@, other@, k, unequal));
                    return unequal;
                },
            }
            i = i + 1;
            proof {
                k = k + 1;
                lemma_rest(self@, before, i);
                lemma_rest(other@, before, i);
            }
        }
        let result = if i < other.elems.len() {
            Some(std::cmp::Ordering::Less)
        } else if i < self.elems.len() {
            Some(std::cmp::Ordering::Greater)
        } else {
            Some(std::cmp::Ordering::Equal)
        };
        assert(decided_at(self@, other@, k, result));
        result
    }
}

impl<T: PartialOrd> PartialOrdSpecImpl for Vec<T> {
    open spec fn obeys_partial_cmp_spec() -> bool {
        T::obeys_partial_cmp_spec()
    }

    open spec fn partial_cmp_spec(&self, other: &Self) -> Option<std::cmp::Ordering> {
        lexicographic(self@, other@)
    }
}

/// The values before `k` compare equal, and `result` is how those at `k` compare, which is not that,
/// or how the lengths do where one sequence ends there.
pub open spec fn decided_at<T: PartialOrd>(
    s: Seq<T>,
    t: Seq<T>,
    k: int,
    result: Option<std::cmp::Ordering>,
) -> bool {
    &&& 0 <= k <= s.len()
    &&& k <= t.len()
    &&& forall|j: int|
        0 <= j < k ==> call_ensures(
            T::partial_cmp,
            (&#[trigger] s[j], &t[j]),
            Some(std::cmp::Ordering::Equal),
        )
    &&& if k < s.len() && k < t.len() {
        result != Some(std::cmp::Ordering::Equal) && call_ensures(
            T::partial_cmp,
            (&s[k], &t[k]),
            result,
        )
    } else if k < t.len() {
        result == Some(std::cmp::Ordering::Less)
    } else if k < s.len() {
        result == Some(std::cmp::Ordering::Greater)
    } else {
        result == Some(std::cmp::Ordering::Equal)
    }
}

/// What comes from position `i` on.
spec fn rest<T>(s: Seq<T>, i: usize) -> Seq<T> {
    s.skip(i as int)
}

/// One position further comes one value less.
proof fn lemma_rest<T>(s: Seq<T>, i: usize, j: usize)
    requires
        i < s.len(),
        j == i + 1,
    ensures
        rest(s, j) == rest(s, i).drop_first(),
{
    assert(rest(s, j) =~= rest(s, i).drop_first());
}

/// How two sequences compare: by the first values that do not compare equal, or else by their
/// lengths.
pub open spec fn lexicographic<T: PartialOrd>(s: Seq<T>, t: Seq<T>) -> Option<std::cmp::Ordering>
    decreases s.len(),
{
    if s.len() == 0 {
        if t.len() == 0 {
            Some(std::cmp::Ordering::Equal)
        } else {
            Some(std::cmp::Ordering::Less)
        }
    } else if t.len() == 0 {
        Some(std::cmp::Ordering::Greater)
    } else {
        match s[0].partial_cmp_spec(&t[0]) {
            Some(std::cmp::Ordering::Equal) => lexicographic(s.drop_first(), t.drop_first()),
            unequal => unequal,
        }
    }
}

} // verus!

//! Moving the values out of an array.
use crate::vec::Vec;
use std::collections::VecDeque;
use vstd::prelude::*;

verus! {

/// The values that are moved out of an array.
pub struct IntoIter<T> {
    items: VecDeque<T>,
}

impl<T> View for IntoIter<T> {
    type V = Seq<T>;

    closed spec fn view(&self) -> Seq<T> {
        self.items@
    }
}

impl<T> IntoIter<T> {
    /// Takes the first of the values that are left.
    pub fn next(&mut self) -> (result: Option<T>)
        ensures
            old(self)@.len() == 0 ==> result is None && final(self)@ == old(self)@,
            old(self)@.len() > 0 ==> result == Some(old(self)@[0]) && final(self)@
                == old(self)@.drop_first(),
    {
        let result = self.items.pop_front();
        assert(old(self)@.len() > 0 ==> self@ =~= old(self)@.drop_first());
        result
    }

    /// Takes the last of the values that are left.
    pub fn next_back(&mut self) -> (result: Option<T>)
        ensures
            old(self)@.len() == 0 ==> result is None && final(self)@ == old(self)@,
            old(self)@.len() > 0 ==> result == Some(old(self)@.last()) && final(self)@
                == old(self)@.drop_last(),
    {
        let result = self.items.pop_back();
        assert(old(self)@.len() > 0 ==> self@ =~= old(self)@.drop_last());
        result
    }

    /// How many values are left.
    pub fn len(&self) -> (len: usize)
        ensures
            len == self@.len(),
    {
        self.items.len()
    }

    /// How many values are left, as a lower and an upper bound.
    pub fn size_hint(&self) -> (bounds: (usize, Option<usize>))
        ensures
            bounds.0 == self@.len(),
            bounds.1 == Some(bounds.0),
    {
        (self.items.len(), Some(self.items.len()))
    }

    /// Drops the values that are left, and tells how many there were.
    pub fn count(self) -> (count: usize)
        ensures
            count == self@.len(),
    {
        self.items.len()
    }
}

impl<T> Vec<T> {
    /// Moves the values out of the array.
    pub fn into_iter(self) -> (iter: IntoIter<T>)
        ensures
            iter@ == self@,
    {
        let ghost whole = self@;
        let mut items: VecDeque<T> = VecDeque::new();
        for value in it: self.elems
            invariant
                it.seq() == whole,
                items@ == whole.take(it.index()),
        {
            items.push_back(value);
        }
        assert(whole.take(whole.len() as int) =~= whole);
        IntoIter { items }
    }
}

} // verus!

//! Taking a range out of an array.
use crate::arena::Arena;
use crate::vec::range::{first_of, in_bounds, last_of};
use crate::vec::{range, AllocError, Bound, Vec};
use vstd::prelude::*;
use vstd::std_specs::iter::IteratorSpec;

verus! {

/// A range that is taken out of an array.
///
/// The array is left with what comes before the range. [`Drain::finish`] puts back what comes
/// after it, which is gone where the drain is just dropped.
pub struct Drain<'a, T> {
    /// The array, with what comes before the range.
    pub vec: &'a mut Vec<T>,
    /// What is left of the range.
    pub items: std::vec::Vec<T>,
    /// What comes after the range.
    pub tail: std::vec::Vec<T>,
    /// The position from which on the tail is kept.
    pub tail_start: usize,
}

impl<'a, T> Drain<'a, T> {
    /// There is room for the tail from its position on, and for what is left of the range before
    /// that.
    pub open spec fn wf(&self) -> bool {
        &&& self.vec.wf()
        &&& self.vec@.len() + self.items@.len() <= self.tail_start
        &&& self.tail_start + self.tail@.len() <= self.vec.spec_capacity()
    }

    /// Returns an immutable slice of what is left of the range.
    pub fn as_slice(&self) -> (slice: &[T])
        ensures
            slice@ == self.items@,
    {
        self.items.as_slice()
    }

    /// Takes the first element of what is left of the range.
    pub fn next(&mut self) -> (result: Option<T>)
        requires
            old(self).wf(),
        ensures
            final(self).wf(),
            final(self).vec == old(self).vec,
            final(self).tail == old(self).tail,
            final(self).tail_start == old(self).tail_start,
            old(self).items@.len() == 0 ==> result is None && final(self).items@
                == old(self).items@,
            old(self).items@.len() > 0 ==> result == Some(old(self).items@[0])
                && final(self).items@ == old(self).items@.drop_first(),
    {
        if self.items.len() == 0 {
            None
        } else {
            let item = self.items.remove(0);
            assert(self.items@ =~= old(self).items@.drop_first());
            Some(item)
        }
    }

    /// Takes the last element of what is left of the range.
    pub fn next_back(&mut self) -> (result: Option<T>)
        requires
            old(self).wf(),
        ensures
            final(self).wf(),
            final(self).vec == old(self).vec,
            final(self).tail == old(self).tail,
            final(self).tail_start == old(self).tail_start,
            old(self).items@.len() == 0 ==> result is None && final(self).items@
                == old(self).items@,
            old(self).items@.len() > 0 ==> result == Some(old(self).items@.last())
                && final(self).items@ == old(self).items@.drop_last(),
    {
        self.items.pop()
    }

    /// How many elements are left of the range, as a lower and an upper bound.
    pub fn size_hint(&self) -> (bounds: (usize, Option<usize>))
        ensures
            bounds.0 == self.items@.len(),
            bounds.1 == Some(bounds.0),
    {
        (self.items.len(), Some(self.items.len()))
    }

    /// Fills the place between the array and the tail with items of `replace_with`.
    ///
    /// Returns `true` if there were enough of them, `false` otherwise.
    pub(crate) fn fill<I>(&mut self, replace_with: &mut I) -> (filled: bool)
        where
            I: Iterator<Item = T>,
        requires
            old(self).wf(),
            old(self).items@.len() == 0,
            IteratorSpec::obeys_prophetic_iter_laws(old(replace_with)),
            IteratorSpec::decrease(old(replace_with)) is Some,
        ensures
            final(self).wf(),
            final(self).items@.len() == 0,
            final(self).tail == old(self).tail,
            final(self).tail_start == old(self).tail_start,
            *final(final(self).vec) == *final(old(self).vec),
            final(self).vec.ptr() == old(self).vec.ptr(),
            final(self).vec.cap() == old(self).vec.cap(),
            IteratorSpec::obeys_prophetic_iter_laws(final(replace_with)),
            IteratorSpec::decrease(final(replace_with)) is Some,
            filled == (IteratorSpec::remaining(old(replace_with)).len()
                >= old(self).tail_start - old(self).vec@.len()),
            filled ==> final(self).vec@.len() == old(self).tail_start,
            !filled ==> IteratorSpec::remaining(final(replace_with)).len() == 0,
            final(self).vec@ + IteratorSpec::remaining(final(replace_with)) == old(self).vec@
                + IteratorSpec::remaining(old(replace_with)),
    {
        let ghost whole = self.vec@ + IteratorSpec::remaining(replace_with);
        while self.vec.len() < self.tail_start
            invariant
                self.wf(),
                self.items@.len() == 0,
                self.tail == old(self).tail,
                self.tail_start == old(self).tail_start,
                *final(self.vec) == *final(old(self).vec),
                self.vec.ptr() == old(self).vec.ptr(),
                self.vec.cap() == old(self).vec.cap(),
                old(self).vec@.len() <= self.vec@.len(),
                IteratorSpec::obeys_prophetic_iter_laws(replace_with),
                IteratorSpec::decrease(replace_with) is Some,
                self.vec@ + IteratorSpec::remaining(replace_with) == whole,
                whole == old(self).vec@ + IteratorSpec::remaining(old(replace_with)),
            decreases self.tail_start - self.vec@.len(),
        {
            match replace_with.next() {
                Some(item) => {
                    self.vec.push_unchecked(item);
                    assert(self.vec@ + IteratorSpec::remaining(replace_with) =~= whole);
                },
                None => {
                    return false;
                },
            }
        }
        true
    }

    /// Moves the tail to fit `additional` more elements before it.
    ///
    /// Fails if the arena failed to allocate enough room.
    pub(crate) fn move_tail(&mut self, additional: usize, arena: &mut Arena) -> (result: Result<
        (),
        AllocError,
    >)
        requires
            old(self).wf(),
            old(arena).wf(),
            old(self).vec.lives_in(old(arena)@),
        ensures
            final(self).wf(),
            final(arena).wf(),
            old(arena)@.keeps(final(arena)@),
            final(self).vec.lives_in(final(arena)@),
            *final(final(self).vec) == *final(old(self).vec),
            final(self).vec@ == old(self).vec@,
            final(self).items == old(self).items,
            final(self).tail == old(self).tail,
            final(self).tail_start == old(self).tail_start + if result is Ok {
                additional as int
            } else {
                0
            },
            old(self).vec.room_for(
                old(arena)@,
                old(self).tail_start + old(self).tail@.len() + additional,
                result is Ok,
                final(self).vec,
                final(arena)@,
            ),
    {
        let len: usize = self.tail_start + self.tail.len();
        match len.checked_add(additional) {
            Some(needed) => match self.vec.reserve(needed, arena) {
                Ok(()) => {
                    self.tail_start = self.tail_start + additional;
                    Ok(())
                },
                Err(error) => Err(error),
            },
            None => Err(AllocError),
        }
    }

    /// Drops what is left of the range and puts back what comes after it.
    pub fn finish(self)
        requires
            self.wf(),
        ensures
            final(self.vec).wf(),
            final(self.vec).ptr() == old(self.vec).ptr(),
            final(self.vec).cap() == old(self.vec).cap(),
            final(self.vec)@ == old(self.vec)@ + self.tail@,
    {
        let mut tail = self.tail;
        self.vec.elems.append(&mut tail);
    }
}

impl<T> Vec<T> {
    /// Removes a range from the array, to be taken element by element.
    ///
    /// The array is left with what comes before the range until [`Drain::finish`] puts back what
    /// comes after it.
    pub fn drain(&mut self, start: Bound, end: Bound) -> (drain: Drain<'_, T>)
        requires
            old(self).wf(),
            in_bounds(start, end, old(self)@.len() as int),
        ensures
            drain.wf(),
            drain.vec.ptr() == old(self).ptr(),
            drain.vec.cap() == old(self).cap(),
            drain.vec@ == old(self)@.take(first_of(start)),
            drain.items@ == old(self)@.subrange(
                first_of(start),
                last_of(end, old(self)@.len() as int),
            ),
            drain.tail@ == old(self)@.skip(last_of(end, old(self)@.len() as int)),
            drain.tail_start == last_of(end, old(self)@.len() as int),
            *final(drain.vec) == *final(self),
    {
        let range = range(start, end, self.elems.len());
        let mut items = self.elems.split_off(range.start);
        let tail = items.split_off(range.end - range.start);
        assert(self.elems@ =~= old(self)@.take(range.start as int));
        assert(items@ =~= old(self)@.subrange(range.start as int, range.end as int));
        assert(tail@ =~= old(self)@.skip(range.end as int));
        Drain { vec: self, items, tail, tail_start: range.end }
    }
}

} // verus!

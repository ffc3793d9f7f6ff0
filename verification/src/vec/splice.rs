//! Replacing a range of an array.
use crate::arena::Arena;
use crate::raw::ArenaView;
use crate::vec::collect::{hinted, needs_no_memory};
use crate::vec::drain::Drain;
use crate::vec::range::{first_of, in_bounds, last_of};
use crate::vec::{AllocError, Bound, FromIteratorIn, Vec};
use vstd::prelude::*;
use vstd::std_specs::iter::IteratorSpec;

verus! {

/// A range that is taken out of an array, with the items to replace it.
///
/// [`Splice::finish`] puts these in its place, and puts back what comes after it. That is gone
/// where the splice is just dropped.
pub struct Splice<'a, T, I> {
    /// The range that is taken out.
    pub drain: Drain<'a, T>,
    /// The items to replace it.
    pub replace_with: I,
}

impl<'a, T, I: Iterator<Item = T>> Splice<'a, T, I> {
    /// Takes the first element of what is left of the range.
    pub fn next(&mut self) -> (result: Option<T>)
        requires
            old(self).drain.wf(),
        ensures
            final(self).drain.wf(),
            final(self).replace_with == old(self).replace_with,
            final(self).drain.vec == old(self).drain.vec,
            final(self).drain.tail == old(self).drain.tail,
            final(self).drain.tail_start == old(self).drain.tail_start,
            old(self).drain.items@.len() == 0 ==> result is None && final(self).drain.items@
                == old(self).drain.items@,
            old(self).drain.items@.len() > 0 ==> result == Some(old(self).drain.items@[0])
                && final(self).drain.items@ == old(self).drain.items@.drop_first(),
    {
        self.drain.next()
    }

    /// Takes the last element of what is left of the range.
    pub fn next_back(&mut self) -> (result: Option<T>)
        requires
            old(self).drain.wf(),
        ensures
            final(self).drain.wf(),
            final(self).replace_with == old(self).replace_with,
            final(self).drain.vec == old(self).drain.vec,
            final(self).drain.tail == old(self).drain.tail,
            final(self).drain.tail_start == old(self).drain.tail_start,
            old(self).drain.items@.len() == 0 ==> result is None && final(self).drain.items@
                == old(self).drain.items@,
            old(self).drain.items@.len() > 0 ==> result == Some(old(self).drain.items@.last())
                && final(self).drain.items@ == old(self).drain.items@.drop_last(),
    {
        self.drain.next_back()
    }

    /// How many elements are left of the range, as a lower and an upper bound.
    pub fn size_hint(&self) -> (bounds: (usize, Option<usize>))
        ensures
            bounds.0 == self.drain.items@.len(),
            bounds.1 == Some(bounds.0),
    {
        self.drain.size_hint()
    }

    /// Drops what is left of the range, puts the items in its place, and puts back what comes
    /// after it.
    ///
    /// Fails if the arena failed to allocate enough room; the items that there was room for are
    /// in the array then.
    pub fn finish(self, arena: &mut Arena) -> (result: Result<(), AllocError>)
        requires
            old(arena).wf(),
            self.drain.wf(),
            self.drain.vec.lives_in(old(arena)@),
            self.replace_with.obeys_prophetic_iter_laws(),
            self.replace_with.decrease() is Some,
        ensures
            final(arena).wf(),
            old(arena)@.keeps(final(arena)@),
            final(self.drain.vec).lives_in(final(arena)@),
            result is Ok ==> final(self.drain.vec)@ == old(self.drain.vec)@
                + self.replace_with.remaining() + self.drain.tail@,
            result is Err ==> exists|n: int|
                0 <= n <= self.replace_with.remaining().len() && final(self.drain.vec)@ == old(
                    self.drain.vec,
                )@ + #[trigger] self.replace_with.remaining().take(n) + self.drain.tail@,
            self.drain.tail@.len() == 0 ==> exists|least: usize|
                {
                    &&& #[trigger] hinted(&self.replace_with, least)
                    &&& old(self.drain.vec).extended_with(
                        old(arena)@,
                        least,
                        self.replace_with.remaining(),
                        result is Ok,
                        final(self.drain.vec),
                        final(arena)@,
                    )
                },
            self.drain.tail@.len() > 0 && old(self.drain.vec)@.len()
                + self.replace_with.remaining().len() >= self.drain.tail_start ==> exists|
                filled: Vec<T>,
                rest: I,
                least: usize,
                collected: Result<Vec<T>, AllocError>,
                mid: ArenaView,
            |
                {
                    let places = self.drain.tail_start - old(self.drain.vec)@.len();
                    &&& filled.ptr() == old(self.drain.vec).ptr()
                    &&& filled.cap() == old(self.drain.vec).cap()
                    &&& filled@ == old(self.drain.vec)@ + self.replace_with.remaining().take(
                        places,
                    )
                    &&& rest.remaining() == self.replace_with.remaining().skip(places)
                    &&& #[trigger] hinted(&rest, least)
                    &&& <Vec<T> as FromIteratorIn<T>>::collects(
                        old(arena)@,
                        least,
                        self.replace_with.remaining().skip(places),
                        collected,
                        mid,
                    )
                    &&& #[trigger] inserted(
                        filled,
                        mid,
                        self.drain.tail@,
                        collected,
                        result is Ok,
                        *final(self.drain.vec),
                        final(arena)@,
                    )
                },
            vstd::layout::size_of::<T>() == 0 && self.drain.tail@.len() == 0 && old(
                self.drain.vec,
            )@.len() == 0 && self.replace_with.remaining().len() <= usize::MAX ==> result is Ok,
            needs_no_memory::<T>(old(arena)@) && self.drain.tail@.len() > 0 && old(
                self.drain.vec,
            )@.len() + self.replace_with.remaining().len() + self.drain.tail_start
                + self.drain.tail@.len() <= usize::MAX ==> result is Ok,
            self.drain.tail@.len() > 0 && old(self.drain.vec)@.len()
                + self.replace_with.remaining().len() < self.drain.tail_start ==> {
                &&& result is Ok
                &&& final(arena)@ == old(arena)@
                &&& final(self.drain.vec).ptr() == old(self.drain.vec).ptr()
                &&& final(self.drain.vec).cap() == old(self.drain.vec).cap()
            },
    {
        let Splice { drain, replace_with } = self;
        let mut drain = drain;
        let mut replace_with = replace_with;
        let ghost head = drain.vec@;
        let ghost given = IteratorSpec::remaining(&replace_with);
        drain.items.clear();
        if drain.tail.len() == 0 {
            let result = drain.vec.extend(replace_with, arena);
            proof {
                if result is Ok {
                    assert(drain.vec@ =~= head + given + self.drain.tail@);
                } else {
                    let n = choose|n: int|
                        0 <= n <= given.len() && drain.vec@ == head + #[trigger] given.take(n);
                    assert(drain.vec@ =~= head + given.take(n) + self.drain.tail@);
                }
            }
            return result;
        }
        if !drain.fill(&mut replace_with) {
            drain.finish();
            return Ok(());
        }
        proof {
            let n = drain.vec@.len() - head.len();
            assert(drain.vec@ =~= (drain.vec@ + IteratorSpec::remaining(&replace_with)).take(
                drain.vec@.len() as int,
            ));
            assert(drain.vec@ =~= head + given.take(n));
        }
        let ghost places = drain.tail_start - head.len();
        let ghost filled = *drain.vec;
        let ghost rest = IteratorSpec::remaining(&replace_with);
        assert(rest =~= given.skip(places)) by {
            assert(rest =~= (drain.vec@ + rest).skip(drain.vec@.len() as int));
        }
        let ghost left = replace_with;
        let collected: Result<Vec<T>, AllocError> = Vec::from_iter_in(replace_with, arena);
        let ghost mid = arena@;
        let ghost least = choose|least: usize|
            {
                &&& #[trigger] hinted(&left, least)
                &&& <Vec<T> as FromIteratorIn<T>>::collects(
                    old(arena)@,
                    least,
                    rest,
                    collected,
                    mid,
                )
            };
        assert(hinted(&left, least));
        let result = drain.insert(collected, arena);
        proof {
            let more = if result is Ok {
                given.len() as int
            } else {
                places
            };
            assert(final(self.drain.vec)@ =~= head + given.take(more) + self.drain.tail@);
            assert(given.take(given.len() as int) =~= given);
        }
        result
    }
}

/// The items that were `collected`, if they were, were to be put between `vec` and `tail`, which
/// follows it, in `new`.
pub open spec fn inserted<T>(
    vec: Vec<T>,
    v: ArenaView,
    tail: Seq<T>,
    collected: Result<Vec<T>, AllocError>,
    granted: bool,
    new: Vec<T>,
    w: ArenaView,
) -> bool {
    match collected {
        Ok(items) => if items@.len() == 0 {
            granted && vec.kept(v, &new, w) && new@ == vec@ + tail
        } else {
            &&& exists|made: Vec<T>, given: bool|
                {
                    &&& #[trigger] vec.room_for(
                        v,
                        (vec@.len() + tail.len() + items@.len()) as int,
                        given,
                        &made,
                        w,
                    )
                    &&& given == granted
                    &&& new.ptr() == made.ptr()
                    &&& new.cap() == made.cap()
                }
            &&& new@ == if granted {
                vec@ + items@ + tail
            } else {
                vec@ + tail
            }
        },
        Err(_) => !granted && vec.kept(v, &new, w) && new@ == vec@ + tail,
    }
}

impl<'a, T> Drain<'a, T> {
    /// Puts the items that were `collected`, if they were, between the array and the tail, which
    /// follows it, and puts the tail back.
    ///
    /// Fails if they were not collected, or the arena failed to allocate enough room.
    pub(crate) fn insert(
        self,
        collected: Result<Vec<T>, AllocError>,
        arena: &mut Arena,
    ) -> (result: Result<(), AllocError>)
        requires
            old(arena).wf(),
            self.wf(),
            self.items@.len() == 0,
            self.vec@.len() == self.tail_start,
            self.vec.lives_in(old(arena)@),
        ensures
            final(arena).wf(),
            old(arena)@.keeps(final(arena)@),
            final(self.vec).lives_in(final(arena)@),
            inserted(
                *old(self.vec),
                old(arena)@,
                self.tail@,
                collected,
                result is Ok,
                *final(self.vec),
                final(arena)@,
            ),
    {
        let mut drain = self;
        let items = match collected {
            Ok(items) => items,
            Err(error) => {
                drain.finish();
                return Err(error);
            },
        };
        let len = items.len();
        if len == 0 {
            drain.finish();
            return Ok(());
        }
        let moved = drain.move_tail(len, arena);
        let ghost made = *drain.vec;
        let ghost given = moved is Ok;
        assert(old(self.vec).room_for(
            old(arena)@,
            (old(self.vec)@.len() + self.tail@.len() + items@.len()) as int,
            given,
            &made,
            arena@,
        ));
        if moved.is_ok() {
            let mut items = items.elems.into_iter();
            let _ = drain.fill(&mut items);
        }
        drain.finish();
        moved
    }
}

impl<T> Vec<T> {
    /// Removes a range from the array, to be taken element by element, and to be replaced with
    /// the items of `replace_with`, which may be more or less.
    pub fn splice<I>(&mut self, start: Bound, end: Bound, replace_with: I) -> (splice: Splice<
        '_,
        T,
        I,
    >)
        where
            I: Iterator<Item = T>,
        requires
            old(self).wf(),
            in_bounds(start, end, old(self)@.len() as int),
        ensures
            splice.replace_with == replace_with,
            splice.drain.wf(),
            splice.drain.vec.ptr() == old(self).ptr(),
            splice.drain.vec.cap() == old(self).cap(),
            splice.drain.vec@ == old(self)@.take(first_of(start)),
            splice.drain.items@ == old(self)@.subrange(
                first_of(start),
                last_of(end, old(self)@.len() as int),
            ),
            splice.drain.tail@ == old(self)@.skip(last_of(end, old(self)@.len() as int)),
            splice.drain.tail_start == last_of(end, old(self)@.len() as int),
            *final(splice.drain.vec) == *final(self),
    {
        Splice { drain: self.drain(start, end), replace_with }
    }
}

} // verus!

//! Arrays of clones.
use crate::arena::{all_cloned, Arena};
use crate::vec::range::{first_of, in_bounds, last_of};
use crate::vec::{made_room, range, AllocError, Bound, Vec};
use vstd::prelude::*;

verus! {

impl<T: Clone> Vec<T> {
    /// Creates an array inside `arena` and clones all values of `slice` onto it.
    ///
    /// Fails if the arena failed to allocate enough room.
    pub fn from_slice_in(slice: &[T], arena: &mut Arena) -> (result: Result<Vec<T>, AllocError>)
        requires
            old(arena).wf(),
        ensures
            final(arena).wf(),
            old(arena)@.keeps(final(arena)@),
            match result {
                Ok(vec) => {
                    &&& vec.lives_in(final(arena)@)
                    &&& vec.cap() == slice@.len()
                    &&& all_cloned(slice@, vec@)
                    &&& made_room::<T>(
                        old(arena)@,
                        slice@.len() as usize,
                        Some(vec.ptr()),
                        final(arena)@,
                    )
                },
                Err(_) => made_room::<T>(
                    old(arena)@,
                    slice@.len() as usize,
                    None,
                    final(arena)@,
                ),
            },
    {
        let mut vec: Vec<T> = match Vec::with_capacity_in(slice.len(), arena) {
            Ok(vec) => vec,
            Err(error) => {
                return Err(error);
            },
        };
        match vec.extend_from_slice(slice, arena) {
            Ok(()) => {
                assert(vec@.skip(0) =~= vec@);
                Ok(vec)
            },
            Err(error) => Err(error),
        }
    }

    /// Resizes the array so that its length is equal to `new_len`.
    ///
    /// If `new_len` is greater than the length, the array is extended with clones of `value`. If
    /// it is less, the array is truncated. Fails if the arena failed to allocate enough room.
    pub fn resize(&mut self, new_len: usize, value: T, arena: &mut Arena) -> (result: Result<
        (),
        AllocError,
    >)
        requires
            old(arena).wf(),
            old(self).lives_in(old(arena)@),
        ensures
            final(arena).wf(),
            old(arena)@.keeps(final(arena)@),
            final(self).lives_in(final(arena)@),
            new_len <= old(self)@.len() ==> {
                &&& result is Ok
                &&& old(self).kept(old(arena)@, final(self), final(arena)@)
                &&& final(self)@ == old(self)@.take(new_len as int)
            },
            new_len > old(self)@.len() ==> {
                &&& old(self).room_for(
                    old(arena)@,
                    new_len - old(self)@.len(),
                    result is Ok,
                    final(self),
                    final(arena)@,
                )
                &&& result is Ok ==> extended_with(
                    old(self)@,
                    new_len - old(self)@.len(),
                    value,
                    final(self)@,
                )
            },
    {
        let len = self.elems.len();
        if new_len > len {
            self.extend_with(new_len - len, value, arena)
        } else {
            self.truncate(new_len);
            assert(self.elems@ =~= old(self)@.take(new_len as int));
            Ok(())
        }
    }

    /// Clones and appends all elements in a slice to the array, in their order.
    ///
    /// Fails if the arena failed to allocate enough room.
    pub fn extend_from_slice(&mut self, other: &[T], arena: &mut Arena) -> (result: Result<
        (),
        AllocError,
    >)
        requires
            old(arena).wf(),
            old(self).lives_in(old(arena)@),
        ensures
            final(arena).wf(),
            old(arena)@.keeps(final(arena)@),
            final(self).lives_in(final(arena)@),
            old(self).room_for(
                old(arena)@,
                other@.len() as int,
                result is Ok,
                final(self),
                final(arena)@,
            ),
            result is Ok ==> {
                &&& final(self)@.len() == old(self)@.len() + other@.len()
                &&& final(self)@.take(old(self)@.len() as int) == old(self)@
                &&& all_cloned(other@, final(self)@.skip(old(self)@.len() as int))
            },
    {
        match self.reserve(other.len(), arena) {
            Ok(()) => {},
            Err(error) => {
                return Err(error);
            },
        }
        let ghost ptr = self.ptr;
        let ghost cap = self.cap;
        let ghost len = self.elems@.len();
        let mut i: usize = 0;
        while i < other.len()
            invariant
                i <= other@.len(),
                self.wf(),
                self.ptr == ptr,
                self.cap == cap,
                len == old(self)@.len(),
                len + other@.len() <= self.spec_capacity(),
                self.elems@.len() == len + i,
                self.elems@.take(len as int) == old(self)@,
                forall|j: int| 0 <= j < i ==> cloned(other@[j], #[trigger] self.elems@[len + j]),
            decreases other@.len() - i,
        {
            let ghost before = self.elems@;
            self.push_unchecked(other[i].clone());
            assert(self.elems@.take(len as int) =~= before.take(len as int));
            i = i + 1;
        }
        assert forall|j: int| 0 <= j < other@.len() implies cloned(
            other@[j],
            #[trigger] self.elems@.skip(len as int)[j],
        ) by {
            assert(self.elems@.skip(len as int)[j] == self.elems@[len + j]);
        }
        Ok(())
    }

    /// Clones the elements in a range of the array and appends them to its end.
    ///
    /// Fails if the arena failed to allocate enough room.
    pub fn extend_from_within(&mut self, start: Bound, end: Bound, arena: &mut Arena) -> (result:
        Result<(), AllocError>)
        requires
            old(arena).wf(),
            old(self).lives_in(old(arena)@),
            in_bounds(start, end, old(self)@.len() as int),
        ensures
            final(arena).wf(),
            old(arena)@.keeps(final(arena)@),
            final(self).lives_in(final(arena)@),
            old(self).room_for(
                old(arena)@,
                last_of(end, old(self)@.len() as int) - first_of(start),
                result is Ok,
                final(self),
                final(arena)@,
            ),
            result is Ok ==> {
                &&& final(self)@.len() == old(self)@.len() + (last_of(
                    end,
                    old(self)@.len() as int,
                ) - first_of(start))
                &&& final(self)@.take(old(self)@.len() as int) == old(self)@
                &&& all_cloned(
                    old(self)@.subrange(
                        first_of(start),
                        last_of(end, old(self)@.len() as int),
                    ),
                    final(self)@.skip(old(self)@.len() as int),
                )
            },
    {
        let len = self.elems.len();
        let range = range(start, end, len);
        match self.reserve(range.end - range.start, arena) {
            Ok(()) => {},
            Err(error) => {
                return Err(error);
            },
        }
        let ghost ptr = self.ptr;
        let ghost cap = self.cap;
        let mut i: usize = range.start;
        while i < range.end
            invariant
                range.start <= i <= range.end <= len,
                self.wf(),
                self.ptr == ptr,
                self.cap == cap,
                len == old(self)@.len(),
                len + (range.end - range.start) <= self.spec_capacity(),
                self.elems@.len() == len + (i - range.start),
                self.elems@.take(len as int) == old(self)@,
                forall|j: int|
                    0 <= j < i - range.start ==> cloned(
                        old(self)@[range.start + j],
                        #[trigger] self.elems@[len + j],
                    ),
            decreases range.end - i,
        {
            let ghost before = self.elems@;
            assert(before[i as int] == before.take(len as int)[i as int]);
            let value = self.elems[i].clone();
            self.push_unchecked(value);
            assert(self.elems@.take(len as int) =~= before.take(len as int));
            i = i + 1;
        }
        assert forall|j: int| 0 <= j < range.end - range.start implies cloned(
            old(self)@.subrange(range.start as int, range.end as int)[j],
            #[trigger] self.elems@.skip(len as int)[j],
        ) by {
            assert(self.elems@.skip(len as int)[j] == self.elems@[len + j]);
        }
        Ok(())
    }

    /// Extends this array with `n` more clones of `value`.
    ///
    /// Fails if the arena failed to allocate enough room.
    pub fn extend_with(&mut self, n: usize, value: T, arena: &mut Arena) -> (result: Result<
        (),
        AllocError,
    >)
        requires
            old(arena).wf(),
            old(self).lives_in(old(arena)@),
        ensures
            final(arena).wf(),
            old(arena)@.keeps(final(arena)@),
            final(self).lives_in(final(arena)@),
            old(self).room_for(
                old(arena)@,
                n as int,
                result is Ok,
                final(self),
                final(arena)@,
            ),
            result is Ok ==> extended_with(old(self)@, n as int, value, final(self)@),
    {
        match self.reserve(n, arena) {
            Ok(()) => {},
            Err(error) => {
                return Err(error);
            },
        }
        if n == 0 {
            assert(self.elems@.take(self.elems@.len() as int) =~= self.elems@);
            return Ok(());
        }
        let ghost ptr = self.ptr;
        let ghost cap = self.cap;
        let ghost len = self.elems@.len();
        let mut i: usize = 0;
        while i < n - 1
            invariant
                i <= n - 1,
                self.wf(),
                self.ptr == ptr,
                self.cap == cap,
                len == old(self)@.len(),
                len + n <= self.spec_capacity(),
                self.elems@.len() == len + i,
                self.elems@.take(len as int) == old(self)@,
                forall|j: int| len <= j < len + i ==> cloned(value, #[trigger] self.elems@[j]),
            decreases n - i,
        {
            let ghost before = self.elems@;
            self.push_unchecked(value.clone());
            assert(self.elems@.take(len as int) =~= before.take(len as int));
            i = i + 1;
        }
        let ghost before = self.elems@;
        self.push_unchecked(value);
        assert(self.elems@.take(len as int) =~= before.take(len as int));
        Ok(())
    }

    /// Creates a duplicate of this array inside `arena`.
    ///
    /// Fails if the arena failed to allocate enough room.
    pub fn clone_in(&self, arena: &mut Arena) -> (result: Result<Vec<T>, AllocError>)
        requires
            old(arena).wf(),
        ensures
            final(arena).wf(),
            old(arena)@.keeps(final(arena)@),
            match result {
                Ok(vec) => {
                    &&& vec.lives_in(final(arena)@)
                    &&& vec.cap() == self@.len()
                    &&& all_cloned(self@, vec@)
                    &&& made_room::<T>(
                        old(arena)@,
                        self@.len() as usize,
                        Some(vec.ptr()),
                        final(arena)@,
                    )
                },
                Err(_) => made_room::<T>(
                    old(arena)@,
                    self@.len() as usize,
                    None,
                    final(arena)@,
                ),
            },
    {
        Vec::from_slice_in(self.elems.as_slice(), arena)
    }
}

/// `t` is `s` followed by `n` clones of `value`, the last of which is `value` itself.
pub open spec fn extended_with<T: Clone>(s: Seq<T>, n: int, value: T, t: Seq<T>) -> bool {
    &&& t.len() == s.len() + n
    &&& t.take(s.len() as int) == s
    &&& forall|i: int| s.len() <= i < s.len() + n - 1 ==> cloned(value, #[trigger] t[i])
    &&& n > 0 ==> t.last() == value
}

} // verus!

//! Making room in an array, and values that need it.
use crate::align::larger;
use crate::arena::Arena;
use crate::laws::{lemma_grown, lemma_shrunk};
use crate::layout::Layout;
use crate::raw::{lemma_allocated, ArenaView};
use crate::vec::{made_room, made_with_capacity, room_layout, AllocError, Vec};
use vstd::arithmetic::power2::is_pow2;
use vstd::prelude::*;

verus! {

impl<T> Vec<T> {
    /// Appends `value` to the back of this array.
    ///
    /// Fails if the arena failed to allocate enough room.
    pub fn push(&mut self, value: T, arena: &mut Arena) -> (result: Result<(), AllocError>)
        requires
            old(arena).wf(),
            old(self).lives_in(old(arena)@),
        ensures
            final(arena).wf(),
            old(arena)@.keeps(final(arena)@),
            final(self).lives_in(final(arena)@),
            old(self).room_for_one(old(arena)@, result is Ok, final(self), final(arena)@),
            result is Ok ==> final(self)@ == old(self)@.push(value),
    {
        if self.elems.len() == self.capacity() {
            match self.try_grow_one(arena) {
                Ok(()) => {},
                Err(error) => {
                    return Err(error);
                },
            }
        }
        self.push_unchecked(value);
        Ok(())
    }

    /// Appends `value` to the back of this array, which is not full.
    pub fn push_unchecked(&mut self, value: T)
        requires
            old(self).wf(),
            old(self)@.len() < old(self).spec_capacity(),
        ensures
            final(self).wf(),
            final(self)@ == old(self)@.push(value),
            final(self).ptr() == old(self).ptr(),
            final(self).cap() == old(self).cap(),
    {
        self.elems.push(value);
    }

    /// Attempts to grow this array by one. The growth is amortized.
    pub(crate) fn try_grow_one(&mut self, arena: &mut Arena) -> (result: Result<(), AllocError>)
        requires
            old(arena).wf(),
            old(self).lives_in(old(arena)@),
            old(self)@.len() == old(self).spec_capacity(),
        ensures
            final(arena).wf(),
            old(arena)@.keeps(final(arena)@),
            final(self).lives_in(final(arena)@),
            final(self)@ == old(self)@,
            old(self).room_for_one(old(arena)@, result is Ok, final(self), final(arena)@),
            result is Ok ==> final(self)@.len() < final(self).spec_capacity(),
    {
        if core::mem::size_of::<T>() == 0 {
            return Err(AllocError);
        }
        proof {
            lemma_room_bound::<T>(self.cap as int);
        }
        self.try_grow_unchecked(arena, self.cap * 2 + 1)
    }

    /// Reserves room for at least `additional` more elements.
    ///
    /// The array may reserve more to avoid frequent growth. Does nothing if there is room
    /// already. Fails if the arena failed to allocate enough room.
    pub fn reserve(&mut self, additional: usize, arena: &mut Arena) -> (result: Result<
        (),
        AllocError,
    >)
        requires
            old(arena).wf(),
            old(self).lives_in(old(arena)@),
        ensures
            final(arena).wf(),
            old(arena)@.keeps(final(arena)@),
            final(self).lives_in(final(arena)@),
            final(self)@ == old(self)@,
            old(self).room_for(
                old(arena)@,
                additional as int,
                result is Ok,
                final(self),
                final(arena)@,
            ),
            result is Ok ==> final(self)@.len() + additional <= final(self).spec_capacity(),
    {
        self.try_reserve(additional, arena)
    }

    /// Attempts to reserve room for at least `additional` more elements.
    ///
    /// The array may reserve more to avoid frequent growth. Does nothing if there is room
    /// already. Fails if the arena failed to allocate enough room.
    pub fn try_reserve(&mut self, additional: usize, arena: &mut Arena) -> (result: Result<
        (),
        AllocError,
    >)
        requires
            old(arena).wf(),
            old(self).lives_in(old(arena)@),
        ensures
            final(arena).wf(),
            old(arena)@.keeps(final(arena)@),
            final(self).lives_in(final(arena)@),
            final(self)@ == old(self)@,
            old(self).room_for(
                old(arena)@,
                additional as int,
                result is Ok,
                final(self),
                final(arena)@,
            ),
            result is Ok ==> final(self)@.len() + additional <= final(self).spec_capacity(),
    {
        if !self.needs_to_grow(additional) {
            return Ok(());
        }
        let needed = match self.elems.len().checked_add(additional) {
            Some(needed) => needed,
            None => {
                return Err(AllocError);
            },
        };
        proof {
            lemma_room_bound::<T>(self.cap as int);
        }
        let amortized: usize = self.cap * 2;
        if amortized >= needed {
            self.try_grow_unchecked(arena, amortized)
        } else {
            self.try_grow_unchecked(arena, needed)
        }
    }

    /// Reserves room for at least `additional` more elements, and no more than that.
    ///
    /// Does nothing if there is room already. Fails if the arena failed to allocate enough room.
    pub fn reserve_exact(&mut self, additional: usize, arena: &mut Arena) -> (result: Result<
        (),
        AllocError,
    >)
        requires
            old(arena).wf(),
            old(self).lives_in(old(arena)@),
        ensures
            final(arena).wf(),
            old(arena)@.keeps(final(arena)@),
            final(self).lives_in(final(arena)@),
            final(self)@ == old(self)@,
            old(self).exact_room_for(
                old(arena)@,
                additional as int,
                result is Ok,
                final(self),
                final(arena)@,
            ),
            result is Ok ==> final(self)@.len() + additional <= final(self).spec_capacity(),
    {
        self.try_reserve_exact(additional, arena)
    }

    /// Attempts to reserve room for at least `additional` more elements, and no more than that.
    ///
    /// Does nothing if there is room already. Fails if the arena failed to allocate enough room.
    pub fn try_reserve_exact(&mut self, additional: usize, arena: &mut Arena) -> (result: Result<
        (),
        AllocError,
    >)
        requires
            old(arena).wf(),
            old(self).lives_in(old(arena)@),
        ensures
            final(arena).wf(),
            old(arena)@.keeps(final(arena)@),
            final(self).lives_in(final(arena)@),
            final(self)@ == old(self)@,
            old(self).exact_room_for(
                old(arena)@,
                additional as int,
                result is Ok,
                final(self),
                final(arena)@,
            ),
            result is Ok ==> final(self)@.len() + additional <= final(self).spec_capacity(),
    {
        if !self.needs_to_grow(additional) {
            return Ok(());
        }
        match self.elems.len().checked_add(additional) {
            Some(needed) => self.try_grow_unchecked(arena, needed),
            None => Err(AllocError),
        }
    }

    /// Returns `true` if `additional` more elements can not fit into the remaining room.
    pub(crate) fn needs_to_grow(&self, additional: usize) -> (result: bool)
        requires
            self.wf(),
        ensures
            result == (self@.len() + additional > self.spec_capacity()),
    {
        additional > self.capacity() - self.elems.len()
    }

    /// Shrinks the room of this array to `capacity` elements, or to its length where that is
    /// more.
    pub fn shrink_to(&mut self, capacity: usize, arena: &mut Arena) -> (result: Result<
        (),
        AllocError,
    >)
        requires
            old(arena).wf(),
            old(self).lives_in(old(arena)@),
        ensures
            final(arena).wf(),
            final(self).lives_in(final(arena)@),
            final(self)@ == old(self)@,
            result is Ok,
            old(self).shrunk_room(
                old(arena)@,
                larger(capacity as int, old(self)@.len() as int),
                final(self),
                final(arena)@,
            ),
    {
        self.try_shrink_to(capacity, arena)
    }

    /// Attempts to shrink the room of this array to `capacity` elements, or to its length where
    /// that is more.
    pub fn try_shrink_to(&mut self, capacity: usize, arena: &mut Arena) -> (result: Result<
        (),
        AllocError,
    >)
        requires
            old(arena).wf(),
            old(self).lives_in(old(arena)@),
        ensures
            final(arena).wf(),
            final(self).lives_in(final(arena)@),
            final(self)@ == old(self)@,
            result is Ok,
            old(self).shrunk_room(
                old(arena)@,
                larger(capacity as int, old(self)@.len() as int),
                final(self),
                final(arena)@,
            ),
    {
        let least: usize = if capacity >= self.elems.len() {
            capacity
        } else {
            self.elems.len()
        };
        if self.capacity() > capacity && self.capacity() > least {
            self.try_shrink_unchecked(arena, least)
        } else {
            Ok(())
        }
    }

    /// Shrinks the room of this array as much as possible.
    pub fn shrink_to_fit(&mut self, arena: &mut Arena) -> (result: Result<(), AllocError>)
        requires
            old(arena).wf(),
            old(self).lives_in(old(arena)@),
        ensures
            final(arena).wf(),
            final(self).lives_in(final(arena)@),
            final(self)@ == old(self)@,
            result is Ok,
            old(self).shrunk_room(
                old(arena)@,
                old(self)@.len() as int,
                final(self),
                final(arena)@,
            ),
    {
        self.try_shrink_to_fit(arena)
    }

    /// Attempts to shrink the room of this array as much as possible.
    pub fn try_shrink_to_fit(&mut self, arena: &mut Arena) -> (result: Result<(), AllocError>)
        requires
            old(arena).wf(),
            old(self).lives_in(old(arena)@),
        ensures
            final(arena).wf(),
            final(self).lives_in(final(arena)@),
            final(self)@ == old(self)@,
            result is Ok,
            old(self).shrunk_room(
                old(arena)@,
                old(self)@.len() as int,
                final(self),
                final(arena)@,
            ),
    {
        let len = self.elems.len();
        if self.capacity() > len {
            self.try_shrink_unchecked(arena, len)
        } else {
            Ok(())
        }
    }

    /// Attempts to shrink the room of this array to `new_cap` elements.
    pub(crate) fn try_shrink_unchecked(&mut self, arena: &mut Arena, new_cap: usize) -> (result: Result<
        (),
        AllocError,
    >)
        requires
            old(arena).wf(),
            old(self).lives_in(old(arena)@),
            old(self)@.len() <= new_cap < old(self).spec_capacity(),
        ensures
            final(arena).wf(),
            final(self).lives_in(final(arena)@),
            final(self)@ == old(self)@,
            result is Ok,
            old(self).shrunk_room(old(arena)@, new_cap as int, final(self), final(arena)@),
    {
        let ghost v = arena@;
        proof {
            lemma_room_less::<T>(new_cap as int, self.cap as int);
        }
        let old_layout = self.calculate_layout();
        let new_layout = Layout::array::<T>(new_cap).unwrap();
        match arena.shrink(self.ptr, old_layout, new_layout) {
            Some(ptr) => {
                proof {
                    lemma_shrunk(v, self.ptr, old_layout, new_layout, ptr, arena@);
                }
                self.ptr = ptr;
                self.cap = new_cap;
                Ok(())
            },
            None => Err(AllocError),
        }
    }

    /// Moves all the elements of `other` into `self`, leaving `other` empty.
    ///
    /// Fails if the arena failed to allocate enough room.
    pub fn append(&mut self, other: &mut Vec<T>, arena: &mut Arena) -> (result: Result<
        (),
        AllocError,
    >)
        requires
            old(arena).wf(),
            old(self).lives_in(old(arena)@),
            old(other).wf(),
        ensures
            final(arena).wf(),
            old(arena)@.keeps(final(arena)@),
            final(self).lives_in(final(arena)@),
            final(other).wf(),
            final(other).ptr() == old(other).ptr(),
            final(other).cap() == old(other).cap(),
            old(self).room_for(
                old(arena)@,
                old(other)@.len() as int,
                result is Ok,
                final(self),
                final(arena)@,
            ),
            result is Ok ==> final(self)@ == old(self)@ + old(other)@ && final(other)@.len() == 0,
            result is Err ==> *final(other) == *old(other),
    {
        let len = other.elems.len();
        if len == 0 {
            assert(self@ + other@ =~= self@);
            return Ok(());
        }
        match self.reserve(len, arena) {
            Ok(()) => {
                self.elems.append(&mut other.elems);
                Ok(())
            },
            Err(error) => Err(error),
        }
    }

    /// Inserts an element at position `index`, shifting all elements after it to the right.
    ///
    /// Fails if the arena failed to allocate enough room.
    pub fn insert(&mut self, index: usize, value: T, arena: &mut Arena) -> (result: Result<
        (),
        AllocError,
    >)
        requires
            old(arena).wf(),
            old(self).lives_in(old(arena)@),
            index <= old(self)@.len(),
        ensures
            final(arena).wf(),
            old(arena)@.keeps(final(arena)@),
            final(self).lives_in(final(arena)@),
            old(self).room_for_one(old(arena)@, result is Ok, final(self), final(arena)@),
            result is Ok ==> final(self)@ == old(self)@.insert(index as int, value),
    {
        match self.insert_mut(index, value, arena) {
            Ok(_) => Ok(()),
            Err(error) => Err(error),
        }
    }

    /// Inserts an element at position `index`, shifting all elements after it to the right, and
    /// returns a reference to the new element.
    ///
    /// Fails if the arena failed to allocate enough room.
    pub fn insert_mut(&mut self, index: usize, value: T, arena: &mut Arena) -> (result: Result<
        &mut T,
        AllocError,
    >)
        requires
            old(arena).wf(),
            old(self).lives_in(old(arena)@),
            index <= old(self)@.len(),
        ensures
            final(arena).wf(),
            old(arena)@.keeps(final(arena)@),
            final(self).lives_in(final(arena)@),
            old(self).room_for_one(old(arena)@, result is Ok, final(self), final(arena)@),
            result matches Ok(element) ==> *element == value && final(self)@ == old(self)@.insert(
                index as int,
                *final(element),
            ),
    {
        if self.elems.len() == self.capacity() {
            match self.try_grow_one(arena) {
                Ok(()) => {},
                Err(error) => {
                    return Err(error);
                },
            }
        }
        self.elems.insert(index, value);
        Ok(&mut self.elems[index])
    }

    /// Splits the array into two at the given index.
    ///
    /// Returns a newly allocated array containing the elements from `at` on. This one is left
    /// with those before, its room unchanged. Fails if the arena failed to allocate enough room.
    pub fn split_off(&mut self, at: usize, arena: &mut Arena) -> (result: Result<
        Vec<T>,
        AllocError,
    >)
        requires
            old(arena).wf(),
            old(self).lives_in(old(arena)@),
            at <= old(self)@.len(),
        ensures
            final(arena).wf(),
            old(arena)@.keeps(final(arena)@),
            final(self).lives_in(final(arena)@),
            final(self).ptr() == old(self).ptr(),
            final(self).cap() == old(self).cap(),
            match result {
                Ok(other) => {
                    &&& final(self)@ == old(self)@.take(at as int)
                    &&& other@ == old(self)@.skip(at as int)
                    &&& other.lives_in(final(arena)@)
                    &&& other.cap() == old(self)@.len() - at
                    &&& made_room::<T>(
                        old(arena)@,
                        (old(self)@.len() - at) as usize,
                        Some(other.ptr()),
                        final(arena)@,
                    )
                },
                Err(_) => {
                    &&& *final(self) == *old(self)
                    &&& made_room::<T>(
                        old(arena)@,
                        (old(self)@.len() - at) as usize,
                        None,
                        final(arena)@,
                    )
                },
            },
    {
        let ghost v = arena@;
        let other_len: usize = self.elems.len() - at;
        let made: Result<Vec<T>, AllocError> = Vec::with_capacity_in(other_len, arena);
        proof {
            lemma_still_placed::<T>(v, other_len, made, arena@);
        }
        match made {
            Ok(other) => {
                let mut other = other;
                other.elems = self.elems.split_off(at);
                assert(self.elems@ =~= old(self)@.take(at as int));
                assert(other.elems@ =~= old(self)@.skip(at as int));
                Ok(other)
            },
            Err(error) => Err(error),
        }
    }

    /// Resizes the array so that its length is equal to `new_len`.
    ///
    /// If `new_len` is greater than the length, the array is extended with results of calling
    /// the closure `f`, in the order they have been generated. If it is less, the array is
    /// truncated. Fails if the arena failed to allocate enough room.
    pub fn resize_with<F>(&mut self, new_len: usize, f: F, arena: &mut Arena) -> (result: Result<
        (),
        AllocError,
    >)
        where
            F: FnMut() -> T,
        requires
            old(arena).wf(),
            old(self).lives_in(old(arena)@),
            f.requires(()),
        ensures
            final(arena).wf(),
            old(arena)@.keeps(final(arena)@),
            final(self).lives_in(final(arena)@),
            new_len <= old(self)@.len() ==> {
                &&& result is Ok
                &&& old(self).kept(old(arena)@, final(self), final(arena)@)
                &&& final(self)@ == old(self)@.take(new_len as int)
            },
            new_len > old(self)@.len() ==> {
                &&& old(self).room_for(
                    old(arena)@,
                    new_len - old(self)@.len(),
                    result is Ok,
                    final(self),
                    final(arena)@,
                )
                &&& result is Ok ==> {
                    &&& final(self)@.len() == new_len
                    &&& final(self)@.take(old(self)@.len() as int) == old(self)@
                    &&& forall|i: int|
                        old(self)@.len() <= i < new_len ==> f.ensures(
                            (),
                            #[trigger] final(self)@[i],
                        )
                }
            },
    {
        let len = self.elems.len();
        if new_len <= len {
            self.truncate(new_len);
            assert(self.elems@ =~= old(self)@.take(new_len as int));
            return Ok(());
        }
        match self.reserve(new_len - len, arena) {
            Ok(()) => {},
            Err(error) => {
                return Err(error);
            },
        }
        let ghost given = f;
        let ghost ptr = self.ptr;
        let ghost cap = self.cap;
        let mut f = f;
        while self.elems.len() < new_len
            invariant
                f == given,
                f.requires(()),
                len == old(self)@.len(),
                len <= self.elems@.len() <= new_len,
                self.wf(),
                self.ptr == ptr,
                self.cap == cap,
                new_len <= self.spec_capacity(),
                self.elems@.take(len as int) == old(self)@,
                forall|i: int|
                    len <= i < self.elems@.len() ==> f.ensures((), #[trigger] self.elems@[i]),
            decreases new_len - self.elems@.len(),
        {
            let ghost before = self.elems@;
            self.push_unchecked(f());
            assert(self.elems@.take(len as int) =~= before.take(len as int));
        }
        Ok(())
    }

    /// Attempts to grow this array to `new_cap` capacity.
    pub(crate) fn try_grow_unchecked(&mut self, arena: &mut Arena, new_cap: usize) -> (result: Result<
        (),
        AllocError,
    >)
        requires
            old(arena).wf(),
            old(self).lives_in(old(arena)@),
            old(self).cap() <= new_cap,
        ensures
            final(arena).wf(),
            old(arena)@.keeps(final(arena)@),
            final(self).lives_in(final(arena)@),
            final(self)@ == old(self)@,
            old(self).room(
                old(arena)@,
                new_cap as int,
                result is Ok,
                final(self),
                final(arena)@,
            ),
    {
        let ghost v = arena@;
        let new_layout = match Layout::array::<T>(new_cap) {
            Ok(layout) => layout,
            Err(_) => {
                return Err(AllocError);
            },
        };
        let result = if self.cap == 0 {
            arena.try_alloc_layout(new_layout)
        } else {
            let old_layout = self.calculate_layout();
            proof {
                lemma_room_order::<T>(self.cap as int, new_cap as int);
            }
            arena.grow(self.ptr, old_layout, new_layout)
        };
        match result {
            Some(ptr) => {
                proof {
                    if self.cap == 0 {
                        lemma_allocated(v, new_layout, ptr, arena@);
                    } else {
                        lemma_grown(
                            v,
                            self.ptr,
                            room_layout::<T>(self.cap as int)->0,
                            new_layout,
                            ptr,
                            arena@,
                        );
                    }
                }
                self.ptr = ptr;
                self.cap = new_cap;
                Ok(())
            },
            None => Err(AllocError),
        }
    }
}

/// What was taken before new room was asked for stays taken.
proof fn lemma_still_placed<T>(
    v: ArenaView,
    cap: usize,
    result: Result<Vec<T>, AllocError>,
    w: ArenaView,
)
    requires
        v.sound(),
        w.sound(),
        made_with_capacity(v, cap, result, w),
    ensures
        forall|a: int, n: int| v.placed(a, n) ==> #[trigger] w.placed(a, n),
        result is Err ==> w == v,
{
    if let Ok(vec) = result {
        if cap > 0 {
            lemma_allocated(v, room_layout::<T>(cap as int)->0, vec.ptr(), w);
        }
    }
}

/// Twice the room and one value more can be counted.
proof fn lemma_room_bound<T>(cap: int)
    requires
        vstd::layout::size_of::<T>() > 0,
        room_layout::<T>(cap) is Some,
    ensures
        2 * cap + 1 <= usize::MAX,
{
    let size = vstd::layout::size_of::<T>();
    assert(cap <= cap * size) by (nonlinear_arith)
        requires
            0 <= cap,
            1 <= size,
    ;
    reveal(is_pow2);
}

/// Less room can exist where more can, and is no larger.
proof fn lemma_room_less<T>(few: int, many: int)
    requires
        0 <= few,
        room_layout::<T>(many) is Some,
        vstd::layout::size_of::<T>() == 0 || few <= many,
        few <= usize::MAX,
    ensures
        room_layout::<T>(few) is Some,
        room_layout::<T>(few)->0.size <= room_layout::<T>(many)->0.size,
        room_layout::<T>(few)->0.align == room_layout::<T>(many)->0.align,
{
    let size = vstd::layout::size_of::<T>();
    if size == 0 {
        assert(few * size == 0 && many * size == 0) by (nonlinear_arith)
            requires
                size == 0,
        ;
    } else {
        assert(0 <= few * size <= many * size) by (nonlinear_arith)
            requires
                0 <= few <= many,
                0 <= size,
        ;
    }
}

/// Room for more values is larger.
proof fn lemma_room_order<T>(few: int, many: int)
    requires
        few <= many,
        room_layout::<T>(few) is Some,
        room_layout::<T>(many) is Some,
    ensures
        room_layout::<T>(few)->0.size <= room_layout::<T>(many)->0.size,
        room_layout::<T>(few)->0.align == room_layout::<T>(many)->0.align,
        room_layout::<T>(few)->0.valid(),
{
    let size = vstd::layout::size_of::<T>();
    assert(few * size <= many * size) by (nonlinear_arith)
        requires
            few <= many,
            0 <= size,
    ;
}

} // verus!

//! A growable array that lives inside an arena.
use crate::align::larger;
use crate::arena::Arena;
use crate::boxed::Box;
use crate::layout::{array_layout, Layout};
use crate::raw::ArenaView;
use crate::slot::{boxed_slice, unboxed_slice, Slot};
use crate::vec::spare::held;
use vstd::arithmetic::power2::is_pow2;
use vstd::prelude::*;

pub mod clones;
pub mod collect;
pub mod drain;
pub mod edit;
pub mod grow;
pub mod into_iter;
pub mod laws;
pub mod range;
pub mod spare;
pub mod splice;
mod traits;

pub use crate::error::AllocError;
pub use crate::vec::collect::{CollectIn, FromIteratorIn};
pub use crate::vec::range::{range, Bound, Range};
pub use crate::vec::spare::Place;

verus! {

/// The layout of room for `cap` values of type `T`, where there can be so many.
pub open spec fn room_layout<T>(cap: int) -> Option<Layout> {
    if 0 <= cap <= usize::MAX {
        array_layout::<T>(cap as nat)
    } else {
        None
    }
}

/// `w` is the state of the arena after room for `new_cap` values was asked for in place of the
/// room for `cap` values at `ptr`, and `result` given.
pub open spec fn regrown<T>(
    v: ArenaView,
    ptr: usize,
    cap: usize,
    new_cap: int,
    result: Option<usize>,
    w: ArenaView,
) -> bool {
    match room_layout::<T>(new_cap) {
        Some(layout) => if cap == 0 {
            v.allocated(layout, result, w)
        } else {
            v.grown(ptr, room_layout::<T>(cap as int)->0, layout, result, w)
        },
        None => result is None && w == v,
    }
}

/// A contiguous growable array, living inside an [`Arena`].
///
/// Methods that may need more room take the arena, and report where it has no memory. Growing
/// takes a fresh allocation inside the arena, or extends the current one where that is the last.
/// The values are dropped with the array, its room is not given back.
pub struct Vec<T> {
    /// Address of the room.
    ptr: usize,
    /// How many values the room is for.
    cap: usize,
    /// The values.
    elems: std::vec::Vec<T>,
    /// What was put in the room after the values.
    spare: std::vec::Vec<Place<T>>,
}

impl<T> View for Vec<T> {
    type V = Seq<T>;

    closed spec fn view(&self) -> Seq<T> {
        self.elems@
    }
}

impl<T> Vec<T> {
    /// Address of the room.
    pub closed spec fn ptr(&self) -> usize {
        self.ptr
    }

    /// How many values the room is for.
    pub closed spec fn cap(&self) -> usize {
        self.cap
    }

    /// What was put in the room after the values, where that is known: `None` where nothing was.
    pub closed spec fn spare(&self) -> Seq<Option<T>> {
        held(self.spare@)
    }

    /// What is in the room: the values, and what was put after them.
    pub open spec fn contents(&self) -> Seq<Option<T>> {
        self@.map_values(|value: T| Some(value)) + self.spare()
    }

    /// It is known what was put in the room after the values.
    pub open spec fn knows_spare(&self) -> bool {
        self.spare().len() == self.spec_capacity() - self@.len()
    }

    /// How many values there can be without growing: any number of values of no size.
    pub open spec fn spec_capacity(&self) -> usize {
        if vstd::layout::size_of::<T>() == 0 {
            usize::MAX
        } else {
            self.cap()
        }
    }

    /// The room is one that can exist, is aligned, and has place for the values.
    pub open spec fn wf(&self) -> bool {
        &&& self@.len() <= self.spec_capacity()
        &&& room_layout::<T>(self.cap() as int) is Some
        &&& self.ptr() as int % vstd::layout::align_of::<T>() as int == 0
    }

    /// The room is taken in the arena.
    pub open spec fn lives_in(&self, v: ArenaView) -> bool {
        &&& self.wf()
        &&& v.placed(self.ptr() as int, room_layout::<T>(self.cap() as int)->0.size as int)
    }

    /// `new` has the room of this array, and the arena stays as it is.
    pub open spec fn kept(&self, v: ArenaView, new: &Vec<T>, w: ArenaView) -> bool {
        &&& new.ptr() == self.ptr()
        &&& new.cap() == self.cap()
        &&& w == v
    }

    /// `new` has room for `new_cap` values where there is memory for that, else it is this array.
    pub open spec fn room(
        &self,
        v: ArenaView,
        new_cap: int,
        granted: bool,
        new: &Vec<T>,
        w: ArenaView,
    ) -> bool {
        if granted {
            &&& new.cap() == new_cap
            &&& regrown::<T>(v, self.ptr(), self.cap(), new_cap, Some(new.ptr()), w)
        } else {
            &&& new == self
            &&& regrown::<T>(v, self.ptr(), self.cap(), new_cap, None, w)
        }
    }

    /// `new` has room for one value more: that of this array where it is not full.
    pub open spec fn room_for_one(
        &self,
        v: ArenaView,
        granted: bool,
        new: &Vec<T>,
        w: ArenaView,
    ) -> bool {
        if self@.len() < self.spec_capacity() {
            granted && self.kept(v, new, w)
        } else if vstd::layout::size_of::<T>() == 0 {
            !granted && new == self && w == v
        } else {
            self.room(v, 2 * self.cap() + 1, granted, new, w)
        }
    }

    /// `new` has room for `additional` values more: that of this array where it does, else at
    /// least twice as much.
    pub open spec fn room_for(
        &self,
        v: ArenaView,
        additional: int,
        granted: bool,
        new: &Vec<T>,
        w: ArenaView,
    ) -> bool {
        if self@.len() + additional <= self.spec_capacity() {
            granted && self.kept(v, new, w)
        } else {
            self.room(v, larger(2 * self.cap(), self@.len() + additional), granted, new, w)
        }
    }

    /// `new` has room for `additional` values more: that of this array where it does, else no
    /// more than that.
    pub open spec fn exact_room_for(
        &self,
        v: ArenaView,
        additional: int,
        granted: bool,
        new: &Vec<T>,
        w: ArenaView,
    ) -> bool {
        if self@.len() + additional <= self.spec_capacity() {
            granted && self.kept(v, new, w)
        } else {
            self.room(v, self@.len() + additional, granted, new, w)
        }
    }

    /// `new` has room for `new_cap` values where this array has room for more, else the room of
    /// this array.
    pub open spec fn shrunk_room(
        &self,
        v: ArenaView,
        new_cap: int,
        new: &Vec<T>,
        w: ArenaView,
    ) -> bool {
        if new_cap < self.spec_capacity() {
            &&& new.cap() == new_cap
            &&& v.shrunk(
                self.ptr(),
                room_layout::<T>(self.cap() as int)->0,
                room_layout::<T>(new_cap)->0,
                Some(new.ptr()),
                w,
            )
        } else {
            self.kept(v, new, w)
        }
    }

    /// Constructs a new, empty array.
    ///
    /// The array will not allocate until elements are pushed onto it.
    pub fn new_in(arena: &Arena) -> (vec: Vec<T>)
        ensures
            vec@ == Seq::<T>::empty(),
            vec.cap() == 0,
            vec.ptr() == vstd::layout::align_of::<T>(),
            vec.lives_in(arena@),
    {
        let layout = Layout::new::<T>();
        proof {
            lemma_no_room::<T>(layout);
        }
        Vec::empty_at(layout.align, 0)
    }

    /// An array without values, with room for `cap` of them at `ptr`.
    fn empty_at(ptr: usize, cap: usize) -> (vec: Vec<T>)
        ensures
            vec@ == Seq::<T>::empty(),
            vec.ptr() == ptr,
            vec.cap() == cap,
    {
        Vec { ptr, cap, elems: std::vec::Vec::new(), spare: std::vec::Vec::new() }
    }

    /// Returns the number of elements in the array.
    pub fn len(&self) -> (len: usize)
        ensures
            len == self@.len(),
    {
        self.elems.len()
    }

    /// Returns `true` if the array contains no elements.
    pub fn is_empty(&self) -> (result: bool)
        ensures
            result == (self@.len() == 0),
    {
        self.elems.len() == 0
    }

    /// Returns the total number of elements the array can hold without growing.
    pub fn capacity(&self) -> (capacity: usize)
        ensures
            capacity == self.spec_capacity(),
    {
        if core::mem::size_of::<T>() == 0 {
            usize::MAX
        } else {
            self.cap
        }
    }

    /// Constructs a new, empty array inside `arena` with room for `capacity` elements.
    ///
    /// If `capacity` is zero, the array will not allocate. Fails if the arena failed to allocate
    /// enough room.
    pub fn with_capacity_in(capacity: usize, arena: &mut Arena) -> (result: Result<
        Vec<T>,
        AllocError,
    >)
        requires
            old(arena).wf(),
        ensures
            final(arena).wf(),
            old(arena)@.keeps(final(arena)@),
            made_with_capacity(old(arena)@, capacity, result, final(arena)@),
    {
        Vec::try_with_capacity_in(capacity, arena)
    }

    /// Attempts to construct a new, empty array inside `arena` with room for `capacity` elements.
    ///
    /// If `capacity` is zero, the array will not allocate. Fails if the arena failed to allocate
    /// enough room.
    pub fn try_with_capacity_in(capacity: usize, arena: &mut Arena) -> (result: Result<
        Vec<T>,
        AllocError,
    >)
        requires
            old(arena).wf(),
        ensures
            final(arena).wf(),
            old(arena)@.keeps(final(arena)@),
            made_with_capacity(old(arena)@, capacity, result, final(arena)@),
    {
        if capacity == 0 {
            Ok(Vec::new_in(arena))
        } else {
            match Vec::try_alloc_in(capacity, arena) {
                Some(vec) => Ok(vec),
                None => Err(AllocError),
            }
        }
    }

    /// Attempts to create a new array with room for `capacity` elements.
    fn try_alloc_in(capacity: usize, arena: &mut Arena) -> (result: Option<Vec<T>>)
        requires
            old(arena).wf(),
            capacity > 0,
        ensures
            final(arena).wf(),
            old(arena)@.keeps(final(arena)@),
            match result {
                Some(vec) => made_with_capacity(old(arena)@, capacity, Ok(vec), final(arena)@),
                None => made_with_capacity::<T>(
                    old(arena)@,
                    capacity,
                    Err(AllocError),
                    final(arena)@,
                ),
            },
    {
        match Layout::array::<T>(capacity) {
            Ok(layout) => match arena.try_alloc_layout(layout) {
                Some(ptr) => Some(Vec::empty_at(ptr, capacity)),
                None => None,
            },
            Err(_) => None,
        }
    }

    /// Creates an array from the slot its values are in, their number, and how many there is
    /// room for.
    pub fn from_raw_parts_in(slot: Slot<[T]>, len: usize, cap: usize, arena: &Arena) -> (vec: Vec<
        T,
    >)
        requires
            len == slot.val()@.len(),
            vstd::layout::size_of::<T>() == 0 || len <= cap,
            room_layout::<T>(cap as int) is Some,
            slot.ptr() as int % vstd::layout::align_of::<T>() as int == 0,
            arena@.placed(slot.ptr() as int, room_layout::<T>(cap as int)->0.size as int),
        ensures
            vec@ == slot.val()@,
            vec.ptr() == slot.ptr(),
            vec.cap() == cap,
            vec.lives_in(arena@),
    {
        let (ptr, values) = slot.into_parts();
        let elems = unboxed_slice(values);
        Vec { ptr, cap, elems, spare: std::vec::Vec::new() }
    }

    /// Decomposes this array into the slot its values are in, their number, and how many there
    /// is room for.
    pub fn into_raw_parts_with_arena(self) -> (parts: (Slot<[T]>, usize, usize))
        ensures
            parts.0.val()@ == self@,
            parts.0.ptr() == self.ptr(),
            parts.1 == self@.len(),
            parts.2 == self.cap(),
    {
        let len = self.elems.len();
        (Slot::new(self.ptr, boxed_slice(self.elems)), len, self.cap)
    }

    /// Converts this array into a box.
    pub fn into_boxed_slice(self) -> (boxed: Box<[T]>)
        ensures
            boxed.val()@ == self@,
            boxed.ptr() == self.ptr(),
    {
        Box::from_raw(Slot::new(self.ptr, boxed_slice(self.elems)))
    }

    /// Converts this array into a slot holding its contents.
    pub fn into_slice(self) -> (slot: Slot<[T]>)
        ensures
            slot.val()@ == self@,
            slot.ptr() == self.ptr(),
    {
        Slot::new(self.ptr, boxed_slice(self.elems))
    }

    /// Drops the contents of this array and gives its room back, which is free again where it
    /// is the last in the arena.
    pub fn dealloc(self, arena: &mut Arena)
        requires
            old(arena).wf(),
            self.lives_in(old(arena)@),
        ensures
            final(arena).wf(),
            final(arena)@ == old(arena)@.released(
                self.ptr(),
                room_layout::<T>(self.cap() as int)->0,
            ),
    {
        let layout = self.calculate_layout();
        arena.dealloc(self.ptr, layout);
    }

    /// Returns the address of the room owned by this array.
    pub fn as_ptr(&self) -> (ptr: usize)
        ensures
            ptr == self.ptr(),
    {
        self.ptr
    }

    /// Returns the address of the room owned by this array.
    pub fn as_mut_ptr(&mut self) -> (ptr: usize)
        ensures
            ptr == old(self).ptr(),
            *final(self) == *old(self),
    {
        self.ptr
    }

    /// Extracts a slice containing the entire array.
    pub fn as_slice(&self) -> (slice: &[T])
        ensures
            slice@ == self@,
    {
        self.elems.as_slice()
    }

    /// Extracts a mutable slice of the entire array.
    pub fn as_mut_slice(&mut self) -> (slice: &mut [T])
        ensures
            slice@ == old(self)@,
            final(self)@ == final(slice)@,
            final(self).ptr() == old(self).ptr(),
            final(self).cap() == old(self).cap(),
    {
        self.elems.as_mut_slice()
    }

    /// Calculates the layout of the room this array is currently owning.
    pub(crate) fn calculate_layout(&self) -> (layout: Layout)
        requires
            self.wf(),
        ensures
            Some(layout) == room_layout::<T>(self.cap() as int),
            layout.valid(),
            layout.align == vstd::layout::align_of::<T>(),
    {
        Layout::array::<T>(self.cap).unwrap()
    }
}

/// Room for `cap` values was asked for, and `result` given: no room is always to be had.
pub open spec fn made_room<T>(
    v: ArenaView,
    cap: usize,
    result: Option<usize>,
    w: ArenaView,
) -> bool {
    if cap == 0 {
        result == Some(vstd::layout::align_of::<T>() as usize) && w == v
    } else {
        match room_layout::<T>(cap as int) {
            Some(layout) => v.allocated(layout, result, w) && (v.too_large(layout) ==> result
                is None),
            None => result is None && w == v,
        }
    }
}

/// An empty array with room for `cap` values was asked for, and `result` given.
pub open spec fn made_with_capacity<T>(
    v: ArenaView,
    cap: usize,
    result: Result<Vec<T>, AllocError>,
    w: ArenaView,
) -> bool {
    match result {
        Ok(vec) => {
            &&& vec@.len() == 0
            &&& vec.cap() == cap
            &&& vec.lives_in(w)
            &&& made_room::<T>(v, cap, Some(vec.ptr()), w)
        },
        Err(_) => made_room::<T>(v, cap, None, w),
    }
}

/// No room is a layout of no size.
proof fn lemma_no_room<T>(layout: Layout)
    requires
        layout.valid(),
        layout.align == vstd::layout::align_of::<T>(),
    ensures
        room_layout::<T>(0) == Some(Layout { size: 0, align: layout.align }),
        layout.align as int % layout.align as int == 0,
{
    reveal(is_pow2);
    assert(0 * vstd::layout::size_of::<T>() == 0);
    vstd::arithmetic::div_mod::lemma_mod_self_0(layout.align as int);
}

} // verus!

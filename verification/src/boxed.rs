//! Allocations that drop their value.
use crate::arena::{all_cloned, box_ptr, granted, slot_ptr, Arena};
use crate::error::AllocError;
use crate::layout::{array_layout, bytes_layout, layout_of};
use crate::raw::ArenaView;
use crate::slot::{boxed_slice, unboxed_slice, Slot};
use std::ops::{Deref, DerefMut};
use vstd::prelude::*;
use vstd::std_specs::cmp::{
    PartialEqSpec, PartialEqSpecImpl, PartialOrdSpec, PartialOrdSpecImpl,
};
use vstd::utf8::encode_utf8;

verus! {

/// A wrapper on top of some arena allocation that drops its value.
///
/// Box owns its allocation. Unboxing a box turns it back to a slot, whose value is not dropped.
pub struct Box<T: ?Sized> {
    /// Address of the allocation.
    ptr: usize,
    /// The value it was made for.
    value: std::boxed::Box<T>,
}

impl<T: ?Sized> Box<T> {
    /// Address of the allocation.
    pub closed spec fn ptr(&self) -> usize {
        self.ptr
    }

    /// The value it was made for.
    pub closed spec fn val(&self) -> &T {
        &*self.value
    }

    /// Deconstructs this box into its allocation.
    pub fn into_raw(self) -> (slot: Slot<T>)
        ensures
            slot.ptr() == self.ptr(),
            slot.val() == self.val(),
    {
        Slot::new(self.ptr, self.value)
    }

    /// Constructs a new box from its allocation.
    pub fn from_raw(slot: Slot<T>) -> (boxed: Box<T>)
        ensures
            boxed.ptr() == slot.ptr(),
            boxed.val() == slot.val(),
    {
        let (ptr, value) = slot.into_parts();
        Box { ptr, value }
    }

    /// Unboxes the value of this box, consuming it.
    ///
    /// Creating a boxed allocation and unboxing it is the same as a plain allocation.
    pub fn unbox(self) -> (slot: Slot<T>)
        ensures
            slot.ptr() == self.ptr(),
            slot.val() == self.val(),
    {
        self.into_raw()
    }

    /// Returns the address of the value.
    pub fn as_ptr(&self) -> (ptr: usize)
        ensures
            ptr == self.ptr(),
    {
        self.ptr
    }

    /// Returns the address of the value.
    pub fn as_mut_ptr(&mut self) -> (ptr: usize)
        ensures
            ptr == old(self).ptr(),
            *final(self) == *old(self),
    {
        self.ptr
    }

    /// Returns a reference to the value.
    pub fn as_ref(&self) -> (value: &T)
        ensures
            value == self.val(),
    {
        &*self.value
    }

    /// Returns an exclusive reference to the value.
    pub fn as_mut(&mut self) -> (value: &mut T)
        ensures
            &*value == old(self).val(),
            &*final(value) == final(self).val(),
            final(self).ptr() == old(self).ptr(),
    {
        &mut *self.value
    }
}

impl<T> Box<Option<T>> {
    /// Converts a box that may hold no value yet to one of the value.
    pub fn assume_init(self) -> (boxed: Box<T>)
        requires
            self.val() is Some,
        ensures
            boxed.ptr() == self.ptr(),
            Some(*boxed.val()) == *self.val(),
    {
        let value = *self.value;
        Box { ptr: self.ptr, value: std::boxed::Box::new(value.unwrap()) }
    }
}

impl<T> Box<[Option<T>]> {
    /// Converts a box of elements that may hold no value yet to one of the values.
    pub fn assume_init(self) -> (boxed: Box<[T]>)
        requires
            forall|i: int| 0 <= i < self.val()@.len() ==> #[trigger] self.val()@[i] is Some,
        ensures
            boxed.ptr() == self.ptr(),
            boxed.val()@.len() == self.val()@.len(),
            forall|i: int|
                0 <= i < self.val()@.len() ==> Some(#[trigger] boxed.val()@[i]) == self.val()@[i],
    {
        let ghost whole = self.val()@;
        let options = unboxed_slice(self.value);
        let mut values: std::vec::Vec<T> = std::vec::Vec::new();
        for value in it: options
            invariant
                it.seq() == whole,
                values@.len() == it.index(),
                forall|i: int| 0 <= i < whole.len() ==> #[trigger] whole[i] is Some,
                forall|i: int| 0 <= i < values@.len() ==> Some(#[trigger] values@[i]) == whole[i],
        {
            values.push(value.unwrap());
        }
        Box { ptr: self.ptr, value: boxed_slice(values) }
    }
}

/// A trait that allows explicit creation of a duplicate value inside an [`Arena`].
pub trait CloneIn {
    /// What the duplicate is held by.
    type Cloned;

    /// A duplicate of `self` was to be allocated in the arena in state `v`, and `result` given:
    /// what it is, and what it takes.
    spec fn clones(
        &self,
        v: ArenaView,
        result: Result<Self::Cloned, AllocError>,
        w: ArenaView,
    ) -> bool;

    /// Allocates a duplicate of `self` inside `arena`.
    ///
    /// Fails if the global allocator failed to allocate enough memory.
    fn clone_in(&self, arena: &mut Arena) -> (result: Result<Self::Cloned, AllocError>)
        requires
            old(arena).wf(),
        ensures
            final(arena).wf(),
            old(arena)@.keeps(final(arena)@),
            self.clones(old(arena)@, result, final(arena)@),
    ;
}

impl<T: Clone> CloneIn for Box<T> {
    type Cloned = Box<T>;

    open spec fn clones(
        &self,
        v: ArenaView,
        result: Result<Box<T>, AllocError>,
        w: ArenaView,
    ) -> bool {
        &&& v.maybe_allocated(Some(layout_of::<T>()), box_ptr(granted(result)), w)
        &&& result matches Ok(value) ==> cloned(*self.val(), *value.val())
    }

    fn clone_in(&self, arena: &mut Arena) -> (result: Result<Box<T>, AllocError>)
        ensures
            old(arena)@.maybe_allocated(
                Some(layout_of::<T>()),
                box_ptr(granted(result)),
                final(arena)@,
            ),
            result matches Ok(value) ==> cloned(*self.val(), *value.val()),
    {
        arena.alloc_boxed((*self.value).clone())
    }
}

impl<T: Clone> CloneIn for Box<[T]> {
    type Cloned = Box<[T]>;

    open spec fn clones(
        &self,
        v: ArenaView,
        result: Result<Box<[T]>, AllocError>,
        w: ArenaView,
    ) -> bool {
        &&& v.maybe_allocated(array_layout::<T>(self.val()@.len()), box_ptr(granted(result)), w)
        &&& result matches Ok(value) ==> all_cloned(self.val()@, value.val()@)
    }

    fn clone_in(&self, arena: &mut Arena) -> (result: Result<Box<[T]>, AllocError>)
        ensures
            old(arena)@.maybe_allocated(
                array_layout::<T>(self.val()@.len()),
                box_ptr(granted(result)),
                final(arena)@,
            ),
            result matches Ok(value) ==> all_cloned(self.val()@, value.val()@),
    {
        arena.alloc_slice_cloned_boxed(&*self.value)
    }
}

impl CloneIn for Box<str> {
    type Cloned = Box<str>;

    open spec fn clones(
        &self,
        v: ArenaView,
        result: Result<Box<str>, AllocError>,
        w: ArenaView,
    ) -> bool {
        &&& v.maybe_allocated(bytes_layout(encode_utf8(self.val()@).len()), box_ptr(granted(result)), w)
        &&& result matches Ok(value) ==> value.val()@ == self.val()@
    }

    fn clone_in(&self, arena: &mut Arena) -> (result: Result<Box<str>, AllocError>)
        ensures
            old(arena)@.maybe_allocated(
                bytes_layout(encode_utf8(self.val()@).len()),
                box_ptr(granted(result)),
                final(arena)@,
            ),
            result matches Ok(value) ==> value.val()@ == self.val()@,
    {
        arena.alloc_str_copied_boxed(&*self.value)
    }
}

impl<T: Clone> CloneIn for T {
    type Cloned = Slot<T>;

    open spec fn clones(
        &self,
        v: ArenaView,
        result: Result<Slot<T>, AllocError>,
        w: ArenaView,
    ) -> bool {
        &&& v.maybe_allocated(Some(layout_of::<T>()), slot_ptr(granted(result)), w)
        &&& result matches Ok(value) ==> cloned(*self, *value.val())
    }

    fn clone_in(&self, arena: &mut Arena) -> (result: Result<Slot<T>, AllocError>)
        ensures
            old(arena)@.maybe_allocated(
                Some(layout_of::<T>()),
                slot_ptr(granted(result)),
                final(arena)@,
            ),
            result matches Ok(value) ==> cloned(*self, *value.val()),
    {
        arena.alloc_value(self.clone())
    }
}

impl<T: Clone> CloneIn for [T] {
    type Cloned = Slot<[T]>;

    open spec fn clones(
        &self,
        v: ArenaView,
        result: Result<Slot<[T]>, AllocError>,
        w: ArenaView,
    ) -> bool {
        &&& v.maybe_allocated(array_layout::<T>(self@.len()), slot_ptr(granted(result)), w)
        &&& result matches Ok(value) ==> all_cloned(self@, value.val()@)
    }

    fn clone_in(&self, arena: &mut Arena) -> (result: Result<Slot<[T]>, AllocError>)
        ensures
            old(arena)@.maybe_allocated(
                array_layout::<T>(self@.len()),
                slot_ptr(granted(result)),
                final(arena)@,
            ),
            result matches Ok(value) ==> all_cloned(self@, value.val()@),
    {
        arena.alloc_slice_cloned(self)
    }
}

impl CloneIn for str {
    type Cloned = Slot<str>;

    open spec fn clones(
        &self,
        v: ArenaView,
        result: Result<Slot<str>, AllocError>,
        w: ArenaView,
    ) -> bool {
        &&& v.maybe_allocated(bytes_layout(encode_utf8(self@).len()), slot_ptr(granted(result)), w)
        &&& result matches Ok(value) ==> value.val()@ == self@
    }

    fn clone_in(&self, arena: &mut Arena) -> (result: Result<Slot<str>, AllocError>)
        ensures
            old(arena)@.maybe_allocated(
                bytes_layout(encode_utf8(self@).len()),
                slot_ptr(granted(result)),
                final(arena)@,
            ),
            result matches Ok(value) ==> value.val()@ == self@,
    {
        arena.alloc_str_copied(self)
    }
}

impl<T: ?Sized> Deref for Box<T> {
    type Target = T;

    fn deref(&self) -> (value: &T)
        ensures
            value == self.val(),
    {
        &*self.value
    }
}

impl<T: ?Sized> DerefMut for Box<T> {
    fn deref_mut(&mut self) -> (value: &mut T)
        ensures
            &*value == old(self).val(),
            &*final(value) == final(self).val(),
            final(self).ptr() == old(self).ptr(),
    {
        &mut *self.value
    }
}

impl<T: ?Sized + PartialEq> PartialEq for Box<T> {
    fn eq(&self, other: &Self) -> (result: bool)
        ensures
            call_ensures(T::eq, (self.val(), other.val()), result),
    {
        (*self.value).eq(&*other.value)
    }
}

impl<T: ?Sized + PartialEq> PartialEqSpecImpl for Box<T> {
    open spec fn obeys_eq_spec() -> bool {
        T::obeys_eq_spec()
    }

    open spec fn eq_spec(&self, other: &Self) -> bool {
        self.val().eq_spec(other.val())
    }
}

impl<T: ?Sized + Eq> Eq for Box<T> {

}

impl<T: ?Sized + PartialOrd> PartialOrd for Box<T> {
    fn partial_cmp(&self, other: &Self) -> (result: Option<std::cmp::Ordering>)
        ensures
            call_ensures(T::partial_cmp, (self.val(), other.val()), result),
    {
        (*self.value).partial_cmp(&*other.value)
    }
}

impl<T: ?Sized + PartialOrd> PartialOrdSpecImpl for Box<T> {
    open spec fn obeys_partial_cmp_spec() -> bool {
        T::obeys_partial_cmp_spec()
    }

    open spec fn partial_cmp_spec(&self, other: &Self) -> Option<std::cmp::Ordering> {
        self.val().partial_cmp_spec(other.val())
    }
}

} // verus!

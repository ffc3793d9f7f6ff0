//! Values that blocks of an arena were taken for.
use std::mem::ManuallyDrop;
use std::ops::{Deref, DerefMut};
use vstd::prelude::*;

verus! {

/// Calls [`ManuallyDrop::deref_mut`], which gives exclusive access to the wrapped value: what is
/// left behind the reference is what the wrapper holds afterwards.
#[verifier::external_body]
fn manual_mut<T>(wrapped: &mut ManuallyDrop<T>) -> (value: &mut T)
    ensures
        *value == old(wrapped)@,
        final(wrapped)@ == *final(value),
{
    wrapped.deref_mut()
}

/// Calls [`std::vec::Vec::into_boxed_slice`], which gives the elements as they are, in their
/// order.
#[verifier::external_body]
pub(crate) fn boxed_slice<T>(elems: std::vec::Vec<T>) -> (slice: std::boxed::Box<[T]>)
    ensures
        slice@ == elems@,
{
    elems.into_boxed_slice()
}

/// Calls [`std::boxed::Box::into_vec`](slice::into_vec), which gives the elements as they are,
/// in their order.
#[verifier::external_body]
pub(crate) fn unboxed_slice<T>(slice: std::boxed::Box<[T]>) -> (elems: std::vec::Vec<T>)
    ensures
        elems@ == slice@,
{
    slice.into_vec()
}

/// Calls [`String::into_boxed_str`], which gives the characters as they are, in their order.
#[verifier::external_body]
pub(crate) fn boxed_str(text: String) -> (str: std::boxed::Box<str>)
    ensures
        str@ == text@,
{
    text.into_boxed_str()
}

/// A block of an arena and the value it was taken for, with the only way to that value.
///
/// The value is kept beside the arena: the bytes of the block are those that the arena has.
/// The value is not dropped with the slot, nor is its memory given back. A [`Box`](crate::boxed::Box) drops its value.
pub struct Slot<T: ?Sized> {
    /// Address of the block.
    ptr: usize,
    /// The value that the block was taken for.
    value: ManuallyDrop<std::boxed::Box<T>>,
}

impl<T: ?Sized> Slot<T> {
    /// Address of the block.
    pub closed spec fn ptr(&self) -> usize {
        self.ptr
    }

    /// The value that the block was taken for.
    pub closed spec fn val(&self) -> &T {
        &*self.value@
    }

    /// The slot of the block at `ptr`, which was taken for `value`.
    pub fn new(ptr: usize, value: std::boxed::Box<T>) -> (slot: Slot<T>)
        ensures
            slot.ptr() == ptr,
            slot.val() == &*value,
    {
        Slot { ptr, value: ManuallyDrop::new(value) }
    }

    /// Takes the value out of its block.
    pub fn into_parts(self) -> (parts: (usize, std::boxed::Box<T>))
        ensures
            parts.0 == self.ptr(),
            &*parts.1 == self.val(),
    {
        (self.ptr, ManuallyDrop::into_inner(self.value))
    }

    /// Address of the block.
    pub fn as_ptr(&self) -> (ptr: usize)
        ensures
            ptr == self.ptr(),
    {
        self.ptr
    }
}

impl<T: ?Sized> Deref for Slot<T> {
    type Target = T;

    fn deref(&self) -> (value: &T)
        ensures
            value == self.val(),
    {
        &**self.value
    }
}

impl<T: ?Sized> DerefMut for Slot<T> {
    fn deref_mut(&mut self) -> (value: &mut T)
        ensures
            &*value == old(self).val(),
            &*final(value) == final(self).val(),
            final(self).ptr() == old(self).ptr(),
    {
        &mut **manual_mut(&mut self.value)
    }
}

} // verus!

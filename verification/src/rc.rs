//! Allocations that share their value and may outlive the arena.
use crate::arena::{counted_by, Arena};
use crate::heap::{one_added, one_dropped, ChunkFooter, ChunkView, Heap};
use crate::laws::lemma_held_let_go;
use crate::layout::Layout;
use crate::raw::ArenaView;
use crate::slot::Slot;
use std::mem::ManuallyDrop;
use std::ops::Deref;
use vstd::prelude::*;
use vstd::std_specs::cmp::{
    PartialEqSpec, PartialEqSpecImpl, PartialOrdSpec, PartialOrdSpecImpl,
};

verus! {

/// Calls the conversion [`std::rc::Rc::from`] of a box, which gives shared access to the same
/// value.
#[verifier::external_body]
fn shared<T: ?Sized>(value: std::boxed::Box<T>) -> (rc: std::rc::Rc<T>)
    ensures
        &*rc == &*value,
{
    std::rc::Rc::from(value)
}

/// Calls [`std::rc::Rc::clone`], which gives one more way to the same value.
#[verifier::external_body]
fn shared_again<T: ?Sized>(value: &std::rc::Rc<T>) -> (rc: std::rc::Rc<T>)
    ensures
        &*rc == &**value,
{
    std::rc::Rc::clone(value)
}

/// A block of an arena and the value it was taken for, which others may read too.
///
/// The value is kept beside the arena: the bytes of the block are those that the arena has.
/// The value is not dropped with it.
pub struct Shared<T: ?Sized> {
    /// Address of the block.
    ptr: usize,
    /// Size of the value, in bytes.
    size: usize,
    /// The value that the block was taken for.
    value: ManuallyDrop<std::rc::Rc<T>>,
}

impl<T: ?Sized> Shared<T> {
    /// Address of the block.
    pub closed spec fn ptr(&self) -> usize {
        self.ptr
    }

    /// Size of the value, in bytes.
    pub closed spec fn size(&self) -> usize {
        self.size
    }

    /// The value that the block was taken for.
    pub closed spec fn val(&self) -> &T {
        &*self.value@
    }

    /// Shares the value of `slot`, of `size` bytes.
    pub(crate) fn new(slot: Slot<T>, size: usize) -> (block: Shared<T>)
        ensures
            block.ptr() == slot.ptr(),
            block.size() == size,
            block.val() == slot.val(),
    {
        let (ptr, value) = slot.into_parts();
        Shared { ptr, size, value: ManuallyDrop::new(shared(value)) }
    }

    /// One more way to the same value.
    fn again(&self) -> (block: Shared<T>)
        ensures
            block.ptr() == self.ptr(),
            block.size() == self.size(),
            block.val() == self.val(),
    {
        Shared {
            ptr: self.ptr,
            size: self.size,
            value: ManuallyDrop::new(shared_again(&*self.value)),
        }
    }
}

impl<T: ?Sized> Deref for Shared<T> {
    type Target = T;

    fn deref(&self) -> (value: &T)
        ensures
            value == self.val(),
    {
        &**self.value
    }
}

/// An immutable reference counted autonomous allocation.
///
/// Reference counting is per chunk: the chunk where the allocation lives is not released while
/// it has a holder. The count is added to when the handle is made, and taken from when the handle
/// is given back with [`Rc::drop_in`], or with [`Rc::drop_left`] after
/// [`Arena::into_left_over`](crate::arena::Arena::into_left_over). A handle that is just dropped
/// stays counted, and an arena that is just dropped takes its chunks with it whatever their
/// counts. A value of no size takes no part in the count.
///
/// The value is neither dropped nor its memory given back when a handle is dropped.
pub struct Rc<T: ?Sized> {
    /// The allocation.
    block: Shared<T>,
    /// Address of the footer of the chunk where it lives.
    origin: Option<usize>,
}

impl<T: ?Sized> Rc<T> {
    /// Address of the allocation.
    pub closed spec fn ptr(&self) -> usize {
        self.block.ptr()
    }

    /// The value it was made for.
    pub closed spec fn val(&self) -> &T {
        self.block.val()
    }

    /// Address of the footer of the chunk where it lives.
    pub closed spec fn origin(&self) -> Option<usize> {
        self.origin
    }

    /// Whether the handle takes part in the count: its value is of some size.
    pub closed spec fn counted(&self) -> bool {
        self.block.size() > 0
    }

    /// A handle that takes part in the count knows its chunk.
    pub open spec fn wf(&self) -> bool {
        self.counted() ==> self.origin() is Some
    }

    /// Constructs a new handle from parts describing its owned allocation.
    pub fn from_raw_parts(block: Shared<T>, origin: Option<usize>) -> (rc: Rc<T>)
        requires
            block.size() > 0 ==> origin is Some,
        ensures
            rc.wf(),
            rc.ptr() == block.ptr(),
            rc.val() == block.val(),
            rc.counted() == (block.size() > 0),
            rc.origin() == origin,
    {
        Rc { block, origin }
    }

    /// Deconstructs this handle into parts associated with its allocation.
    ///
    /// The count stays as it is, so a new handle should be constructed.
    pub fn into_raw_parts(self) -> (parts: (Shared<T>, Option<usize>))
        ensures
            parts.0.ptr() == self.ptr(),
            parts.0.val() == self.val(),
            (parts.0.size() > 0) == self.counted(),
            parts.1 == self.origin(),
    {
        (self.block, self.origin)
    }

    /// Returns the value, leaking the whole chunk where it lives: the count stays as it is.
    pub fn leak(self) -> (block: Shared<T>)
        ensures
            block.ptr() == self.ptr(),
            block.val() == self.val(),
    {
        self.block
    }

    /// Returns the address of the value.
    pub fn as_ptr(&self) -> (ptr: usize)
        ensures
            ptr == self.ptr(),
    {
        self.block.ptr
    }

    /// Returns the address of the value.
    pub fn as_mut_ptr(&self) -> (ptr: usize)
        ensures
            ptr == self.ptr(),
    {
        self.block.ptr
    }

    /// Returns a reference to the value.
    pub fn as_ref(&self) -> (value: &T)
        ensures
            value == self.val(),
    {
        &**self.block.value
    }

    /// The state after one more handle like this one was made.
    pub open spec fn counted_in(&self, v: ArenaView) -> ArenaView {
        if self.counted() {
            v.held(self.origin()->0)
        } else {
            v
        }
    }

    /// The state after this handle was given back.
    pub open spec fn uncounted_in(&self, v: ArenaView) -> ArenaView {
        if self.counted() {
            v.let_go(self.origin()->0)
        } else {
            v
        }
    }

    /// Creates a new handle owning the allocation `block` inside the `origin` chunk.
    pub(crate) fn new_unchecked(
        arena: &mut Arena,
        block: Shared<T>,
        origin: Option<usize>,
    ) -> (rc: Rc<T>)
        requires
            old(arena).wf(),
            block.size() > 0 ==> origin is Some && old(arena)@.chunks.contains_key(origin->0),
        ensures
            final(arena).wf(),
            rc.wf(),
            rc.ptr() == block.ptr(),
            rc.val() == block.val(),
            rc.counted() == (block.size() > 0),
            rc.origin() == origin,
            final(arena)@ == rc.counted_in(old(arena)@),
            old(arena)@.keeps(final(arena)@),
    {
        if block.size != 0 {
            arena.increment_refcount(origin.unwrap());
        }
        Rc { block, origin }
    }

    /// One more handle on the same allocation, of an arena.
    pub fn clone_in(&self, arena: &mut Arena) -> (rc: Rc<T>)
        requires
            self.wf(),
            old(arena).wf(),
            self.counted() ==> old(arena)@.chunks.contains_key(self.origin()->0),
        ensures
            final(arena).wf(),
            rc.wf(),
            rc.ptr() == self.ptr(),
            rc.val() == self.val(),
            rc.counted() == self.counted(),
            rc.origin() == self.origin(),
            final(arena)@ == self.counted_in(old(arena)@),
            old(arena)@.keeps(final(arena)@),
    {
        Rc::new_unchecked(arena, self.block.again(), self.origin)
    }

    /// Gives this handle back to the arena: its chunk loses a holder.
    pub fn drop_in(self, arena: &mut Arena)
        requires
            self.wf(),
            old(arena).wf(),
            self.counted() ==> old(arena)@.holder_of(self.origin()->0),
        ensures
            final(arena).wf(),
            final(arena)@ == self.uncounted_in(old(arena)@),
    {
        if self.block.size != 0 {
            arena.drop_from_ptr(self.origin.unwrap());
        }
    }

    /// One more handle on the same allocation, of an arena that is gone.
    pub fn clone_left(&self, heap: &mut Heap) -> (rc: Rc<T>)
        requires
            self.wf(),
            old(heap).wf(),
            self.counted() ==> old(heap)@.contains_key(self.origin()->0),
        ensures
            final(heap).wf(),
            rc.wf(),
            rc.ptr() == self.ptr(),
            rc.val() == self.val(),
            rc.counted() == self.counted(),
            rc.origin() == self.origin(),
            final(heap)@ == if self.counted() {
                one_added(old(heap)@, self.origin()->0)
            } else {
                old(heap)@
            },
    {
        if self.block.size != 0 {
            ChunkFooter::increment_refcount(heap, self.origin.unwrap());
        }
        Rc { block: self.block.again(), origin: self.origin }
    }

    /// Gives this handle back after the arena is gone: its chunk loses a holder, and is released
    /// with its last one.
    pub fn drop_left(self, heap: &mut Heap)
        requires
            self.wf(),
            old(heap).wf(),
            self.counted() ==> old(heap)@.contains_key(self.origin()->0),
        ensures
            final(heap).wf(),
            final(heap)@ == if self.counted() {
                one_dropped(old(heap)@, self.origin()->0)
            } else {
                old(heap)@
            },
    {
        if self.block.size != 0 {
            let _ = ChunkFooter::drop_from_ptr(heap, self.origin.unwrap());
        }
    }
}

impl<T: ?Sized> Deref for Rc<T> {
    type Target = T;

    fn deref(&self) -> (value: &T)
        ensures
            value == self.val(),
    {
        &**self.block.value
    }
}

impl<T: ?Sized + PartialEq> PartialEq for Rc<T> {
    fn eq(&self, other: &Self) -> (result: bool)
        ensures
            call_ensures(T::eq, (self.val(), other.val()), result),
    {
        (**self.block.value).eq(&**other.block.value)
    }
}

impl<T: ?Sized + PartialEq> PartialEqSpecImpl for Rc<T> {
    open spec fn obeys_eq_spec() -> bool {
        T::obeys_eq_spec()
    }

    open spec fn eq_spec(&self, other: &Self) -> bool {
        self.val().eq_spec(other.val())
    }
}

impl<T: ?Sized + Eq> Eq for Rc<T> {

}

impl<T: ?Sized + PartialOrd> PartialOrd for Rc<T> {
    fn partial_cmp(&self, other: &Self) -> (result: Option<std::cmp::Ordering>)
        ensures
            call_ensures(T::partial_cmp, (self.val(), other.val()), result),
    {
        (**self.block.value).partial_cmp(&**other.block.value)
    }
}

impl<T: ?Sized + PartialOrd> PartialOrdSpecImpl for Rc<T> {
    open spec fn obeys_partial_cmp_spec() -> bool {
        T::obeys_partial_cmp_spec()
    }

    open spec fn partial_cmp_spec(&self, other: &Self) -> Option<std::cmp::Ordering> {
        self.val().partial_cmp_spec(other.val())
    }
}

/// Giving a handle back undoes what making one more did.
pub proof fn lemma_clone_drop<T: ?Sized>(rc: &Rc<T>, v: ArenaView)
    requires
        rc.wf(),
        rc.counted() ==> v.chunks.contains_key(rc.origin()->0)
            && v.chunks[rc.origin()->0].refcount < usize::MAX,
    ensures
        rc.uncounted_in(rc.counted_in(v)) == v,
        rc.counted() ==> rc.counted_in(v).holder_of(rc.origin()->0),
{
    if rc.counted() {
        lemma_held_let_go(v, rc.origin()->0);
    }
}

/// One more handle on an allocation of some size adds one holder to its chunk, and giving one back
/// takes one away, with which the chunk is gone where it had no other. No other chunk changes, nor
/// anything else of the arena. An allocation of no size takes no part in that.
pub proof fn lemma_counting<T: ?Sized>(rc: &Rc<T>, v: ArenaView)
    requires
        rc.wf(),
        rc.counted() ==> v.chunks.contains_key(rc.origin()->0),
    ensures
        !rc.counted() ==> rc.counted_in(v) == v && rc.uncounted_in(v) == v,
        rc.counted() ==> {
            let p = rc.origin()->0;
            let more = rc.counted_in(v);
            let less = rc.uncounted_in(v);
            &&& v.chunks[p].refcount < usize::MAX ==> more.chunks == v.chunks.insert(
                p,
                ChunkView { refcount: (v.chunks[p].refcount + 1) as usize, ..v.chunks[p] },
            )
            &&& more == (ArenaView { chunks: more.chunks, ..v })
            &&& v.chunks[p].refcount > 0 ==> less.chunks == v.chunks.insert(
                p,
                ChunkView { refcount: (v.chunks[p].refcount - 1) as usize, ..v.chunks[p] },
            )
            &&& v.chunks[p].refcount == 0 ==> less.chunks == v.chunks.remove(p)
            &&& less == (ArenaView { chunks: less.chunks, ..v })
        },
{
}

/// A reference counted allocation of some size takes part in the count of the chunk it is in, one
/// of no size does not.
pub proof fn lemma_counted<T: ?Sized>(rc: Rc<T>, layout: Layout, v: ArenaView)
    requires
        counted_by(rc, layout, v),
    ensures
        rc.counted() <==> layout.size > 0,
        rc.counted() ==> rc.origin() == v.current && v.chunks.contains_key(v.current->0),
{
}

} // verus!

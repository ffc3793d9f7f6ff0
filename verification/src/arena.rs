//! The arena allocator.
use crate::boxed::Box;
use crate::error::{unwrap_alloc, AllocError};
use crate::heap::{asked, byte, memory_len, total_size, written, Heap};
use crate::layout::{array_layout, bytes_layout, layout_of, Layout};
use crate::raw::{lemma_allocated, with_capacity_state, ArenaView, RawArena};
use crate::rc::{Rc, Shared};
use crate::slot::{boxed_slice, boxed_str, Slot};
use vstd::arithmetic::power2::is_pow2;
use vstd::prelude::*;
use vstd::utf8::encode_utf8;

verus! {

/// What a result that may be an error grants.
pub open spec fn granted<A>(result: Result<A, AllocError>) -> Option<A> {
    match result {
        Ok(value) => Some(value),
        Err(_) => None,
    }
}

/// The address of a slot that was granted.
pub open spec fn slot_ptr<T: ?Sized>(result: Option<Slot<T>>) -> Option<usize> {
    match result {
        Some(slot) => Some(slot.ptr()),
        None => None,
    }
}

/// The address of a box that was granted.
pub open spec fn box_ptr<T: ?Sized>(result: Option<Box<T>>) -> Option<usize> {
    match result {
        Some(boxed) => Some(boxed.ptr()),
        None => None,
    }
}

/// The address of a reference counted allocation that was granted.
pub open spec fn rc_ptr<T: ?Sized>(result: Option<Rc<T>>) -> Option<usize> {
    match result {
        Some(rc) => Some(rc.ptr()),
        None => None,
    }
}

/// `t` are clones of `s`, one by one.
pub open spec fn all_cloned<T: Clone>(s: Seq<T>, t: Seq<T>) -> bool {
    &&& t.len() == s.len()
    &&& forall|i: int| 0 <= i < s.len() ==> cloned(s[i], #[trigger] t[i])
}

/// `s` are values that `f` gives for the numbers below `len`, one by one.
pub open spec fn made_by<T, F: FnMut(usize) -> T>(f: F, len: usize, s: Seq<T>) -> bool {
    &&& s.len() == len
    &&& forall|i: usize| i < len ==> f.ensures((i,), #[trigger] s[i as int])
}

/// A reference counted allocation of `layout` belongs to the arena in state `v`: it lives in the
/// current chunk, and takes part in its count where it is of some size.
pub open spec fn counted_by<T: ?Sized>(rc: Rc<T>, layout: Layout, v: ArenaView) -> bool {
    &&& rc.wf()
    &&& rc.origin() == v.current
    &&& rc.counted() == (layout.size > 0)
    &&& layout.size > 0 ==> v.chunks.contains_key(rc.origin()->0)
}

impl ArenaView {
    /// `new` is the state after a block of `layout` was asked for and `result` given: none where
    /// `layout` is none, or no memory in the world would do.
    pub open spec fn maybe_allocated(
        self,
        layout: Option<Layout>,
        result: Option<usize>,
        new: ArenaView,
    ) -> bool {
        match layout {
            Some(layout) => {
                &&& self.allocated(layout, result, new)
                &&& self.too_large(layout) ==> result is None
            },
            None => result is None && new == self,
        }
    }

    /// `new` is the state after a block of `layout` was asked for and `result` given, and the
    /// chunk it is in got one more holder where it is of some size.
    pub open spec fn maybe_shared(
        self,
        layout: Option<Layout>,
        result: Option<usize>,
        new: ArenaView,
    ) -> bool {
        exists|mid: ArenaView|
            #![trigger self.maybe_allocated(layout, result, mid)]
            {
                &&& self.maybe_allocated(layout, result, mid)
                &&& new == if result is Some && layout->0.size > 0 {
                    mid.held(mid.current->0)
                } else {
                    mid
                }
            }
    }
}

/// An arena allocator, backed by the global allocator.
///
/// This arena is a downwards bump allocator, based on a list of heap-allocated chunks, each
/// linked with the previous one. Its methods come in three flavors. Plain allocations give a
/// [`Slot`], whose value is not dropped. Boxed allocations give a [`Box`], which drops its value.
/// Reference counted allocations give an [`Rc`], which may outlive the arena.
///
/// [`Arena::into_left_over`] lets the chunks go one by one, each that an [`Rc`] holds staying in
/// use. An arena that is just dropped takes all its chunks with it, whoever holds them; the
/// values of handles are not in the chunks, and stay.
///
/// Methods named `try_` give `None` where there is no memory; the others give an
/// [`AllocError`].
pub struct Arena {
    raw: RawArena,
}

impl View for Arena {
    type V = ArenaView;

    closed spec fn view(&self) -> ArenaView {
        self.raw@
    }
}

impl Arena {
    /// The arena is sound, and so is what it is kept in.
    pub open spec fn wf(&self) -> bool {
        &&& self@.sound()
        &&& self.kept_well()
    }

    /// What the chunks are kept in is sound.
    pub closed spec fn kept_well(&self) -> bool {
        self.raw.kept_well()
    }

    /// Creates a new arena without performing any allocations.
    pub fn new() -> (arena: Arena)
        ensures
            arena.wf(),
            arena@ == ArenaView::empty(),
    {
        Arena { raw: RawArena::new() }
    }

    /// Creates a new arena with pre-allocated `capacity`.
    ///
    /// Fails if the global allocator failed to allocate enough memory.
    pub fn with_capacity(capacity: usize) -> (result: Result<Arena, AllocError>)
        ensures
            crate::chunk::chunk_layout_for(capacity as int, 1) is None ==> result is Err,
            crate::chunk::chunk_layout_for(capacity as int, 1) matches Some(layout) ==> asked::<
                u8,
            >(memory_len(layout), result is Ok),
            result matches Ok(arena) ==> arena.wf() && with_capacity_state(
                capacity as int,
                arena@,
            ),
    {
        unwrap_alloc(Arena::try_with_capacity(capacity))
    }

    /// Attempts to create a new arena with pre-allocated `capacity`.
    pub fn try_with_capacity(capacity: usize) -> (result: Option<Arena>)
        ensures
            crate::chunk::chunk_layout_for(capacity as int, 1) is None ==> result is None,
            crate::chunk::chunk_layout_for(capacity as int, 1) matches Some(layout) ==> asked::<
                u8,
            >(memory_len(layout), result is Some),
            result matches Some(arena) ==> arena.wf() && with_capacity_state(
                capacity as int,
                arena@,
            ),
    {
        Arena::of_raw(RawArena::try_with_capacity(capacity))
    }

    /// The arena that works with `raw`, if there is one.
    pub fn of_raw(raw: Option<RawArena>) -> (result: Option<Arena>)
        ensures
            match raw {
                Some(raw) => {
                    &&& result matches Some(arena)
                    &&& arena@ == raw@
                    &&& arena.wf() == raw.wf()
                },
                None => result is None,
            },
    {
        match raw {
            Some(raw) => Some(Arena { raw }),
            None => None,
        }
    }

    /// Calculates total size of allocated memory of this arena.
    ///
    /// This method goes over the list of chunks, making it considerably expensive.
    pub fn size(&self) -> (size: usize)
        requires
            self.wf(),
        ensures
            size == total_size(self@.chunks, self@.chain),
    {
        self.raw.size()
    }

    /// Checks if `ptr` is the address of the last allocation in this arena.
    pub fn is_last_allocation(&self, ptr: usize) -> (result: bool)
        ensures
            result == (ptr == self@.cursor),
    {
        self.raw.cursor() == ptr
    }

    /// Allocates `value` inside this arena.
    ///
    /// Fails if the global allocator failed to allocate enough memory.
    pub fn alloc_value<T>(&mut self, value: T) -> (result: Result<Slot<T>, AllocError>)
        requires
            old(self).wf(),
        ensures
            final(self).wf(),
            old(self)@.keeps(final(self)@),
            old(self)@.maybe_allocated(
                Some(layout_of::<T>()),
                slot_ptr(granted(result)),
                final(self)@,
            ),
            result matches Ok(slot) ==> *slot.val() == value,
    {
        unwrap_alloc(self.try_alloc(value))
    }

    /// Attempts to allocate `value` inside this arena.
    ///
    /// Returns `None` if the allocation failed.
    pub fn try_alloc<T>(&mut self, value: T) -> (result: Option<Slot<T>>)
        requires
            old(self).wf(),
        ensures
            final(self).wf(),
            old(self)@.keeps(final(self)@),
            old(self)@.maybe_allocated(Some(layout_of::<T>()), slot_ptr(result), final(self)@),
            result matches Some(slot) ==> *slot.val() == value,
    {
        match self.try_alloc_layout(Layout::new::<T>()) {
            Some(ptr) => Some(Slot::new(ptr, std::boxed::Box::new(value))),
            None => None,
        }
    }

    /// Allocates a copy of `slice` inside this arena.
    ///
    /// Fails if the global allocator failed to allocate enough memory.
    pub fn alloc_slice_copied<T>(&mut self, slice: &[T]) -> (result: Result<Slot<[T]>, AllocError>)
        where
            T: Copy,
        requires
            old(self).wf(),
        ensures
            final(self).wf(),
            old(self)@.keeps(final(self)@),
            old(self)@.maybe_allocated(
                array_layout::<T>(slice@.len()),
                slot_ptr(granted(result)),
                final(self)@,
            ),
            result matches Ok(slot) ==> slot.val()@ == slice@,
    {
        unwrap_alloc(self.try_alloc_slice_copied(slice))
    }

    /// Attempts to allocate a copy of `slice` inside this arena.
    ///
    /// Returns `None` if the allocation failed.
    pub fn try_alloc_slice_copied<T>(&mut self, slice: &[T]) -> (result: Option<Slot<[T]>>)
        where
            T: Copy,
        requires
            old(self).wf(),
        ensures
            final(self).wf(),
            old(self)@.keeps(final(self)@),
            old(self)@.maybe_allocated(
                array_layout::<T>(slice@.len()),
                slot_ptr(result),
                final(self)@,
            ),
            result matches Some(slot) ==> slot.val()@ == slice@,
    {
        match Layout::for_value(slice) {
            Ok(layout) => match self.try_alloc_layout(layout) {
                Some(ptr) => Some(Slot::new(ptr, boxed_slice(copied(slice)))),
                None => None,
            },
            Err(_) => None,
        }
    }

    /// Allocates an array of cloned values of `slice` inside this arena.
    ///
    /// Fails if the global allocator failed to allocate enough memory.
    pub fn alloc_slice_cloned<T>(&mut self, slice: &[T]) -> (result: Result<Slot<[T]>, AllocError>)
        where
            T: Clone,
        requires
            old(self).wf(),
        ensures
            final(self).wf(),
            old(self)@.keeps(final(self)@),
            old(self)@.maybe_allocated(
                array_layout::<T>(slice@.len()),
                slot_ptr(granted(result)),
                final(self)@,
            ),
            result matches Ok(slot) ==> all_cloned(slice@, slot.val()@),
    {
        unwrap_alloc(self.try_alloc_slice_cloned(slice))
    }

    /// Attempts to allocate an array of cloned values of `slice` inside this arena.
    ///
    /// Returns `None` if the allocation failed.
    pub fn try_alloc_slice_cloned<T>(&mut self, slice: &[T]) -> (result: Option<Slot<[T]>>)
        where
            T: Clone,
        requires
            old(self).wf(),
        ensures
            final(self).wf(),
            old(self)@.keeps(final(self)@),
            old(self)@.maybe_allocated(
                array_layout::<T>(slice@.len()),
                slot_ptr(result),
                final(self)@,
            ),
            result matches Some(slot) ==> all_cloned(slice@, slot.val()@),
    {
        match Layout::for_value(slice) {
            Ok(layout) => match self.try_alloc_layout(layout) {
                Some(ptr) => Some(Slot::new(ptr, boxed_slice(cloned_values(slice)))),
                None => None,
            },
            Err(_) => None,
        }
    }

    /// Allocates a copy of `str` inside this arena.
    ///
    /// Fails if the global allocator failed to allocate enough memory.
    pub fn alloc_str_copied(&mut self, str: &str) -> (result: Result<Slot<str>, AllocError>)
        requires
            old(self).wf(),
        ensures
            final(self).wf(),
            old(self)@.keeps(final(self)@),
            old(self)@.maybe_allocated(
                bytes_layout(encode_utf8(str@).len()),
                slot_ptr(granted(result)),
                final(self)@,
            ),
            result matches Ok(slot) ==> slot.val()@ == str@,
    {
        unwrap_alloc(self.try_alloc_str_copied(str))
    }

    /// Attempts to allocate a copy of `str` inside this arena.
    ///
    /// Returns `None` if the allocation failed.
    pub fn try_alloc_str_copied(&mut self, str: &str) -> (result: Option<Slot<str>>)
        requires
            old(self).wf(),
        ensures
            final(self).wf(),
            old(self)@.keeps(final(self)@),
            old(self)@.maybe_allocated(
                bytes_layout(encode_utf8(str@).len()),
                slot_ptr(result),
                final(self)@,
            ),
            result matches Some(slot) ==> slot.val()@ == str@,
    {
        match Layout::for_str(str) {
            Ok(layout) => match self.try_alloc_layout(layout) {
                Some(ptr) => Some(Slot::new(ptr, boxed_str(str.to_owned()))),
                None => None,
            },
            Err(_) => None,
        }
    }

    /// Allocates a value received from the `f` closure inside this arena.
    ///
    /// Fails if the global allocator failed to allocate enough memory.
    pub fn alloc_with<F, T>(&mut self, f: F) -> (result: Result<Slot<T>, AllocError>)
        where
            F: FnOnce() -> T,
        requires
            old(self).wf(),
            f.requires(()),
        ensures
            final(self).wf(),
            old(self)@.keeps(final(self)@),
            old(self)@.maybe_allocated(
                Some(layout_of::<T>()),
                slot_ptr(granted(result)),
                final(self)@,
            ),
            result matches Ok(slot) ==> f.ensures((), *slot.val()),
    {
        unwrap_alloc(self.try_alloc_with(f))
    }

    /// Attempts to allocate a value received from the `f` closure inside this arena.
    ///
    /// Returns `None` if the allocation failed.
    pub fn try_alloc_with<F, T>(&mut self, f: F) -> (result: Option<Slot<T>>)
        where
            F: FnOnce() -> T,
        requires
            old(self).wf(),
            f.requires(()),
        ensures
            final(self).wf(),
            old(self)@.keeps(final(self)@),
            old(self)@.maybe_allocated(Some(layout_of::<T>()), slot_ptr(result), final(self)@),
            result matches Some(slot) ==> f.ensures((), *slot.val()),
    {
        match self.try_alloc_layout(Layout::new::<T>()) {
            Some(ptr) => Some(Slot::new(ptr, std::boxed::Box::new(f()))),
            None => None,
        }
    }

    /// Allocates an array of `len` values received from the `f` closure inside this arena.
    ///
    /// Fails if the global allocator failed to allocate enough memory.
    pub fn alloc_slice_with<F, T>(&mut self, f: F, len: usize) -> (result: Result<
        Slot<[T]>,
        AllocError,
    >)
        where
            F: FnMut(usize) -> T,
        requires
            old(self).wf(),
            forall|i: usize| i < len ==> #[trigger] f.requires((i,)),
        ensures
            final(self).wf(),
            old(self)@.keeps(final(self)@),
            old(self)@.maybe_allocated(
                array_layout::<T>(len as nat),
                slot_ptr(granted(result)),
                final(self)@,
            ),
            result matches Ok(slot) ==> made_by(f, len, slot.val()@),
    {
        unwrap_alloc(self.try_alloc_slice_with(f, len))
    }

    /// Attempts to allocate an array of `len` values received from the `f` closure inside this
    /// arena.
    ///
    /// Returns `None` if the allocation failed.
    pub fn try_alloc_slice_with<F, T>(&mut self, f: F, len: usize) -> (result: Option<Slot<[T]>>)
        where
            F: FnMut(usize) -> T,
        requires
            old(self).wf(),
            forall|i: usize| i < len ==> #[trigger] f.requires((i,)),
        ensures
            final(self).wf(),
            old(self)@.keeps(final(self)@),
            old(self)@.maybe_allocated(
                array_layout::<T>(len as nat),
                slot_ptr(result),
                final(self)@,
            ),
            result matches Some(slot) ==> made_by(f, len, slot.val()@),
    {
        match Layout::array::<T>(len) {
            Ok(layout) => match self.try_alloc_layout(layout) {
                Some(ptr) => Some(Slot::new(ptr, boxed_slice(values_with(f, len)))),
                None => None,
            },
            Err(_) => None,
        }
    }

    /// Allocates `layout` inside this arena and returns the address of the allocation.
    ///
    /// Fails if the global allocator failed to allocate enough memory.
    pub fn alloc_layout(&mut self, layout: Layout) -> (result: Result<usize, AllocError>)
        requires
            old(self).wf(),
            is_pow2(layout.align as int),
        ensures
            final(self).wf(),
            old(self)@.keeps(final(self)@),
            old(self)@.allocated(layout, granted(result), final(self)@),
            old(self)@.too_large(layout) ==> result is Err,
    {
        unwrap_alloc(self.try_alloc_layout(layout))
    }

    /// Attempts to allocate `layout` inside this arena.
    ///
    /// The returned address is aligned according to `layout`, and its block is no part of any
    /// other until [`Arena::reset`] is called.
    pub fn try_alloc_layout(&mut self, layout: Layout) -> (result: Option<usize>)
        requires
            old(self).wf(),
            is_pow2(layout.align as int),
        ensures
            final(self).wf(),
            old(self)@.keeps(final(self)@),
            old(self)@.allocated(layout, result, final(self)@),
            old(self)@.too_large(layout) ==> result is None,
            result matches Some(ptr) ==> ptr % layout.align == 0 && final(self)@.placed(
                ptr as int,
                layout.size as int,
            ),
    {
        let ghost before = self@;
        let result = self.raw.try_alloc(layout);
        proof {
            if let Some(ptr) = result {
                lemma_allocated(before, layout, ptr, self@);
            }
        }
        result
    }

    /// Allocates `value` as a reference counted allocation inside this arena.
    ///
    /// Fails if the global allocator failed to allocate enough memory.
    pub fn alloc_rc<T>(&mut self, value: T) -> (result: Result<Rc<T>, AllocError>)
        requires
            old(self).wf(),
        ensures
            final(self).wf(),
            old(self)@.keeps(final(self)@),
            old(self)@.maybe_shared(Some(layout_of::<T>()), rc_ptr(granted(result)), final(self)@),
            result matches Ok(rc) ==> *rc.val() == value,
            result matches Ok(rc) ==> counted_by(rc, Some(layout_of::<T>())->0, final(self)@),
    {
        unwrap_alloc(self.try_alloc_rc(value))
    }

    /// Attempts to allocate `value` as a reference counted allocation inside this arena.
    ///
    /// Returns `None` if the allocation failed.
    pub fn try_alloc_rc<T>(&mut self, value: T) -> (result: Option<Rc<T>>)
        requires
            old(self).wf(),
        ensures
            final(self).wf(),
            old(self)@.keeps(final(self)@),
            old(self)@.maybe_shared(Some(layout_of::<T>()), rc_ptr(result), final(self)@),
            result matches Some(rc) ==> *rc.val() == value,
            result matches Some(rc) ==> counted_by(rc, Some(layout_of::<T>())->0, final(self)@),
    {
        let ghost before = self@;
        let layout = Layout::new::<T>();
        match self.try_alloc(value) {
            Some(slot) => {
                let ghost mid = self@;
                let rc = self.share(slot, layout, Ghost(before));
                assert(before.maybe_allocated(Some(layout_of::<T>()), Some(rc.ptr()), mid));
                Some(rc)
            },
            None => {
                assert(before.maybe_allocated(Some(layout_of::<T>()), None, self@));
                None
            },
        }
    }

    /// Allocates a copy of `slice` as a reference counted allocation inside this arena.
    ///
    /// Fails if the global allocator failed to allocate enough memory.
    pub fn alloc_slice_copied_rc<T>(&mut self, slice: &[T]) -> (result: Result<Rc<[T]>, AllocError>)
        where
            T: Copy,
        requires
            old(self).wf(),
        ensures
            final(self).wf(),
            old(self)@.keeps(final(self)@),
            old(self)@.maybe_shared(
                array_layout::<T>(slice@.len()),
                rc_ptr(granted(result)),
                final(self)@,
            ),
            result matches Ok(rc) ==> rc.val()@ == slice@,
            result matches Ok(rc) ==> counted_by(
                rc,
                array_layout::<T>(slice@.len())->0,
                final(self)@,
            ),
    {
        unwrap_alloc(self.try_alloc_slice_copied_rc(slice))
    }

    /// Attempts to allocate a copy of `slice` as a reference counted allocation inside this arena.
    ///
    /// Returns `None` if the allocation failed.
    pub fn try_alloc_slice_copied_rc<T>(&mut self, slice: &[T]) -> (result: Option<Rc<[T]>>)
        where
            T: Copy,
        requires
            old(self).wf(),
        ensures
            final(self).wf(),
            old(self)@.keeps(final(self)@),
            old(self)@.maybe_shared(array_layout::<T>(slice@.len()), rc_ptr(result), final(self)@),
            result matches Some(rc) ==> rc.val()@ == slice@,
            result matches Some(rc) ==> counted_by(
                rc,
                array_layout::<T>(slice@.len())->0,
                final(self)@,
            ),
    {
        let ghost before = self@;
        let layout = match Layout::for_value(slice) {
            Ok(layout) => layout,
            Err(_) => {
                assert(before.maybe_allocated(array_layout::<T>(slice@.len()), None, before));
                return None;
            },
        };
        match self.try_alloc_slice_copied(slice) {
            Some(slot) => {
                let ghost mid = self@;
                let rc = self.share(slot, layout, Ghost(before));
                assert(before.maybe_allocated(
                     array_layout::<T>(slice@.len()),
                     Some(rc.ptr()),
                     mid,
                 ));
                Some(rc)
            },
            None => {
                assert(before.maybe_allocated(array_layout::<T>(slice@.len()), None, self@));
                None
            },
        }
    }

    /// Allocates an array of cloned values of `slice` as a reference counted allocation inside this
    /// arena.
    ///
    /// Fails if the global allocator failed to allocate enough memory.
    pub fn alloc_slice_cloned_rc<T>(&mut self, slice: &[T]) -> (result: Result<Rc<[T]>, AllocError>)
        where
            T: Clone,
        requires
            old(self).wf(),
        ensures
            final(self).wf(),
            old(self)@.keeps(final(self)@),
            old(self)@.maybe_shared(
                array_layout::<T>(slice@.len()),
                rc_ptr(granted(result)),
                final(self)@,
            ),
            result matches Ok(rc) ==> all_cloned(slice@, rc.val()@),
            result matches Ok(rc) ==> counted_by(
                rc,
                array_layout::<T>(slice@.len())->0,
                final(self)@,
            ),
    {
        unwrap_alloc(self.try_alloc_slice_cloned_rc(slice))
    }

    /// Attempts to allocate an array of cloned values of `slice` as a reference counted allocation
    /// inside this arena.
    ///
    /// Returns `None` if the allocation failed.
    pub fn try_alloc_slice_cloned_rc<T>(&mut self, slice: &[T]) -> (result: Option<Rc<[T]>>)
        where
            T: Clone,
        requires
            old(self).wf(),
        ensures
            final(self).wf(),
            old(self)@.keeps(final(self)@),
            old(self)@.maybe_shared(array_layout::<T>(slice@.len()), rc_ptr(result), final(self)@),
            result matches Some(rc) ==> all_cloned(slice@, rc.val()@),
            result matches Some(rc) ==> counted_by(
                rc,
                array_layout::<T>(slice@.len())->0,
                final(self)@,
            ),
    {
        let ghost before = self@;
        let layout = match Layout::for_value(slice) {
            Ok(layout) => layout,
            Err(_) => {
                assert(before.maybe_allocated(array_layout::<T>(slice@.len()), None, before));
                return None;
            },
        };
        match self.try_alloc_slice_cloned(slice) {
            Some(slot) => {
                let ghost mid = self@;
                let rc = self.share(slot, layout, Ghost(before));
                assert(before.maybe_allocated(
                     array_layout::<T>(slice@.len()),
                     Some(rc.ptr()),
                     mid,
                 ));
                Some(rc)
            },
            None => {
                assert(before.maybe_allocated(array_layout::<T>(slice@.len()), None, self@));
                None
            },
        }
    }

    /// Allocates a copy of `str` as a reference counted allocation inside this arena.
    ///
    /// Fails if the global allocator failed to allocate enough memory.
    pub fn alloc_str_copied_rc(&mut self, str: &str) -> (result: Result<Rc<str>, AllocError>)
        requires
            old(self).wf(),
        ensures
            final(self).wf(),
            old(self)@.keeps(final(self)@),
            old(self)@.maybe_shared(
                bytes_layout(encode_utf8(str@).len()),
                rc_ptr(granted(result)),
                final(self)@,
            ),
            result matches Ok(rc) ==> rc.val()@ == str@,
            result matches Ok(rc) ==> counted_by(
                rc,
                bytes_layout(encode_utf8(str@).len())->0,
                final(self)@,
            ),
    {
        unwrap_alloc(self.try_alloc_str_copied_rc(str))
    }

    /// Attempts to allocate a copy of `str` as a reference counted allocation inside this arena.
    ///
    /// Returns `None` if the allocation failed.
    pub fn try_alloc_str_copied_rc(&mut self, str: &str) -> (result: Option<Rc<str>>)
        requires
            old(self).wf(),
        ensures
            final(self).wf(),
            old(self)@.keeps(final(self)@),
            old(self)@.maybe_shared(
                bytes_layout(encode_utf8(str@).len()),
                rc_ptr(result),
                final(self)@,
            ),
            result matches Some(rc) ==> rc.val()@ == str@,
            result matches Some(rc) ==> counted_by(
                rc,
                bytes_layout(encode_utf8(str@).len())->0,
                final(self)@,
            ),
    {
        let ghost before = self@;
        let layout = match Layout::for_str(str) {
            Ok(layout) => layout,
            Err(_) => {
                assert(before.maybe_allocated(bytes_layout(encode_utf8(str@).len()), None, before));
                return None;
            },
        };
        match self.try_alloc_str_copied(str) {
            Some(slot) => {
                let ghost mid = self@;
                let rc = self.share(slot, layout, Ghost(before));
                assert(before.maybe_allocated(
                     bytes_layout(encode_utf8(str@).len()),
                     Some(rc.ptr()),
                     mid,
                 ));
                Some(rc)
            },
            None => {
                assert(before.maybe_allocated(bytes_layout(encode_utf8(str@).len()), None, self@));
                None
            },
        }
    }

    /// Allocates a value received from the `f` closure as a reference counted allocation inside
    /// this arena.
    ///
    /// Fails if the global allocator failed to allocate enough memory.
    pub fn alloc_with_rc<T, F>(&mut self, f: F) -> (result: Result<Rc<T>, AllocError>)
        where
            F: FnOnce() -> T,
        requires
            old(self).wf(),
            f.requires(()),
        ensures
            final(self).wf(),
            old(self)@.keeps(final(self)@),
            old(self)@.maybe_shared(Some(layout_of::<T>()), rc_ptr(granted(result)), final(self)@),
            result matches Ok(rc) ==> f.ensures((), *rc.val()),
            result matches Ok(rc) ==> counted_by(rc, Some(layout_of::<T>())->0, final(self)@),
    {
        unwrap_alloc(self.try_alloc_with_rc(f))
    }

    /// Attempts to allocate a value received from the `f` closure as a reference counted allocation
    /// inside this arena.
    ///
    /// Returns `None` if the allocation failed.
    pub fn try_alloc_with_rc<T, F>(&mut self, f: F) -> (result: Option<Rc<T>>)
        where
            F: FnOnce() -> T,
        requires
            old(self).wf(),
            f.requires(()),
        ensures
            final(self).wf(),
            old(self)@.keeps(final(self)@),
            old(self)@.maybe_shared(Some(layout_of::<T>()), rc_ptr(result), final(self)@),
            result matches Some(rc) ==> f.ensures((), *rc.val()),
            result matches Some(rc) ==> counted_by(rc, Some(layout_of::<T>())->0, final(self)@),
    {
        let ghost before = self@;
        let layout = Layout::new::<T>();
        match self.try_alloc_with(f) {
            Some(slot) => {
                let ghost mid = self@;
                let rc = self.share(slot, layout, Ghost(before));
                assert(before.maybe_allocated(Some(layout_of::<T>()), Some(rc.ptr()), mid));
                Some(rc)
            },
            None => {
                assert(before.maybe_allocated(Some(layout_of::<T>()), None, self@));
                None
            },
        }
    }

    /// Allocates an array of `len` values received from the `f` closure as a reference counted
    /// allocation inside this arena.
    ///
    /// Fails if the global allocator failed to allocate enough memory.
    pub fn alloc_slice_with_rc<T, F>(&mut self, f: F, len: usize) -> (result: Result<
        Rc<[T]>,
        AllocError,
    >)
        where
            F: FnMut(usize) -> T,
        requires
            old(self).wf(),
            forall|i: usize| i < len ==> #[trigger] f.requires((i,)),
        ensures
            final(self).wf(),
            old(self)@.keeps(final(self)@),
            old(self)@.maybe_shared(
                array_layout::<T>(len as nat),
                rc_ptr(granted(result)),
                final(self)@,
            ),
            result matches Ok(rc) ==> made_by(f, len, rc.val()@),
            result matches Ok(rc) ==> counted_by(
                rc,
                array_layout::<T>(len as nat)->0,
                final(self)@,
            ),
    {
        unwrap_alloc(self.try_alloc_slice_with_rc(f, len))
    }

    /// Attempts to allocate an array of `len` values received from the `f` closure as a reference
    /// counted allocation inside this arena.
    ///
    /// Returns `None` if the allocation failed.
    pub fn try_alloc_slice_with_rc<T, F>(&mut self, f: F, len: usize) -> (result: Option<Rc<[T]>>)
        where
            F: FnMut(usize) -> T,
        requires
            old(self).wf(),
            forall|i: usize| i < len ==> #[trigger] f.requires((i,)),
        ensures
            final(self).wf(),
            old(self)@.keeps(final(self)@),
            old(self)@.maybe_shared(array_layout::<T>(len as nat), rc_ptr(result), final(self)@),
            result matches Some(rc) ==> made_by(f, len, rc.val()@),
            result matches Some(rc) ==> counted_by(
                rc,
                array_layout::<T>(len as nat)->0,
                final(self)@,
            ),
    {
        let ghost before = self@;
        let layout = match Layout::array::<T>(len) {
            Ok(layout) => layout,
            Err(_) => {
                assert(before.maybe_allocated(array_layout::<T>(len as nat), None, before));
                return None;
            },
        };
        match self.try_alloc_slice_with(f, len) {
            Some(slot) => {
                let ghost mid = self@;
                let rc = self.share(slot, layout, Ghost(before));
                assert(before.maybe_allocated(array_layout::<T>(len as nat), Some(rc.ptr()), mid));
                Some(rc)
            },
            None => {
                assert(before.maybe_allocated(array_layout::<T>(len as nat), None, self@));
                None
            },
        }
    }

    /// Allocates `value` inside this arena and puts it in a fresh box.
    ///
    /// Fails if the global allocator failed to allocate enough memory.
    pub fn alloc_boxed<T>(&mut self, value: T) -> (result: Result<Box<T>, AllocError>)
        requires
            old(self).wf(),
        ensures
            final(self).wf(),
            old(self)@.keeps(final(self)@),
            old(self)@.maybe_allocated(
                Some(layout_of::<T>()),
                box_ptr(granted(result)),
                final(self)@,
            ),
            result matches Ok(boxed) ==> *boxed.val() == value,
    {
        unwrap_alloc(self.try_alloc_boxed(value))
    }

    /// Attempts to allocate `value` inside this arena and put it in a fresh box.
    ///
    /// Returns `None` if the allocation failed.
    pub fn try_alloc_boxed<T>(&mut self, value: T) -> (result: Option<Box<T>>)
        requires
            old(self).wf(),
        ensures
            final(self).wf(),
            old(self)@.keeps(final(self)@),
            old(self)@.maybe_allocated(Some(layout_of::<T>()), box_ptr(result), final(self)@),
            result matches Some(boxed) ==> *boxed.val() == value,
    {
        match self.try_alloc(value) {
            Some(slot) => Some(Box::from_raw(slot)),
            None => None,
        }
    }

    /// Allocates a copy of `slice` inside this arena and puts it in a fresh box.
    ///
    /// Fails if the global allocator failed to allocate enough memory.
    pub fn alloc_slice_copied_boxed<T>(&mut self, slice: &[T]) -> (result: Result<
        Box<[T]>,
        AllocError,
    >)
        where
            T: Copy,
        requires
            old(self).wf(),
        ensures
            final(self).wf(),
            old(self)@.keeps(final(self)@),
            old(self)@.maybe_allocated(
                array_layout::<T>(slice@.len()),
                box_ptr(granted(result)),
                final(self)@,
            ),
            result matches Ok(boxed) ==> boxed.val()@ == slice@,
    {
        unwrap_alloc(self.try_alloc_slice_copied_boxed(slice))
    }

    /// Attempts to allocate a copy of `slice` inside this arena and put it in a fresh box.
    ///
    /// Returns `None` if the allocation failed.
    pub fn try_alloc_slice_copied_boxed<T>(&mut self, slice: &[T]) -> (result: Option<Box<[T]>>)
        where
            T: Copy,
        requires
            old(self).wf(),
        ensures
            final(self).wf(),
            old(self)@.keeps(final(self)@),
            old(self)@.maybe_allocated(
                array_layout::<T>(slice@.len()),
                box_ptr(result),
                final(self)@,
            ),
            result matches Some(boxed) ==> boxed.val()@ == slice@,
    {
        match self.try_alloc_slice_copied(slice) {
            Some(slot) => Some(Box::from_raw(slot)),
            None => None,
        }
    }

    /// Allocates an array of cloned values of `slice` inside this arena and puts it in a fresh box.
    ///
    /// Fails if the global allocator failed to allocate enough memory.
    pub fn alloc_slice_cloned_boxed<T>(&mut self, slice: &[T]) -> (result: Result<
        Box<[T]>,
        AllocError,
    >)
        where
            T: Clone,
        requires
            old(self).wf(),
        ensures
            final(self).wf(),
            old(self)@.keeps(final(self)@),
            old(self)@.maybe_allocated(
                array_layout::<T>(slice@.len()),
                box_ptr(granted(result)),
                final(self)@,
            ),
            result matches Ok(boxed) ==> all_cloned(slice@, boxed.val()@),
    {
        unwrap_alloc(self.try_alloc_slice_cloned_boxed(slice))
    }

    /// Attempts to allocate an array of cloned values of `slice` inside this arena and put it in a
    /// fresh box.
    ///
    /// Returns `None` if the allocation failed.
    pub fn try_alloc_slice_cloned_boxed<T>(&mut self, slice: &[T]) -> (result: Option<Box<[T]>>)
        where
            T: Clone,
        requires
            old(self).wf(),
        ensures
            final(self).wf(),
            old(self)@.keeps(final(self)@),
            old(self)@.maybe_allocated(
                array_layout::<T>(slice@.len()),
                box_ptr(result),
                final(self)@,
            ),
            result matches Some(boxed) ==> all_cloned(slice@, boxed.val()@),
    {
        match self.try_alloc_slice_cloned(slice) {
            Some(slot) => Some(Box::from_raw(slot)),
            None => None,
        }
    }

    /// Allocates a copy of `str` inside this arena and puts it in a fresh box.
    ///
    /// Fails if the global allocator failed to allocate enough memory.
    pub fn alloc_str_copied_boxed(&mut self, str: &str) -> (result: Result<Box<str>, AllocError>)
        requires
            old(self).wf(),
        ensures
            final(self).wf(),
            old(self)@.keeps(final(self)@),
            old(self)@.maybe_allocated(
                bytes_layout(encode_utf8(str@).len()),
                box_ptr(granted(result)),
                final(self)@,
            ),
            result matches Ok(boxed) ==> boxed.val()@ == str@,
    {
        unwrap_alloc(self.try_alloc_str_copied_boxed(str))
    }

    /// Attempts to allocate a copy of `str` inside this arena and put it in a fresh box.
    ///
    /// Returns `None` if the allocation failed.
    pub fn try_alloc_str_copied_boxed(&mut self, str: &str) -> (result: Option<Box<str>>)
        requires
            old(self).wf(),
        ensures
            final(self).wf(),
            old(self)@.keeps(final(self)@),
            old(self)@.maybe_allocated(
                bytes_layout(encode_utf8(str@).len()),
                box_ptr(result),
                final(self)@,
            ),
            result matches Some(boxed) ==> boxed.val()@ == str@,
    {
        match self.try_alloc_str_copied(str) {
            Some(slot) => Some(Box::from_raw(slot)),
            None => None,
        }
    }

    /// Allocates a value received from the `f` closure inside this arena and puts it in a fresh
    /// box.
    ///
    /// Fails if the global allocator failed to allocate enough memory.
    pub fn alloc_with_boxed<T, F>(&mut self, f: F) -> (result: Result<Box<T>, AllocError>)
        where
            F: FnOnce() -> T,
        requires
            old(self).wf(),
            f.requires(()),
        ensures
            final(self).wf(),
            old(self)@.keeps(final(self)@),
            old(self)@.maybe_allocated(
                Some(layout_of::<T>()),
                box_ptr(granted(result)),
                final(self)@,
            ),
            result matches Ok(boxed) ==> f.ensures((), *boxed.val()),
    {
        unwrap_alloc(self.try_alloc_with_boxed(f))
    }

    /// Attempts to allocate a value received from the `f` closure inside this arena and put it in a
    /// fresh box.
    ///
    /// Returns `None` if the allocation failed.
    pub fn try_alloc_with_boxed<T, F>(&mut self, f: F) -> (result: Option<Box<T>>)
        where
            F: FnOnce() -> T,
        requires
            old(self).wf(),
            f.requires(()),
        ensures
            final(self).wf(),
            old(self)@.keeps(final(self)@),
            old(self)@.maybe_allocated(Some(layout_of::<T>()), box_ptr(result), final(self)@),
            result matches Some(boxed) ==> f.ensures((), *boxed.val()),
    {
        match self.try_alloc_with(f) {
            Some(slot) => Some(Box::from_raw(slot)),
            None => None,
        }
    }

    /// Allocates an array of `len` values received from the `f` closure inside this arena and puts
    /// it in a fresh box.
    ///
    /// Fails if the global allocator failed to allocate enough memory.
    pub fn alloc_slice_with_boxed<T, F>(&mut self, f: F, len: usize) -> (result: Result<
        Box<[T]>,
        AllocError,
    >)
        where
            F: FnMut(usize) -> T,
        requires
            old(self).wf(),
            forall|i: usize| i < len ==> #[trigger] f.requires((i,)),
        ensures
            final(self).wf(),
            old(self)@.keeps(final(self)@),
            old(self)@.maybe_allocated(
                array_layout::<T>(len as nat),
                box_ptr(granted(result)),
                final(self)@,
            ),
            result matches Ok(boxed) ==> made_by(f, len, boxed.val()@),
    {
        unwrap_alloc(self.try_alloc_slice_with_boxed(f, len))
    }

    /// Attempts to allocate an array of `len` values received from the `f` closure inside this
    /// arena and put it in a fresh box.
    ///
    /// Returns `None` if the allocation failed.
    pub fn try_alloc_slice_with_boxed<T, F>(&mut self, f: F, len: usize) -> (result: Option<
        Box<[T]>,
    >)
        where
            F: FnMut(usize) -> T,
        requires
            old(self).wf(),
            forall|i: usize| i < len ==> #[trigger] f.requires((i,)),
        ensures
            final(self).wf(),
            old(self)@.keeps(final(self)@),
            old(self)@.maybe_allocated(
                array_layout::<T>(len as nat),
                box_ptr(result),
                final(self)@,
            ),
            result matches Some(boxed) ==> made_by(f, len, boxed.val()@),
    {
        match self.try_alloc_slice_with(f, len) {
            Some(slot) => Some(Box::from_raw(slot)),
            None => None,
        }
    }

    /// Makes the fresh plain allocation `slot` of `layout` a reference counted one.
    fn share<T: ?Sized>(
        &mut self,
        slot: Slot<T>,
        layout: Layout,
        before: Ghost<ArenaView>,
    ) -> (rc: Rc<T>)
        requires
            old(self).wf(),
            before@.sound(),
            is_pow2(layout.align as int),
            before@.allocated(layout, Some(slot.ptr()), old(self)@),
        ensures
            final(self).wf(),
            old(self)@.keeps(final(self)@),
            final(self)@ == if layout.size > 0 {
                old(self)@.held(old(self)@.current->0)
            } else {
                old(self)@
            },
            rc.ptr() == slot.ptr(),
            rc.val() == slot.val(),
            counted_by(rc, layout, final(self)@),
    {
        proof {
            lemma_current_taken(before@, layout, slot.ptr(), self@);
        }
        let block = Shared::new(slot, layout.size);
        let origin = self.raw.get_chunk_ptr();
        Rc::new_unchecked(self, block, origin)
    }

    /// Resets this arena, letting go all chunks except the biggest one.
    ///
    /// All allocations must be treated as invalid after this, but for reference counted ones.
    /// These are valid until they are given back: a chunk that a handle holds keeps what is taken
    /// of it.
    pub fn reset(&mut self)
        requires
            old(self).wf(),
        ensures
            final(self).wf(),
            final(self)@ == old(self)@.rewound(),
    {
        self.raw.reset();
    }

    /// Deallocates an allocation of this arena associated with its `ptr` and `layout`.
    ///
    /// Occupied space will be freed only if the allocation is last in this arena.
    pub fn dealloc(&mut self, ptr: usize, layout: Layout)
        requires
            old(self).wf(),
            old(self)@.placed(ptr as int, layout.size as int),
        ensures
            final(self).wf(),
            final(self)@ == old(self)@.released(ptr, layout),
    {
        self.raw.dealloc(ptr, layout);
    }

    /// Attempts to grow the allocation at `ptr` from `old_layout` to `new_layout`.
    pub fn grow(&mut self, ptr: usize, old_layout: Layout, new_layout: Layout) -> (result: Option<
        usize,
    >)
        requires
            old(self).wf(),
            is_pow2(old_layout.align as int),
            is_pow2(new_layout.align as int),
            old_layout.size <= new_layout.size,
            old(self)@.placed(ptr as int, old_layout.size as int),
        ensures
            final(self).wf(),
            old(self)@.grown(ptr, old_layout, new_layout, result, final(self)@),
    {
        self.raw.grow(ptr, old_layout, new_layout)
    }

    /// Attempts to shrink the allocation at `ptr` from `old_layout` to `new_layout`.
    pub fn shrink(&mut self, ptr: usize, old_layout: Layout, new_layout: Layout) -> (result: Option<
        usize,
    >)
        requires
            old(self).wf(),
            is_pow2(old_layout.align as int),
            is_pow2(new_layout.align as int),
            new_layout.size <= old_layout.size,
            old(self)@.placed(ptr as int, old_layout.size as int),
            ptr % old_layout.align == 0,
        ensures
            final(self).wf(),
            old(self)@.shrunk(ptr, old_layout, new_layout, result, final(self)@),
    {
        self.raw.shrink(ptr, old_layout, new_layout)
    }

    /// Attempts to make room for growing the allocation at `ptr` from `old_layout` to
    /// `new_layout`.
    ///
    /// What the allocation holds is still to be moved to the returned address.
    pub fn room_to_grow(
        &mut self,
        ptr: usize,
        old_layout: Layout,
        new_layout: Layout,
    ) -> (result: Option<usize>)
        requires
            old(self).wf(),
            is_pow2(old_layout.align as int),
            is_pow2(new_layout.align as int),
            old_layout.size <= new_layout.size,
            old(self)@.placed(ptr as int, old_layout.size as int),
        ensures
            final(self).wf(),
            old(self)@.room_for_growth(ptr, old_layout, new_layout, result, final(self)@),
    {
        self.raw.room_to_grow(ptr, old_layout, new_layout)
    }

    /// Attempts to make room for the allocation at `ptr` of `old_layout` shrunk to `new_layout`.
    ///
    /// What is left of what the allocation holds is still to be moved to the returned address.
    pub fn room_to_shrink(
        &mut self,
        ptr: usize,
        old_layout: Layout,
        new_layout: Layout,
    ) -> (result: Option<usize>)
        requires
            old(self).wf(),
            is_pow2(old_layout.align as int),
            is_pow2(new_layout.align as int),
            new_layout.size <= old_layout.size,
            old(self)@.placed(ptr as int, old_layout.size as int),
            ptr % old_layout.align == 0,
        ensures
            final(self).wf(),
            old(self)@.room_for_shrinking(ptr, old_layout, new_layout, result, final(self)@),
    {
        self.raw.room_to_shrink(ptr, old_layout, new_layout)
    }

    /// What the byte at `ptr`, of some allocation, holds.
    pub fn read(&self, ptr: usize) -> (value: u8)
        requires
            self.wf(),
            self@.placed(ptr as int, 1),
        ensures
            value == byte(self@.chunks, ptr as int),
    {
        self.raw.read(ptr)
    }

    /// Writes `value` to the byte at `ptr`, of some allocation.
    pub fn write(&mut self, ptr: usize, value: u8)
        requires
            old(self).wf(),
            old(self)@.placed(ptr as int, 1),
        ensures
            final(self).wf(),
            final(self)@ == (ArenaView { chunks: final(self)@.chunks, ..old(self)@ }),
            written(old(self)@.chunks, final(self)@.chunks, ptr as int, value),
    {
        self.raw.write(ptr, value);
    }

    /// Lets go all chunks of this arena, which is gone then, and returns those that others
    /// still hold.
    pub fn into_left_over(self) -> (heap: Heap)
        requires
            self.wf(),
        ensures
            heap.wf(),
            heap@ == self@.left_over(),
            forall|p: usize| #[trigger]
                heap@.contains_key(p) <==> self@.chunks.contains_key(p) && (
                self@.chain.contains(p) ==> self@.chunks[p].refcount > 0),
            forall|p: usize|
                #![trigger heap@[p]]
                self@.chunks.contains_key(p) && !self@.chain.contains(p) ==> heap@[p]
                    == self@.chunks[p],
    {
        self.raw.into_left_over()
    }

    /// How many chunks are in use: those of this arena, and those it let go that others still
    /// hold.
    pub fn count(&self) -> (count: usize)
        requires
            self.wf(),
        ensures
            count == self@.chunks.len(),
    {
        self.raw.count()
    }

    /// How many holders the chunk with its footer at `ptr` has besides this arena, if there is
    /// such a chunk.
    pub fn refcount_of(&self, ptr: usize) -> (refcount: Option<usize>)
        requires
            self.wf(),
        ensures
            refcount == if self@.chunks.contains_key(ptr) {
                Some(self@.chunks[ptr].refcount)
            } else {
                None
            },
    {
        self.raw.refcount_of(ptr)
    }

    /// Adds a holder to the chunk with its footer at `ptr`.
    pub(crate) fn increment_refcount(&mut self, ptr: usize)
        requires
            old(self).wf(),
            old(self)@.chunks.contains_key(ptr),
        ensures
            final(self).wf(),
            old(self)@.keeps(final(self)@),
            final(self)@ == old(self)@.held(ptr),
    {
        self.raw.increment_refcount(ptr);
    }

    /// Takes a holder from the chunk with its footer at `ptr`.
    pub(crate) fn drop_from_ptr(&mut self, ptr: usize)
        requires
            old(self).wf(),
            old(self)@.holder_of(ptr),
        ensures
            final(self).wf(),
            final(self)@ == old(self)@.let_go(ptr),
    {
        self.raw.drop_from_ptr(ptr);
    }
}

impl Default for Arena {
    fn default() -> (arena: Arena)
        ensures
            arena.wf(),
            arena@ == ArenaView::empty(),
    {
        Arena::new()
    }
}

/// A block of some size that was granted is in the current chunk.
proof fn lemma_current_taken(v: ArenaView, layout: Layout, ptr: usize, new: ArenaView)
    requires
        v.sound(),
        new.sound(),
        is_pow2(layout.align as int),
        v.allocated(layout, Some(ptr), new),
    ensures
        layout.size > 0 ==> new.current is Some && new.chunks.contains_key(new.current->0),
{
    lemma_allocated(v, layout, ptr, new);
    if layout.size > 0 {
        let p = choose|p: usize| #[trigger] new.placed_in(p, ptr as int, layout.size as int);
        assert(new.chain.len() > 0);
    }
}

/// Copies of the values in `slice`.
fn copied<T: Copy>(slice: &[T]) -> (values: std::vec::Vec<T>)
    ensures
        values@ == slice@,
{
    let mut values: std::vec::Vec<T> = std::vec::Vec::new();
    let mut i: usize = 0;
    while i < slice.len()
        invariant
            i <= slice@.len(),
            values@ == slice@.take(i as int),
        decreases slice@.len() - i,
    {
        values.push(slice[i]);
        i = i + 1;
    }
    values
}

/// Clones of the values in `slice`.
fn cloned_values<T: Clone>(slice: &[T]) -> (values: std::vec::Vec<T>)
    ensures
        all_cloned(slice@, values@),
{
    let mut values: std::vec::Vec<T> = std::vec::Vec::new();
    let mut i: usize = 0;
    while i < slice.len()
        invariant
            i <= slice@.len(),
            values@.len() == i,
            forall|j: int| 0 <= j < i ==> cloned(slice@[j], #[trigger] values@[j]),
        decreases slice@.len() - i,
    {
        values.push(slice[i].clone());
        i = i + 1;
    }
    values
}

/// The values that `f` gives for the numbers below `len`.
fn values_with<T, F>(f: F, len: usize) -> (values: std::vec::Vec<T>)
    where
        F: FnMut(usize) -> T,
    requires
        forall|i: usize| i < len ==> #[trigger] f.requires((i,)),
    ensures
        made_by(f, len, values@),
{
    let ghost given = f;
    let mut f = f;
    let mut values: std::vec::Vec<T> = std::vec::Vec::new();
    let mut i: usize = 0;
    while i < len
        invariant
            i <= len,
            values@.len() == i,
            f == given,
            forall|j: usize| j < len ==> #[trigger] f.requires((j,)),
            forall|j: usize| j < i ==> f.ensures((j,), #[trigger] values@[j as int]),
        decreases len - i,
    {
        values.push(f(i));
        i = i + 1;
    }
    values
}

} // verus!

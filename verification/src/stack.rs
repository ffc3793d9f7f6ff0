//! A heap-allocated stack.
use crate::error::{unwrap_alloc, AllocError};
use crate::heap::asked;
use crate::layout::{array_layout, lemma_array_layout, Layout};
use vstd::arithmetic::power2::is_pow2;
use vstd::prelude::*;

verus! {

/// A heap-allocated stack structure, optimized for `push` and `pop` methods.
#[derive(Debug)]
pub struct Stack<T> {
    elems: std::vec::Vec<T>,
    cap: usize,
}

/// The capacity that a stack of capacity `cap` with `len` elements gets to take `n` more.
pub open spec fn grown_cap(cap: nat, len: nat, n: nat) -> nat {
    if cap * 2 >= len + n {
        cap * 2
    } else {
        len + n
    }
}

/// Whether there can be memory for `cap` elements of type `T`.
pub open spec fn can_hold<T>(cap: nat) -> bool {
    cap <= usize::MAX && array_layout::<T>(cap) is Some
}

impl<T> View for Stack<T> {
    type V = Seq<T>;

    closed spec fn view(&self) -> Seq<T> {
        self.elems@
    }
}

impl<T> Stack<T> {
    /// How many elements fit without growing.
    pub closed spec fn spec_cap(&self) -> nat {
        self.cap as nat
    }

    /// The elements fit in the capacity, and the capacity in memory.
    pub open spec fn wf(&self) -> bool {
        &&& self@.len() <= self.spec_cap()
        &&& array_layout::<T>(self.spec_cap()) is Some
    }

    /// Creates a new stack without performing any allocations.
    pub fn new() -> (stack: Self)
        ensures
            stack.wf(),
            stack@ == Seq::<T>::empty(),
            stack.spec_cap() == 0,
    {
        let item = Layout::new::<T>();
        proof {
            reveal(is_pow2);
            assert(0 * vstd::layout::size_of::<T>() == 0) by (nonlinear_arith);
        }
        Stack { elems: std::vec::Vec::new(), cap: 0 }
    }

    /// Creates a new stack with pre-allocated capacity.
    pub fn with_capacity(capacity: usize) -> (result: Result<Self, AllocError>)
        ensures
            array_layout::<T>(capacity as nat) is None || capacity > isize::MAX ==> result is Err,
            capacity == 0 ==> result is Ok,
            0 < capacity <= isize::MAX && array_layout::<T>(capacity as nat) is Some
                ==> asked::<T>(capacity, result is Ok),
            result matches Ok(stack) ==> stack.wf() && stack@ == Seq::<T>::empty()
                && stack.spec_cap() == capacity,
    {
        if capacity == 0 {
            return Ok(Self::new());
        }
        unwrap_alloc(Self::try_with_capacity(capacity))
    }

    /// Reserves capacity for at least `n` more elements.
    pub fn reserve(&mut self, n: usize) -> (result: Result<(), AllocError>)
        requires
            old(self).wf(),
        ensures
            final(self).wf(),
            final(self)@ == old(self)@,
            n == 0 ==> result is Ok && final(self).spec_cap() == old(self).spec_cap(),
            n > 0 && !can_hold::<T>(
                grown_cap(old(self).spec_cap(), old(self)@.len(), n as nat),
            ) ==> result is Err,
            n > 0 && can_hold::<T>(
                grown_cap(old(self).spec_cap(), old(self)@.len(), n as nat),
            ) ==> asked::<T>(
                (grown_cap(old(self).spec_cap(), old(self)@.len(), n as nat) - old(self)@.len())
                    as usize,
                result is Ok,
            ),
            result is Ok ==> old(self)@.len() + n <= final(self).spec_cap(),
            old(self).spec_cap() <= final(self).spec_cap(),
            match result {
                Ok(_) => n > 0 ==> final(self).spec_cap() == grown_cap(
                    old(self).spec_cap(),
                    old(self)@.len(),
                    n as nat,
                ),
                Err(_) => final(self).spec_cap() == old(self).spec_cap(),
            },
    {
        unwrap_alloc(self.try_reserve(n))
    }

    /// Pushes `value` to the end of this stack.
    pub fn push(&mut self, value: T) -> (result: Result<(), AllocError>)
        requires
            old(self).wf(),
        ensures
            final(self).wf(),
            old(self)@.len() < old(self).spec_cap() ==> result is Ok,
            old(self)@.len() == old(self).spec_cap() && !can_hold::<T>(
                grown_cap(old(self).spec_cap(), old(self)@.len(), 1),
            ) ==> result is Err,
            old(self)@.len() == old(self).spec_cap() && can_hold::<T>(
                grown_cap(old(self).spec_cap(), old(self)@.len(), 1),
            ) ==> asked::<T>(
                (grown_cap(old(self).spec_cap(), old(self)@.len(), 1) - old(self)@.len()) as usize,
                result is Ok,
            ),
            match result {
                Ok(_) => {
                    &&& final(self)@ == old(self)@.push(value)
                    &&& final(self).spec_cap() == if old(self)@.len() < old(self).spec_cap() {
                        old(self).spec_cap()
                    } else {
                        grown_cap(old(self).spec_cap(), old(self)@.len(), 1)
                    }
                },
                Err(_) => final(self)@ == old(self)@ && final(self).spec_cap() == old(
                    self,
                ).spec_cap(),
            },
    {
        let room = if self.elems.len() == self.cap {
            self.try_reserve(1)
        } else {
            Some(())
        };
        self.push_in(room, value)
    }

    /// Pushes `value` to the end of this stack if there is room for it, as `room` tells.
    fn push_in(&mut self, room: Option<()>, value: T) -> (result: Result<(), AllocError>)
        requires
            old(self).wf(),
            room is Some ==> old(self)@.len() < old(self).spec_cap(),
        ensures
            final(self).wf(),
            final(self).spec_cap() == old(self).spec_cap(),
            match room {
                Some(_) => result is Ok && final(self)@ == old(self)@.push(value),
                None => result is Err && final(self)@ == old(self)@,
            },
    {
        match room {
            Some(_) => {
                self.elems.push(value);
                Ok(())
            },
            None => Err(AllocError),
        }
    }

    /// Pops a value at the end of this stack.
    ///
    /// Returns `None` if this stack does not own any elements.
    pub fn pop(&mut self) -> (result: Option<T>)
        requires
            old(self).wf(),
        ensures
            final(self).wf(),
            final(self).spec_cap() == old(self).spec_cap(),
            old(self)@.len() == 0 ==> result is None && final(self)@ == old(self)@,
            old(self)@.len() > 0 ==> result == Some(old(self)@.last()) && final(self)@ == old(
                self,
            )@.drop_last(),
    {
        if self.len() == 0 {
            return None;
        }
        Some(self.pop_unchecked())
    }

    /// Pops a value at the end of this stack, which has one.
    pub fn pop_unchecked(&mut self) -> (value: T)
        requires
            old(self).wf(),
            old(self)@.len() > 0,
        ensures
            final(self).wf(),
            final(self).spec_cap() == old(self).spec_cap(),
            value == old(self)@.last(),
            final(self)@ == old(self)@.drop_last(),
    {
        self.elems.pop().unwrap()
    }

    /// Returns an amount of elements in this stack.
    pub fn len(&self) -> (len: usize)
        ensures
            len == self@.len(),
    {
        self.elems.len()
    }

    /// Returns capacity of this stack.
    pub fn cap(&self) -> (cap: usize)
        ensures
            cap == self.spec_cap(),
    {
        self.cap
    }

    /// Attempts to create a new stack with pre-allocated `capacity`.
    ///
    /// Returns `None` if the global allocator failed to allocate enough space, or `capacity` is
    /// equal to zero or greater than `isize::MAX`, or the elements would take more bytes than
    /// that.
    pub fn try_with_capacity(capacity: usize) -> (result: Option<Self>)
        ensures
            capacity == 0 || capacity > isize::MAX ==> result is None,
            array_layout::<T>(capacity as nat) is None ==> result is None,
            0 < capacity <= isize::MAX && array_layout::<T>(capacity as nat) is Some
                ==> asked::<T>(capacity, result is Some),
            result matches Some(stack) ==> stack.wf() && stack@ == Seq::<T>::empty()
                && stack.spec_cap() == capacity,
    {
        if capacity == 0 || capacity > isize::MAX as usize {
            return None;
        }
        if Layout::array::<T>(capacity).is_err() {
            return None;
        }
        let mut stack: Stack<T> = Stack::new();
        let more = stack.missing(capacity);
        let answer = stack.elems.try_reserve(more);
        let granted = answer.is_ok();
        assert(asked::<T>(more, granted));
        stack.of_capacity(capacity, granted)
    }

    /// This stack, which has no element, with `capacity` if the memory for that was `granted`.
    fn of_capacity(self, capacity: usize, granted: bool) -> (result: Option<Self>)
        requires
            self.wf(),
            self@.len() == 0,
            array_layout::<T>(capacity as nat) is Some,
        ensures
            match result {
                Some(stack) => {
                    &&& granted
                    &&& stack.wf()
                    &&& stack@ == Seq::<T>::empty()
                    &&& stack.spec_cap() == capacity
                },
                None => !granted,
            },
    {
        let mut stack = self;
        match stack.with_reserved(capacity, granted) {
            Some(_) => Some(stack),
            None => None,
        }
    }

    /// Attempts to reserve capacity to fit at least `n` more elements.
    ///
    /// Returns `None` if either the global allocator failed to allocate enough capacity or the
    /// elements would take more than `isize::MAX` bytes. The new capacity is amortized, i.e. it
    /// might be greater than asked for.
    pub fn try_reserve(&mut self, n: usize) -> (result: Option<()>)
        requires
            old(self).wf(),
        ensures
            final(self).wf(),
            final(self)@ == old(self)@,
            n == 0 ==> result is Some && final(self).spec_cap() == old(self).spec_cap(),
            n > 0 && !can_hold::<T>(
                grown_cap(old(self).spec_cap(), old(self)@.len(), n as nat),
            ) ==> result is None,
            n > 0 && can_hold::<T>(
                grown_cap(old(self).spec_cap(), old(self)@.len(), n as nat),
            ) ==> asked::<T>(
                (grown_cap(old(self).spec_cap(), old(self)@.len(), n as nat) - old(self)@.len())
                    as usize,
                result is Some,
            ),
            result is Some ==> old(self)@.len() + n <= final(self).spec_cap(),
            old(self).spec_cap() <= final(self).spec_cap(),
            match result {
                Some(_) => n > 0 ==> final(self).spec_cap() == grown_cap(
                    old(self).spec_cap(),
                    old(self)@.len(),
                    n as nat,
                ),
                None => final(self).spec_cap() == old(self).spec_cap(),
            },
    {
        if n == 0 {
            return Some(());
        }
        let new_cap: usize = match self.grown_capacity(n) {
            Some(new_cap) => new_cap,
            None => {
                return None;
            },
        };
        let more = self.missing(new_cap);
        let answer = self.elems.try_reserve(more);
        let granted = answer.is_ok();
        assert(asked::<T>(more, granted));
        self.with_reserved(new_cap, granted)
    }

    /// The capacity that this stack gets to take `n` more elements, where they can exist.
    fn grown_capacity(&self, n: usize) -> (result: Option<usize>)
        requires
            self.wf(),
            n > 0,
        ensures
            ({
                let new_cap = grown_cap(self.spec_cap(), self@.len(), n as nat);
                result == if can_hold::<T>(new_cap) {
                    Some(new_cap as usize)
                } else {
                    None
                }
            }),
    {
        let doubled: usize = match self.cap.checked_mul(2) {
            Some(doubled) => doubled,
            None => {
                return None;
            },
        };
        let least: usize = match self.elems.len().checked_add(n) {
            Some(least) => least,
            None => {
                return None;
            },
        };
        let new_cap: usize = if doubled >= least {
            doubled
        } else {
            least
        };
        if Layout::array::<T>(new_cap).is_err() {
            return None;
        }
        Some(new_cap)
    }

    /// How many elements more than there are a stack of capacity `new_cap` has room for.
    fn missing(&self, new_cap: usize) -> (more: usize)
        requires
            self@.len() <= new_cap,
        ensures
            more == new_cap - self@.len(),
    {
        new_cap - self.elems.len()
    }

    /// Takes the capacity `new_cap` if the memory for that was `granted`.
    fn with_reserved(&mut self, new_cap: usize, granted: bool) -> (result: Option<()>)
        requires
            old(self).wf(),
            old(self)@.len() <= new_cap,
            array_layout::<T>(new_cap as nat) is Some,
        ensures
            final(self).wf(),
            final(self)@ == old(self)@,
            (result is Some) == granted,
            final(self).spec_cap() == if granted {
                new_cap as nat
            } else {
                old(self).spec_cap()
            },
    {
        if !granted {
            return None;
        }
        self.cap = new_cap;
        Some(())
    }
}

impl<T> Default for Stack<T> {
    fn default() -> (stack: Self)
        ensures
            stack.wf(),
            stack@ == Seq::<T>::empty(),
            stack.spec_cap() == 0,
    {
        Self::new()
    }
}

/// A stack that grows gets twice its capacity, or as much as is needed, whichever is more.
pub proof fn lemma_grown_cap(cap: nat, len: nat, n: nat)
    ensures
        grown_cap(cap, len, n) >= cap + cap,
        grown_cap(cap, len, n) >= len + n,
        grown_cap(cap, len, n) == cap + cap || grown_cap(cap, len, n) == len + n,
{
}

/// There can be memory for as many elements as can be counted and take up to `isize::MAX` bytes.
pub proof fn lemma_can_hold<T>(cap: nat)
    requires
        is_pow2(vstd::layout::align_of::<T>() as int),
    ensures
        can_hold::<T>(cap) <==> cap <= usize::MAX && cap * vstd::layout::size_of::<T>()
            + vstd::layout::align_of::<T>() <= isize::MAX + 1,
{
    lemma_array_layout::<T>(cap);
}

} // verus!

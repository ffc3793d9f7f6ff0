//! The room of an array after its values.
use crate::vec::Vec;
use std::mem::ManuallyDrop;
use vstd::prelude::*;

verus! {

/// A place in the room of an array, with a value or without one.
///
/// The value is not dropped with its place.
pub struct Place<T> {
    value: Option<ManuallyDrop<T>>,
}

impl<T> View for Place<T> {
    type V = Option<T>;

    closed spec fn view(&self) -> Option<T> {
        match self.value {
            Some(value) => Some(value@),
            None => None,
        }
    }
}

impl<T> Place<T> {
    /// A place without a value.
    fn empty() -> (place: Place<T>)
        ensures
            place@ is None,
    {
        Place { value: None }
    }

    /// A place with `value`.
    fn holding(value: T) -> (place: Place<T>)
        ensures
            place@ == Some(value),
    {
        Place { value: Some(ManuallyDrop::new(value)) }
    }

    /// Puts `value` in the place. A value that was there is not dropped.
    pub fn write(&mut self, value: T)
        ensures
            final(self)@ == Some(value),
    {
        self.value = Some(ManuallyDrop::new(value));
    }

    /// Takes the value out of the place.
    fn take(self) -> (value: T)
        requires
            self@ is Some,
        ensures
            self@ == Some(value),
    {
        ManuallyDrop::into_inner(self.value.unwrap())
    }
}

/// What the places hold.
pub open spec fn held<T>(places: Seq<Place<T>>) -> Seq<Option<T>> {
    places.map_values(|place: Place<T>| place@)
}

impl<T> Vec<T> {
    /// Returns the remaining room of the array as a slice of places, each with a value or without
    /// one.
    ///
    /// The slice can be used to fill the array with values before marking them as its elements
    /// with [`Vec::set_len`]. Values of no size have more places than memory can hold.
    pub fn spare_capacity_mut(&mut self) -> (places: &mut [Place<T>])
        requires
            old(self).wf(),
            vstd::layout::size_of::<T>() > 0,
        ensures
            places@.len() == old(self).spec_capacity() - old(self)@.len(),
            old(self).knows_spare() ==> held(places@) == old(self).spare(),
            !old(self).knows_spare() ==> forall|i: int|
                0 <= i < places@.len() ==> (#[trigger] places@[i])@ is None,
            final(self)@ == old(self)@,
            final(self).ptr() == old(self).ptr(),
            final(self).cap() == old(self).cap(),
            final(self).spare() == held(final(places)@),
    {
        let len: usize = self.capacity() - self.elems.len();
        if self.spare.len() != len {
            self.spare = no_values(len);
        }
        self.spare.as_mut_slice()
    }

    /// Forces the length of this array to `new_len`.
    ///
    /// Where that is more, what was put in the room after the values becomes part of them. Where
    /// it is less, the values that are no longer part of it stay in the room, and are not dropped
    /// with the array.
    pub fn set_len(&mut self, new_len: usize)
        requires
            old(self).wf(),
            new_len <= old(self).spec_capacity(),
            new_len > old(self)@.len() ==> {
                &&& old(self).knows_spare()
                &&& forall|i: int|
                    0 <= i < new_len - old(self)@.len() ==> (#[trigger] old(self).spare()[i])
                        is Some
            },
        ensures
            final(self).wf(),
            final(self).ptr() == old(self).ptr(),
            final(self).cap() == old(self).cap(),
            final(self)@.len() == new_len,
            final(self).contents().take(old(self)@.len() as int) == old(self)@.map_values(
                |value: T| Some(value),
            ),
            vstd::layout::size_of::<T>() > 0 ==> final(self).knows_spare(),
            old(self).knows_spare() ==> final(self).knows_spare() && final(self).contents()
                == old(self).contents(),
    {
        let len = self.elems.len();
        let room: usize = self.capacity() - len;
        if self.spare.len() != room {
            self.spare = if core::mem::size_of::<T>() == 0 {
                std::vec::Vec::new()
            } else {
                no_values(room)
            };
        }
        let ghost before = self.spare@;
        if new_len > len {
            let mut rest = self.spare.split_off(new_len - len);
            std::mem::swap(&mut rest, &mut self.spare);
            let ghost taken = rest@;
            let ghost left = self.spare@;
            assert forall|i: int| 0 <= i < taken.len() implies (#[trigger] taken[i])@ is Some by {
                assert(taken[i]@ == old(self).spare()[i]);
            }
            for place in it: rest
                invariant
                    it.seq() == taken,
                    taken.len() == new_len - len,
                    len == old(self)@.len(),
                    self.ptr == old(self).ptr,
                    self.cap == old(self).cap,
                    self.spare@ == left,
                    self.elems@.len() == len + it.index(),
                    forall|i: int| 0 <= i < taken.len() ==> (#[trigger] taken[i])@ is Some,
                    forall|i: int| 0 <= i < len ==> #[trigger] self.elems@[i] == old(self)@[i],
                    forall|i: int|
                        len <= i < len + it.index() ==> Some(#[trigger] self.elems@[i])
                            == taken[i - len]@,
            {
                self.elems.push(place.take());
            }
            assert(before =~= taken + left);
            assert(self.contents() =~= old(self)@.map_values(|value: T| Some(value)) + held(taken)
                + held(left));
        } else {
            let rest = self.elems.split_off(new_len);
            let mut places = some_values(rest);
            places.append(&mut self.spare);
            self.spare = places;
        }
        assert(self.contents().take(len as int) =~= old(self)@.map_values(
            |value: T| Some(value),
        ));
        assert(old(self).knows_spare() ==> self.contents() =~= old(self).contents());
    }
}

/// `len` places without a value.
fn no_values<T>(len: usize) -> (places: std::vec::Vec<Place<T>>)
    ensures
        places@.len() == len,
        forall|i: int| 0 <= i < len ==> (#[trigger] places@[i])@ is None,
{
    let mut places: std::vec::Vec<Place<T>> = std::vec::Vec::new();
    while places.len() < len
        invariant
            places@.len() <= len,
            forall|i: int| 0 <= i < places@.len() ==> (#[trigger] places@[i])@ is None,
        decreases len - places@.len(),
    {
        places.push(Place::empty());
    }
    places
}

/// Places with the values `values`.
fn some_values<T>(values: std::vec::Vec<T>) -> (places: std::vec::Vec<Place<T>>)
    ensures
        places@.len() == values@.len(),
        forall|i: int| 0 <= i < values@.len() ==> (#[trigger] places@[i])@ == Some(values@[i]),
{
    let ghost whole = values@;
    let mut places: std::vec::Vec<Place<T>> = std::vec::Vec::new();
    for value in it: values
        invariant
            it.seq() == whole,
            places@.len() == it.index(),
            forall|i: int| 0 <= i < places@.len() ==> (#[trigger] places@[i])@ == Some(whole[i]),
    {
        places.push(Place::holding(value));
    }
    places
}

} // verus!

//! Arrays of the items of an iterator.
use crate::align::larger;
use crate::arena::Arena;
use crate::layout::{layout_of, lemma_type_layout};
use crate::raw::ArenaView;
use crate::vec::{made_room, made_with_capacity, room_layout, AllocError, Vec};
use vstd::prelude::*;
use vstd::std_specs::iter::IteratorSpec;

verus! {

/// Calls [`Iterator::size_hint`] for its lower bound. Nothing is known of it: an iterator may
/// give any number there.
#[verifier::external_body]
pub(crate) fn lower_bound<I: Iterator>(iter: &I) -> (least: usize) {
    iter.size_hint().0
}

/// The iterator gave `least` as the lower bound of how many items are left of it.
pub closed spec fn hinted<I: Iterator>(iter: &I, least: usize) -> bool {
    call_ensures(lower_bound::<I>, (iter,), least)
}

/// That an iterator gave a lower bound means that [`Iterator::size_hint`] was called on it, and
/// gave that number.
pub(crate) proof fn lemma_hinted<I: Iterator>(iter: &I, least: usize)
    ensures
        hinted(iter, least) <==> call_ensures(lower_bound::<I>, (iter,), least),
{
}

/// Conversion from an [`Iterator`] inside an [`Arena`].
///
/// By implementing it for a type, one defines how it will be created from an iterator and an
/// arena. This is common for types which describe a collection of some kind.
pub trait FromIteratorIn<T>: Sized {
    /// What the collection holds.
    spec fn collected(&self) -> Seq<T>;

    /// Whether the collection lives inside the arena in state `v`.
    spec fn collected_in(&self, v: ArenaView) -> bool;

    /// A collection of `items`, at least `least` of them as their iterator said, was to be created
    /// in the arena in state `v`, and `result` given: what decides whether there is one, and what
    /// it takes.
    spec fn collects(
        v: ArenaView,
        least: usize,
        items: Seq<T>,
        result: Result<Self, AllocError>,
        w: ArenaView,
    ) -> bool;

    /// Creates a collection inside `arena` of the items of `iterator`.
    ///
    /// Fails if the arena failed to allocate enough room.
    fn from_iter_in<I>(iterator: I, arena: &mut Arena) -> (result: Result<Self, AllocError>)
        where
            I: Iterator<Item = T>,
        requires
            old(arena).wf(),
            iterator.obeys_prophetic_iter_laws(),
            iterator.decrease() is Some,
        ensures
            final(arena).wf(),
            old(arena)@.keeps(final(arena)@),
            result matches Ok(value) ==> value.collected() == iterator.remaining()
                && value.collected_in(final(arena)@),
            exists|least: usize|
                {
                    &&& #[trigger] hinted(&iterator, least)
                    &&& Self::collects(
                        old(arena)@,
                        least,
                        iterator.remaining(),
                        result,
                        final(arena)@,
                    )
                },
    ;
}

impl<T> FromIteratorIn<T> for Vec<T> {
    open spec fn collected(&self) -> Seq<T> {
        self@
    }

    open spec fn collected_in(&self, v: ArenaView) -> bool {
        self.lives_in(v)
    }

    /// It is what is created with room made at once for as many of the items as the iterator said.
    /// Where the items need no memory, nothing can keep it from being created.
    open spec fn collects(
        v: ArenaView,
        least: usize,
        items: Seq<T>,
        result: Result<Vec<T>, AllocError>,
        w: ArenaView,
    ) -> bool {
        &&& collected_with(v, least, items, result, w)
        &&& needs_no_memory::<T>(v) && items.len() <= usize::MAX ==> result is Ok
    }

    fn from_iter_in<I>(iterator: I, arena: &mut Arena) -> (result: Result<Vec<T>, AllocError>)
        where
            I: Iterator<Item = T>,
    {
        let least = lower_bound(&iterator);
        assert(hinted(&iterator, least));
        Vec::from_iter_hinted(iterator, least, arena)
    }
}

/// A trait providing the `collect_in` method, implemented for every [`Iterator`].
pub trait CollectIn: Iterator + Sized {
    /// Creates a collection inside `arena` of the items of this iterator.
    ///
    /// Fails if the arena failed to allocate enough room.
    fn collect_in<B>(self, arena: &mut Arena) -> (result: Result<B, AllocError>)
        where
            B: FromIteratorIn<Self::Item>,
        requires
            old(arena).wf(),
            self.obeys_prophetic_iter_laws(),
            self.decrease() is Some,
        ensures
            final(arena).wf(),
            old(arena)@.keeps(final(arena)@),
            result matches Ok(value) ==> value.collected() == self.remaining()
                && value.collected_in(final(arena)@),
            exists|least: usize|
                {
                    &&& #[trigger] hinted(&self, least)
                    &&& B::collects(
                        old(arena)@,
                        least,
                        self.remaining(),
                        result,
                        final(arena)@,
                    )
                },
    ;
}

impl<J: Iterator> CollectIn for J {
    fn collect_in<B>(self, arena: &mut Arena) -> (result: Result<B, AllocError>)
        where
            B: FromIteratorIn<J::Item>,
    {
        B::from_iter_in(self, arena)
    }
}

/// Values of type `T` are of no size, and the arena has a place for them.
pub open spec fn needs_no_memory<T>(v: ArenaView) -> bool {
    &&& vstd::layout::size_of::<T>() == 0
    &&& v.fits(layout_of::<T>())
}

/// Room for values of no size is of no size.
proof fn lemma_no_size<T>(cap: int)
    requires
        0 <= cap <= usize::MAX,
        layout_of::<T>().valid(),
        vstd::layout::align_of::<T>() <= usize::MAX,
    ensures
        vstd::layout::size_of::<T>() == 0 ==> room_layout::<T>(cap) == Some(layout_of::<T>()),
{
    let size = vstd::layout::size_of::<T>();
    assert(size == 0 ==> cap * size == 0) by (nonlinear_arith);
}

/// An array of `items` was to be made with room for `least` of them at first, and `result` given.
pub open spec fn collected_with<T>(
    v: ArenaView,
    least: usize,
    items: Seq<T>,
    result: Result<Vec<T>, AllocError>,
    w: ArenaView,
) -> bool {
    exists|made: Result<Vec<T>, AllocError>, mid: ArenaView|
        {
            &&& #[trigger] made_with_capacity(v, least, made, mid)
            &&& match made {
                Ok(vec) => exists|new: Vec<T>, granted: bool|
                    {
                        &&& #[trigger] vec.extended_with(mid, least, items, granted, &new, w)
                        &&& granted == (result is Ok)
                        &&& result matches Ok(value) ==> value == new
                    },
                Err(_) => result is Err && w == mid,
            }
        }
}

impl<T> Vec<T> {
    /// `new` has the `items` too, appended one by one, where there is memory for that
    /// (`granted`). Else it has those before the first that there is no memory for.
    pub open spec fn appended(
        &self,
        v: ArenaView,
        items: Seq<T>,
        granted: bool,
        new: &Vec<T>,
        w: ArenaView,
    ) -> bool
        decreases items.len(),
    {
        if items.len() == 0 {
            granted && new == self && w == v
        } else {
            ||| !granted && self.appended(v, items.drop_last(), false, new, w)
            ||| exists|mid: Vec<T>, u: ArenaView|
                {
                    &&& self.appended(v, items.drop_last(), true, &mid, u)
                    &&& #[trigger] mid.room_for_one(u, granted, new, w)
                    &&& granted ==> new@ == mid@.push(items.last())
                }
        }
    }

    /// `new` has the `items` too, appended one by one after room for `least` of them was made,
    /// where there is memory for that.
    pub open spec fn extended_with(
        &self,
        v: ArenaView,
        least: usize,
        items: Seq<T>,
        granted: bool,
        new: &Vec<T>,
        w: ArenaView,
    ) -> bool {
        ||| !granted && self.room_for(v, least as int, false, new, w)
        ||| exists|made: Vec<T>, mid: ArenaView|
            {
                &&& #[trigger] self.room_for(v, least as int, true, &made, mid)
                &&& made@ == self@
                &&& made.appended(mid, items, granted, new, w)
            }
    }

    /// One item more is appended to those before.
    proof fn lemma_appended_one(
        &self,
        v: ArenaView,
        items: Seq<T>,
        mid: Vec<T>,
        u: ArenaView,
        granted: bool,
        new: &Vec<T>,
        w: ArenaView,
    )
        requires
            items.len() > 0,
            self.appended(v, items.drop_last(), true, &mid, u),
            mid.room_for_one(u, granted, new, w),
            granted ==> new@ == mid@.push(items.last()),
        ensures
            self.appended(v, items, granted, new, w),
    {
    }

    /// Where there is no memory for one of the first items, there is none for all.
    proof fn lemma_appended_less(
        &self,
        v: ArenaView,
        items: Seq<T>,
        n: int,
        new: &Vec<T>,
        w: ArenaView,
    )
        requires
            0 <= n <= items.len(),
            self.appended(v, items.take(n), false, new, w),
        ensures
            self.appended(v, items, false, new, w),
        decreases items.len(),
    {
        if n == items.len() {
            assert(items.take(n) =~= items);
        } else {
            assert(items.drop_last().take(n) =~= items.take(n));
            self.lemma_appended_less(v, items.drop_last(), n, new, w);
        }
    }

    /// Appends the items of `iter` to the array.
    ///
    /// Fails if the arena failed to allocate enough room; the items that there was room for are
    /// in the array then.
    pub fn extend<I>(&mut self, iter: I, arena: &mut Arena) -> (result: Result<(), AllocError>)
        where
            I: Iterator<Item = T>,
        requires
            old(arena).wf(),
            old(self).lives_in(old(arena)@),
            iter.obeys_prophetic_iter_laws(),
            iter.decrease() is Some,
        ensures
            final(arena).wf(),
            old(arena)@.keeps(final(arena)@),
            final(self).lives_in(final(arena)@),
            result is Ok ==> final(self)@ == old(self)@ + iter.remaining(),
            result is Err ==> exists|n: int|
                0 <= n <= iter.remaining().len() && final(self)@ == old(self)@
                    + #[trigger] iter.remaining().take(n),
            exists|least: usize|
                {
                    &&& #[trigger] hinted(&iter, least)
                    &&& old(self).extended_with(
                        old(arena)@,
                        least,
                        iter.remaining(),
                        result is Ok,
                        final(self),
                        final(arena)@,
                    )
                },
            vstd::layout::size_of::<T>() == 0 && old(self)@.len() == 0 && iter.remaining().len()
                <= usize::MAX ==> result is Ok && old(self).kept(
                old(arena)@,
                final(self),
                final(arena)@,
            ),
    {
        let least = lower_bound(&iter);
        assert(hinted(&iter, least));
        self.extend_hinted(iter, least, arena)
    }

    /// Appends the items of `iter` to the array, with room for `least` of them made at once.
    ///
    /// Where they are no more than that, or there is room for all of them already, nothing else
    /// decides whether they are appended.
    ///
    /// Fails if the arena failed to allocate enough room; the items that there was room for are
    /// in the array then.
    pub fn extend_hinted<I>(&mut self, iter: I, least: usize, arena: &mut Arena) -> (result: Result<
        (),
        AllocError,
    >)
        where
            I: Iterator<Item = T>,
        requires
            old(arena).wf(),
            old(self).lives_in(old(arena)@),
            iter.obeys_prophetic_iter_laws(),
            iter.decrease() is Some,
        ensures
            final(arena).wf(),
            old(arena)@.keeps(final(arena)@),
            final(self).lives_in(final(arena)@),
            result is Ok ==> final(self)@ == old(self)@ + iter.remaining(),
            result is Err ==> exists|n: int|
                0 <= n <= iter.remaining().len() && final(self)@ == old(self)@
                    + #[trigger] iter.remaining().take(n),
            old(self).extended_with(
                old(arena)@,
                least,
                iter.remaining(),
                result is Ok,
                final(self),
                final(arena)@,
            ),
            iter.remaining().len() <= least ==> old(self).room_for(
                old(arena)@,
                least as int,
                result is Ok,
                final(self),
                final(arena)@,
            ),
            old(self)@.len() + larger(least as int, iter.remaining().len() as int)
                <= old(self).spec_capacity() ==> result is Ok && old(self).kept(
                old(arena)@,
                final(self),
                final(arena)@,
            ),
    {
        match self.reserve(least, arena) {
            Ok(()) => {},
            Err(error) => {
                proof {
                    assert(old(self)@ + iter.remaining().take(0) =~= old(self)@);
                }
                return Err(error);
            },
        }
        let ghost made = *self;
        let ghost v = arena@;
        let mut items = iter;
        let ghost mut taken: int = 0;
        assert(old(self)@ + iter.remaining().take(0) =~= old(self)@);
        assert(iter.remaining().take(0) =~= Seq::<T>::empty());
        loop
            invariant
                arena.wf(),
                old(self).room_for(old(arena)@, least as int, true, &made, v),
                made.appended(v, iter.remaining().take(taken), true, self, arena@),
                old(arena)@.keeps(arena@),
                self.lives_in(arena@),
                items.obeys_prophetic_iter_laws(),
                items.decrease() is Some,
                0 <= taken <= iter.remaining().len(),
                items.remaining() == iter.remaining().skip(taken),
                self.elems@ == old(self)@ + iter.remaining().take(taken),
                old(self)@.len() + iter.remaining().len() <= made.spec_capacity() ==> made.kept(
                    v,
                    self,
                    arena@,
                ),
                made@ == old(self)@,
                iter.remaining().len() <= least ==> old(self)@.len() + iter.remaining().len()
                    <= made.spec_capacity(),
                old(self)@.len() + larger(least as int, iter.remaining().len() as int)
                    <= old(self).spec_capacity() ==> old(self).kept(old(arena)@, &made, v),
            ensures
                arena.wf(),
                old(arena)@.keeps(arena@),
                self.lives_in(arena@),
                self.elems@ == old(self)@ + iter.remaining(),
                made.appended(v, iter.remaining(), true, self, arena@),
                old(self)@.len() + iter.remaining().len() <= made.spec_capacity() ==> made.kept(
                    v,
                    self,
                    arena@,
                ),
            decreases items.decrease()->0,
        {
            match items.next() {
                Some(item) => {
                    let ghost before = *self;
                    let ghost u = arena@;
                    let ghost next = iter.remaining().take(taken + 1);
                    assert(next =~= iter.remaining().take(taken).push(item));
                    assert(next.drop_last() =~= iter.remaining().take(taken));
                    match self.push(item, arena) {
                        Ok(()) => {},
                        Err(error) => {
                            proof {
                                made.lemma_appended_one(v, next, before, u, false, self, arena@);
                                made.lemma_appended_less(
                                    v,
                                    iter.remaining(),
                                    taken + 1,
                                    self,
                                    arena@,
                                );
                            }
                            return Err(error);
                        },
                    }
                    proof {
                        made.lemma_appended_one(v, next, before, u, true, self, arena@);
                        taken = taken + 1;
                    }
                },
                None => {
                    assert(iter.remaining().take(taken) =~= iter.remaining());
                    break;
                },
            }
        }
        Ok(())
    }

    /// Creates an array inside `arena` of the items of `iterator`, with room for `least` of them
    /// made at once.
    ///
    /// Where they are no more than that, nothing else decides whether it is created.
    pub fn from_iter_hinted<I>(iterator: I, least: usize, arena: &mut Arena) -> (result: Result<
        Vec<T>,
        AllocError,
    >)
        where
            I: Iterator<Item = T>,
        requires
            old(arena).wf(),
            iterator.obeys_prophetic_iter_laws(),
            iterator.decrease() is Some,
        ensures
            final(arena).wf(),
            old(arena)@.keeps(final(arena)@),
            result matches Ok(vec) ==> vec@ == iterator.remaining() && vec.lives_in(
                final(arena)@,
            ),
            collected_with(
                old(arena)@,
                least,
                iterator.remaining(),
                result,
                final(arena)@,
            ),
            needs_no_memory::<T>(old(arena)@) && iterator.remaining().len() <= usize::MAX
                ==> result is Ok,
            iterator.remaining().len() <= least ==> match result {
                Ok(vec) => vec.cap() == least && made_room::<T>(
                    old(arena)@,
                    least,
                    Some(vec.ptr()),
                    final(arena)@,
                ),
                Err(_) => made_room::<T>(old(arena)@, least, None, final(arena)@),
            },
    {
        let ghost v = arena@;
        vstd::layout::layout_for_type_is_valid::<T>();
        let made: Result<Vec<T>, AllocError> = Vec::with_capacity_in(least, arena);
        proof {
            lemma_type_layout(layout_of::<T>().size, layout_of::<T>().align);
            lemma_no_size::<T>(least as int);
            assert(made_with_capacity(v, least, made, arena@));
        }
        let mut vec: Vec<T> = match made {
            Ok(vec) => vec,
            Err(error) => {
                return Err(error);
            },
        };
        let ghost mid = arena@;
        let extended = vec.extend_hinted(iterator, least, arena);
        let ghost granted = extended is Ok;
        assert(made->Ok_0.extended_with(mid, least, iterator.remaining(), granted, &vec, arena@));
        match extended {
            Ok(()) => {
                assert(vec@ =~= iterator.remaining());
                Ok(vec)
            },
            Err(error) => Err(error),
        }
    }
}

} // verus!

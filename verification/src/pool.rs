//! Arenas that wait to be used again.
use crate::align::larger;
use crate::arena::Arena;
use crate::error::AllocError;
use crate::heap::{asked, lemma_asked};
use crate::laws::lemma_rewound_twice;
use crate::layout::array_layout;
use crate::raw::ArenaView;
use crate::stack::{can_hold, grown_cap, lemma_can_hold, Stack};
use std::collections::TryReserveError;
use std::ops::{Deref, DerefMut};
use vstd::arithmetic::power2::is_pow2;
use vstd::prelude::*;

verus! {

/// A wrapper around an [`Arena`] claimed from an [`ArenaPool`].
///
/// The wrapper can be used as any other arena. [`ArenaPoolGuard::reclaim`] gives the arena back
/// to a pool.
pub struct ArenaPoolGuard {
    arena: Arena,
}

impl ArenaPoolGuard {
    /// The claimed arena.
    pub closed spec fn arena(&self) -> &Arena {
        &self.arena
    }

    /// Gives the arena back to `pool`.
    ///
    /// Fails if the global allocator failed to allocate enough memory; the arena is gone then.
    pub fn reclaim(self, pool: &mut ArenaPool) -> (result: Result<(), AllocError>)
        requires
            self.arena().wf(),
            old(pool).wf(),
        ensures
            final(pool).wf(),
            old(pool).inserted(self.arena()@, result is Ok, final(pool)),
    {
        pool.insert(self.arena)
    }
}

impl Deref for ArenaPoolGuard {
    type Target = Arena;

    fn deref(&self) -> (arena: &Arena)
        ensures
            arena == self.arena(),
    {
        &self.arena
    }
}

impl DerefMut for ArenaPoolGuard {
    fn deref_mut(&mut self) -> (arena: &mut Arena)
        ensures
            &*arena == old(self).arena(),
            &*final(arena) == final(self).arena(),
    {
        &mut self.arena
    }
}

/// A pool of arenas for reuse.
///
/// It is made to serve a fixed amount of users, and takes more arenas where they are inserted.
pub struct ArenaPool {
    stack: Stack<Arena>,
}

impl View for ArenaPool {
    type V = Seq<ArenaView>;

    closed spec fn view(&self) -> Seq<ArenaView> {
        self.stack@.map_values(|arena: Arena| arena@)
    }
}

impl ArenaPool {
    /// How many arenas there is room for without asking for memory.
    pub closed spec fn spec_cap(&self) -> nat {
        self.stack.spec_cap()
    }

    /// The arenas are sound, and all their blocks are given back but those that others hold.
    pub closed spec fn wf(&self) -> bool {
        &&& self.stack.wf()
        &&& forall|i: int| 0 <= i < self.stack@.len() ==> (#[trigger] self.stack@[i]).wf()
        &&& forall|i: int|
            0 <= i < self.stack@.len() ==> (#[trigger] self.stack@[i])@.rewound()
                == self.stack@[i]@
    }

    /// `new` is this pool with an arena in state `v` inserted, if `granted`.
    pub open spec fn inserted(&self, v: ArenaView, granted: bool, new: &ArenaPool) -> bool {
        &&& self@.len() < self.spec_cap() ==> granted
        &&& self@.len() == self.spec_cap() && !can_hold::<Arena>(
            grown_cap(self.spec_cap(), self@.len(), 1),
        ) ==> !granted
        &&& self@.len() == self.spec_cap() && can_hold::<Arena>(
            grown_cap(self.spec_cap(), self@.len(), 1),
        ) ==> asked::<Arena>(
            (grown_cap(self.spec_cap(), self@.len(), 1) - self@.len()) as usize,
            granted,
        )
        &&& if granted {
            &&& new@ == self@.push(v.rewound())
            &&& new.spec_cap() == if self@.len() < self.spec_cap() {
                self.spec_cap()
            } else {
                grown_cap(self.spec_cap(), self@.len(), 1)
            }
        } else {
            new@ == self@ && new.spec_cap() == self.spec_cap()
        }
    }

    /// Constructs a new pool which holds `size` arenas.
    ///
    /// Fails if the global allocator failed to allocate enough memory.
    pub fn new(size: usize) -> (result: Result<ArenaPool, AllocError>)
        ensures
            array_layout::<Arena>(size as nat) is None || size > isize::MAX ==> result is Err,
            size == 0 ==> result is Ok,
            0 < size <= isize::MAX && array_layout::<Arena>(size as nat) is Some
                ==> asked::<Arena>(size, result is Ok),
            result matches Ok(pool) ==> {
                &&& pool.wf()
                &&& pool.spec_cap() == size
                &&& pool@ == Seq::new(size as nat, |i: int| ArenaView::empty())
            },
    {
        ArenaPool::filled(size, Stack::with_capacity(size))
    }

    /// A pool of `size` new arenas on `stack`, if there is one.
    fn filled(size: usize, stack: Result<Stack<Arena>, AllocError>) -> (result: Result<
        ArenaPool,
        AllocError,
    >)
        requires
            stack matches Ok(stack) ==> stack.wf() && stack@.len() == 0 && stack.spec_cap() == size,
        ensures
            match stack {
                Ok(_) => {
                    &&& result matches Ok(pool)
                    &&& pool.wf()
                    &&& pool.spec_cap() == size
                    &&& pool@ == Seq::new(size as nat, |i: int| ArenaView::empty())
                },
                Err(_) => result is Err,
            },
    {
        let mut stack: Stack<Arena> = match stack {
            Ok(stack) => stack,
            Err(error) => {
                return Err(error);
            },
        };
        let mut i: usize = 0;
        while i < size
            invariant
                i <= size,
                stack.wf(),
                stack.spec_cap() == size,
                stack@.len() == i,
                forall|j: int| 0 <= j < i ==> (#[trigger] stack@[j]).wf(),
                forall|j: int| 0 <= j < i ==> (#[trigger] stack@[j])@ == ArenaView::empty(),
            decreases size - i,
        {
            let pushed = stack.push(Arena::new());
            assert(pushed is Ok);
            i = i + 1;
        }
        let pool = ArenaPool { stack };
        assert(pool@ =~= Seq::new(size as nat, |i: int| ArenaView::empty()));
        Ok(pool)
    }

    /// How many arenas wait in the pool.
    pub fn len(&self) -> (len: usize)
        ensures
            len == self@.len(),
    {
        self.stack.len()
    }

    /// Returns an available arena of this pool, with all its blocks given back.
    ///
    /// Returns `None` if this pool doesn't own any arenas.
    pub fn get(&mut self) -> (result: Option<ArenaPoolGuard>)
        requires
            old(self).wf(),
        ensures
            final(self).wf(),
            final(self).spec_cap() == old(self).spec_cap(),
            old(self)@.len() == 0 ==> result is None && final(self)@ == old(self)@,
            old(self)@.len() > 0 ==> result is Some && final(self)@ == old(self)@.drop_last(),
            result matches Some(guard) ==> {
                &&& guard.arena().wf()
                &&& guard.arena()@ == old(self)@.last()
                &&& guard.arena()@.rewound() == guard.arena()@
            },
    {
        let ghost before = self.stack@;
        match self.stack.pop() {
            Some(arena) => {
                assert(before[before.len() - 1] == arena);
                assert(self@ =~= old(self)@.drop_last());
                Some(ArenaPoolGuard { arena })
            },
            None => None,
        }
    }

    /// Returns an arena from this pool if it's not empty, otherwise creates a new one.
    pub fn get_or_insert(&mut self) -> (guard: ArenaPoolGuard)
        requires
            old(self).wf(),
        ensures
            final(self).wf(),
            final(self).spec_cap() == old(self).spec_cap(),
            guard.arena().wf(),
            guard.arena()@.rewound() == guard.arena()@,
            old(self)@.len() == 0 ==> final(self)@ == old(self)@ && guard.arena()@
                == ArenaView::empty(),
            old(self)@.len() > 0 ==> final(self)@ == old(self)@.drop_last() && guard.arena()@
                == old(self)@.last(),
    {
        match self.get() {
            Some(guard) => guard,
            None => ArenaPoolGuard { arena: Arena::new() },
        }
    }

    /// Inserts `arena` into this pool, with all its blocks given back, making it accessible via
    /// [`ArenaPool::get`].
    ///
    /// Fails if the global allocator failed to allocate enough memory; the arena is gone then.
    pub fn insert(&mut self, arena: Arena) -> (result: Result<(), AllocError>)
        requires
            old(self).wf(),
            arena.wf(),
        ensures
            final(self).wf(),
            old(self).inserted(arena@, result is Ok, final(self)),
    {
        let ghost v = arena@;
        let mut arena = arena;
        proof {
            lemma_rewound_twice(v);
        }
        arena.reset();
        let result = self.stack.push(arena);
        proof {
            if result is Ok {
                assert(self@ =~= old(self)@.push(v.rewound()));
            } else {
                assert(self@ =~= old(self)@);
            }
        }
        result
    }
}

/// An arena that is inserted is the next one to be got, with all its blocks given back, and the
/// pool is then as it was.
pub proof fn lemma_insert_get(pool: &ArenaPool, v: ArenaView, new: &ArenaPool)
    requires
        pool.inserted(v, true, new),
    ensures
        new@.len() > 0,
        new@.last() == v.rewound(),
        new@.drop_last() == pool@,
{
    assert(new@.drop_last() =~= pool@);
}

impl Default for ArenaPool {
    fn default() -> (pool: ArenaPool)
        ensures
            pool.wf(),
            pool@.len() == 0,
            pool.spec_cap() == 0,
    {
        ArenaPool { stack: Stack::new() }
    }
}

/// An arena is inserted wherever there is room for it, which then stays as it is. Where there is
/// not it is refused only if there cannot be room for one more, or
/// [`std::vec::Vec::try_reserve`] was asked for it and failed, and the pool is as it was then.
pub proof fn lemma_inserted(pool: &ArenaPool, v: ArenaView, granted: bool, new: &ArenaPool)
    requires
        pool.inserted(v, granted, new),
        pool@.len() <= pool.spec_cap() <= usize::MAX,
        is_pow2(vstd::layout::align_of::<Arena>() as int),
    ensures
        pool@.len() < pool.spec_cap() ==> granted && new.spec_cap() == pool.spec_cap(),
        granted && pool@.len() == pool.spec_cap() ==> new.spec_cap() >= pool.spec_cap() + 1
            && new.spec_cap() >= 2 * pool.spec_cap() && (new.spec_cap() == 2 * pool.spec_cap()
            || new.spec_cap() == pool@.len() + 1),
        !granted ==> {
            let cap = larger(2 * pool.spec_cap() as int, 1);
            &&& pool@.len() == pool.spec_cap()
            &&& new@ == pool@
            &&& new.spec_cap() == pool.spec_cap()
            &&& cap > usize::MAX || cap * vstd::layout::size_of::<Arena>()
                + vstd::layout::align_of::<Arena>() > isize::MAX + 1 || exists|
                memory: &mut std::vec::Vec<Arena>,
                error: TryReserveError,
            | #[trigger]
                call_ensures(
                    std::vec::Vec::<Arena>::try_reserve,
                    (memory, larger(pool.spec_cap() as int, 1) as usize),
                    Err::<(), TryReserveError>(error),
                )
        },
{
    let cap = grown_cap(pool.spec_cap(), pool@.len(), 1);
    lemma_can_hold::<Arena>(cap);
    lemma_asked::<Arena>((cap - pool@.len()) as usize);
    if !granted {
        assert(cap - pool@.len() == larger(pool.spec_cap() as int, 1));
    }
}

} // verus!

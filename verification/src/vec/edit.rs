//! Taking values out of an array.
use crate::vec::Vec;
use vstd::prelude::*;
use vstd::std_specs::cmp::PartialEqSpec;

verus! {

impl<T> Vec<T> {
    /// Removes the last element from the array and returns it, or `None` if it is empty.
    pub fn pop(&mut self) -> (result: Option<T>)
        requires
            old(self).wf(),
        ensures
            final(self).wf(),
            final(self).ptr() == old(self).ptr(),
            final(self).cap() == old(self).cap(),
            old(self)@.len() == 0 ==> result is None && final(self)@ == old(self)@,
            old(self)@.len() > 0 ==> result == Some(old(self)@.last()) && final(self)@
                == old(self)@.drop_last(),
    {
        self.elems.pop()
    }

    /// Removes and returns the last element of the array if the predicate returns `true`, or
    /// `None` if it returns `false` or the array is empty. It is not called on an empty array.
    pub fn pop_if<F>(&mut self, pred: F) -> (result: Option<T>)
        where
            F: FnOnce(&mut T) -> bool,
        requires
            old(self).wf(),
            old(self)@.len() > 0 ==> forall|last: &mut T|
                *last == old(self)@.last() ==> #[trigger] pred.requires((last,)),
        ensures
            final(self).wf(),
            final(self).ptr() == old(self).ptr(),
            final(self).cap() == old(self).cap(),
            old(self)@.len() == 0 ==> result is None && final(self)@ == old(self)@,
            old(self)@.len() > 0 ==> exists|last: &mut T, removed: bool|
                {
                    &&& *last == old(self)@.last()
                    &&& #[trigger] pred.ensures((last,), removed)
                    &&& removed == (result is Some)
                    &&& match result {
                        Some(value) => value == *final(last) && final(self)@
                            == old(self)@.drop_last(),
                        None => final(self)@ == old(self)@.drop_last().push(*final(last)),
                    }
                },
    {
        let len = self.elems.len();
        if len == 0 {
            return None;
        }
        if pred(&mut self.elems[len - 1]) {
            let result = self.elems.pop();
            assert(self.elems@ =~= old(self)@.drop_last());
            result
        } else {
            assert(self.elems@ =~= old(self)@.drop_last().push(self.elems@[len - 1]));
            None
        }
    }

    /// Shortens the array, keeping the first `len` elements and dropping the rest.
    ///
    /// If `len` is greater or equal to the array's current length, this has no effect. The room
    /// stays as it is.
    pub fn truncate(&mut self, len: usize)
        requires
            old(self).wf(),
        ensures
            final(self).wf(),
            final(self).ptr() == old(self).ptr(),
            final(self).cap() == old(self).cap(),
            final(self)@ == if len < old(self)@.len() {
                old(self)@.take(len as int)
            } else {
                old(self)@
            },
    {
        self.elems.truncate(len);
        assert(old(self)@.subrange(0, len as int) =~= old(self)@.take(len as int));
    }

    /// Removes an element from the array and returns it. It is replaced by the last element.
    pub fn swap_remove(&mut self, index: usize) -> (value: T)
        requires
            old(self).wf(),
            index < old(self)@.len(),
        ensures
            final(self).wf(),
            final(self).ptr() == old(self).ptr(),
            final(self).cap() == old(self).cap(),
            value == old(self)@[index as int],
            final(self)@ == old(self)@.update(index as int, old(self)@.last()).drop_last(),
    {
        self.elems.swap_remove(index)
    }

    /// Removes and returns the element at position `index`, shifting all elements after it to
    /// the left.
    pub fn remove(&mut self, index: usize) -> (value: T)
        requires
            old(self).wf(),
            index < old(self)@.len(),
        ensures
            final(self).wf(),
            final(self).ptr() == old(self).ptr(),
            final(self).cap() == old(self).cap(),
            value == old(self)@[index as int],
            final(self)@ == old(self)@.remove(index as int),
    {
        self.elems.remove(index)
    }

    /// Clears the array, removing all values. The room stays as it is.
    pub fn clear(&mut self)
        requires
            old(self).wf(),
        ensures
            final(self).wf(),
            final(self).ptr() == old(self).ptr(),
            final(self).cap() == old(self).cap(),
            final(self)@.len() == 0,
    {
        self.elems.clear();
    }

    /// Retains only the elements specified by the predicate.
    ///
    /// Each element is visited exactly once in the original order, which the retained elements
    /// keep.
    pub fn retain<F>(&mut self, f: F)
        where
            F: FnMut(&T) -> bool,
        requires
            old(self).wf(),
            forall|i: int|
                0 <= i < old(self)@.len() ==> #[trigger] f.requires((&old(self)@[i],)),
        ensures
            final(self).wf(),
            final(self).ptr() == old(self).ptr(),
            final(self).cap() == old(self).cap(),
            exists|keep: Seq<bool>|
                {
                    &&& keep.len() == old(self)@.len()
                    &&& forall|i: int|
                        0 <= i < keep.len() ==> f.ensures((&old(self)@[i],), #[trigger] keep[i])
                    &&& final(self)@ == #[trigger] retained(old(self)@, keep)
                },
    {
        let ghost given = f;
        let ghost whole = self.elems@;
        let ghost mut keep: Seq<bool> = Seq::empty();
        let mut f = f;
        let len = self.elems.len();
        let mut read: usize = 0;
        let mut write: usize = 0;
        while read < len
            invariant
                f == given,
                write <= read <= len,
                len == whole.len(),
                self.elems@.len() == len,
                self.ptr == old(self).ptr,
                self.cap == old(self).cap,
                keep.len() == read,
                forall|i: int| 0 <= i < len ==> #[trigger] f.requires((&whole[i],)),
                forall|i: int| 0 <= i < read ==> f.ensures((&whole[i],), #[trigger] keep[i]),
                self.elems@.take(write as int) == retained(whole.take(read as int), keep),
                forall|j: int| read <= j < len ==> #[trigger] self.elems@[j] == whole[j],
            decreases len - read,
        {
            let wanted = f(&self.elems[read]);
            proof {
                let kept = keep;
                keep = keep.push(wanted);
                assert(keep.drop_last() =~= kept);
                lemma_retained_step(whole, keep, read as int);
            }
            if wanted {
                let ghost before = self.elems@;
                swap_back(&mut self.elems, write, read);
                proof {
                    lemma_swapped_back(before, self.elems@, write as int, read as int);
                }
                write = write + 1;
            }
            read = read + 1;
        }
        assert(whole.take(len as int) =~= whole);
        self.elems.truncate(write);
        assert(self.elems@ =~= retained(whole, keep));
    }

    /// Retains only the elements specified by the predicate, passing a mutable reference to it.
    ///
    /// Each element is visited exactly once in the original order, which the retained elements
    /// keep.
    pub fn retain_mut<F>(&mut self, f: F)
        where
            F: FnMut(&mut T) -> bool,
        requires
            old(self).wf(),
            forall|i: int, item: &mut T|
                0 <= i < old(self)@.len() && *item == #[trigger] old(self)@[i]
                    ==> #[trigger] f.requires((item,)),
        ensures
            final(self).wf(),
            final(self).ptr() == old(self).ptr(),
            final(self).cap() == old(self).cap(),
            exists|after: Seq<T>, keep: Seq<bool>|
                {
                    &&& after.len() == old(self)@.len()
                    &&& keep.len() == old(self)@.len()
                    &&& forall|i: int| #[trigger]
                        has_index(keep, i) ==> exists|item: &mut T, wanted: bool|
                            {
                                &&& *item == old(self)@[i]
                                &&& *final(item) == after[i]
                                &&& wanted == keep[i]
                                &&& #[trigger] f.ensures((item,), wanted)
                            }
                    &&& final(self)@ == #[trigger] retained(after, keep)
                },
    {
        let ghost given = f;
        let ghost whole = self.elems@;
        let ghost mut after: Seq<T> = Seq::empty();
        let ghost mut keep: Seq<bool> = Seq::empty();
        let mut f = f;
        let len = self.elems.len();
        let mut read: usize = 0;
        let mut write: usize = 0;
        while read < len
            invariant
                f == given,
                write <= read <= len,
                len == whole.len(),
                self.elems@.len() == len,
                self.ptr == old(self).ptr,
                self.cap == old(self).cap,
                keep.len() == read,
                after.len() == read,
                forall|i: int, item: &mut T|
                    0 <= i < len && *item == #[trigger] whole[i] ==> #[trigger] f.requires(
                        (item,),
                    ),
                forall|i: int| #[trigger]
                    has_index(keep, i) ==> exists|item: &mut T, wanted: bool|
                        {
                            &&& *item == whole[i]
                            &&& *final(item) == after[i]
                            &&& wanted == keep[i]
                            &&& #[trigger] f.ensures((item,), wanted)
                        },
                self.elems@.take(write as int) == retained(after, keep),
                forall|j: int| read <= j < len ==> #[trigger] self.elems@[j] == whole[j],
            decreases len - read,
        {
            let wanted = f(&mut self.elems[read]);
            proof {
                let kept = keep;
                let seen = after;
                keep = keep.push(wanted);
                after = after.push(self.elems@[read as int]);
                assert(keep.drop_last() =~= kept);
                assert(after.drop_last() =~= seen);
                assert forall|i: int| #[trigger]
                    has_index(keep, i) implies exists|item: &mut T, wanted: bool|
                    {
                        &&& *item == whole[i]
                        &&& *final(item) == after[i]
                        &&& wanted == keep[i]
                        &&& #[trigger] f.ensures((item,), wanted)
                    } by {
                    if i < read {
                        assert(has_index(kept, i));
                        assert(kept[i] == keep[i]);
                        assert(seen[i] == after[i]);
                    }
                }
            }
            if wanted {
                let ghost before = self.elems@;
                swap_back(&mut self.elems, write, read);
                proof {
                    lemma_swapped_back(before, self.elems@, write as int, read as int);
                }
                write = write + 1;
            }
            read = read + 1;
        }
        self.elems.truncate(write);
        assert(self.elems@ =~= retained(after, keep));
    }

    /// Removes all but the first of consecutive elements satisfying a given equality relation.
    ///
    /// The `f` function is passed references to an element and to the last one kept before it,
    /// and must determine if they compare equal: if `f(a, b)` returns `true`, `a` is removed.
    pub fn dedup_by<F>(&mut self, f: F)
        where
            F: FnMut(&mut T, &mut T) -> bool,
        requires
            old(self).wf(),
            forall|i: int, j: int, a: &mut T, b: &mut T|
                0 <= j < i < old(self)@.len() && *a == #[trigger] old(self)@[i] && *b
                    == #[trigger] old(self)@[j] ==> #[trigger] f.requires((a, b)),
            forall|i: int, a: &mut T, b: &mut T, c: &mut T, d: &mut T, same: bool|
                0 < i < old(self)@.len() && *a == #[trigger] old(self)@[i] && #[trigger] f.ensures(
                    (c, d),
                    same,
                ) && (*b == *final(d) || (!same && *b == *final(c))) ==> #[trigger] f.requires(
                    (a, b),
                ),
        ensures
            final(self).wf(),
            final(self).ptr() == old(self).ptr(),
            final(self).cap() == old(self).cap(),
            forall|same: spec_fn(T, T) -> bool|
                (forall|a: &mut T, b: &mut T, result: bool| #[trigger]
                    f.ensures((a, b), result) ==> *final(a) == *a && *final(b) == *b && result
                        == same(*a, *b)) ==> final(self)@ == #[trigger] deduped_by(
                    old(self)@,
                    same,
                ),
            old(self)@.len() == 0 ==> final(self)@ == old(self)@,
            old(self)@.len() > 0 ==> exists|steps: Seq<Seq<T>>|
                {
                    &&& steps.len() == old(self)@.len()
                    &&& steps[0] == seq![old(self)@[0]]
                    &&& forall|i: int| #[trigger]
                        has_index(steps, i) && i > 0 ==> exists|a: &mut T, b: &mut T, same: bool|
                            {
                                &&& *a == old(self)@[i]
                                &&& *b == steps[i - 1].last()
                                &&& #[trigger] f.ensures((a, b), same)
                                &&& steps[i] == compared(
                                    steps[i - 1],
                                    *final(a),
                                    *final(b),
                                    same,
                                )
                            }
                    &&& final(self)@ == #[trigger] steps.last()
                },
    {
        let ghost given = f;
        let ghost whole = self.elems@;
        let len = self.elems.len();
        if len == 0 {
            return;
        }
        let ghost mut steps: Seq<Seq<T>> = seq![seq![whole[0]]];
        let mut f = f;
        let mut read: usize = 1;
        let mut write: usize = 1;
        assert(self.elems@.take(1) =~= steps.last());
        proof {
            lemma_deduped_first(whole);
        }
        while read < len
            invariant
                f == given,
                1 <= write <= read <= len,
                len == whole.len(),
                self.elems@.len() == len,
                self.ptr == old(self).ptr,
                self.cap == old(self).cap,
                forall|i: int, a: &mut T, b: &mut T, c: &mut T, d: &mut T, same: bool|
                    0 < i < len && *a == #[trigger] whole[i] && #[trigger] f.ensures((c, d), same)
                        && (*b == *final(d) || (!same && *b == *final(c)))
                        ==> #[trigger] f.requires((a, b)),
                forall|i: int, a: &mut T, b: &mut T|
                    read <= i < len && *a == #[trigger] whole[i] && *b == self.elems@[write - 1]
                        ==> #[trigger] f.requires((a, b)),
                forall|same: spec_fn(T, T) -> bool|
                    (forall|a: &mut T, b: &mut T, result: bool| #[trigger]
                        f.ensures((a, b), result) ==> *final(a) == *a && *final(b) == *b && result
                            == same(*a, *b)) ==> self.elems@.take(write as int)
                        == #[trigger] deduped_by(whole.take(read as int), same),
                steps.len() == read,
                steps[0] == seq![whole[0]],
                forall|i: int| #[trigger]
                    has_index(steps, i) && i > 0 ==> exists|a: &mut T, b: &mut T, same: bool|
                        {
                            &&& *a == whole[i]
                            &&& *b == steps[i - 1].last()
                            &&& #[trigger] f.ensures((a, b), same)
                            &&& steps[i] == compared(steps[i - 1], *final(a), *final(b), same)
                        },
                self.elems@.take(write as int) == steps.last(),
                forall|j: int| read <= j < len ==> #[trigger] self.elems@[j] == whole[j],
            decreases len - read,
        {
            let ghost before = self.elems@;
            assert(before[write - 1] == steps.last().last());
            let (left, right) = self.elems.as_mut_slice().split_at_mut(read);
            let same = f(&mut right[0], &mut left[write - 1]);
            let ghost after = self.elems@;
            proof {
                let past = steps;
                let step = compared(
                    past.last(),
                    after[read as int],
                    after[write - 1],
                    same,
                );
                steps = steps.push(step);
                assert forall|relation: spec_fn(T, T) -> bool|
                    (forall|a: &mut T, b: &mut T, result: bool| #[trigger]
                        f.ensures((a, b), result) ==> *final(a) == *a && *final(b) == *b && result
                            == relation(*a, *b)) implies step == #[trigger] deduped_by(
                    whole.take(read + 1),
                    relation,
                ) by {
                    assert(before.take(write as int) == deduped_by(
                        whole.take(read as int),
                        relation,
                    ));
                    assert(whole.take(read + 1).drop_last() =~= whole.take(read as int));
                    assert(past.last().drop_last().push(past.last().last()) =~= past.last());
                }
                assert forall|i: int| #[trigger]
                    has_index(steps, i) && i > 0 implies exists|a: &mut T, b: &mut T, same: bool|
                    {
                        &&& *a == whole[i]
                        &&& *b == steps[i - 1].last()
                        &&& #[trigger] f.ensures((a, b), same)
                        &&& steps[i] == compared(steps[i - 1], *final(a), *final(b), same)
                    } by {
                    if i < read {
                        assert(has_index(past, i));
                        assert(past[i] == steps[i]);
                        assert(past[i - 1] == steps[i - 1]);
                    }
                }
            }
            if !same {
                swap_back(&mut self.elems, write, read);
                proof {
                    lemma_swapped_back(after, self.elems@, write as int, read as int);
                }
                write = write + 1;
            }
            assert(self.elems@.take(write as int) =~= steps.last());
            read = read + 1;
        }
        assert(whole.take(len as int) =~= whole);
        self.elems.truncate(write);
        assert(self.elems@ =~= steps.last());
    }

    /// Removes all but the first of consecutive elements that resolve to the same key.
    pub fn dedup_by_key<F, K>(&mut self, key: F)
        where
            F: FnMut(&mut T) -> K,
            K: PartialEq,
        requires
            old(self).wf(),
            forall|i: int, a: &mut T|
                0 <= i < old(self)@.len() && *a == #[trigger] old(self)@[i]
                    ==> #[trigger] key.requires((a,)),
            forall|a: &mut T, x: K, b: &mut T| #[trigger]
                key.ensures((a,), x) && *b == *final(a) ==> #[trigger] key.requires((b,)),
        ensures
            final(self).wf(),
            final(self).ptr() == old(self).ptr(),
            final(self).cap() == old(self).cap(),
            forall|of: spec_fn(T) -> K|
                K::obeys_eq_spec() && (forall|a: &mut T, x: K| #[trigger]
                    key.ensures((a,), x) ==> *final(a) == *a && x == of(*a)) ==> final(self)@
                    == #[trigger] deduped_by_key(old(self)@, of),
            old(self)@.len() == 0 ==> final(self)@ == old(self)@,
            old(self)@.len() > 0 ==> exists|steps: Seq<Seq<T>>|
                {
                    &&& steps.len() == old(self)@.len()
                    &&& steps[0] == seq![old(self)@[0]]
                    &&& forall|i: int| #[trigger]
                        has_index(steps, i) && i > 0 ==> exists|a: &mut T, b: &mut T, x: K, y: K|
                            {
                                &&& *a == old(self)@[i]
                                &&& *b == steps[i - 1].last()
                                &&& #[trigger] key.ensures((a,), x)
                                &&& #[trigger] key.ensures((b,), y)
                                &&& same_key(steps[i - 1], *final(a), *final(b), x, y, steps[i])
                            }
                    &&& final(self)@ == #[trigger] steps.last()
                },
    {
        let ghost given = key;
        let ghost whole = self.elems@;
        let len = self.elems.len();
        if len == 0 {
            return;
        }
        let ghost mut steps: Seq<Seq<T>> = seq![seq![whole[0]]];
        let mut key = key;
        let mut read: usize = 1;
        let mut write: usize = 1;
        assert(self.elems@.take(1) =~= steps.last());
        proof {
            lemma_deduped_first(whole);
        }
        while read < len
            invariant
                key == given,
                1 <= write <= read <= len,
                len == whole.len(),
                self.elems@.len() == len,
                self.ptr == old(self).ptr,
                self.cap == old(self).cap,
                forall|i: int, a: &mut T|
                    0 <= i < len && *a == #[trigger] whole[i] ==> #[trigger] key.requires((a,)),
                forall|a: &mut T, x: K, b: &mut T| #[trigger]
                    key.ensures((a,), x) && *b == *final(a) ==> #[trigger] key.requires((b,)),
                forall|b: &mut T|
                    *b == self.elems@[write - 1] ==> #[trigger] key.requires((b,)),
                forall|of: spec_fn(T) -> K|
                    K::obeys_eq_spec() && (forall|a: &mut T, x: K| #[trigger]
                        key.ensures((a,), x) ==> *final(a) == *a && x == of(*a))
                        ==> self.elems@.take(write as int) == #[trigger] deduped_by_key(
                        whole.take(read as int),
                        of,
                    ),
                steps.len() == read,
                steps[0] == seq![whole[0]],
                forall|i: int| #[trigger]
                    has_index(steps, i) && i > 0 ==> exists|a: &mut T, b: &mut T, x: K, y: K|
                        {
                            &&& *a == whole[i]
                            &&& *b == steps[i - 1].last()
                            &&& #[trigger] key.ensures((a,), x)
                            &&& #[trigger] key.ensures((b,), y)
                            &&& same_key(steps[i - 1], *final(a), *final(b), x, y, steps[i])
                        },
                self.elems@.take(write as int) == steps.last(),
                forall|j: int| read <= j < len ==> #[trigger] self.elems@[j] == whole[j],
            decreases len - read,
        {
            let ghost before = self.elems@;
            assert(before[write - 1] == steps.last().last());
            let x = key(&mut self.elems[read]);
            let y = key(&mut self.elems[write - 1]);
            let same = x.eq(&y);
            let ghost after = self.elems@;
            proof {
                let past = steps;
                let step = compared(
                    past.last(),
                    after[read as int],
                    after[write - 1],
                    same,
                );
                steps = steps.push(step);
                assert forall|of: spec_fn(T) -> K|
                    K::obeys_eq_spec() && (forall|a: &mut T, x: K| #[trigger]
                        key.ensures((a,), x) ==> *final(a) == *a && x == of(*a)) implies step
                    == #[trigger] deduped_by_key(whole.take(read + 1), of) by {
                    assert(before.take(write as int) == deduped_by_key(
                        whole.take(read as int),
                        of,
                    ));
                    assert(whole.take(read + 1).drop_last() =~= whole.take(read as int));
                    assert(past.last().drop_last().push(past.last().last()) =~= past.last());
                }
                assert forall|i: int| #[trigger]
                    has_index(steps, i) && i > 0 implies exists|a: &mut T, b: &mut T, x: K, y: K|
                    {
                        &&& *a == whole[i]
                        &&& *b == steps[i - 1].last()
                        &&& #[trigger] key.ensures((a,), x)
                        &&& #[trigger] key.ensures((b,), y)
                        &&& same_key(steps[i - 1], *final(a), *final(b), x, y, steps[i])
                    } by {
                    if i < read {
                        assert(has_index(past, i));
                        assert(past[i] == steps[i]);
                        assert(past[i - 1] == steps[i - 1]);
                    }
                }
            }
            if !same {
                swap_back(&mut self.elems, write, read);
                proof {
                    lemma_swapped_back(after, self.elems@, write as int, read as int);
                }
                write = write + 1;
            }
            assert(self.elems@.take(write as int) =~= steps.last());
            read = read + 1;
        }
        assert(whole.take(len as int) =~= whole);
        self.elems.truncate(write);
        assert(self.elems@ =~= steps.last());
    }
}

/// `i` is a position in `s`.
pub open spec fn has_index<A>(s: Seq<A>, i: int) -> bool {
    0 <= i < s.len()
}

/// Those of `s` that are to be kept, in their order.
pub open spec fn retained<T>(s: Seq<T>, keep: Seq<bool>) -> Seq<T>
    decreases s.len(),
{
    if s.len() == 0 {
        s
    } else if keep.last() {
        retained(s.drop_last(), keep.drop_last()).push(s.last())
    } else {
        retained(s.drop_last(), keep.drop_last())
    }
}

/// What is kept of one value more.
proof fn lemma_retained_step<T>(s: Seq<T>, keep: Seq<bool>, n: int)
    requires
        0 <= n < s.len(),
        keep.len() == n + 1,
    ensures
        retained(s.take(n + 1), keep) == if keep.last() {
            retained(s.take(n), keep.drop_last()).push(s[n])
        } else {
            retained(s.take(n), keep.drop_last())
        },
{
    assert(s.take(n + 1).drop_last() =~= s.take(n));
}

/// Exchanges the value at `read` with that at `write`, which comes no later.
fn swap_back<T>(values: &mut std::vec::Vec<T>, write: usize, read: usize)
    requires
        write <= read < old(values)@.len(),
    ensures
        final(values)@ == old(values)@.update(write as int, old(values)@[read as int]).update(
            read as int,
            old(values)@[write as int],
        ),
{
    if write < read {
        let (left, right) = values.as_mut_slice().split_at_mut(read);
        std::mem::swap(&mut left[write], &mut right[0]);
    }
}

/// A value that went back is the last of those before, and nothing after it moved.
proof fn lemma_swapped_back<T>(before: Seq<T>, after: Seq<T>, write: int, read: int)
    requires
        0 <= write <= read < before.len(),
        after == before.update(write, before[read]).update(read, before[write]),
    ensures
        after.take(write + 1) == before.take(write).push(before[read]),
        forall|j: int| read < j < before.len() ==> #[trigger] after[j] == before[j],
        after.len() == before.len(),
{
    assert(after.take(write + 1) =~= before.take(write).push(before[read]));
}

/// What is kept after `a` was compared with `b`, the last one kept before.
pub open spec fn compared<T>(kept: Seq<T>, a: T, b: T, same: bool) -> Seq<T> {
    if same {
        kept.drop_last().push(b)
    } else {
        kept.drop_last().push(b).push(a)
    }
}

/// `next` is what is kept after `a` was compared with `b`, the last one kept before, by their
/// keys `x` and `y`.
pub open spec fn same_key<T, K: PartialEq>(
    kept: Seq<T>,
    a: T,
    b: T,
    x: K,
    y: K,
    next: Seq<T>,
) -> bool {
    &&& exists|same: bool| #[trigger]
        call_ensures(<K as PartialEq>::eq, (&x, &y), same) && next == compared(kept, a, b, same)
    &&& K::obeys_eq_spec() ==> next == compared(kept, a, b, x.eq_spec(&y))
}

/// The value at `i` is kept if it is the first one, or a comparison told it from the last one kept
/// before it.
pub open spec fn unlike<T: PartialEq>(s: Seq<T>, keep: Seq<bool>, i: int) -> bool {
    let before = retained(s.take(i), keep.take(i));
    if before.len() == 0 {
        keep[i]
    } else {
        call_ensures(<T as PartialEq>::eq, (&s[i], &before.last()), !keep[i])
    }
}

/// `s` without those that are the `same` as the last one kept before them.
pub open spec fn deduped_by<T>(s: Seq<T>, same: spec_fn(T, T) -> bool) -> Seq<T>
    decreases s.len(),
{
    if s.len() == 0 {
        s
    } else {
        let kept = deduped_by(s.drop_last(), same);
        if kept.len() > 0 && same(s.last(), kept.last()) {
            kept
        } else {
            kept.push(s.last())
        }
    }
}

/// `s` without those that have the same key as the last one kept before them, where `of` gives
/// the key.
pub open spec fn deduped_by_key<T, K: PartialEq>(s: Seq<T>, of: spec_fn(T) -> K) -> Seq<T> {
    deduped_by(s, |a: T, b: T| of(a).eq_spec(&of(b)))
}

/// The first one is kept.
proof fn lemma_deduped_first<T>(s: Seq<T>)
    requires
        s.len() > 0,
    ensures
        forall|same: spec_fn(T, T) -> bool| #[trigger]
            deduped_by(s.take(1), same) == seq![s[0]],
{
    assert forall|same: spec_fn(T, T) -> bool| #[trigger]
        deduped_by(s.take(1), same) == seq![s[0]] by {
        assert(s.take(1).drop_last().len() == 0);
        assert(deduped_by(s.take(1).drop_last(), same).len() == 0);
        assert(deduped_by(s.take(1), same) =~= seq![s[0]]);
    }
}

/// `s` without those that equal the last one kept before them.
pub open spec fn deduped<T: PartialEq>(s: Seq<T>) -> Seq<T>
    decreases s.len(),
{
    if s.len() == 0 {
        s
    } else {
        let kept = deduped(s.drop_last());
        if kept.len() > 0 && s.last().eq_spec(&kept.last()) {
            kept
        } else {
            kept.push(s.last())
        }
    }
}

impl<T: PartialEq> Vec<T> {
    /// Removes consecutive repeated elements in the array: each that equals the last one kept
    /// before it.
    pub fn dedup(&mut self)
        requires
            old(self).wf(),
        ensures
            final(self).wf(),
            final(self).ptr() == old(self).ptr(),
            final(self).cap() == old(self).cap(),
            exists|keep: Seq<bool>|
                {
                    &&& keep.len() == old(self)@.len()
                    &&& forall|i: int| #[trigger] has_index(keep, i) ==> unlike(old(self)@, keep, i)
                    &&& final(self)@ == #[trigger] retained(old(self)@, keep)
                },
            T::obeys_eq_spec() ==> final(self)@ == deduped(old(self)@),
    {
        let ghost whole = self.elems@;
        let ghost mut keep: Seq<bool> = Seq::empty();
        let len = self.elems.len();
        let mut read: usize = 0;
        let mut write: usize = 0;
        assert(whole.take(0) =~= Seq::<T>::empty());
        while read < len
            invariant
                write <= read <= len,
                read > 0 ==> write > 0,
                len == whole.len(),
                self.elems@.len() == len,
                self.ptr == old(self).ptr,
                self.cap == old(self).cap,
                keep.len() == read,
                forall|i: int| #[trigger] has_index(keep, i) ==> unlike(whole, keep, i),
                self.elems@.take(write as int) == retained(whole.take(read as int), keep),
                T::obeys_eq_spec() ==> self.elems@.take(write as int) == deduped(
                    whole.take(read as int),
                ),
                forall|j: int| read <= j < len ==> #[trigger] self.elems@[j] == whole[j],
            decreases len - read,
        {
            let wanted = write == 0 || !self.elems[read].eq(&self.elems[write - 1]);
            proof {
                let kept = keep;
                keep = keep.push(wanted);
                assert(keep.drop_last() =~= kept);
                assert(keep.take(read as int) =~= kept);
                let before = retained(whole.take(read as int), kept);
                assert(before == self.elems@.take(write as int));
                assert(write > 0 ==> before.last() == self.elems@[write - 1]);
                assert forall|i: int| #[trigger] has_index(keep, i) implies unlike(
                    whole,
                    keep,
                    i,
                ) by {
                    if i < read {
                        assert(has_index(kept, i));
                        assert(keep.take(i) =~= kept.take(i));
                    }
                }
                lemma_retained_step(whole, keep, read as int);
                assert(whole.take(read + 1).drop_last() =~= whole.take(read as int));
            }
            if wanted {
                let ghost before = self.elems@;
                swap_back(&mut self.elems, write, read);
                proof {
                    lemma_swapped_back(before, self.elems@, write as int, read as int);
                }
                write = write + 1;
            }
            read = read + 1;
        }
        assert(whole.take(len as int) =~= whole);
        self.elems.truncate(write);
        assert(self.elems@ =~= retained(whole, keep));
    }
}

} // verus!

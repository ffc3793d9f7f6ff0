//! What holds of an array over several calls.
use crate::align::{larger, lemma_align_down_floor};
use crate::layout::{array_layout, Layout};
use crate::placement::{free_at, lemma_grown_in_place};
use crate::raw::ArenaView;
use crate::vec::clones::extended_with;
use crate::vec::collect::needs_no_memory;
use crate::vec::edit::{compared, deduped, deduped_by, has_index, retained};
use crate::vec::range::{first_of, in_bounds, last_of};
use crate::vec::splice::inserted;
use crate::vec::traits::lexicographic;
use crate::vec::{made_with_capacity, regrown, room_layout, AllocError, Bound, FromIteratorIn, Vec};
use vstd::arithmetic::power2::is_pow2;
use vstd::prelude::*;
use vstd::std_specs::cmp::{PartialEqSpec, PartialOrdSpec};

verus! {

/// What is pushed is popped, and the array is then as it was.
pub proof fn lemma_push_pop<T>(s: Seq<T>, value: T)
    ensures
        s.push(value).last() == value,
        s.push(value).drop_last() == s,
{
    assert(s.push(value).drop_last() =~= s);
}

/// What is inserted is removed from the same position, and the array is then as it was.
pub proof fn lemma_insert_remove<T>(s: Seq<T>, index: int, value: T)
    requires
        0 <= index <= s.len(),
    ensures
        s.insert(index, value)[index] == value,
        s.insert(index, value).remove(index) == s,
{
    assert(s.insert(index, value).remove(index) =~= s);
}

/// What was split off and appended again makes up the array as it was.
pub proof fn lemma_split_append<T>(s: Seq<T>, at: int)
    requires
        0 <= at <= s.len(),
    ensures
        s.take(at) + s.skip(at) == s,
{
    assert(s.take(at) + s.skip(at) =~= s);
}

/// A range that is replaced with its own elements leaves the array as it was.
pub proof fn lemma_splice_same<T>(s: Seq<T>, start: Bound, end: Bound)
    requires
        in_bounds(start, end, s.len() as int),
    ensures
        s.take(first_of(start)) + s.subrange(first_of(start), last_of(end, s.len() as int))
            + s.skip(last_of(end, s.len() as int)) == s,
{
    let len = s.len() as int;
    assert(s.take(first_of(start)) + s.subrange(first_of(start), last_of(end, len)) + s.skip(
        last_of(end, len),
    ) =~= s);
}

/// A full range takes all elements out.
pub proof fn lemma_drain_all<T>(s: Seq<T>)
    ensures
        in_bounds(Bound::Unbounded, Bound::Unbounded, s.len() as int),
        s.subrange(
            first_of(Bound::Unbounded),
            last_of(Bound::Unbounded, s.len() as int),
        ) == s,
        s.take(first_of(Bound::Unbounded)) + s.skip(last_of(Bound::Unbounded, s.len() as int))
            == Seq::<T>::empty(),
{
    assert(s.subrange(0, s.len() as int) =~= s);
    assert(s.take(0) + s.skip(s.len() as int) =~= Seq::<T>::empty());
}

/// The positions that are to be kept, in their order.
pub open spec fn kept_positions(keep: Seq<bool>) -> Seq<int>
    decreases keep.len(),
{
    if keep.len() == 0 {
        Seq::empty()
    } else if keep.last() {
        kept_positions(keep.drop_last()).push(keep.len() - 1)
    } else {
        kept_positions(keep.drop_last())
    }
}

/// What is retained are the elements at the positions that are to be kept: all of them, no
/// others, and in their order.
pub proof fn lemma_retained<T>(s: Seq<T>, keep: Seq<bool>)
    requires
        keep.len() == s.len(),
    ensures
        retained(s, keep).len() == kept_positions(keep).len(),
        forall|j: int|
            0 <= j < kept_positions(keep).len() ==> 0 <= #[trigger] kept_positions(keep)[j]
                < s.len() && keep[kept_positions(keep)[j]] && retained(s, keep)[j]
                == s[kept_positions(keep)[j]],
        forall|i: int, j: int|
            0 <= i < j < kept_positions(keep).len() ==> #[trigger] kept_positions(keep)[i]
                < #[trigger] kept_positions(keep)[j],
        forall|i: int|
            0 <= i < s.len() && #[trigger] keep[i] ==> kept_positions(keep).contains(i),
    decreases s.len(),
{
    if s.len() > 0 {
        let before = keep.drop_last();
        lemma_retained(s.drop_last(), before);
        let n = s.len() - 1;
        let p = kept_positions(keep);
        let q = kept_positions(before);
        assert forall|i: int| 0 <= i < s.len() && #[trigger] keep[i] implies p.contains(i) by {
            if i < n {
                assert(before[i]);
                let j = choose|j: int| 0 <= j < q.len() && q[j] == i;
                assert(p[j] == i);
            } else {
                assert(p[p.len() - 1] == n);
            }
        }
        assert forall|j: int| 0 <= j < p.len() implies 0 <= #[trigger] p[j] < s.len() && keep[p[j]]
            && retained(s, keep)[j] == s[p[j]] by {
            if j < q.len() {
                assert(q[j] == p[j]);
                assert(before[q[j]] == keep[q[j]]);
            }
        }
    }
}

/// Nothing goes where all is to be kept, and nothing stays where nothing is.
pub proof fn lemma_retained_extremes<T>(s: Seq<T>, keep: Seq<bool>)
    requires
        keep.len() == s.len(),
    ensures
        (forall|i: int| 0 <= i < keep.len() ==> #[trigger] keep[i]) ==> retained(s, keep) == s,
        (forall|i: int| 0 <= i < keep.len() ==> !#[trigger] keep[i]) ==> retained(s, keep).len()
            == 0,
    decreases s.len(),
{
    if s.len() > 0 {
        let before = keep.drop_last();
        assert(forall|i: int| 0 <= i < before.len() ==> before[i] == keep[i]);
        lemma_retained_extremes(s.drop_last(), before);
        assert(s.drop_last().push(s.last()) =~= s);
        assert(keep[keep.len() - 1] == keep.last());
        if forall|i: int| 0 <= i < keep.len() ==> #[trigger] keep[i] {
            assert(forall|i: int| 0 <= i < before.len() ==> #[trigger] before[i]);
        }
        if forall|i: int| 0 <= i < keep.len() ==> !#[trigger] keep[i] {
            assert(forall|i: int| 0 <= i < before.len() ==> !#[trigger] before[i]);
        }
    }
}

/// Where `==` is equality, no element equals the one before it after its repetitions were
/// removed, the first one is still there, and no element is lost but those that are still there.
pub proof fn lemma_deduped<T: PartialEq>(s: Seq<T>)
    requires
        forall|a: T, b: T| #[trigger] a.eq_spec(&b) <==> a == b,
    ensures
        forall|i: int| 0 < i < deduped(s).len() ==> #[trigger] deduped(s)[i] != deduped(s)[i - 1],
        s.len() > 0 ==> deduped(s).len() > 0 && deduped(s)[0] == s[0] && deduped(s).last()
            == s.last(),
        forall|x: T|
            #![trigger s.contains(x)]
            #![trigger deduped(s).contains(x)]
            s.contains(x) <==> deduped(s).contains(x),
    decreases s.len(),
{
    if s.len() > 0 {
        let r = s.drop_last();
        lemma_deduped(r);
        let k = deduped(r);
        let d = deduped(s);
        assert forall|x: T|
            #![trigger s.contains(x)]
            #![trigger d.contains(x)]
            s.contains(x) <==> d.contains(x) by {
            if s.contains(x) {
                let i = choose|i: int| 0 <= i < s.len() && s[i] == x;
                if i < r.len() {
                    assert(r[i] == x);
                    assert(r.contains(x));
                    assert(k.contains(x));
                    let j = choose|j: int| 0 <= j < k.len() && k[j] == x;
                    assert(d[j] == x);
                } else {
                    assert(d[d.len() - 1] == x);
                }
            }
            if d.contains(x) {
                let j = choose|j: int| 0 <= j < d.len() && d[j] == x;
                if j < k.len() {
                    assert(k[j] == x);
                    assert(k.contains(x));
                    assert(r.contains(x));
                    let i = choose|i: int| 0 <= i < r.len() && r[i] == x;
                    assert(s[i] == x);
                } else {
                    assert(s[s.len() - 1] == x);
                }
            }
        }
    }
}

/// Equal elements stand next to each other, as they do in a sorted array.
pub open spec fn grouped<T>(s: Seq<T>) -> bool {
    forall|i: int, j: int, k: int|
        0 <= i <= j <= k < s.len() && #[trigger] s[i] == #[trigger] s[k] ==> #[trigger] s[j]
            == s[i]
}

/// Removing repetitions removes all duplicates of an array whose equal elements stand next to
/// each other.
pub proof fn lemma_deduped_grouped<T: PartialEq>(s: Seq<T>)
    requires
        forall|a: T, b: T| #[trigger] a.eq_spec(&b) <==> a == b,
        grouped(s),
    ensures
        deduped(s).no_duplicates(),
    decreases s.len(),
{
    if s.len() > 0 {
        let r = s.drop_last();
        assert(grouped(r)) by {
            assert forall|i: int, j: int, k: int|
                0 <= i <= j <= k < r.len() && #[trigger] r[i]
                    == #[trigger] r[k] implies #[trigger] r[j] == r[i] by {
                assert(s[i] == r[i] && s[j] == r[j] && s[k] == r[k]);
            }
        }
        lemma_deduped_grouped(r);
        lemma_deduped(r);
        let k = deduped(r);
        let x = s.last();
        if !(k.len() > 0 && x.eq_spec(&k.last())) {
            assert(!k.contains(x)) by {
                if k.contains(x) {
                    let i = choose|i: int| 0 <= i < r.len() && r[i] == x;
                    assert(r.contains(x));
                    assert(s[i] == x && s[s.len() - 1] == x && s[s.len() - 2] == r.last());
                }
            }
        }
    }
}

/// Which of `s` stay when those that have the same key as the last one kept before them go.
pub open spec fn kept_by_key<T, K>(s: Seq<T>, key: spec_fn(T) -> K) -> Seq<bool>
    decreases s.len(),
{
    if s.len() == 0 {
        Seq::empty()
    } else {
        let before = kept_by_key(s.drop_last(), key);
        let kept = retained(s.drop_last(), before);
        before.push(kept.len() == 0 || key(s.last()) != key(kept.last()))
    }
}

/// `j` is the last position up to `i` that is kept.
pub open spec fn last_kept(keep: Seq<bool>, i: int, j: int) -> bool {
    &&& 0 <= j <= i < keep.len()
    &&& keep[j]
    &&& forall|k: int| j < k <= i ==> !#[trigger] keep[k]
}

/// Removing those that have the same key as the last one kept before them, later elements being
/// compared with earlier ones, keeps a part of the elements in their order: the first one is
/// kept, no two neighbours have the same key then, each that is removed has the key of the
/// closest one kept before it, and doing it once more changes nothing.
pub proof fn lemma_deduped_by<T, K>(s: Seq<T>, key: spec_fn(T) -> K, same: spec_fn(T, T) -> bool)
    requires
        forall|a: T, b: T| #[trigger] same(a, b) == (key(a) == key(b)),
    ensures
        kept_by_key(s, key).len() == s.len(),
        deduped_by(s, same) == retained(s, kept_by_key(s, key)),
        s.len() > 0 ==> deduped_by(s, same).len() > 0 && deduped_by(s, same)[0] == s[0]
            && kept_by_key(s, key)[0],
        forall|i: int|
            0 < i < deduped_by(s, same).len() ==> key(#[trigger] deduped_by(s, same)[i]) != key(
                deduped_by(s, same)[i - 1],
            ),
        forall|i: int| #[trigger]
            has_index(s, i) ==> exists|j: int| #[trigger]
                last_kept(kept_by_key(s, key), i, j) && key(s[j]) == key(s[i]),
        deduped_by(deduped_by(s, same), same) == deduped_by(s, same),
{
    lemma_kept_by_key(s, key, same);
    lemma_unlike_neighbours(deduped_by(s, same), key, same);
}

/// Elements with the same key stand next to each other, as they do in an array that is sorted by
/// the key.
pub open spec fn grouped_by_key<T, K>(s: Seq<T>, key: spec_fn(T) -> K) -> bool {
    forall|i: int, j: int, k: int|
        #![trigger s[i], s[j], s[k]]
        0 <= i <= j <= k < s.len() && key(s[i]) == key(s[k]) ==> key(s[j]) == key(s[i])
}

/// Removing those that have the same key as the last one kept before them leaves one element of
/// each key, where elements with the same key stand next to each other.
pub proof fn lemma_deduped_by_grouped<T, K>(
    s: Seq<T>,
    key: spec_fn(T) -> K,
    same: spec_fn(T, T) -> bool,
)
    requires
        forall|a: T, b: T| #[trigger] same(a, b) == (key(a) == key(b)),
        grouped_by_key(s, key),
    ensures
        forall|i: int, j: int|
            0 <= i < j < deduped_by(s, same).len() ==> key(#[trigger] deduped_by(s, same)[i])
                != key(#[trigger] deduped_by(s, same)[j]),
        forall|j: int|
            0 <= j < deduped_by(s, same).len() ==> s.contains(#[trigger] deduped_by(s, same)[j]),
        s.len() > 0 ==> deduped_by(s, same).len() > 0 && key(deduped_by(s, same).last()) == key(
            s.last(),
        ),
    decreases s.len(),
{
    if s.len() > 0 {
        let r = s.drop_last();
        let x = s.last();
        assert(grouped_by_key(r, key)) by {
            assert forall|i: int, j: int, k: int|
                #![trigger r[i], r[j], r[k]]
                0 <= i <= j <= k < r.len() && key(r[i]) == key(r[k]) implies key(r[j])
                == key(r[i]) by {
                assert(s[i] == r[i] && s[j] == r[j] && s[k] == r[k]);
            }
        }
        lemma_deduped_by_grouped(r, key, same);
        let k = deduped_by(r, same);
        let d = deduped_by(s, same);
        assert(k.len() > 0 ==> same(x, k.last()) == (key(x) == key(k.last())));
        assert(s[s.len() - 1] == x);
        assert forall|j: int| 0 <= j < d.len() implies s.contains(#[trigger] d[j]) by {
            if j < k.len() {
                assert(r.contains(k[j]));
                let i = choose|i: int| 0 <= i < r.len() && r[i] == k[j];
                assert(s[i] == k[j]);
            }
        }
        if d.len() > k.len() {
            assert forall|i: int| 0 <= i < k.len() implies key(#[trigger] k[i]) != key(x) by {
                if key(k[i]) == key(x) {
                    assert(r.contains(k[i]));
                    let m = choose|m: int| 0 <= m < r.len() && r[m] == k[i];
                    assert(s[m] == k[i] && s[s.len() - 2] == r.last());
                    assert(key(s[m]) == key(s[s.len() - 1]));
                }
            }
        }
    }
}

/// What [`lemma_deduped_by`] says of one pass.
proof fn lemma_kept_by_key<T, K>(s: Seq<T>, key: spec_fn(T) -> K, same: spec_fn(T, T) -> bool)
    requires
        forall|a: T, b: T| #[trigger] same(a, b) == (key(a) == key(b)),
    ensures
        kept_by_key(s, key).len() == s.len(),
        deduped_by(s, same) == retained(s, kept_by_key(s, key)),
        s.len() > 0 ==> deduped_by(s, same).len() > 0 && deduped_by(s, same)[0] == s[0]
            && kept_by_key(s, key)[0],
        s.len() > 0 ==> exists|j: int| #[trigger]
            last_kept(kept_by_key(s, key), s.len() - 1, j) && s[j] == deduped_by(s, same).last(),
        forall|i: int|
            0 < i < deduped_by(s, same).len() ==> key(#[trigger] deduped_by(s, same)[i]) != key(
                deduped_by(s, same)[i - 1],
            ),
        forall|i: int| #[trigger]
            has_index(s, i) ==> exists|j: int| #[trigger]
                last_kept(kept_by_key(s, key), i, j) && key(s[j]) == key(s[i]),
    decreases s.len(),
{
    if s.len() > 0 {
        let r = s.drop_last();
        let n = s.len() - 1;
        lemma_kept_by_key(r, key, same);
        let before = kept_by_key(r, key);
        let keep = kept_by_key(s, key);
        let kept = deduped_by(r, same);
        let d = deduped_by(s, same);
        assert(keep.drop_last() =~= before);
        assert(same(s.last(), kept.last()) == (key(s.last()) == key(kept.last())));
        assert(forall|k: int| 0 <= k < n ==> keep[k] == before[k]);
        if keep[n] {
            assert(last_kept(keep, n, n));
            assert(d.last() == s[n]);
        } else {
            let j = choose|j: int| #[trigger] last_kept(before, r.len() - 1, j) && r[j] == kept.last();
            assert(last_kept(keep, n, j));
            assert(s[j] == d.last());
            assert(key(s[j]) == key(s[n]));
        }
        assert forall|i: int| #[trigger] has_index(s, i) implies exists|j: int| #[trigger]
            last_kept(keep, i, j) && key(s[j]) == key(s[i]) by {
            if i < n {
                assert(has_index(r, i));
                let j = choose|j: int| #[trigger] last_kept(before, i, j) && key(r[j]) == key(r[i]);
                assert(last_kept(keep, i, j));
            }
        }
    }
}

/// Nothing is removed where no two neighbours have the same key.
proof fn lemma_unlike_neighbours<T, K>(
    s: Seq<T>,
    key: spec_fn(T) -> K,
    same: spec_fn(T, T) -> bool,
)
    requires
        forall|a: T, b: T| #[trigger] same(a, b) == (key(a) == key(b)),
        forall|i: int| 0 < i < s.len() ==> key(#[trigger] s[i]) != key(s[i - 1]),
    ensures
        deduped_by(s, same) == s,
    decreases s.len(),
{
    if s.len() > 0 {
        let r = s.drop_last();
        assert forall|i: int| 0 < i < r.len() implies key(#[trigger] r[i]) != key(r[i - 1]) by {
            assert(s[i] == r[i]);
        }
        lemma_unlike_neighbours(r, key, same);
        if r.len() > 0 {
            assert(key(s[s.len() - 1]) != key(s[s.len() - 2]));
            assert(same(s.last(), r.last()) == (key(s.last()) == key(r.last())));
        }
        assert(r.push(s.last()) =~= s);
    }
}

/// A value that there is room for is pushed without growing: the room stays where it is, and the
/// arena as it is.
pub proof fn lemma_push_in_room<T>(
    vec: &Vec<T>,
    v: ArenaView,
    granted: bool,
    new: &Vec<T>,
    w: ArenaView,
)
    requires
        vec@.len() < vec.spec_capacity(),
        vec.room_for_one(v, granted, new, w),
    ensures
        granted,
        new.ptr() == vec.ptr(),
        new.spec_capacity() == vec.spec_capacity(),
        w == v,
{
}

/// Where room is reserved that was not there, there is at least twice as much as before, and
/// enough.
pub proof fn lemma_amortized<T>(
    vec: &Vec<T>,
    v: ArenaView,
    additional: int,
    new: &Vec<T>,
    w: ArenaView,
)
    requires
        vec@.len() + additional > vec.spec_capacity(),
        vec.room_for(v, additional, true, new, w),
    ensures
        new.cap() >= 2 * vec.cap(),
        new.cap() >= vec@.len() + additional,
        new.spec_capacity() >= vec@.len() + additional,
{
}

/// Two arrays that live in one arena both do after either has grown.
pub proof fn lemma_lives_on<T>(vec: &Vec<T>, v: ArenaView, w: ArenaView)
    requires
        vec.lives_in(v),
        v.keeps(w),
    ensures
        vec.lives_in(w),
{
    assert(w.placed(vec.ptr() as int, room_layout::<T>(vec.cap() as int)->0.size as int));
}

/// Room is refused only where no such room can exist, or the arena has no memory for it: where the
/// room there is cannot grow in place, a block for the whole of it is refused. The arena is as it
/// was then.
pub proof fn lemma_room_refused<T>(v: ArenaView, ptr: usize, cap: usize, new_cap: int, w: ArenaView)
    requires
        regrown::<T>(v, ptr, cap, new_cap, None, w),
        0 <= new_cap,
        is_pow2(vstd::layout::align_of::<T>() as int),
    ensures
        w == v,
        new_cap > usize::MAX || new_cap * vstd::layout::size_of::<T>() + vstd::layout::align_of::<
            T,
        >() - 1 > isize::MAX || v.allocated(
            Layout {
                size: (new_cap * vstd::layout::size_of::<T>()) as usize,
                align: vstd::layout::align_of::<T>() as usize,
            },
            None,
            v,
        ),
{
    if room_layout::<T>(new_cap) is Some && cap != 0 {
        let layout = room_layout::<T>(new_cap)->0;
        let old_layout = room_layout::<T>(cap as int)->0;
        let mid = choose|mid: ArenaView|
            #![trigger v.room_for_growth(ptr, old_layout, layout, None, mid)]
            v.room_for_growth(ptr, old_layout, layout, None, mid);
        assert(v.allocated(layout, None, mid));
    }
    assert(0 <= new_cap * vstd::layout::size_of::<T>()) by (nonlinear_arith)
        requires
            0 <= new_cap,
    ;
}

/// After room for `additional` values more was made there is room for them. Where there was before,
/// nothing changes. Else the room is for twice as many values as before, or for as many as asked,
/// whichever is more. A refusal changes nothing.
pub proof fn lemma_reserved<T>(
    vec: &Vec<T>,
    v: ArenaView,
    additional: nat,
    granted: bool,
    new: &Vec<T>,
    w: ArenaView,
)
    requires
        vec.room_for(v, additional as int, granted, new, w),
    ensures
        vec@.len() + additional <= vec.spec_capacity() ==> granted,
        granted ==> vec@.len() + additional <= new.spec_capacity(),
        vec@.len() + additional <= vec.spec_capacity() ==> new.cap() == vec.cap() && new.ptr()
            == vec.ptr() && w == v,
        granted && vec@.len() + additional > vec.spec_capacity() ==> {
            &&& new.cap() == 2 * vec.cap() || new.cap() == vec@.len() + additional
            &&& new.cap() >= 2 * vec.cap()
            &&& new.cap() >= vec@.len() + additional
        },
        !granted ==> new == vec && w == v,
{
}

/// After room for exactly `additional` values more was made there is room for them and, where
/// there was not before, for no more.
pub proof fn lemma_exactly_reserved<T>(
    vec: &Vec<T>,
    v: ArenaView,
    additional: nat,
    granted: bool,
    new: &Vec<T>,
    w: ArenaView,
)
    requires
        vec.exact_room_for(v, additional as int, granted, new, w),
    ensures
        vec@.len() + additional <= vec.spec_capacity() ==> granted && new.cap() == vec.cap()
            && new.ptr() == vec.ptr() && w == v,
        granted && vec@.len() + additional > vec.spec_capacity() ==> new.cap() == vec@.len()
            + additional,
        !granted ==> new == vec && w == v,
{
}

/// A full array grows to twice its room and one value more. One that is not full does not grow. A
/// refusal changes nothing.
pub proof fn lemma_grown_by_one<T>(
    vec: &Vec<T>,
    v: ArenaView,
    granted: bool,
    new: &Vec<T>,
    w: ArenaView,
)
    requires
        vec.room_for_one(v, granted, new, w),
        vec.wf(),
    ensures
        vec@.len() < vec.spec_capacity() ==> granted && new.cap() == vec.cap() && new.ptr()
            == vec.ptr() && w == v,
        granted && vec@.len() == vec.spec_capacity() ==> new.cap() == vec.cap() + vec.cap() + 1,
        !granted ==> new == vec && w == v && vec@.len() == vec.spec_capacity(),
{
}

/// Items that are appended one by one are all there at the end, after what was there before. Where
/// there is room for all of them nothing can keep them from being appended, and the room stays as
/// it is. Where they are not all appended, those before some item are there, and the array is full.
pub proof fn lemma_appended<T>(
    vec: &Vec<T>,
    v: ArenaView,
    items: Seq<T>,
    granted: bool,
    new: &Vec<T>,
    w: ArenaView,
)
    requires
        vec.appended(v, items, granted, new, w),
        vec@.len() <= vec.spec_capacity(),
    ensures
        new@.len() <= new.spec_capacity(),
        granted ==> new@ == vec@ + items,
        vec@.len() + items.len() <= vec.spec_capacity() ==> {
            &&& granted
            &&& new.cap() == vec.cap()
            &&& new.ptr() == vec.ptr()
            &&& w == v
        },
        !granted ==> {
            &&& new@.len() == new.spec_capacity()
            &&& exists|n: int|
                0 <= n < items.len() && new@ == vec@ + #[trigger] items.take(n)
            &&& new.room_for_one(w, false, new, w)
        },
    decreases items.len(),
{
    if items.len() == 0 {
        assert(vec@ + items =~= vec@);
    } else {
        let less = items.drop_last();
        if !granted && vec.appended(v, less, false, new, w) {
            lemma_appended(vec, v, less, false, new, w);
            let n = choose|n: int| 0 <= n < less.len() && new@ == vec@ + #[trigger] less.take(n);
            assert(items.take(n) =~= less.take(n));
        } else {
            let (mid, u) = choose|mid: Vec<T>, u: ArenaView|
                {
                    &&& vec.appended(v, less, true, &mid, u)
                    &&& #[trigger] mid.room_for_one(u, granted, new, w)
                    &&& granted ==> new@ == mid@.push(items.last())
                };
            lemma_appended(vec, v, less, true, &mid, u);
            if granted {
                assert((vec@ + less).push(items.last()) =~= vec@ + items);
            } else {
                assert(items.take(items.len() - 1) =~= less);
            }
        }
    }
}

/// An array of the items of an iterator that says how many they are has all of them in their
/// order, and room for no more. Where there is a place for its room in the arena's current chunk
/// it is created there. It is refused only where the arena refuses a block for that many values, or
/// there cannot be such a block, and the arena is as it was then.
pub proof fn lemma_collected_exactly<T>(
    v: ArenaView,
    least: usize,
    items: Seq<T>,
    result: Result<Vec<T>, AllocError>,
    w: ArenaView,
)
    requires
        <Vec<T> as FromIteratorIn<T>>::collects(v, least, items, result, w),
        least == items.len(),
    ensures
        result matches Ok(vec) ==> {
            &&& vec@ == items
            &&& vec.cap() == items.len()
            &&& items.len() > 0 ==> v.allocated(
                room_layout::<T>(items.len() as int)->0,
                Some(vec.ptr()),
                w,
            )
        },
        result is Err ==> {
            &&& w == v
            &&& items.len() > 0
            &&& room_layout::<T>(items.len() as int) matches Some(layout) ==> v.allocated(
                layout,
                None,
                w,
            ) && !v.fits(layout)
        },
{
    lemma_collected(v, least, items, result, w);
}

/// An array of the items of an iterator has all of them in their order, and room for at least as
/// many as the iterator said there are. It is refused only where the arena refuses a block for that
/// many values, or there cannot be such a block, or there are more items than the iterator said,
/// and the array was full with some of them when room for one more was refused.
pub proof fn lemma_collected<T>(
    v: ArenaView,
    least: usize,
    items: Seq<T>,
    result: Result<Vec<T>, AllocError>,
    w: ArenaView,
)
    requires
        <Vec<T> as FromIteratorIn<T>>::collects(v, least, items, result, w),
    ensures
        result matches Ok(vec) ==> {
            &&& vec@ == items
            &&& items.len() <= least ==> vec.cap() == least && (least > 0 ==> v.allocated(
                room_layout::<T>(least as int)->0,
                Some(vec.ptr()),
                w,
            ))
        },
        result is Err ==> {
            ||| {
                &&& w == v
                &&& least > 0
                &&& room_layout::<T>(least as int) matches Some(layout) ==> v.allocated(
                    layout,
                    None,
                    w,
                ) && !v.fits(layout)
            }
            ||| {
                &&& items.len() > least
                &&& exists|full: Vec<T>|
                    {
                        &&& full@.len() < items.len()
                        &&& full@ == items.take(full@.len() as int)
                        &&& full@.len() == full.spec_capacity()
                        &&& #[trigger] full.room_for_one(w, false, &full, w)
                    }
            }
        },
{
    let (made, mid) = choose|made: Result<Vec<T>, AllocError>, mid: ArenaView|
        {
            &&& #[trigger] made_with_capacity(v, least, made, mid)
            &&& match made {
                Ok(vec) => exists|new: Vec<T>, granted: bool|
                    {
                        &&& #[trigger] vec.extended_with(mid, least, items, granted, &new, w)
                        &&& granted == (result is Ok)
                        &&& result matches Ok(value) ==> value == new
                    },
                Err(_) => result is Err && w == mid,
            }
        };
    if let Ok(vec) = made {
        let (new, granted) = choose|new: Vec<T>, granted: bool|
            {
                &&& #[trigger] vec.extended_with(mid, least, items, granted, &new, w)
                &&& granted == (result is Ok)
                &&& result matches Ok(value) ==> value == new
            };
        let (ready, u) = choose|ready: Vec<T>, u: ArenaView|
            {
                &&& #[trigger] vec.room_for(mid, least as int, true, &ready, u)
                &&& ready@ == vec@
                &&& ready.appended(u, items, granted, &new, w)
            };
        lemma_appended(&ready, u, items, granted, &new, w);
        assert(vec@ + items =~= items);
        if !granted {
            let n = choose|n: int| 0 <= n < items.len() && new@ == ready@ + #[trigger] items.take(n);
            assert(ready@ + items.take(n) =~= items.take(n));
            assert(new@ =~= items.take(new@.len() as int));
            assert(new.room_for_one(w, false, &new, w));
        }
    }
}

/// Which positions a range of `len` values has: those that both its ends let in.
pub proof fn lemma_range(start: Bound, end: Bound, len: int, i: int)
    requires
        in_bounds(start, end, len),
        0 <= i < len,
    ensures
        first_of(start) <= i < last_of(end, len) <==> {
            &&& match start {
                Bound::Included(a) => a <= i,
                Bound::Excluded(a) => a < i,
                Bound::Unbounded => true,
            }
            &&& match end {
                Bound::Included(b) => i <= b,
                Bound::Excluded(b) => i < b,
                Bound::Unbounded => true,
            }
        },
{
}

/// Two arrays compare as the first two values at one position do that do not compare equal, or
/// else by their lengths.
pub proof fn lemma_lexicographic<T: PartialOrd>(s: Seq<T>, t: Seq<T>, k: int)
    requires
        0 <= k <= s.len(),
        k <= t.len(),
        forall|i: int|
            0 <= i < k ==> (#[trigger] s[i]).partial_cmp_spec(&t[i]) == Some(
                std::cmp::Ordering::Equal,
            ),
    ensures
        k < s.len() && k < t.len() && s[k].partial_cmp_spec(&t[k]) != Some(
            std::cmp::Ordering::Equal,
        ) ==> lexicographic(s, t) == s[k].partial_cmp_spec(&t[k]),
        k == s.len() && k == t.len() ==> lexicographic(s, t) == Some(std::cmp::Ordering::Equal),
        k == s.len() && k < t.len() ==> lexicographic(s, t) == Some(std::cmp::Ordering::Less),
        k == t.len() && k < s.len() ==> lexicographic(s, t) == Some(std::cmp::Ordering::Greater),
    decreases k,
{
    if k > 0 {
        let a = s.drop_first();
        let b = t.drop_first();
        assert(s[0].partial_cmp_spec(&t[0]) == Some(std::cmp::Ordering::Equal));
        assert forall|i: int| 0 <= i < k - 1 implies (#[trigger] a[i]).partial_cmp_spec(&b[i])
            == Some(std::cmp::Ordering::Equal) by {
            assert(a[i] == s[i + 1] && b[i] == t[i + 1]);
        }
        lemma_lexicographic(a, b, k - 1);
        if k < s.len() && k < t.len() {
            assert(a[k - 1] == s[k] && b[k - 1] == t[k]);
        }
    }
}

/// An array has room for as many values as its block was taken for, and for any number of values
/// of no size.
pub proof fn lemma_capacity<T>(vec: &Vec<T>)
    ensures
        vstd::layout::size_of::<T>() > 0 ==> vec.spec_capacity() == vec.cap(),
        vstd::layout::size_of::<T>() == 0 ==> vec.spec_capacity() == usize::MAX,
        vec.wf() ==> vec@.len() <= vec.spec_capacity(),
{
}

/// What is in the room of an array are its values, and after them what was put there.
pub proof fn lemma_contents<T>(vec: &Vec<T>, i: int)
    ensures
        vec.contents().len() == vec@.len() + vec.spare().len(),
        0 <= i < vec@.len() ==> vec.contents()[i] == Some(vec@[i]),
        vec@.len() <= i < vec.contents().len() ==> vec.contents()[i] == vec.spare()[i
            - vec@.len()],
        vec.knows_spare() && vec@.len() <= vec.spec_capacity() ==> vec.contents().len()
            == vec.spec_capacity(),
{
}

/// An array that was asked for with room for `cap` values is empty and has that room, in a block of
/// its own where it is for some values. It is refused only where there cannot be such a block, or
/// the arena refuses it, and the arena is as it was then.
pub proof fn lemma_made_with_capacity<T>(
    v: ArenaView,
    cap: usize,
    result: Result<Vec<T>, AllocError>,
    w: ArenaView,
)
    requires
        made_with_capacity(v, cap, result, w),
    ensures
        cap == 0 ==> result is Ok && w == v,
        result matches Ok(vec) ==> {
            &&& vec@ == Seq::<T>::empty()
            &&& vec.cap() == cap
            &&& cap > 0 ==> v.allocated(
                array_layout::<T>(cap as nat)->0,
                Some(vec.ptr()),
                w,
            ) && array_layout::<T>(cap as nat) is Some
        },
        result is Err ==> {
            &&& cap > 0
            &&& w == v
            &&& array_layout::<T>(cap as nat) matches Some(layout) ==> v.allocated(layout, None, v)
        },
{
    if let Ok(vec) = result {
        assert(vec@ =~= Seq::<T>::empty());
    }
}

/// Shrinking to less room than there is leaves exactly that, in the block that the arena shrinks
/// the old one to. Otherwise nothing changes.
pub proof fn lemma_room_shrunk<T>(
    vec: &Vec<T>,
    v: ArenaView,
    new_cap: int,
    new: &Vec<T>,
    w: ArenaView,
)
    requires
        vec.shrunk_room(v, new_cap, new, w),
    ensures
        new_cap >= vec.spec_capacity() ==> new.ptr() == vec.ptr() && new.cap() == vec.cap() && w
            == v,
        new_cap < vec.spec_capacity() ==> new.cap() == new_cap && v.shrunk(
            vec.ptr(),
            room_layout::<T>(vec.cap() as int)->0,
            room_layout::<T>(new_cap)->0,
            Some(new.ptr()),
            w,
        ),
{
}

/// Collected items are put between an array and its tail, or are not for want of room, which there
/// is where the array, its tail and they fit in once more after the array. Nothing else is lost or
/// changed, and nothing is refused where there are no items.
pub proof fn lemma_spliced<T>(
    vec: Vec<T>,
    v: ArenaView,
    tail: Seq<T>,
    collected: Result<Vec<T>, AllocError>,
    granted: bool,
    new: Vec<T>,
    w: ArenaView,
)
    requires
        inserted(vec, v, tail, collected, granted, new, w),
    ensures
        collected is Err ==> !granted,
        !granted ==> new@ == vec@ + tail && w == v && new.ptr() == vec.ptr() && new.cap()
            == vec.cap(),
        collected matches Ok(items) ==> {
            &&& granted ==> new@ == vec@ + items@ + tail
            &&& items@.len() == 0 ==> granted && w == v
            &&& 2 * vec@.len() + tail.len() + items@.len() <= vec.spec_capacity() ==> granted
            &&& !granted ==> regrown::<T>(
                v,
                vec.ptr(),
                vec.cap(),
                larger(
                    2 * vec.cap(),
                    (2 * vec@.len() + tail.len() + items@.len()) as int,
                ),
                None,
                v,
            )
        },
{
    if let Ok(items) = collected {
        if items@.len() == 0 {
            assert(vec@ + items@ =~= vec@);
        }
    }
}

/// An array extended with clones of a value has them after what it had, the value itself last.
pub proof fn lemma_extended_with<T: Clone>(s: Seq<T>, n: nat, value: T, t: Seq<T>)
    requires
        extended_with(s, n as int, value, t),
    ensures
        t.len() == s.len() + n,
        forall|i: int| 0 <= i < s.len() ==> #[trigger] t[i] == s[i],
        forall|i: int| s.len() <= i < t.len() - 1 ==> cloned(value, #[trigger] t[i]),
        n > 0 ==> t[t.len() - 1] == value,
{
    assert forall|i: int| 0 <= i < s.len() implies #[trigger] t[i] == s[i] by {
        assert(t.take(s.len() as int)[i] == t[i]);
    }
}

/// One comparison leaves what was kept before, with its last value as it was left, and adds the
/// other one where they are not the same.
pub proof fn lemma_compared<T>(kept: Seq<T>, a: T, b: T, same: bool)
    requires
        kept.len() > 0,
    ensures
        compared(kept, a, b, same).len() == kept.len() + if same {
            0int
        } else {
            1
        },
        forall|i: int|
            0 <= i < kept.len() - 1 ==> #[trigger] compared(kept, a, b, same)[i] == kept[i],
        compared(kept, a, b, same)[kept.len() - 1] == b,
        !same ==> compared(kept, a, b, same).last() == a,
{
}

/// The positions of a sequence are those from nought up to its length.
pub proof fn lemma_has_index<A>(s: Seq<A>, i: int)
    ensures
        has_index(s, i) <==> 0 <= i && i < s.len(),
{
}

/// Values of no size need no memory where they have a place in the current chunk.
pub proof fn lemma_no_memory<T>(v: ArenaView, a: int)
    requires
        v.sound(),
        vstd::layout::size_of::<T>() == 0,
        is_pow2(vstd::layout::align_of::<T>() as int),
        vstd::layout::align_of::<T>() <= usize::MAX,
        free_at(v, Layout { size: 0, align: vstd::layout::align_of::<T>() as usize }, a),
    ensures
        needs_no_memory::<T>(v),
{
    let layout = Layout { size: 0, align: vstd::layout::align_of::<T>() as usize };
    reveal(is_pow2);
    lemma_align_down_floor(v.cursor as int, a, layout.align as int);
}

/// The room of an array that is the last block of its arena grows into the free bytes before it
/// where they are enough, without a new chunk. Otherwise, and where there is no room yet, a block
/// for the whole of it is asked for.
pub proof fn lemma_room_grown<T>(
    v: ArenaView,
    ptr: usize,
    cap: usize,
    new_cap: int,
    a: int,
    result: Option<usize>,
    w: ArenaView,
)
    requires
        v.sound(),
        cap <= new_cap,
        room_layout::<T>(cap as int) is Some,
        room_layout::<T>(new_cap) is Some,
        regrown::<T>(v, ptr, cap, new_cap, result, w),
    ensures
        cap == 0 ==> v.allocated(room_layout::<T>(new_cap)->0, result, w),
        cap > 0 && v.cursor == ptr && free_at(
            v,
            Layout {
                size: ((new_cap - cap) * vstd::layout::size_of::<T>()) as usize,
                align: vstd::layout::align_of::<T>() as usize,
            },
            a,
        ) ==> {
            let more = (new_cap - cap) * vstd::layout::size_of::<T>();
            &&& result matches Some(to)
            &&& to + more <= ptr < to + more + vstd::layout::align_of::<T>()
            &&& w.cursor == to
            &&& w.chain == v.chain
            &&& w.chunks.dom() == v.chunks.dom()
        },
{
    let size = vstd::layout::size_of::<T>();
    let old_layout = room_layout::<T>(cap as int)->0;
    let new_layout = room_layout::<T>(new_cap)->0;
    assert(new_cap * size - cap * size == (new_cap - cap) * size) by (nonlinear_arith);
    assert(0 <= (new_cap - cap) * size && 0 <= cap * size) by (nonlinear_arith)
        requires
            0 <= cap <= new_cap,
    ;
    let more = Layout {
        size: ((new_cap - cap) * size) as usize,
        align: vstd::layout::align_of::<T>() as usize,
    };
    if cap > 0 && v.cursor == ptr && free_at(v, more, a) {
        lemma_grown_in_place(v, ptr, old_layout, new_layout, a, result, w);
    }
}

} // verus!

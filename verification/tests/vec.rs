use flintnsteel::layout::Layout;
use flintnsteel::slot::Slot;
use flintnsteel::vec::{range, AllocError, Bound, CollectIn, FromIteratorIn, Range, Vec};
use flintnsteel::Arena;
use std::cell::Cell;
use std::rc::Rc;

fn vec_of<T: Clone>(arena: &mut Arena, values: &[T]) -> Vec<T> {
    let mut vec = Vec::new_in(arena);
    for value in values {
        vec.push(value.clone(), arena).unwrap();
    }
    vec
}

#[test]
fn vec_new_is_empty() {
    let arena = Arena::new();
    let vec: Vec<i32> = Vec::new_in(&arena);
    assert_eq!(vec.len(), 0);
    assert!(vec.is_empty());
    assert_eq!(vec.capacity(), 0);
    assert_eq!(arena.size(), 0);
}

#[test]
fn vec_push_and_pop() {
    let mut arena = Arena::new();
    let mut vec = Vec::new_in(&arena);
    vec.push(1, &mut arena).unwrap();
    vec.push(2, &mut arena).unwrap();
    assert_eq!(vec.pop(), Some(2));
    assert_eq!(vec[0], 1);
    assert_eq!(vec.pop(), Some(1));
    assert_eq!(vec.pop(), None);
}

#[test]
fn vec_with_capacity() {
    let mut arena = Arena::new();
    let mut vec = Vec::with_capacity_in(10, &mut arena).unwrap();
    assert_eq!(vec.len(), 0);
    assert_eq!(vec.capacity(), 10);
    let ptr = vec.as_ptr();
    for i in 0..10 {
        vec.push(i, &mut arena).unwrap();
    }
    assert_eq!(vec.len(), 10);
    assert_eq!(vec.capacity(), 10);
    assert_eq!(vec.as_ptr(), ptr);
    vec.push(11, &mut arena).unwrap();
    assert_eq!(vec.len(), 11);
    assert_eq!(vec.capacity(), 21);
    let units = Vec::<()>::with_capacity_in(10, &mut arena).unwrap();
    assert_eq!(units.capacity(), usize::MAX);
}

#[test]
fn vec_growth_by_one_more_than_twice() {
    let mut arena = Arena::new();
    let mut vec: Vec<u8> = Vec::new_in(&arena);
    let mut caps = std::vec::Vec::new();
    for i in 0..16u8 {
        vec.push(i, &mut arena).unwrap();
        caps.push(vec.capacity());
    }
    assert_eq!(caps, [1, 3, 3, 7, 7, 7, 7, 15, 15, 15, 15, 15, 15, 15, 15, 31]);
    assert_eq!(vec.as_slice(), (0..16u8).collect::<std::vec::Vec<_>>().as_slice());
}

#[test]
fn vec_too_much_room_is_refused() {
    let mut arena = Arena::new();
    assert!(Vec::<u64>::try_with_capacity_in(usize::MAX, &mut arena).is_err());
    let mut vec = vec_of(&mut arena, &[1u64, 2]);
    let before = (vec.as_ptr(), vec.capacity(), arena.size());
    assert_eq!(vec.try_reserve(usize::MAX, &mut arena), Err(AllocError));
    assert_eq!(vec.try_reserve_exact(usize::MAX, &mut arena), Err(AllocError));
    assert_eq!(vec.reserve(usize::MAX / 8, &mut arena), Err(AllocError));
    assert_eq!(vec.reserve_exact(usize::MAX / 8, &mut arena), Err(AllocError));
    assert_eq!((vec.as_ptr(), vec.capacity(), arena.size()), before);
    assert_eq!(vec.as_slice(), [1, 2]);
}

#[test]
fn vec_reserve() {
    let mut arena = Arena::new();
    let mut vec = vec_of(&mut arena, &[1]);
    vec.reserve(10, &mut arena).unwrap();
    assert_eq!(vec.capacity(), 11);
    vec.reserve(10, &mut arena).unwrap();
    assert_eq!(vec.capacity(), 11);
    vec.reserve(11, &mut arena).unwrap();
    assert_eq!(vec.capacity(), 22);
    let mut exact = vec_of(&mut arena, &[1]);
    exact.reserve_exact(10, &mut arena).unwrap();
    assert_eq!(exact.capacity(), 11);
    exact.reserve_exact(11, &mut arena).unwrap();
    assert_eq!(exact.capacity(), 12);
}

#[test]
fn vec_shrink() {
    let mut arena = Arena::new();
    let mut vec = Vec::with_capacity_in(10, &mut arena).unwrap();
    vec.extend([1, 2, 3].into_iter(), &mut arena).unwrap();
    assert_eq!(vec.capacity(), 10);
    vec.shrink_to(4, &mut arena).unwrap();
    assert_eq!(vec.capacity(), 4);
    assert!(arena.is_last_allocation(vec.as_ptr()));
    vec.shrink_to(0, &mut arena).unwrap();
    assert_eq!(vec.capacity(), 3);
    assert_eq!(vec.as_slice(), [1, 2, 3]);
    let mut fit = Vec::with_capacity_in(10, &mut arena).unwrap();
    fit.extend([1, 2, 3].into_iter(), &mut arena).unwrap();
    fit.shrink_to_fit(&mut arena).unwrap();
    assert_eq!(fit.capacity(), 3);
    assert_eq!(fit.as_slice(), [1, 2, 3]);
}

#[test]
fn vec_shrunk_last_room_gives_bytes_back() {
    let mut arena = Arena::new();
    let mut vec: Vec<u64> = Vec::with_capacity_in(10, &mut arena).unwrap();
    let ptr = vec.as_ptr();
    vec.shrink_to(2, &mut arena).unwrap();
    assert_eq!(vec.as_ptr(), ptr + 64);
    let next = arena.alloc_value(0u64).unwrap();
    assert_eq!(next.as_ptr(), ptr + 56);
}

#[test]
fn vec_append() {
    let mut arena = Arena::new();
    let mut vec = vec_of(&mut arena, &[1, 2, 3]);
    let mut vec2 = vec_of(&mut arena, &[4, 5, 6]);
    vec.append(&mut vec2, &mut arena).unwrap();
    assert_eq!(vec.as_slice(), [1, 2, 3, 4, 5, 6]);
    assert_eq!(vec2.as_slice(), []);
}

#[test]
fn vec_truncate() {
    let mut arena = Arena::new();
    let mut vec = vec_of(&mut arena, &[1, 2, 3, 4, 5]);
    vec.truncate(2);
    assert_eq!(vec.as_slice(), [1, 2]);
    vec.truncate(8);
    assert_eq!(vec.as_slice(), [1, 2]);
    vec.truncate(0);
    assert_eq!(vec.as_slice(), []);
}

#[test]
fn vec_truncate_drops_the_rest() {
    struct Noted(Rc<Cell<usize>>);
    impl Drop for Noted {
        fn drop(&mut self) {
            self.0.set(self.0.get() + 1);
        }
    }
    let dropped = Rc::new(Cell::new(0));
    let mut arena = Arena::new();
    let mut vec = Vec::new_in(&arena);
    for _ in 0..5 {
        assert!(vec.push(Noted(dropped.clone()), &mut arena).is_ok());
    }
    vec.truncate(2);
    assert_eq!(dropped.get(), 3);
    drop(vec);
    assert_eq!(dropped.get(), 5);
}

#[test]
fn vec_swap_remove() {
    let mut arena = Arena::new();
    let mut v = vec_of(&mut arena, &["foo", "bar", "baz", "qux"]);
    assert_eq!(v.swap_remove(1), "bar");
    assert_eq!(v.as_slice(), ["foo", "qux", "baz"]);
    assert_eq!(v.swap_remove(0), "foo");
    assert_eq!(v.as_slice(), ["baz", "qux"]);
}

#[test]
fn vec_insert() {
    let mut arena = Arena::new();
    let mut vec = vec_of(&mut arena, &['a', 'b', 'c']);
    vec.insert(1, 'd', &mut arena).unwrap();
    assert_eq!(vec.as_slice(), ['a', 'd', 'b', 'c']);
    vec.insert(4, 'e', &mut arena).unwrap();
    assert_eq!(vec.as_slice(), ['a', 'd', 'b', 'c', 'e']);
}

#[test]
fn vec_insert_mut() {
    let mut arena = Arena::new();
    let mut vec = vec_of(&mut arena, &[1, 3, 5, 9]);
    let x = vec.insert_mut(3, 6, &mut arena).unwrap();
    *x += 1;
    assert_eq!(vec.as_slice(), [1, 3, 5, 7, 9]);
}

#[test]
fn vec_remove() {
    let mut arena = Arena::new();
    let mut v = vec_of(&mut arena, &['a', 'b', 'c']);
    assert_eq!(v.remove(1), 'b');
    assert_eq!(v.as_slice(), ['a', 'c']);
}

#[test]
fn vec_split_off() {
    let mut arena = Arena::new();
    let mut vec = vec_of(&mut arena, &['a', 'b', 'c']);
    let cap = vec.capacity();
    let vec2 = vec.split_off(1, &mut arena).unwrap();
    assert_eq!(vec.as_slice(), ['a']);
    assert_eq!(vec2.as_slice(), ['b', 'c']);
    assert_eq!(vec.capacity(), cap);
    assert_eq!(vec2.capacity(), 2);
}

#[test]
fn vec_resize_with() {
    let mut arena = Arena::new();
    let mut vec = vec_of(&mut arena, &[1, 2, 3]);
    vec.resize_with(5, || 0, &mut arena).unwrap();
    assert_eq!(vec.as_slice(), [1, 2, 3, 0, 0]);
    vec.resize_with(1, || 0, &mut arena).unwrap();
    assert_eq!(vec.as_slice(), [1]);
}

#[test]
fn vec_resize() {
    let mut arena = Arena::new();
    let mut vec = vec_of(&mut arena, &["hello"]);
    vec.resize(3, "world", &mut arena).unwrap();
    assert_eq!(vec.as_slice(), ["hello", "world", "world"]);
    let mut vec = vec_of(&mut arena, &['a', 'b', 'c', 'd']);
    vec.resize(2, '_', &mut arena).unwrap();
    assert_eq!(vec.as_slice(), ['a', 'b']);
}

#[test]
fn vec_splice() {
    let mut arena = Arena::new();
    let mut vec = vec_of(&mut arena, &[1, 2, 3, 4]);
    let mut splice = vec.splice(Bound::Included(1), Bound::Excluded(3), [7, 8, 9].into_iter());
    assert_eq!(splice.size_hint(), (2, Some(2)));
    assert_eq!(splice.next(), Some(2));
    assert_eq!(splice.next_back(), Some(3));
    assert_eq!(splice.next(), None);
    splice.finish(&mut arena).unwrap();
    assert_eq!(vec.as_slice(), [1, 7, 8, 9, 4]);
}

#[test]
fn vec_splice_shorter_and_at_the_end() {
    let mut arena = Arena::new();
    let mut vec = vec_of(&mut arena, &[1, 2, 3, 4]);
    vec.splice(Bound::Included(1), Bound::Excluded(3), [7].into_iter())
        .finish(&mut arena)
        .unwrap();
    assert_eq!(vec.as_slice(), [1, 7, 4]);
    vec.splice(Bound::Included(1), Bound::Unbounded, [8, 9, 10, 11].into_iter())
        .finish(&mut arena)
        .unwrap();
    assert_eq!(vec.as_slice(), [1, 8, 9, 10, 11]);
    vec.splice(Bound::Excluded(0), Bound::Included(2), [].into_iter())
        .finish(&mut arena)
        .unwrap();
    assert_eq!(vec.as_slice(), [1, 10, 11]);
}

#[test]
fn vec_retain() {
    let mut arena = Arena::new();
    let mut vec = vec_of(&mut arena, &[1, 2, 3, 4]);
    vec.retain(|&x| x % 2 == 0);
    assert_eq!(vec.as_slice(), [2, 4]);
    let mut vec = vec_of(&mut arena, &[1, 2, 3, 4, 5]);
    let keep = [false, true, true, false, true];
    let mut iter = keep.iter();
    vec.retain(|_| *iter.next().unwrap());
    assert_eq!(vec.as_slice(), [2, 3, 5]);
}

#[test]
fn vec_retain_mut() {
    let mut arena = Arena::new();
    let mut vec = vec_of(&mut arena, &[1, 2, 3, 4]);
    vec.retain_mut(|x| {
        if *x <= 3 {
            *x += 1;
            true
        } else {
            false
        }
    });
    assert_eq!(vec.as_slice(), [2, 3, 4]);
}

#[test]
fn vec_dedup_by_key() {
    let mut arena = Arena::new();
    let mut vec = vec_of(&mut arena, &[10, 20, 21, 30, 20]);
    vec.dedup_by_key(|i| *i / 10);
    assert_eq!(vec.as_slice(), [10, 20, 30, 20]);
}

#[test]
fn vec_dedup_by() {
    let mut arena = Arena::new();
    let mut vec = vec_of(&mut arena, &["foo", "bar", "Bar", "baz", "bar"]);
    vec.dedup_by(|a, b| a.eq_ignore_ascii_case(b));
    assert_eq!(vec.as_slice(), ["foo", "bar", "baz", "bar"]);
}

#[test]
fn vec_dedup_by_passes_the_later_element_first() {
    let mut arena = Arena::new();
    let mut vec = vec_of(&mut arena, &[1, 5, 2, 6, 9]);
    let mut seen = std::vec::Vec::new();
    vec.dedup_by(|a, b| {
        seen.push((*a, *b));
        *a < *b
    });
    assert_eq!(vec.as_slice(), [1, 5, 6, 9]);
    assert_eq!(seen, [(5, 1), (2, 5), (6, 5), (9, 6)]);
}

#[test]
fn vec_dedup() {
    let mut arena = Arena::new();
    let mut vec = vec_of(&mut arena, &[1, 2, 2, 3, 2]);
    vec.dedup();
    assert_eq!(vec.as_slice(), [1, 2, 3, 2]);
    let mut sorted = vec_of(&mut arena, &[1, 1, 1, 2, 3, 3]);
    sorted.dedup();
    assert_eq!(sorted.as_slice(), [1, 2, 3]);
}

#[test]
fn vec_drain() {
    let mut arena = Arena::new();
    let mut v = vec_of(&mut arena, &[1, 2, 3]);
    let mut drain = v.drain(Bound::Included(1), Bound::Unbounded);
    assert_eq!(drain.as_slice(), [2, 3]);
    assert_eq!(drain.next(), Some(2));
    assert_eq!(drain.size_hint(), (1, Some(1)));
    assert_eq!(drain.next_back(), Some(3));
    assert_eq!(drain.next_back(), None);
    drain.finish();
    assert_eq!(v.as_slice(), [1]);
    v.drain(Bound::Unbounded, Bound::Unbounded).finish();
    assert_eq!(v.as_slice(), []);
}

#[test]
fn vec_drain_middle_keeps_the_tail() {
    let mut arena = Arena::new();
    let mut v = vec_of(&mut arena, &[1, 2, 3, 4, 5]);
    let cap = v.capacity();
    v.drain(Bound::Included(1), Bound::Included(2)).finish();
    assert_eq!(v.as_slice(), [1, 4, 5]);
    assert_eq!(v.capacity(), cap);
}

#[test]
fn vec_clear() {
    let mut arena = Arena::new();
    let mut v = vec_of(&mut arena, &[1, 2, 3]);
    let cap = v.capacity();
    v.clear();
    assert!(v.is_empty());
    assert_eq!(v.capacity(), cap);
}

#[test]
fn vec_spare_capacity() {
    let mut arena = Arena::new();
    let mut vec = Vec::with_capacity_in(10, &mut arena).unwrap();
    let places = vec.spare_capacity_mut();
    assert_eq!(places.len(), 10);
    places[0].write(0);
    places[1].write(1);
    places[2].write(2);
    vec.set_len(3);
    assert_eq!(vec.as_slice(), [0, 1, 2]);
    vec.set_len(1);
    assert_eq!(vec.as_slice(), [0]);
    vec.set_len(3);
    assert_eq!(vec.as_slice(), [0, 1, 2]);
}

#[test]
fn vec_from_slice() {
    let mut arena = Arena::new();
    let slice = &[1, 2, 3, 4, 5];
    let vec = Vec::from_slice_in(slice, &mut arena).unwrap();
    assert_eq!(vec.as_slice(), slice);
    assert_eq!(vec.capacity(), 5);
    let copy = vec.clone_in(&mut arena).unwrap();
    assert!(copy == vec);
    assert_ne!(copy.as_ptr(), vec.as_ptr());
}

#[test]
fn vec_extend_from_slice() {
    let mut arena = Arena::new();
    let mut vec = vec_of(&mut arena, &[1]);
    vec.extend_from_slice(&[2, 3, 4], &mut arena).unwrap();
    assert_eq!(vec.as_slice(), [1, 2, 3, 4]);
}

#[test]
fn vec_extend_from_within() {
    let mut arena = Arena::new();
    let mut vec = vec_of(&mut arena, &[0, 1, 2, 3, 4]);
    vec.extend_from_within(Bound::Unbounded, Bound::Excluded(2), &mut arena).unwrap();
    assert_eq!(vec.as_slice(), [0, 1, 2, 3, 4, 0, 1]);
    let mut full = Vec::from_slice_in(&[7, 8, 9], &mut arena).unwrap();
    full.extend_from_within(Bound::Included(1), Bound::Included(2), &mut arena).unwrap();
    assert_eq!(full.as_slice(), [7, 8, 9, 8, 9]);
}

#[test]
fn vec_extend_with() {
    let mut arena = Arena::new();
    let mut vec = vec_of(&mut arena, &[0, 1, 2]);
    vec.extend_with(2, 3, &mut arena).unwrap();
    assert_eq!(vec.as_slice(), [0, 1, 2, 3, 3]);
    vec.extend_with(0, 4, &mut arena).unwrap();
    assert_eq!(vec.as_slice(), [0, 1, 2, 3, 3]);
}

#[test]
fn vec_extend_and_collect() {
    let mut arena = Arena::new();
    let five_fives = core::iter::repeat(5).take(5);
    let vec: Vec<i32> = Vec::from_iter_in(five_fives.clone(), &mut arena).unwrap();
    assert_eq!(vec.as_slice(), [5, 5, 5, 5, 5]);
    let other: Vec<i32> = five_fives.collect_in(&mut arena).unwrap();
    assert!(other == vec);
    let mut odd = vec_of(&mut arena, &[1]);
    odd.extend((2..10).filter(|i| i % 2 == 1), &mut arena).unwrap();
    assert_eq!(odd.as_slice(), [1, 3, 5, 7, 9]);
}

#[test]
fn vec_extend_hinted_makes_room_at_once() {
    let mut arena = Arena::new();
    let mut vec: Vec<i32> = Vec::new_in(&arena);
    vec.extend_hinted([1, 2, 3].into_iter(), 8, &mut arena).unwrap();
    assert_eq!(vec.capacity(), 8);
    assert_eq!(vec.as_slice(), [1, 2, 3]);
    let made = Vec::from_iter_hinted([4, 5].into_iter(), 6, &mut arena).unwrap();
    assert_eq!(made.capacity(), 6);
    assert_eq!(made.as_slice(), [4, 5]);
    assert!(vec.extend_hinted([1].into_iter(), usize::MAX, &mut arena).is_err());
    assert_eq!(vec.as_slice(), [1, 2, 3]);
}

#[test]
fn vec_pop_if() {
    let mut arena = Arena::new();
    let mut vec = vec_of(&mut arena, &[1, 2, 3, 4]);
    let pred = |x: &mut i32| *x % 2 == 0;
    assert_eq!(vec.pop_if(pred), Some(4));
    assert_eq!(vec.as_slice(), [1, 2, 3]);
    assert_eq!(vec.pop_if(pred), None);
    assert_eq!(vec.as_slice(), [1, 2, 3]);
    assert_eq!(
        vec.pop_if(|x| {
            *x = 9;
            false
        }),
        None
    );
    assert_eq!(vec.as_slice(), [1, 2, 9]);
}

#[test]
fn vec_into_iter() {
    let mut arena = Arena::new();
    let mut iter = vec_of(&mut arena, &[1, 2, 3, 4]).into_iter();
    assert_eq!(iter.size_hint(), (4, Some(4)));
    assert_eq!(iter.next(), Some(1));
    assert_eq!(iter.next_back(), Some(4));
    assert_eq!(iter.len(), 2);
    assert_eq!(iter.count(), 2);
    let mut none = vec_of::<i32>(&mut arena, &[]).into_iter();
    assert_eq!(none.next(), None);
    assert_eq!(none.next_back(), None);
}

#[test]
fn vec_into_slices() {
    let mut arena = Arena::new();
    let vec = vec_of(&mut arena, &[1, 2, 3]);
    let ptr = vec.as_ptr();
    let slice = vec.into_slice();
    assert_eq!(&*slice, &[1, 2, 3]);
    assert_eq!(slice.as_ptr(), ptr);
    let boxed = vec_of(&mut arena, &[4, 5]).into_boxed_slice();
    assert_eq!(&*boxed, &[4, 5]);
    let from: Slot<[i32]> = Slot::from(vec_of(&mut arena, &[6]));
    assert_eq!(&*from, &[6]);
    let from: flintnsteel::boxed::Box<[i32]> =
        flintnsteel::boxed::Box::from(vec_of(&mut arena, &[7]));
    assert_eq!(&*from, &[7]);
}

#[test]
fn vec_raw_parts() {
    let mut arena = Arena::new();
    let vec = vec_of(&mut arena, &[1, 2, 3]);
    let ptr = vec.as_ptr();
    let (slot, len, cap) = vec.into_raw_parts_with_arena();
    assert_eq!((slot.as_ptr(), len, cap), (ptr, 3, 3));
    let mut again = Vec::from_raw_parts_in(slot, len, cap, &arena);
    assert_eq!(again.as_slice(), [1, 2, 3]);
    assert_eq!(again.as_mut_ptr(), ptr);
    assert_eq!(again.capacity(), 3);
}

#[test]
fn vec_dealloc_gives_the_last_room_back() {
    let mut arena = Arena::new();
    let vec = Vec::<u8>::with_capacity_in(8, &mut arena).unwrap();
    let ptr = vec.as_ptr();
    assert!(arena.is_last_allocation(ptr));
    vec.dealloc(&mut arena);
    let next = arena.alloc_value(0u64).unwrap();
    assert_eq!(next.as_ptr(), ptr);

    let vec = Vec::<i32>::with_capacity_in(4, &mut arena).unwrap();
    let after = arena.alloc_value(0).unwrap();
    vec.dealloc(&mut arena);
    assert!(arena.is_last_allocation(after.as_ptr()));
}

#[test]
fn vec_grows_in_place_at_the_end() {
    let mut arena = Arena::new();
    let mut vec: Vec<u64> = Vec::with_capacity_in(2, &mut arena).unwrap();
    let ptr = vec.as_ptr();
    vec.reserve_exact(4, &mut arena).unwrap();
    assert_eq!(vec.as_ptr(), ptr - 16);
    assert!(arena.is_last_allocation(vec.as_ptr()));
    let other = arena.alloc_value(1u64).unwrap();
    assert_eq!(other.as_ptr(), ptr - 24);
    vec.reserve_exact(6, &mut arena).unwrap();
    assert_eq!(vec.as_ptr(), ptr - 24 - 48);
    assert_eq!(*other, 1);
}

#[test]
fn vec_mutable_slices() {
    let mut arena = Arena::new();
    let mut vec = vec_of(&mut arena, &[3, 1, 2]);
    vec.as_mut_slice()[0] = 4;
    vec[1] = 5;
    assert_eq!(vec.as_slice(), [4, 5, 2]);
    vec.sort();
    assert_eq!(vec.as_slice(), [2, 4, 5]);
    assert_eq!(vec.first(), Some(&2));
}

#[test]
fn vec_comparisons() {
    let mut arena = Arena::new();
    let a = vec_of(&mut arena, &[1, 2, 3]);
    let b = vec_of(&mut arena, &[1, 2, 4]);
    let c = vec_of(&mut arena, &[1, 2]);
    assert!(a != b);
    assert!(a < b);
    assert!(c < a);
    assert!(b > c);
    assert_eq!(a.partial_cmp(&a), Some(std::cmp::Ordering::Equal));
    let nan = vec_of(&mut arena, &[f64::NAN]);
    assert_eq!(nan.partial_cmp(&nan), None);
    assert!(nan != nan);
}

#[test]
fn vec_ranges() {
    assert_eq!(
        range(Bound::Included(0), Bound::Excluded(3), 3),
        Range { start: 0, end: 3 }
    );
    assert_eq!(
        range(Bound::Included(1), Bound::Included(3), 4),
        Range { start: 1, end: 4 }
    );
    assert_eq!(range(Bound::Excluded(1), Bound::Unbounded, 4), Range { start: 2, end: 4 });
    assert_eq!(range(Bound::Unbounded, Bound::Unbounded, 0), Range { start: 0, end: 0 });
}

#[test]
fn vec_of_units_takes_no_room() {
    let mut arena = Arena::new();
    let mut vec = Vec::new_in(&arena);
    for _ in 0..100 {
        vec.push((), &mut arena).unwrap();
    }
    assert_eq!(vec.len(), 100);
    assert_eq!(vec.capacity(), usize::MAX);
    assert_eq!(arena.size(), 0);
    vec.shrink_to_fit(&mut arena).unwrap();
    assert_eq!(vec.capacity(), usize::MAX);
    assert_eq!(vec.reserve(usize::MAX, &mut arena), Err(AllocError));
    vec.clear();
    vec.reserve(usize::MAX, &mut arena).unwrap();
    assert_eq!(Layout::new::<()>().size(), 0);
}

#[test]
fn vec_collect_values_of_no_size() {
    let mut arena = Arena::new();
    let vec: Vec<()> = std::iter::repeat(()).take(1000).collect_in(&mut arena).unwrap();
    assert_eq!(vec.len(), 1000);
    assert_eq!(arena.size(), 0);
}

#[test]
fn vec_collect_with_a_hint() {
    let mut arena = Arena::new();
    let few: Vec<u8> = Vec::from_iter_hinted([1, 2, 3].into_iter(), 2, &mut arena).unwrap();
    assert_eq!(&few[..], &[1, 2, 3]);
    assert_eq!(few.capacity(), 5);
    let many: Vec<u8> = Vec::from_iter_hinted([1, 2, 3].into_iter(), 4, &mut arena).unwrap();
    assert_eq!(&many[..], &[1, 2, 3]);
    assert_eq!(many.capacity(), 4);
    let none: Result<Vec<u8>, AllocError> =
        Vec::from_iter_hinted([1, 2, 3].into_iter(), usize::MAX, &mut arena);
    assert_eq!(none.err(), Some(AllocError));
}

#[test]
fn vec_extend_from_all_within() {
    let mut arena = Arena::new();
    let mut vec = Vec::from_slice_in(&[0, 1, 2, 3, 4], &mut arena).unwrap();
    vec.extend_from_within(Bound::Unbounded, Bound::Unbounded, &mut arena).unwrap();
    assert_eq!(vec.as_slice(), [0, 1, 2, 3, 4, 0, 1, 2, 3, 4]);
}

#[test]
fn vec_set_len_does_not_drop() {
    let dropped = Rc::new(Cell::new(0));
    struct Counted(Rc<Cell<usize>>);
    impl Drop for Counted {
        fn drop(&mut self) {
            self.0.set(self.0.get() + 1);
        }
    }
    let mut arena = Arena::new();
    let mut vec = Vec::with_capacity_in(3, &mut arena).unwrap();
    for _ in 0..3 {
        vec.push(Counted(dropped.clone()), &mut arena).unwrap();
    }
    vec.set_len(1);
    drop(vec);
    assert_eq!(dropped.get(), 1);
    let mut units = Vec::new_in(&arena);
    units.push((), &mut arena).unwrap();
    units.push((), &mut arena).unwrap();
    units.set_len(1);
    assert_eq!(units.len(), 1);
}

#[test]
fn vec_dedup_by_twice_changes_nothing() {
    let mut arena = Arena::new();
    let mut vec = Vec::from_slice_in(&[10, 11, 25, 21, 13], &mut arena).unwrap();
    vec.dedup_by(|a, b| *a / 10 == *b / 10);
    assert_eq!(vec.as_slice(), [10, 25, 13]);
    vec.dedup_by(|a, b| *a / 10 == *b / 10);
    assert_eq!(vec.as_slice(), [10, 25, 13]);
}

#[test]
fn vec_splice_more_than_there_were() {
    let mut arena = Arena::new();
    let mut vec = Vec::from_slice_in(&[1, 2, 3, 4], &mut arena).unwrap();
    let splice = vec.splice(Bound::Included(1), Bound::Excluded(3), [7, 8, 9].into_iter());
    splice.finish(&mut arena).unwrap();
    assert_eq!(vec.as_slice(), [1, 7, 8, 9, 4]);
    let mut units = Vec::from_slice_in(&[(), (), ()], &mut arena).unwrap();
    let splice = units.splice(Bound::Unbounded, Bound::Excluded(1), [(), (), ()].into_iter());
    splice.finish(&mut arena).unwrap();
    assert_eq!(units.len(), 5);
}

#[test]
fn vec_dedup_sorted_removes_all_duplicates() {
    let mut arena = Arena::new();
    let words = ["a", "b", "b", "c", "c", "c"].map(String::from);
    let mut vec = Vec::from_slice_in(&words, &mut arena).unwrap();
    vec.dedup();
    assert_eq!(vec.as_slice(), ["a", "b", "c"]);
    let mut vec = Vec::from_slice_in(&[10, 11, 20, 29, 30], &mut arena).unwrap();
    vec.dedup_by_key(|i| (*i / 10).to_string());
    assert_eq!(vec.as_slice(), [10, 20, 30]);
}

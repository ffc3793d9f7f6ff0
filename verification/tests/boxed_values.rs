use flintnsteel::boxed::{Box, CloneIn};
use flintnsteel::Arena;
use std::cell::Cell;
use std::rc::Rc;

struct Noted(Rc<Cell<usize>>);

impl Drop for Noted {
    fn drop(&mut self) {
        self.0.set(self.0.get() + 1);
    }
}

#[test]
fn box_values() {
    let mut arena = Arena::new();
    assert_eq!(*arena.alloc_boxed(0).unwrap(), 0);
    assert_eq!(&*arena.alloc_slice_copied_boxed(&[1, 2]).unwrap(), &[1, 2]);
    assert_eq!(&*arena.alloc_slice_cloned_boxed(&["a", "b"]).unwrap(), &["a", "b"]);
    assert_eq!(&*arena.alloc_str_copied_boxed("Drops allowed!").unwrap(), "Drops allowed!");
    assert_eq!(*arena.alloc_with_boxed(|| 0).unwrap(), 0);
    assert_eq!(&*arena.alloc_slice_with_boxed(|i| i << 2, 5).unwrap(), &[0, 4, 8, 12, 16]);
    assert_eq!(*arena.try_alloc_boxed(1).unwrap(), 1);
    assert_eq!(&*arena.try_alloc_slice_copied_boxed(&[3]).unwrap(), &[3]);
    assert_eq!(&*arena.try_alloc_slice_cloned_boxed(&["c"]).unwrap(), &["c"]);
    assert_eq!(&*arena.try_alloc_str_copied_boxed("d").unwrap(), "d");
    assert_eq!(*arena.try_alloc_with_boxed(|| 5).unwrap(), 5);
    assert_eq!(&*arena.try_alloc_slice_with_boxed(|i| i, 3).unwrap(), &[0, 1, 2]);
}

#[test]
fn box_drops_each_value_once() {
    let dropped = Rc::new(Cell::new(0));
    let mut arena = Arena::new();
    let boxed = arena.alloc_slice_with_boxed(|_| Noted(dropped.clone()), 3).unwrap();
    assert_eq!(dropped.get(), 0);
    drop(boxed);
    assert_eq!(dropped.get(), 3);
}

#[test]
fn slot_does_not_drop_its_value() {
    let dropped = Rc::new(Cell::new(0));
    let mut arena = Arena::new();
    let slot = arena.alloc_value(Noted(dropped.clone())).unwrap();
    drop(slot);
    assert_eq!(dropped.get(), 0);
    let slot = arena.alloc_value(Noted(dropped.clone())).unwrap();
    drop(Box::from_raw(slot));
    assert_eq!(dropped.get(), 1);
}

#[test]
fn box_raw_and_unbox() {
    let mut arena = Arena::new();
    let mut boxed = arena.alloc_boxed(0).unwrap();
    let ptr = boxed.as_ptr();
    assert_eq!(boxed.as_mut_ptr(), ptr);
    *boxed = 4;
    *boxed.as_mut() += 1;
    assert_eq!(boxed.as_ref(), &5);
    let slot = boxed.into_raw();
    assert_eq!(*slot, 5);
    assert_eq!(slot.as_ptr(), ptr);
    let mut unboxed = Box::from_raw(slot).unbox();
    assert_eq!(*unboxed, 5);
    *unboxed = 6;
    assert_eq!(*unboxed, 6);
    let (at, value) = unboxed.into_parts();
    assert_eq!((at, *value), (ptr, 6));
}

#[test]
fn box_assume_init() {
    let mut arena = Arena::new();
    let mut place = arena.alloc_boxed(None).unwrap();
    *place = Some(7);
    let ptr = place.as_ptr();
    let boxed = place.assume_init();
    assert_eq!(*boxed, 7);
    assert_eq!(boxed.as_ptr(), ptr);
    let mut places = arena.alloc_slice_with_boxed(|_| None, 3).unwrap();
    for i in 0..3 {
        places[i] = Some(i * 10);
    }
    assert_eq!(&*places.assume_init(), &[0, 10, 20]);
}

#[test]
fn box_comparisons() {
    let mut arena = Arena::new();
    let one = arena.alloc_boxed(1).unwrap();
    let two = arena.alloc_boxed(2).unwrap();
    assert!(one != two);
    assert!(one < two);
    let a = arena.alloc_str_copied_boxed("a").unwrap();
    let b = arena.alloc_str_copied_boxed("a").unwrap();
    assert!(a == b);
    assert_ne!(a.as_ptr(), b.as_ptr());
}

#[test]
fn clone_in_arena() {
    let mut arena = Arena::new();
    let boxed = arena.alloc_slice_with_boxed(|_| 5, 5).unwrap();
    assert_eq!(*boxed, [5, 5, 5, 5, 5]);
    let cloned = boxed.clone_in(&mut arena).unwrap();
    assert_eq!(*cloned, [5, 5, 5, 5, 5]);
    assert_ne!(cloned.as_ptr(), boxed.as_ptr());
    let string = arena.alloc_str_copied("C'mon").unwrap();
    let again = (*string).clone_in(&mut arena).unwrap();
    assert_eq!(&*again, "C'mon");
    let one = arena.alloc_boxed(String::from("x")).unwrap();
    assert_eq!(*one.clone_in(&mut arena).unwrap(), "x");
    let text = arena.alloc_str_copied_boxed("y").unwrap();
    assert_eq!(&*text.clone_in(&mut arena).unwrap(), "y");
    assert_eq!(*9u8.clone_in(&mut arena).unwrap(), 9);
    let slice: &[u8] = &[1, 2];
    assert_eq!(&*slice.clone_in(&mut arena).unwrap(), &[1, 2]);
}

#[test]
fn clone_in_for_any_type() {
    fn twice<C: CloneIn + ?Sized>(value: &C, arena: &mut Arena) -> (C::Cloned, C::Cloned) {
        (value.clone_in(arena).unwrap(), value.clone_in(arena).unwrap())
    }
    let mut arena = Arena::new();
    let (first, second) = twice("text", &mut arena);
    assert_eq!((&*first, &*second), ("text", "text"));
    assert_eq!(second.as_ptr() + 4, first.as_ptr());
}

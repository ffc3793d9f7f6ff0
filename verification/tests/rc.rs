use flintnsteel::rc::Rc;
use flintnsteel::Arena;
use std::cell::{Cell, RefCell};

#[test]
fn rc_values() {
    let mut arena = Arena::new();
    assert_eq!(*arena.alloc_rc(0).unwrap(), 0);
    assert_eq!(&*arena.alloc_slice_copied_rc(&[1, 2, 3]).unwrap(), &[1, 2, 3]);
    assert_eq!(
        &*arena.alloc_slice_cloned_rc(&[String::from("a")]).unwrap(),
        &[String::from("a")]
    );
    assert_eq!(&*arena.alloc_str_copied_rc("Cat science").unwrap(), "Cat science");
    assert_eq!(*arena.alloc_with_rc(|| 0).unwrap(), 0);
    assert_eq!(&*arena.alloc_slice_with_rc(|i| i / 2, 5).unwrap(), &[0, 0, 1, 1, 2]);
    assert_eq!(*arena.try_alloc_rc(7).unwrap(), 7);
    assert_eq!(&*arena.try_alloc_slice_copied_rc(&[1]).unwrap(), &[1]);
    assert_eq!(&*arena.try_alloc_slice_cloned_rc(&["a"]).unwrap(), &["a"]);
    assert_eq!(&*arena.try_alloc_str_copied_rc("x").unwrap(), "x");
    assert_eq!(*arena.try_alloc_with_rc(|| 8).unwrap(), 8);
    assert_eq!(&*arena.try_alloc_slice_with_rc(|i| i, 2).unwrap(), &[0, 1]);
}

#[test]
fn rc_clone_shares_the_value() {
    let mut arena = Arena::new();
    let rc = arena.alloc_rc(0).unwrap();
    let cloned = rc.clone_in(&mut arena);
    assert_eq!(*rc, *cloned);
    assert_eq!(rc.as_ptr(), cloned.as_mut_ptr());
    assert!(rc == cloned);
    assert!(rc <= cloned);
    assert_eq!(rc.as_ref(), cloned.as_ref());
}

#[test]
fn rc_counts_per_chunk() {
    let mut arena = Arena::new();
    let rc = arena.alloc_rc(1u32).unwrap();
    let (block, origin) = rc.into_raw_parts();
    let footer = origin.unwrap();
    assert_eq!(arena.refcount_of(footer), Some(1));
    let rc = Rc::from_raw_parts(block, origin);
    let second = rc.clone_in(&mut arena);
    let third = arena.alloc_rc(2u32).unwrap();
    assert_eq!(arena.refcount_of(footer), Some(3));
    second.drop_in(&mut arena);
    third.drop_in(&mut arena);
    assert_eq!(arena.refcount_of(footer), Some(1));
    rc.drop_in(&mut arena);
    assert_eq!(arena.refcount_of(footer), Some(0));
    assert_eq!(arena.refcount_of(footer + 1), None);
}

#[test]
fn rc_of_no_size_is_not_counted() {
    let mut arena = Arena::new();
    let _ = arena.alloc_value(1u64).unwrap();
    let (_, origin) = arena.alloc_rc(1u8).unwrap().into_raw_parts();
    let unit = arena.alloc_rc(()).unwrap();
    let empty = arena.alloc_str_copied_rc("").unwrap();
    assert_eq!(arena.refcount_of(origin.unwrap()), Some(1));
    unit.clone_in(&mut arena).drop_in(&mut arena);
    unit.drop_in(&mut arena);
    empty.drop_in(&mut arena);
    assert_eq!(arena.refcount_of(origin.unwrap()), Some(1));
}

#[test]
fn rc_outlives_its_arena() {
    let mut arena = Arena::new();
    let string = arena.alloc_str_copied("What's up my allocation bros").unwrap();
    assert_eq!(string.len(), 28);
    let mut num = arena.alloc_value(0).unwrap();
    *num += 1;
    assert_eq!(*num, 1);
    let rc = arena.alloc_slice_copied_rc(&[1, 2, 3, 4, 5]).unwrap();
    let other = rc.clone_in(&mut arena);
    let mut heap = arena.into_left_over();
    assert_eq!(heap.count(), 1);
    assert_eq!(&*rc, &[1, 2, 3, 4, 5]);
    let last = other.clone_left(&mut heap);
    rc.drop_left(&mut heap);
    other.drop_left(&mut heap);
    assert_eq!(heap.count(), 1);
    assert_eq!(&*last, &[1, 2, 3, 4, 5]);
    last.drop_left(&mut heap);
    assert_eq!(heap.count(), 0);
}

#[test]
fn rc_keeps_only_its_own_chunk() {
    let mut arena = Arena::new();
    let _ = arena.alloc_slice_copied(&[0u8; 400]).unwrap();
    let rc = arena.alloc_rc(5u8).unwrap();
    let _ = arena.alloc_slice_copied(&[0u8; 4000]).unwrap();
    let _ = arena.alloc_slice_copied(&[0u8; 40000]).unwrap();
    assert_eq!(arena.count(), 3);
    let mut heap = arena.into_left_over();
    assert_eq!(heap.count(), 1);
    rc.drop_left(&mut heap);
    assert_eq!(heap.count(), 0);
}

#[test]
fn rc_survives_reset_of_its_chunk() {
    let mut arena = Arena::new();
    let rc = arena.alloc_rc(5u8).unwrap();
    let _ = arena.alloc_slice_copied(&[0u8; 4000]).unwrap();
    assert_eq!(arena.count(), 2);
    arena.reset();
    assert_eq!(arena.count(), 2);
    assert_eq!(*rc, 5);
    rc.drop_in(&mut arena);
    assert_eq!(arena.count(), 1);
}

#[test]
fn rc_memory_is_not_handed_out_again_after_reset() {
    let mut arena = Arena::new();
    let rc = arena.alloc_rc(1u32).unwrap();
    let held = rc.as_ptr();
    arena.reset();
    assert_eq!(arena.refcount_of(held + 4), Some(1));
    let slot = arena.alloc_value(2u32).unwrap();
    assert_eq!((*rc, *slot), (1, 2));
    assert_eq!(slot.as_ptr(), held - 4);
    rc.drop_in(&mut arena);
    arena.reset();
    assert_eq!(arena.alloc_value(3u32).unwrap().as_ptr(), held);
}

#[test]
fn rc_outlives_a_second_reset() {
    let mut arena = Arena::new();
    let rc = arena.alloc_rc(1u8).unwrap();
    arena.reset();
    let _ = arena.alloc_slice_copied(&[0u8; 4000]).unwrap();
    arena.reset();
    assert_eq!(arena.count(), 2);
    assert_eq!(*rc, 1);
    rc.drop_in(&mut arena);
    assert_eq!(arena.count(), 1);
}

#[test]
fn rc_snapshot() {
    #[derive(Copy, Clone)]
    struct Bank {
        assets: usize,
    }
    let mut arena = Arena::new();
    let mut bank = arena.alloc_value(Bank { assets: 0 }).unwrap();
    assert_eq!(bank.assets, 0);
    bank.assets += 1;
    let snapshot = arena.alloc_rc(*bank).unwrap();
    drop(arena);
    assert_eq!(snapshot.assets, 1);
}

#[test]
fn rc_of_a_cell() {
    let mut arena = Arena::new();
    let rc = arena.alloc_with_rc(|| RefCell::new(0)).unwrap();
    *(*rc).borrow_mut() = 1;
    assert_eq!(*rc.borrow(), 1);
}

#[test]
fn rc_does_not_drop_its_value() {
    struct Noted(std::rc::Rc<Cell<bool>>);
    impl Drop for Noted {
        fn drop(&mut self) {
            self.0.set(true);
        }
    }
    let dropped = std::rc::Rc::new(Cell::new(false));
    let mut arena = Arena::new();
    let rc = arena.alloc_rc(Noted(dropped.clone())).unwrap();
    let again = rc.clone_in(&mut arena);
    rc.drop_in(&mut arena);
    again.drop_in(&mut arena);
    drop(arena);
    assert!(!dropped.get());
}

#[test]
fn rc_raw_parts_and_leak() {
    let mut arena = Arena::new();
    let rc = arena.alloc_str_copied_rc("What do you even do with raw parts?").unwrap();
    let (ptr, origin) = rc.into_raw_parts();
    let new_rc = Rc::from_raw_parts(ptr, origin);
    assert_eq!(&*new_rc, "What do you even do with raw parts?");
    let leaked = new_rc.leak();
    let heap = arena.into_left_over();
    assert_eq!(heap.count(), 1);
    assert_eq!(&*leaked, "What do you even do with raw parts?");
}

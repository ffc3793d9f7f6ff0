use core::f32::consts::PI;
use flintnsteel::layout::Layout;
use flintnsteel::Arena;
use std::cell::Cell;
use std::rc::Rc;

fn write_all(arena: &mut Arena, ptr: usize, bytes: &[u8]) {
    for (i, &byte) in bytes.iter().enumerate() {
        arena.write(ptr + i, byte);
    }
}

fn read_all(arena: &Arena, ptr: usize, len: usize) -> Vec<u8> {
    (0..len).map(|i| arena.read(ptr + i)).collect()
}

#[test]
fn boxed() {
    struct Droppable {
        dropped: Rc<Cell<bool>>,
    }

    impl Drop for Droppable {
        fn drop(&mut self) {
            self.dropped.set(true);
        }
    }

    let dropped = Rc::new(Cell::new(false));
    let mut arena = Arena::new();
    let boxed = arena.alloc_boxed(Droppable { dropped: dropped.clone() }).unwrap();
    assert!(!dropped.get());
    drop(boxed);

    assert!(dropped.get());
}

#[test]
fn boxed_slice() {
    let mut arena = Arena::new();
    let boxed = arena.alloc_slice_with_boxed(|i| i + 1, 512).unwrap();
    assert_eq!(boxed.len(), 512);
    assert_eq!(boxed[0], 1);
    assert_eq!(boxed[511], 512);
}

#[test]
fn arena_single_int() {
    let mut arena = Arena::new();
    let val = 42i32;
    let ptr = arena.alloc_value(val).unwrap();
    assert_eq!(*ptr, 42);
}

#[test]
fn arena_single_float() {
    let mut arena = Arena::new();
    let val = PI;
    let ptr = arena.alloc_value(val).unwrap();
    assert_eq!(*ptr, PI);
}

#[test]
fn arena_single_struct() {
    #[derive(PartialEq, Debug)]
    struct Point {
        x: i32,
        y: i32,
    }
    let mut arena = Arena::new();
    let val = Point { x: 10, y: 20 };
    let ptr = arena.alloc_value(val).unwrap();
    assert_eq!(*ptr, Point { x: 10, y: 20 });
}

#[test]
fn arena_slice_copied_empty() {
    let mut arena = Arena::new();
    let slice: &[i32] = &[];
    let ptr = arena.alloc_slice_copied(slice).unwrap();
    assert_eq!(ptr.len(), 0);
}

#[test]
fn arena_slice_copied_single() {
    let mut arena = Arena::new();
    let slice = [42i32];
    let ptr = arena.alloc_slice_copied(&slice).unwrap();
    assert_eq!(ptr.len(), 1);
    assert_eq!(ptr[0], 42);
}

#[test]
fn arena_slice_copied_multiple() {
    let mut arena = Arena::new();
    let slice = [1, 2, 3, 4, 5];
    let ptr = arena.alloc_slice_copied(&slice).unwrap();
    assert_eq!(ptr.len(), 5);
    for (i, &val) in ptr.iter().enumerate() {
        assert_eq!(val, i + 1);
    }
}

#[test]
fn arena_slice_copied_different_types() {
    let mut arena = Arena::new();
    let slice = [true, false, true];
    let ptr = arena.alloc_slice_copied(&slice).unwrap();
    assert_eq!(ptr.len(), 3);
    assert_eq!(ptr[0], true);
    assert_eq!(ptr[1], false);
    assert_eq!(ptr[2], true);
}

#[test]
fn arena_slice_cloned_empty() {
    let mut arena = Arena::new();
    let slice: &[String] = &[];
    let ptr = arena.alloc_slice_cloned(slice).unwrap();
    assert_eq!(ptr.len(), 0);
}

#[test]
fn arena_slice_cloned_single() {
    let mut arena = Arena::new();
    let slice = ["hello"];
    let ptr = arena.alloc_slice_cloned(&slice).unwrap();
    assert_eq!(ptr.len(), 1);
    assert_eq!(ptr[0], "hello");
}

#[test]
fn arena_slice_cloned_multiple() {
    let mut arena = Arena::new();
    let slice = ["a", "b", "c"];
    let ptr = arena.alloc_slice_cloned(&slice).unwrap();
    assert_eq!(ptr.len(), 3);
    assert_eq!(ptr[0], "a");
    assert_eq!(ptr[1], "b");
    assert_eq!(ptr[2], "c");
}

#[test]
fn arena_str_copied_empty() {
    let mut arena = Arena::new();
    let s = "";
    let ptr = arena.alloc_str_copied(s).unwrap();
    assert_eq!(ptr.len(), 0);
    assert_eq!(&*ptr, "");
}

#[test]
fn arena_str_copied_single_char() {
    let mut arena = Arena::new();
    let s = "a";
    let ptr = arena.alloc_str_copied(s).unwrap();
    assert_eq!(ptr.len(), 1);
    assert_eq!(&*ptr, "a");
}

#[test]
fn arena_str_copied_unicode() {
    let mut arena = Arena::new();
    let s = "Hello, 世界!";
    let ptr = arena.alloc_str_copied(s).unwrap();
    assert_eq!(ptr.len(), s.len());
    assert_eq!(&*ptr, s);
}

#[test]
fn arena_str_copied_non_ascii() {
    let mut arena = Arena::new();
    let s = "café";
    let ptr = arena.alloc_str_copied(s).unwrap();
    assert_eq!(&*ptr, s);
}

#[test]
fn arena_layout_basic() {
    let mut arena = Arena::new();
    let layout = Layout::new::<i32>();
    let ptr = arena.alloc_layout(layout).unwrap();
    arena.write(ptr, 123);
    assert_eq!(arena.read(ptr), 123);
}

#[test]
fn arena_layout_align_8() {
    let mut arena = Arena::new();
    let layout = Layout::from_size_align(8, 8).unwrap();
    let addr = arena.alloc_layout(layout).unwrap();
    assert_eq!(addr % 8, 0);
}

#[test]
fn arena_layout_align_16() {
    let mut arena = Arena::new();
    let layout = Layout::from_size_align(16, 16).unwrap();
    let addr = arena.alloc_layout(layout).unwrap();
    assert_eq!(addr % 16, 0);
}

#[test]
fn arena_layout_multiple() {
    let mut arena = Arena::new();
    let layout1 = Layout::new::<i32>();
    let layout2 = Layout::new::<f64>();
    let ptr1 = arena.alloc_layout(layout1).unwrap();
    let ptr2 = arena.alloc_layout(layout2).unwrap();
    arena.write(ptr1, 42);
    write_all(&mut arena, ptr2, &PI.to_ne_bytes());
    assert_eq!(arena.read(ptr1), 42);
    assert_eq!(read_all(&arena, ptr2, 4), PI.to_ne_bytes());
}

#[test]
fn arena_layout_size_0() {
    let mut arena = Arena::new();
    let layout = Layout::from_size_align(0, 1).unwrap();
    let ptr = arena.try_alloc_layout(layout);

    assert!(ptr.is_some())
}

#[test]
fn arena_multiple_values() {
    let mut arena = Arena::new();
    let a = arena.alloc_value(1i32).unwrap();
    let b = arena.alloc_value(2i32).unwrap();
    let c = arena.alloc_value(3i32).unwrap();
    assert_eq!(*a, 1);
    assert_eq!(*b, 2);
    assert_eq!(*c, 3);
}

#[test]
fn arena_str_then_int() {
    let mut arena = Arena::new();
    let s = arena.alloc_str_copied("test").unwrap();
    let i = arena.alloc_value(99i32).unwrap();
    assert_eq!(&*s, "test");
    assert_eq!(*i, 99);
}

#[test]
fn arena_slice_then_str() {
    let mut arena = Arena::new();
    let slice = arena.alloc_slice_copied(&[1, 2, 3]).unwrap();
    let str = arena.alloc_str_copied("hello").unwrap();
    assert_eq!(slice[0], 1);
    assert_eq!(slice[1], 2);
    assert_eq!(slice[2], 3);
    assert_eq!(&*str, "hello");
}

#[test]
fn arena_with_capacity() {
    let mut arena = Arena::with_capacity(100).unwrap();
    let a = arena.alloc_value(1i32).unwrap();
    let b = arena.alloc_slice_copied(&[2, 3, 4]).unwrap();
    let c = arena.alloc_str_copied("short").unwrap();
    assert_eq!(*a, 1);
    assert_eq!(b.len(), 3);
    assert_eq!(&*c, "short");
}

#[test]
fn arena_alignment_padding() {
    let mut arena = Arena::new();
    let a = arena.alloc_value(1i8).unwrap();
    let b = arena.alloc_value(2i32).unwrap();
    let addr_a = a.as_ptr();
    let addr_b = b.as_ptr();
    assert_eq!(addr_b % 4, 0);
    assert!(addr_b < addr_a);
}

#[test]
fn arena_slice_cloned_with_struct() {
    #[derive(Clone, PartialEq, Debug)]
    struct S {
        x: i32,
    }
    let mut arena = Arena::new();
    let slice = [S { x: 1 }, S { x: 2 }];
    let ptr = arena.alloc_slice_cloned(&slice).unwrap();
    assert_eq!(ptr[0].x, 1);
    assert_eq!(ptr[1].x, 2);
}

#[test]
fn arena_layout_large_size() {
    let mut arena = Arena::new();
    let layout = Layout::from_size_align(1024, 8).unwrap();
    let ptr = arena.alloc_layout(layout).unwrap();
    arena.write(ptr + 1023, 42u8);
    assert_eq!(arena.read(ptr + 1023), 42);
}

#[test]
fn arena_str_copied_preserves_content() {
    let mut arena = Arena::new();
    let s = "This is a long string with multiple words and punctuation!";
    for _ in 0..100 {
        let ptr = arena.alloc_str_copied(s).unwrap();
        assert_eq!(&*ptr, s);
    }
}

#[test]
fn arena_and_drop_arena() {
    let arena = Arena::new();
    drop(arena);
}

#[test]
fn arena_str_copied_large() {
    let mut arena = Arena::new();
    let s = "a".repeat(1000);
    let ptr = arena.alloc_str_copied(&s).unwrap();
    assert_eq!(ptr.len(), 1000);
    assert_eq!(*ptr, s);
}

#[test]
fn arena_layout_mixed_sizes() {
    let mut arena = Arena::new();
    let l1 = Layout::new::<u8>();
    let l2 = Layout::new::<u16>();
    let l3 = Layout::new::<u32>();
    let l4 = Layout::new::<u64>();
    let p1 = arena.alloc_layout(l1).unwrap();
    let p2 = arena.alloc_layout(l2).unwrap();
    let p3 = arena.alloc_layout(l3).unwrap();
    let p4 = arena.alloc_layout(l4).unwrap();
    write_all(&mut arena, p1, &1u8.to_ne_bytes());
    write_all(&mut arena, p2, &2u16.to_ne_bytes());
    write_all(&mut arena, p3, &3u32.to_ne_bytes());
    write_all(&mut arena, p4, &4u64.to_ne_bytes());
    assert_eq!(read_all(&arena, p1, 1), 1u8.to_ne_bytes());
    assert_eq!(read_all(&arena, p2, 2), 2u16.to_ne_bytes());
    assert_eq!(read_all(&arena, p3, 4), 3u32.to_ne_bytes());
    assert_eq!(read_all(&arena, p4, 8), 4u64.to_ne_bytes());
}

#[test]
fn arena_multiple_types_in_sequence() {
    let mut arena = Arena::new();
    let a = arena.alloc_value(1i8).unwrap();
    let b = arena.alloc_value(2u16).unwrap();
    let c = arena.alloc_value(3u32).unwrap();
    let d = arena.alloc_value(4u64).unwrap();
    let e = arena.alloc_str_copied("test").unwrap();
    let f = arena.alloc_slice_copied(&[5u8, 6u8]).unwrap();
    assert_eq!(*a, 1);
    assert_eq!(*b, 2);
    assert_eq!(*c, 3);
    assert_eq!(*d, 4);
    assert_eq!(&*e, "test");
    assert_eq!(f[0], 5);
    assert_eq!(f[1], 6);
}

#[test]
fn arena_dealloc_unaligned() {
    let mut arena = Arena::with_capacity(32).unwrap();
    let layout = Layout::from_size_align(31, 8).unwrap();
    let ptr = arena.alloc_layout(layout).unwrap();
    arena.dealloc(ptr, layout);
    assert_eq!(arena.alloc_layout(layout).unwrap(), ptr);
}

use flintnsteel::error::AllocError;
use flintnsteel::stack::Stack;

#[test]
fn stack_new() {
    let stack = Stack::<u8>::new();
    assert_eq!(stack.cap(), 0);
}

#[test]
fn stack_with_capacity() {
    let stack = Stack::<u8>::with_capacity(3).unwrap();
    assert_eq!(stack.cap(), 3);
}

#[test]
fn stack_push() {
    let mut stack = Stack::<u8>::new();
    stack.push(1).unwrap();
    stack.push(2).unwrap();

    assert_eq!(stack.len(), 2);
}

#[test]
fn stack_pop() {
    let mut stack = Stack::<u8>::new();
    stack.push(255).unwrap();
    stack.push(0).unwrap();

    assert_eq!(stack.pop(), Some(0));
    assert_eq!(stack.pop(), Some(255));
}

#[test]
fn stack_reserve() {
    let mut stack = Stack::<u8>::new();
    assert_eq!(stack.cap(), 0);

    stack.reserve(3).unwrap();
    assert_eq!(stack.cap(), 3);
}

#[test]
fn stack_too_large() {
    assert!(Stack::<u64>::with_capacity(usize::MAX).is_err());
    assert!(Stack::<u64>::try_with_capacity(usize::MAX / 2).is_none());
    let mut stack = Stack::<u64>::default();
    stack.push(1).unwrap();
    assert_eq!(stack.reserve(usize::MAX), Err(AllocError));
    assert!(stack.try_reserve(usize::MAX / 4).is_none());
    assert_eq!((stack.len(), stack.cap()), (1, 1));
    assert_eq!(stack.pop_unchecked(), 1);
}

#[test]
fn stack_grows_to_twice_its_capacity() {
    let mut stack = Stack::<u8>::new();
    let mut caps = Vec::new();
    for i in 0..9 {
        stack.push(i).unwrap();
        caps.push(stack.cap());
    }
    assert_eq!(caps, [1, 2, 4, 4, 8, 8, 8, 8, 16]);
    stack.reserve(3).unwrap();
    assert_eq!(stack.cap(), 32);
    for i in (0..9).rev() {
        assert_eq!(stack.pop(), Some(i));
    }
    assert_eq!(stack.pop(), None);
    stack.reserve(0).unwrap();
    assert_eq!(stack.cap(), 32);
}

#[test]
fn stack_reserve_more_than_held() {
    let mut stack = Stack::<u8>::new();
    stack.push(1).unwrap();
    assert_eq!(stack.try_reserve(3), Some(()));
    assert_eq!(stack.len(), 1);
    assert_eq!(stack.cap(), 4);
    assert_eq!(stack.try_reserve(0), Some(()));
    assert_eq!(stack.try_reserve(usize::MAX), None);
    assert_eq!(stack.cap(), 4);
    assert_eq!(stack.pop(), Some(1));
    let units = Stack::<()>::with_capacity(isize::MAX as usize).unwrap();
    assert_eq!(units.cap(), isize::MAX as usize);
    assert!(Stack::<()>::try_with_capacity(isize::MAX as usize + 1).is_none());
}

#[test]
fn stack_of_no_capacity() {
    assert!(Stack::<u8>::try_with_capacity(0).is_none());
    assert_eq!(Stack::<u8>::with_capacity(0).unwrap().cap(), 0);
}

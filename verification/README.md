# Flintnsteel

An arena allocator, lightweight and fast, written in Verus: what it promises of its blocks is
stated in contracts and proved. It is extendable with reference counting, automatic drops and
allocator recycling.

```rust
use flintnsteel::Arena;

fn main() {
    let mut arena = Arena::new();

    let string = arena.alloc_str_copied("What's up my allocation bros").unwrap();
    assert_eq!(string.len(), 28);

    let mut num = arena.alloc_value(0).unwrap();
    *num += 1;
    assert_eq!(*num, 1);

    let rc = arena.alloc_slice_copied_rc(&[1, 2, 3, 4, 5]).unwrap();
    let mut left_over = arena.into_left_over();
    assert_eq!(&*rc, &[1, 2, 3, 4, 5]);
    rc.drop_left(&mut left_over);
    assert_eq!(left_over.count(), 0);
}
```

Verus takes no destructors, so what is to happen at the end of a value is a call. An arena gives
its chunks up with `into_left_over`, which leaves those that a reference counted handle holds; one
that is just dropped takes all its chunks with it. A handle is given back with `drop_in`, or with
`drop_left` once its arena is gone. A drained or spliced range is done with `finish`.

## Layout

- `src/align.rs`, `src/layout.rs`, `src/chunk.rs`: rounding, layouts, and how large a chunk is.
- `src/heap.rs`: the chunks an arena has from the global allocator, with their counts and bytes.
- `src/raw.rs`: bump allocation in a list of chunks: allocate, give back, grow, shrink, reset.
- `src/laws.rs`, `src/live.rs`: what holds of an arena over several calls.
- `src/arena.rs`: the arena with its plain, boxed and reference counted allocations.
- `src/slot.rs`, `src/boxed.rs`, `src/rc.rs`: the handles of these.
- `src/vec/`: a growable array inside an arena, with draining, splicing and its own laws.
- `src/stack.rs`, `src/pool.rs`: arenas that wait to be used again.
- `app/`: the pool behind a lock for threads, calls that panic where there is no memory,
  pinned values, and arenas that collections allocate in.

Functions of the library do not panic. Where there is no memory they return `None` or an
`AllocError`; what they ask of their arguments stands in their `requires`.

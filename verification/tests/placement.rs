use flintnsteel::align::{
    align_down_with_provenance, align_to_checked, align_to_unchecked,
    align_up_non_null_with_provenance_unchecked, is_aligned_to_unchecked, is_power_of_two,
};
use flintnsteel::chunk::{chunk_layout, next_power_of_two};
use flintnsteel::error::{unwrap_alloc, AllocError};
use flintnsteel::heap::{chunk_in_memory, dealloc_chunk_list, new_chunk, ChunkFooter, Heap};
use flintnsteel::layout::{Layout, LayoutError};
use flintnsteel::raw::{RawArena, DANGLING};
use flintnsteel::Arena;

fn layout(size: usize, align: usize) -> Layout {
    Layout::from_size_align(size, align).unwrap()
}

fn fill(arena: &mut Arena, ptr: usize, len: usize) {
    for i in 0..len {
        arena.write(ptr + i, i as u8 + 1);
    }
}

fn is_filled(arena: &Arena, ptr: usize, len: usize) -> bool {
    (0..len).all(|i| arena.read(ptr + i) == i as u8 + 1)
}

#[test]
fn align_numbers() {
    assert_eq!(align_to_checked(10, 8), Some(16));
    assert_eq!(align_to_checked(16, 8), Some(16));
    assert_eq!(align_to_checked(usize::MAX, 8), None);
    assert_eq!(align_to_unchecked(10, 8), 16);
    assert_eq!(align_down_with_provenance(9, 4), 8);
    assert_eq!(align_up_non_null_with_provenance_unchecked(9, 4), 12);
    assert!(is_aligned_to_unchecked(24, 8));
    assert!(!is_aligned_to_unchecked(4, 8));
    assert!(is_power_of_two(64));
    assert!(!is_power_of_two(0));
    assert!(!is_power_of_two(48));
}

#[test]
fn layouts() {
    assert_eq!(Layout::from_size_align(8, 3), Err(LayoutError));
    assert_eq!(Layout::from_size_align(isize::MAX as usize, 2), Err(LayoutError));
    assert_eq!(Layout::new::<u32>(), Layout { size: 4, align: 4 });
    assert_eq!(Layout::array::<u16>(5), Ok(Layout { size: 10, align: 2 }));
    assert_eq!(Layout::array::<u64>(usize::MAX / 4), Err(LayoutError));
    assert_eq!(Layout::for_value(&[1u32, 2]), Ok(Layout { size: 8, align: 4 }));
    assert_eq!(Layout::for_str("café"), Ok(Layout { size: 5, align: 1 }));
    assert_eq!((layout(24, 8).size(), layout(24, 8).align()), (24, 8));
}

#[test]
fn chunk_layouts() {
    assert_eq!(next_power_of_two(0), 1);
    assert_eq!(next_power_of_two(512), 512);
    assert_eq!(next_power_of_two(513), 1024);
    assert_eq!(chunk_layout(448, 1), Some(Layout { size: 496, align: 16 }));
    assert_eq!(chunk_layout(8, 1), Some(Layout { size: 112, align: 16 }));
    assert_eq!(chunk_layout(100, 64), Some(Layout { size: 240, align: 64 }));
    assert_eq!(chunk_layout(5000, 8), Some(Layout { size: 8176, align: 16 }));
    assert_eq!(chunk_layout(isize::MAX as usize, 1), None);
}

#[test]
fn alloc_errors() {
    assert_eq!(unwrap_alloc(Some(3)), Ok(3));
    assert_eq!(unwrap_alloc::<u8>(None), Err(AllocError));
    assert_eq!(AllocError::default().to_text(), "allocation failed");
}

#[test]
fn arena_sizes() {
    let mut arena = Arena::new();
    assert_eq!(arena.size(), 0);
    let _ = arena.alloc_value(1).unwrap();
    assert_eq!(arena.size(), 496);
    let _ = arena.alloc_slice_copied(&[0u8; 600]).unwrap();
    assert_eq!(arena.size(), 496 + 1008);
    assert_eq!(Arena::with_capacity(8).unwrap().size(), 112);
    assert_eq!(Arena::default().size(), 0);
    assert!(Arena::with_capacity(usize::MAX).is_err());
    assert!(Arena::try_with_capacity(isize::MAX as usize).is_none());
}

#[test]
fn arena_chunks_double() {
    let mut arena = Arena::new();
    let mut sizes = Vec::new();
    let mut before = 0;
    for _ in 0..5000 {
        let _ = arena.alloc_value(0u64).unwrap();
        let now = arena.size();
        if now != before {
            sizes.push(now - before - 48);
            before = now;
        }
    }
    assert!(sizes.len() > 3);
    for pair in sizes.windows(2) {
        assert!(pair[1] >= 2 * pair[0]);
    }
}

#[test]
fn arena_capacity_is_there() {
    let mut arena = Arena::with_capacity(300).unwrap();
    let size = arena.size();
    let _ = arena.alloc_layout(layout(300, 1)).unwrap();
    assert_eq!(arena.size(), size);
}

#[test]
fn arena_blocks_go_down_and_stay_apart() {
    let mut arena = Arena::new();
    let mut blocks: Vec<(usize, usize)> = Vec::new();
    for i in 1..200usize {
        let wanted = layout(i % 37, 1 << (i % 5));
        let ptr = arena.alloc_layout(wanted).unwrap();
        assert_eq!(ptr % wanted.align(), 0);
        assert!(arena.is_last_allocation(ptr));
        for &(other, size) in &blocks {
            assert!(wanted.size() == 0 || size == 0 || ptr + wanted.size() <= other || other + size <= ptr);
        }
        blocks.push((ptr, wanted.size()));
    }
}

#[test]
fn arena_too_large_layout() {
    let mut arena = Arena::new();
    assert_eq!(arena.try_alloc_layout(layout(isize::MAX as usize, 1)), None);
    assert_eq!(arena.alloc_layout(layout(isize::MAX as usize - 15, 16)), Err(AllocError));
    assert_eq!(arena.size(), 0);
    assert!(arena.try_alloc_slice_with(|_| 0u64, usize::MAX).is_none());
    assert!(arena.alloc_slice_with_boxed(|_| 0u64, usize::MAX).is_err());
    assert!(arena.alloc_slice_with_rc(|_| 0u64, usize::MAX).is_err());
}

#[test]
fn arena_plain_values() {
    let mut arena = Arena::new();
    assert_eq!(&*arena.alloc_slice_with(|index| index * 2, 8).unwrap(), &[0, 2, 4, 6, 8, 10, 12, 14]);
    assert_eq!(*arena.alloc_with(|| 1usize).unwrap(), 1);
    assert_eq!(*arena.try_alloc(5).unwrap(), 5);
    assert_eq!(*arena.try_alloc_with(|| 6).unwrap(), 6);
    assert_eq!(&*arena.try_alloc_slice_copied(&[7]).unwrap(), &[7]);
    assert_eq!(&*arena.try_alloc_slice_cloned(&["x"]).unwrap(), &["x"]);
    assert_eq!(&*arena.try_alloc_str_copied("NoDrops™").unwrap(), "NoDrops™");
    let mut value = arena.alloc_value(1).unwrap();
    *value = 3;
    assert_eq!(*value, 3);
}

#[test]
fn arena_flipflop_after_reset() {
    let mut arena = Arena::new();
    assert_eq!(*arena.alloc_value(1).unwrap(), 1);
    arena.reset();
    let mut flipflop = arena.alloc_value(false).unwrap();
    assert!(!*flipflop);
    *flipflop = true;
    assert!(*flipflop);
}

#[test]
fn arena_last_allocation() {
    let mut arena = Arena::new();
    let first = arena.alloc_value(1).unwrap();
    let second = arena.alloc_value(2).unwrap();
    assert!(!arena.is_last_allocation(first.as_ptr()));
    assert!(arena.is_last_allocation(second.as_ptr()));
}

#[test]
fn arena_reset_keeps_the_largest_chunk() {
    let mut arena = Arena::new();
    arena.reset();
    assert_eq!(arena.size(), 0);
    let _ = arena.alloc_slice_copied(&[0u8; 100]).unwrap();
    let _ = arena.alloc_slice_copied(&[0u8; 3000]).unwrap();
    let whole = arena.size();
    arena.reset();
    let kept = arena.size();
    assert_eq!(kept, whole - 496);
    assert_eq!(arena.count(), 1);
    let _ = arena.alloc_slice_copied(&[0u8; 3000]).unwrap();
    assert_eq!(arena.size(), kept);
    arena.reset();
    arena.reset();
    assert_eq!(arena.size(), kept);
}

#[test]
fn arena_dealloc_frees_the_last_block_only() {
    let mut arena = Arena::new();
    let number = arena.alloc_value(1u32).unwrap();
    let string = arena.alloc_str_copied("Nümberbass").unwrap();
    let wanted = Layout::for_str(&string).unwrap();
    arena.dealloc(number.as_ptr(), Layout::new::<u32>());
    assert!(arena.is_last_allocation(string.as_ptr()));
    arena.dealloc(string.as_ptr(), wanted);
    assert!(!arena.is_last_allocation(string.as_ptr()));
    assert_eq!(arena.alloc_layout(wanted).unwrap(), string.as_ptr());
    assert_eq!(*number, 1);
}

#[test]
fn arena_dealloc_frees_no_byte_of_another_block() {
    let mut arena = Arena::new();
    let small = arena.alloc_layout(layout(1, 1)).unwrap();
    let wide = arena.alloc_layout(layout(7, 8)).unwrap();
    assert_eq!(wide + 7, small);
    arena.dealloc(wide, layout(7, 8));
    let next = arena.alloc_layout(layout(1, 1)).unwrap();
    assert!(next < small);
}

#[test]
fn arena_grow() {
    let mut arena = Arena::new();
    let ptr = arena.alloc_layout(layout(16, 8)).unwrap();
    fill(&mut arena, ptr, 16);
    let grown = arena.grow(ptr, layout(16, 8), layout(40, 8)).unwrap();
    assert_eq!(grown, ptr - 24);
    assert!(is_filled(&arena, grown, 16));
    let other = arena.alloc_layout(layout(8, 8)).unwrap();
    fill(&mut arena, other, 8);
    let moved = arena.grow(grown, layout(40, 8), layout(64, 16)).unwrap();
    assert!(moved < other);
    assert_eq!(moved % 16, 0);
    assert!(is_filled(&arena, moved, 16));
    assert!(is_filled(&arena, other, 8));
    let large = arena.grow(moved, layout(64, 16), layout(2000, 16)).unwrap();
    assert!(is_filled(&arena, large, 16));
    assert!(is_filled(&arena, other, 8));
    assert_eq!(arena.grow(large, layout(2000, 16), layout(isize::MAX as usize - 15, 16)), None);
    assert!(is_filled(&arena, large, 16));
}

#[test]
fn arena_shrink() {
    let mut arena = Arena::new();
    let ptr = arena.alloc_layout(layout(40, 8)).unwrap();
    fill(&mut arena, ptr, 40);
    assert_eq!(arena.shrink(ptr, layout(40, 8), layout(24, 8)), Some(ptr));
    let shrunk = arena.shrink(ptr, layout(40, 8), layout(10, 8)).unwrap();
    assert_eq!(shrunk, ptr + 24);
    assert!(is_filled(&arena, shrunk, 10));
    assert!(arena.is_last_allocation(shrunk));
    let next = arena.alloc_layout(layout(8, 8)).unwrap();
    assert_eq!(next, shrunk - 8);
    assert_eq!(arena.shrink(shrunk, layout(10, 8), layout(1, 1)), Some(shrunk));
}

#[test]
fn arena_shrink_to_a_wider_alignment() {
    let mut arena = Arena::new();
    let first = arena.alloc_layout(layout(16, 16)).unwrap();
    assert_eq!(arena.shrink(first, layout(16, 1), layout(8, 16)), Some(first));
    let ptr = arena.alloc_layout(layout(20, 4)).unwrap();
    assert_ne!(ptr % 16, 0);
    fill(&mut arena, ptr, 20);
    let moved = arena.shrink(ptr, layout(20, 4), layout(5, 16)).unwrap();
    assert_eq!(moved % 16, 0);
    assert!(moved < ptr);
    assert!(is_filled(&arena, moved, 5));
}

#[test]
fn raw_arena_without_chunks() {
    let mut raw = RawArena::new();
    assert_eq!(raw.cursor(), DANGLING);
    assert_eq!(raw.get_chunk_ptr(), None);
    assert_eq!(raw.try_alloc_in(layout(1, 1)), None);
    assert_eq!(raw.try_alloc(layout(0, 1)), Some(DANGLING));
    assert_eq!(raw.size(), 0);
    let ptr = raw.try_alloc_with_new(layout(8, 8)).unwrap();
    assert_eq!(raw.get_chunk_ptr(), Some(ptr + 8));
    raw.write(ptr, 7);
    assert_eq!(raw.read(ptr), 7);
}

#[test]
fn heap_of_chunks() {
    let mut heap = Heap::new();
    let (first, start) = new_chunk(&mut heap, 100, 1, None).unwrap();
    assert_eq!(first, start + 192);
    let (second, other) = new_chunk(&mut heap, 100, 64, Some(first)).unwrap();
    assert_eq!(other % 64, 0);
    assert_eq!(heap.count(), 2);
    assert_eq!(heap.previous_of(second), Some(first));
    assert_eq!(heap.layout_at(second), Layout { size: 240, align: 64 });
    assert!(heap.has_block(start, 192));
    assert!(!heap.has_block(start, 193));
    heap.write(start, 1);
    heap.write(start + 1, 2);
    heap.write(start + 2, 3);
    heap.copy(start, start + 1, 3);
    assert_eq!((heap.read(start), heap.read(start + 1)), (1, 1));
    assert_eq!((heap.read(start + 2), heap.read(start + 3)), (2, 3));
    ChunkFooter::increment_refcount(&mut heap, first);
    assert_eq!(heap.refcount_of(first), Some(1));
    dealloc_chunk_list(&mut heap, Some(second));
    assert_eq!(heap.refcount_of(first), Some(0));
    assert_eq!(heap.refcount_of(second), None);
    assert_eq!(ChunkFooter::drop_from_ptr(&mut heap, first), None);
    assert_eq!(heap.count(), 0);
    assert_eq!(new_chunk(&mut heap, isize::MAX as usize, 1, None), None);
}

#[test]
fn chunk_in_given_memory() {
    let whole = chunk_layout(100, 1).unwrap();
    let bytes = whole.size + whole.align - 1;
    let mut heap = Heap::new();
    assert_eq!(chunk_in_memory(&mut heap, None, whole, None), None);
    assert_eq!(heap.count(), 0);
    let first = chunk_in_memory(&mut heap, Some((vec![0; bytes], 4097)), whole, None);
    assert_eq!(first, Some((4112 + 192, 4112)));
    assert_eq!(heap.layout_at(4304), whole);
    // Its last bytes are in use.
    assert_eq!(chunk_in_memory(&mut heap, Some((vec![0; bytes], 4336)), whole, None), None);
    assert_eq!(heap.count(), 1);
    let second = chunk_in_memory(&mut heap, Some((vec![0; bytes], 4352)), whole, Some(4304));
    assert_eq!(second, Some((4544, 4352)));
    assert_eq!(heap.previous_of(4544), Some(4304));
}

#[test]
fn arena_of_given_chunk() {
    let whole = chunk_layout(100, 1).unwrap();
    let bytes = whole.size + whole.align - 1;
    let mut heap = Heap::new();
    let chunk = chunk_in_memory(&mut heap, Some((vec![0; bytes], 4096)), whole, None);
    let raw = RawArena::with_first_chunk(heap, chunk);
    let mut arena = Arena::of_raw(raw).unwrap();
    assert_eq!(arena.size(), whole.size);
    assert_eq!(arena.try_alloc_layout(layout(8, 8)), Some(4096 + 192 - 8));
    assert_eq!(arena.try_alloc_layout(layout(184, 1)), Some(4096));
    assert!(RawArena::with_first_chunk(Heap::new(), None).is_none());
    assert!(Arena::of_raw(None).is_none());
}

#[test]
fn arena_live_blocks_keep_their_bytes() {
    struct Live {
        ptr: usize,
        layout: Layout,
        mark: u8,
    }

    let mut arena = Arena::new();
    let mut blocks: Vec<Live> = Vec::new();
    let mut seed: u32 = 12345;
    let mut next = move |n: u32| {
        seed = seed.wrapping_mul(1664525).wrapping_add(1013904223);
        (seed >> 8) % n
    };
    for step in 0..2000u32 {
        let wanted = layout(next(60) as usize, 1 << next(6));
        let choice = next(8);
        if choice < 3 || blocks.is_empty() {
            let ptr = arena.alloc_layout(wanted).unwrap();
            let mark = step as u8;
            for i in 0..wanted.size() {
                arena.write(ptr + i, mark);
            }
            blocks.push(Live { ptr, layout: wanted, mark });
        } else {
            let at = if choice == 3 { blocks.len() - 1 } else { next(blocks.len() as u32) as usize };
            let old = blocks[at].layout;
            if choice < 5 {
                arena.dealloc(blocks[at].ptr, old);
                blocks.remove(at);
            } else if wanted.size() >= old.size() {
                let ptr = arena.grow(blocks[at].ptr, old, wanted).unwrap();
                for i in old.size()..wanted.size() {
                    arena.write(ptr + i, blocks[at].mark);
                }
                blocks[at].ptr = ptr;
                blocks[at].layout = wanted;
            } else {
                blocks[at].ptr = arena.shrink(blocks[at].ptr, old, wanted).unwrap();
                blocks[at].layout = wanted;
            }
        }
        for block in &blocks {
            assert_eq!(block.ptr % block.layout.align(), 0);
            for i in 0..block.layout.size() {
                assert_eq!(arena.read(block.ptr + i), block.mark);
            }
        }
    }
}

#[test]
fn arena_room_to_grow_and_shrink() {
    let mut arena = Arena::with_capacity(400).unwrap();
    let first = arena.alloc_layout(layout(16, 8)).unwrap();
    let last = arena.alloc_layout(layout(16, 8)).unwrap();
    // The last block grows downwards, what is in another one has to move.
    assert_eq!(arena.room_to_grow(last, layout(16, 8), layout(32, 8)), Some(last - 16));
    let moved = arena.room_to_grow(first, layout(16, 8), layout(24, 8)).unwrap();
    assert_eq!(moved, last - 16 - 24);
    assert!(arena.is_last_allocation(moved));
    // Giving up half of the last block moves it up, less than that does not.
    assert_eq!(arena.room_to_shrink(moved, layout(24, 8), layout(16, 8)), Some(moved));
    assert_eq!(arena.room_to_shrink(moved, layout(24, 8), layout(8, 8)), Some(moved + 16));
    assert!(arena.is_last_allocation(moved + 16));
    let chunk_full = arena.room_to_grow(moved + 16, layout(8, 8), layout(isize::MAX as usize, 1));
    assert_eq!(chunk_full, None);
}

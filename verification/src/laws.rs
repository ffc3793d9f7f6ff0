//! What holds of an arena over several calls.
use crate::align::{lemma_align_down, lemma_align_down_floor, lemma_coarser_multiple};
use crate::chunk::{lemma_chunk_layout, FOOTER_SIZE};
use crate::heap::{
    apart, byte, holds, in_chunk, lemma_byte, list_dropped, one_added, one_dropped, same_shape,
    total_size, written, ChunkView,
};
use crate::layout::Layout;
use crate::raw::{
    disjoint, lemma_allocated, lemma_bumped_sound, lemma_current_last, lemma_extended_sound, lemma_grown_block,
    lemma_last_block, lemma_placed_holds, lemma_placed_part, lemma_reshaped_sound,
    lemma_recounted_sound, lemma_total_nonnegative, ArenaView, with_capacity_state,
};
use vstd::arithmetic::power2::is_pow2;
use vstd::prelude::*;

verus! {

/// The `n` bytes from `b` on hold in `new` what the `n` bytes from `a` on hold in `old`.
pub open spec fn same_bytes(
    old: Map<usize, ChunkView>,
    a: int,
    new: Map<usize, ChunkView>,
    b: int,
    n: int,
) -> bool {
    forall|i: int| 0 <= i < n ==> #[trigger] byte(new, b + i) == byte(old, a + i)
}

/// A read gives back what a write wrote, and other bytes hold what they held.
pub proof fn lemma_written(v: ArenaView, ptr: usize, value: u8, new: ArenaView)
    requires
        v.placed(ptr as int, 1),
        written(v.chunks, new.chunks, ptr as int, value),
    ensures
        byte(new.chunks, ptr as int) == value,
        forall|a: int|
            a != ptr && #[trigger] v.placed(a, 1) ==> byte(new.chunks, a) == byte(v.chunks, a),
{
    lemma_placed_holds(v, ptr as int, 1);
    assert forall|a: int| a != ptr && #[trigger] v.placed(a, 1) implies byte(new.chunks, a) == byte(
        v.chunks,
        a,
    ) by {
        lemma_placed_holds(v, a, 1);
    }
}

/// Putting a block somewhere changes no byte that is taken.
pub proof fn lemma_allocated_bytes(v: ArenaView, layout: Layout, ptr: usize, new: ArenaView)
    requires
        v.sound(),
        new.sound(),
        is_pow2(layout.align as int),
        v.allocated(layout, Some(ptr), new),
    ensures
        forall|a: int, n: int| #[trigger]
            v.placed(a, n) ==> same_bytes(v.chunks, a, new.chunks, a, n),
{
    if !v.fits(layout) {
        lemma_extended_sound(v, layout, new);
        assert forall|a: int, n: int| #[trigger] v.placed(a, n) implies same_bytes(
            v.chunks,
            a,
            new.chunks,
            a,
            n,
        ) by {
            assert forall|i: int| 0 <= i < n implies #[trigger] byte(new.chunks, a + i) == byte(
                v.chunks,
                a + i,
            ) by {
                let p = choose|p: usize| #[trigger] v.placed_in(p, a, n);
                assert(v.chunks.contains_key(p));
                assert(new.chunks.contains_key(p));
                lemma_byte(v.chunks, p, a + i);
                lemma_byte(new.chunks, p, a + i);
            }
        }
    }
}

/// Moving bytes to a block of their own gives the block what they held, and changes no other
/// byte.
proof fn lemma_moved_bytes(v: ArenaView, src: usize, dst: usize, len: usize, new: ArenaView)
    requires
        v.sound(),
        v.moved(src, dst, len, new),
        v.placed(dst as int, len as int),
    ensures
        same_bytes(v.chunks, src as int, new.chunks, dst as int, len as int),
        forall|a: int, n: int| #[trigger]
            v.placed(a, n) && disjoint(a, n, dst as int, len as int) ==> same_bytes(
                v.chunks,
                a,
                new.chunks,
                a,
                n,
            ),
{
    assert forall|i: int| 0 <= i < len implies #[trigger] byte(new.chunks, dst + i) == byte(
        v.chunks,
        src + i,
    ) by {
        let p = choose|p: usize| #[trigger] v.placed_in(p, dst as int, len as int);
        assert(in_chunk(v.chunks, p, dst + i, 1));
        assert(holds(v.chunks, dst + i, 1));
    }
    assert forall|a: int, n: int| #[trigger]
        v.placed(a, n) && disjoint(a, n, dst as int, len as int) implies same_bytes(
        v.chunks,
        a,
        new.chunks,
        a,
        n,
    ) by {
        assert forall|i: int| 0 <= i < n implies #[trigger] byte(new.chunks, a + i) == byte(
            v.chunks,
            a + i,
        ) by {
            let p = choose|p: usize| #[trigger] v.placed_in(p, a, n);
            assert(in_chunk(v.chunks, p, a + i, 1));
            assert(holds(v.chunks, a + i, 1));
        }
    }
}

/// A block that was grown is aligned as asked, has all its bytes taken, and holds what it held
/// before. Other blocks stay taken, keep what they hold, and have no byte in common with it.
pub proof fn lemma_grown(
    v: ArenaView,
    ptr: usize,
    old_layout: Layout,
    new_layout: Layout,
    to: usize,
    new: ArenaView,
)
    requires
        v.sound(),
        new.sound(),
        is_pow2(old_layout.align as int),
        is_pow2(new_layout.align as int),
        old_layout.size <= new_layout.size,
        v.placed(ptr as int, old_layout.size as int),
        v.grown(ptr, old_layout, new_layout, Some(to), new),
    ensures
        to % new_layout.align == 0,
        new.placed(to as int, new_layout.size as int),
        same_bytes(v.chunks, ptr as int, new.chunks, to as int, old_layout.size as int),
        v.keeps(new),
        forall|a: int, n: int| #[trigger]
            v.placed(a, n) && disjoint(a, n, ptr as int, old_layout.size as int) ==> {
                &&& new.placed(a, n)
                &&& disjoint(a, n, to as int, new_layout.size as int)
                &&& same_bytes(v.chunks, a, new.chunks, a, n)
            },
{
    reveal(is_pow2);
    let mid = choose|mid: ArenaView|
        #![trigger v.room_for_growth(ptr, old_layout, new_layout, Some(to), mid)]
        {
            &&& v.room_for_growth(ptr, old_layout, new_layout, Some(to), mid)
            &&& mid.moved(ptr, to, old_layout.size, new)
        };
    lemma_unmoved_sound(mid, ptr, to, old_layout.size, new);
    let size = old_layout.size as int;
    if v.grows_in_place(ptr, old_layout, new_layout) {
        let more = ArenaView::growth(old_layout, new_layout);
        lemma_bumped_sound(v, more);
        lemma_grown_block(v, size, more, to, mid);
        lemma_coarser_multiple(to as int, old_layout.align as int, new_layout.align as int);
        lemma_allocated(v, more, to, mid);
        assert forall|a: int, n: int| #[trigger]
            v.placed(a, n) && disjoint(a, n, ptr as int, size) implies disjoint(
            a,
            n,
            to as int,
            new_layout.size as int,
        ) by {
            if n > 0 && new_layout.size > 0 {
                let q = choose|q: usize| #[trigger] v.placed_in(q, a, n);
                let p = v.current->0;
                if size > 0 {
                    lemma_last_block(v, size);
                }
                if q != p {
                    assert(v.chain[v.chain.len() - 1] == p);
                    assert(v.chunks.contains_key(p));
                    assert(apart(v.chunks[q], v.chunks[p]));
                }
            }
        }
    } else {
        lemma_allocated(v, new_layout, to, mid);
        lemma_allocated_bytes(v, new_layout, to, mid);
        lemma_placed_part(mid, to as int, new_layout.size as int, size);
    }
    lemma_moved_bytes(mid, ptr, to, old_layout.size, new);
    lemma_reshaped_sound(mid, new);
    assert forall|a: int, n: int| v.placed(a, n) implies #[trigger] new.placed(a, n) by {
        assert(mid.placed(a, n));
    }
    assert forall|a: int, n: int| #[trigger]
        v.placed(a, n) && disjoint(a, n, ptr as int, size) implies new.placed(a, n) && disjoint(
        a,
        n,
        to as int,
        new_layout.size as int,
    ) && same_bytes(v.chunks, a, new.chunks, a, n) by {
        assert(mid.placed(a, n));
        assert(disjoint(a, n, to as int, size));
        assert(same_bytes(mid.chunks, a, new.chunks, a, n));
        assert forall|i: int| 0 <= i < n implies #[trigger] byte(new.chunks, a + i) == byte(
            v.chunks,
            a + i,
        ) by {
            assert(byte(mid.chunks, a + i) == byte(v.chunks, a + i));
        }
    }
    assert forall|i: int| 0 <= i < size implies #[trigger] byte(new.chunks, to + i) == byte(
        v.chunks,
        ptr + i,
    ) by {
        assert(byte(mid.chunks, ptr + i) == byte(v.chunks, ptr + i));
    }
}

/// An arena was sound before its bytes were moved where it is after.
proof fn lemma_unmoved_sound(mid: ArenaView, src: usize, dst: usize, len: usize, new: ArenaView)
    requires
        new.sound(),
        mid.moved(src, dst, len, new),
    ensures
        mid.sound(),
{
    let m = new.chunks;
    let n = mid.chunks;
    assert(same_shape(m, n)) by {
        assert forall|p: usize|
            #![trigger m[p]]
            #![trigger n[p]]
            m.contains_key(p) implies n[p] == (ChunkView { bytes: n[p].bytes, ..m[p] })
            && n[p].bytes.len() == m[p].bytes.len() by {
            assert(n.contains_key(p));
        }
    }
    lemma_reshaped_sound(new, mid);
}

/// A block that was shrunk is aligned as asked, has all its bytes taken, and holds what these
/// held before. Other blocks stay taken, keep what they hold, and have no byte in common with it.
pub proof fn lemma_shrunk(
    v: ArenaView,
    ptr: usize,
    old_layout: Layout,
    new_layout: Layout,
    to: usize,
    new: ArenaView,
)
    requires
        v.sound(),
        new.sound(),
        is_pow2(old_layout.align as int),
        is_pow2(new_layout.align as int),
        new_layout.size <= old_layout.size,
        v.placed(ptr as int, old_layout.size as int),
        ptr % old_layout.align == 0,
        v.shrunk(ptr, old_layout, new_layout, Some(to), new),
    ensures
        to % new_layout.align == 0,
        new.placed(to as int, new_layout.size as int),
        same_bytes(v.chunks, ptr as int, new.chunks, to as int, new_layout.size as int),
        forall|a: int, n: int| #[trigger]
            v.placed(a, n) && disjoint(a, n, ptr as int, old_layout.size as int) ==> {
                &&& new.placed(a, n)
                &&& disjoint(a, n, to as int, new_layout.size as int)
                &&& same_bytes(v.chunks, a, new.chunks, a, n)
            },
{
    reveal(is_pow2);
    let old_size = old_layout.size as int;
    let size = new_layout.size as int;
    lemma_placed_part(v, ptr as int, old_size, size);
    if old_layout.align < new_layout.align {
        if ptr % new_layout.align != 0 {
            let mid = choose|mid: ArenaView|
                #![trigger v.allocated(new_layout, Some(to), mid)]
                {
                    &&& v.allocated(new_layout, Some(to), mid)
                    &&& mid.moved(ptr, to, new_layout.size, new)
                };
            lemma_unmoved_sound(mid, ptr, to, new_layout.size, new);
            lemma_allocated(v, new_layout, to, mid);
            lemma_allocated_bytes(v, new_layout, to, mid);
            lemma_moved_bytes(mid, ptr, to, new_layout.size, new);
            lemma_reshaped_sound(mid, new);
            assert forall|a: int, n: int| #[trigger]
                v.placed(a, n) && disjoint(a, n, ptr as int, old_size) implies new.placed(a, n)
                && disjoint(a, n, to as int, size) && same_bytes(
                v.chunks,
                a,
                new.chunks,
                a,
                n,
            ) by {
                assert(mid.placed(a, n));
                assert(same_bytes(mid.chunks, a, new.chunks, a, n));
                assert forall|i: int| 0 <= i < n implies #[trigger] byte(new.chunks, a + i)
                    == byte(v.chunks, a + i) by {
                    assert(byte(mid.chunks, a + i) == byte(v.chunks, a + i));
                }
            }
            assert forall|i: int| 0 <= i < size implies #[trigger] byte(new.chunks, to + i)
                == byte(v.chunks, ptr + i) by {
                assert(byte(mid.chunks, ptr + i) == byte(v.chunks, ptr + i));
            }
        }
    } else {
        lemma_coarser_multiple(ptr as int, old_layout.align as int, new_layout.align as int);
        if v.shrinks_in_place(ptr, old_layout, new_layout) {
            lemma_align_down(ptr + (old_size - size), new_layout.align as int);
            lemma_align_down_floor(ptr + (old_size - size), ptr as int, new_layout.align as int);
            if old_size > 0 {
                lemma_last_block(v, old_size);
            }
            let mid = ArenaView { cursor: to, ..v };
            lemma_unmoved_sound(mid, ptr, to, new_layout.size, new);
            if size > 0 {
                let p = v.current->0;
                assert(v.chain[v.chain.len() - 1] == p);
                assert(v.chain.contains(p));
                assert(mid.placed_in(p, to as int, size));
            }
            lemma_moved_bytes(mid, ptr, to, new_layout.size, new);
            lemma_reshaped_sound(mid, new);
            assert forall|a: int, n: int| #[trigger]
                v.placed(a, n) && disjoint(a, n, ptr as int, old_size) implies new.placed(a, n)
                && disjoint(a, n, to as int, size) && same_bytes(
                v.chunks,
                a,
                new.chunks,
                a,
                n,
            ) by {
                if n > 0 {
                    let q = choose|q: usize| #[trigger] v.placed_in(q, a, n);
                    assert(mid.placed_in(q, a, n));
                }
                assert(mid.placed(a, n));
                assert(same_bytes(mid.chunks, a, new.chunks, a, n));
            }
        }
    }
}

/// The last block, given back, leaves room for one of its layout at its own place.
pub proof fn lemma_released_reused(v: ArenaView, ptr: usize, layout: Layout)
    requires
        v.sound(),
        is_pow2(layout.align as int),
        v.placed(ptr as int, layout.size as int),
        ptr == v.cursor,
        ptr % layout.align == 0,
    ensures
        v.released(ptr, layout).fits(layout),
        v.released(ptr, layout).position(layout) == ptr,
        v.released(ptr, layout).bumped(layout) == v,
{
    reveal(is_pow2);
    if layout.size > 0 {
        lemma_last_block(v, layout.size as int);
    }
    lemma_align_down(ptr as int, layout.align as int);
}

/// A block that was put in the current chunk and given back leaves the chunks as they were and
/// frees all its bytes.
pub proof fn lemma_allocated_released(v: ArenaView, layout: Layout, ptr: usize, new: ArenaView)
    requires
        v.sound(),
        new.sound(),
        is_pow2(layout.align as int),
        v.fits(layout),
        v.allocated(layout, Some(ptr), new),
    ensures
        new.released(ptr, layout) == (ArenaView { cursor: (ptr + layout.size) as usize, ..v }),
        ptr + layout.size <= v.cursor,
        v.cursor - layout.align < ptr + layout.size,
{
    reveal(is_pow2);
    lemma_bumped_sound(v, layout);
    lemma_align_down(v.cursor - layout.size, layout.align as int);
}

/// A block of one of the listed chunks is smaller than these together, by at least a footer.
proof fn lemma_total_at_least(m: Map<usize, ChunkView>, list: Seq<usize>, p: usize)
    requires
        list.contains(p),
    ensures
        total_size(m, list) >= m[p].layout.size,
    decreases list.len(),
{
    lemma_total_nonnegative(m, list.drop_last());
    if list.last() != p {
        let i = choose|i: int| 0 <= i < list.len() && list[i] == p;
        assert(list.drop_last()[i] == p);
        assert(list.drop_last().contains(p));
        lemma_total_at_least(m, list.drop_last(), p);
    }
}

/// The size of an arena is above that of any block in it.
pub proof fn lemma_size_above_block(v: ArenaView, ptr: int, size: int)
    requires
        v.sound(),
        v.placed(ptr, size),
        size > 0,
    ensures
        total_size(v.chunks, v.chain) >= size + FOOTER_SIZE,
{
    let p = choose|p: usize| #[trigger] v.placed_in(p, ptr, size);
    assert(v.chunks.contains_key(p));
    assert(v.chunks[p].sound());
    lemma_total_at_least(v.chunks, v.chain, p);
}

/// An arena that has asked for no memory is of size nought, and sound.
pub proof fn lemma_empty()
    ensures
        ArenaView::empty().sound(),
        total_size(ArenaView::empty().chunks, ArenaView::empty().chain) == 0,
{
}

/// An arena made with `capacity` bytes is larger than these, and a block of that many bytes or
/// less fits in it without a new chunk.
pub proof fn lemma_with_capacity(capacity: usize, v: ArenaView, size: usize)
    requires
        v.sound(),
        with_capacity_state(capacity as int, v),
        size <= capacity,
    ensures
        v.fits(Layout { size, align: 1 }),
        total_size(v.chunks, v.chain) > capacity,
{
    let footer = v.current->0;
    assert(is_pow2(1)) by {
        reveal(is_pow2);
    }
    lemma_chunk_layout(capacity as int, 1);
    assert(v.chunks.contains_key(footer));
    assert(v.chunks[footer].footer() == footer);
    assert(v.chain[0] == footer);
    assert(v.chain.contains(footer));
    lemma_total_at_least(v.chunks, v.chain, footer);
}

/// A new chunk can hold at least twice as much as the one before it.
pub proof fn lemma_chunks_double(v: ArenaView, layout: Layout, new: ArenaView)
    requires
        v.sound(),
        is_pow2(layout.align as int),
        v.current is Some,
        v.extended(layout, new),
    ensures
        new.chunks[new.current->0].layout.size - FOOTER_SIZE >= 2 * (
        v.chunks[v.current->0].layout.size - FOOTER_SIZE),
{
    assert(v.chunks.contains_key(v.current->0));
    assert(v.chunks[v.current->0].sound());
    lemma_chunk_layout(v.next_size(layout), layout.align as int);
}

/// Giving all blocks back keeps the largest chunk, and of the arena's chunks no other: the size
/// of the arena is then that of its largest chunk.
pub proof fn lemma_rewound_largest(v: ArenaView)
    requires
        v.sound(),
        v.current is Some,
    ensures
        v.rewound().current == v.current,
        v.rewound().chain == seq![v.current->0],
        v.rewound().cursor == if v.chunks[v.current->0].refcount > 0 {
            v.cursor
        } else {
            v.current->0
        },
        total_size(v.rewound().chunks, v.rewound().chain) == v.chunks[v.current->0].layout.size,
        forall|q: usize| #[trigger]
            v.chain.contains(q) ==> v.chunks[q].layout.size <= v.chunks[v.current->0].layout.size,
{
    let p = v.current->0;
    let r = v.rewound();
    lemma_current_last(v);
    assert(r.chain.drop_last() =~= Seq::<usize>::empty());
    assert(total_size(r.chunks, r.chain.drop_last()) == 0);
    assert(r.chunks[p].layout == v.chunks[p].layout);
}

/// After all blocks were given back there is room in the current chunk for any block that would
/// have fitted in it before, without a new chunk; and for any block that was in it, where nobody
/// else holds the chunk.
pub proof fn lemma_rewound_fits(v: ArenaView, layout: Layout, ptr: usize)
    requires
        v.sound(),
        v.current is Some,
        is_pow2(layout.align as int),
        v.fits(layout) || (v.chunks[v.current->0].refcount == 0 && ptr % layout.align == 0
            && in_chunk(v.chunks, v.current->0, ptr as int, layout.size as int)),
    ensures
        v.rewound().fits(layout),
{
    reveal(is_pow2);
    let footer = v.current->0;
    let align = layout.align as int;
    if v.fits(layout) {
        lemma_align_down(v.cursor - layout.size, align);
        lemma_align_down_floor(footer - layout.size, v.position(layout), align);
    } else {
        lemma_align_down_floor(footer - layout.size, ptr as int, align);
    }
}

/// Giving all blocks back takes a holder from each chunk of the arena but the current one: those
/// that somebody else holds stay with what their bytes hold, and the others are gone.
pub proof fn lemma_rewound_held(v: ArenaView, p: usize)
    requires
        v.sound(),
        v.chain.contains(p),
        v.current != Some(p),
    ensures
        v.chunks.contains_key(p),
        v.rewound().chunks.contains_key(p) <==> v.chunks[p].refcount > 0,
        v.chunks[p].refcount > 0 ==> {
            &&& v.rewound().chunks[p].bytes == v.chunks[p].bytes
            &&& v.rewound().chunks[p].start == v.chunks[p].start
            &&& v.rewound().chunks[p].refcount == v.chunks[p].refcount - 1
        },
{
    let i = choose|i: int| 0 <= i < v.chain.len() && v.chain[i] == p;
    crate::heap::lemma_chain_prefix(v.chunks, v.current, v.chain, i);
    let rest = v.chain.drop_last();
    assert(rest[i] == p);
    assert(rest.contains(p));
}

/// Bytes that somebody besides the arena holds stay held when all blocks are given back, with
/// what they hold: in the current chunk they stay taken, and any other chunk the arena lets go.
pub proof fn lemma_rewound_keeps_held(v: ArenaView, p: usize, ptr: int, size: int)
    requires
        v.sound(),
        v.held_in(p, ptr, size),
    ensures
        v.rewound().held_in(p, ptr, size),
        v.rewound().chunks[p].bytes == v.chunks[p].bytes,
        v.rewound().chunks[p].start == v.chunks[p].start,
        v.current == Some(p) && v.placed_in(p, ptr, size) ==> v.rewound().placed_in(p, ptr, size),
{
    let r = v.rewound();
    if v.current is Some {
        let c = v.current->0;
        let rest = v.chain.drop_last();
        lemma_current_last(v);
        if rest.contains(p) {
            let i = choose|i: int| 0 <= i < rest.len() && rest[i] == p;
            assert(v.chain[i] == p);
            assert(v.chain.contains(p));
        }
        assert(r.chain[0] == c);
        assert(r.chain.contains(c));
        assert(r.chunks.contains_key(p));
        assert(r.chain.contains(p) ==> p == c);
    }
}

/// Bytes that somebody besides the arena holds are not handed out again: a block that is granted
/// has no byte in common with them, and they stay held with what they hold.
pub proof fn lemma_held_not_granted(
    v: ArenaView,
    p: usize,
    a: int,
    n: int,
    layout: Layout,
    ptr: usize,
    new: ArenaView,
)
    requires
        v.sound(),
        new.sound(),
        is_pow2(layout.align as int),
        v.held_in(p, a, n),
        v.allocated(layout, Some(ptr), new),
    ensures
        disjoint(a, n, ptr as int, layout.size as int),
        new.held_in(p, a, n),
        new.chunks[p] == v.chunks[p],
{
    reveal(is_pow2);
    if v.fits(layout) {
        lemma_bumped_sound(v, layout);
        lemma_align_down(v.cursor - layout.size, layout.align as int);
        if layout.size > 0 && v.current != Some(p) {
            let c = v.current->0;
            assert(v.chain[v.chain.len() - 1] == c);
            assert(v.chunks.contains_key(c));
            assert(apart(v.chunks[p], v.chunks[c]));
            assert(v.chunks[p].footer() == p);
        }
    } else {
        let c = new.current->0;
        assert(new.chunks.contains_key(c) && new.chunks.contains_key(p));
        assert(p != c);
        assert(apart(new.chunks[p], new.chunks[c]));
        lemma_allocated(v, layout, ptr, new);
        if new.chain.contains(p) {
            let i = choose|i: int| 0 <= i < new.chain.len() && new.chain[i] == p;
            assert(v.chain[i] == p);
            assert(v.chain.contains(p));
        }
        assert(new.chunks[c].footer() == c);
        assert(new.start <= new.cursor);
        lemma_align_down(c - layout.size, layout.align as int);
    }
}

/// A second reset in a row changes nothing.
pub proof fn lemma_rewound_twice(v: ArenaView)
    requires
        v.sound(),
    ensures
        v.rewound().rewound() == v.rewound(),
{
    if let Some(p) = v.current {
        let r = v.rewound();
        lemma_rewound_largest(v);
        lemma_current_last(v);
        assert(r.chunks[p].previous is None);
        assert(r.chunks.insert(p, ChunkView { previous: None, ..r.chunks[p] }) =~= r.chunks);
        assert(r.chain.drop_last() =~= Seq::<usize>::empty());
        assert(list_dropped(r.chunks, Seq::<usize>::empty()) =~= r.chunks);
        assert(r.rewound() =~= r);
    }
}

/// The chunks after `n` more holders of the chunk with its footer at `p`.
pub open spec fn added(m: Map<usize, ChunkView>, p: usize, n: nat) -> Map<usize, ChunkView>
    decreases n,
{
    if n == 0 {
        m
    } else {
        one_added(added(m, p, (n - 1) as nat), p)
    }
}

/// The chunks after `n` holders of the chunk with its footer at `p` went.
pub open spec fn dropped(m: Map<usize, ChunkView>, p: usize, n: nat) -> Map<usize, ChunkView>
    decreases n,
{
    if n == 0 {
        m
    } else {
        one_dropped(dropped(m, p, (n - 1) as nat), p)
    }
}

/// Holders are counted one by one: after `n` more the chunk differs in its count only.
pub proof fn lemma_added(m: Map<usize, ChunkView>, p: usize, n: nat)
    requires
        m.contains_key(p),
        m[p].refcount + n <= usize::MAX,
    ensures
        added(m, p, n) == m.insert(
            p,
            ChunkView { refcount: (m[p].refcount + n) as usize, ..m[p] },
        ),
    decreases n,
{
    if n > 0 {
        lemma_added(m, p, (n - 1) as nat);
    }
    assert(added(m, p, n) =~= m.insert(
        p,
        ChunkView { refcount: (m[p].refcount + n) as usize, ..m[p] },
    ));
}

/// A chunk with `count` holders besides one stays, unchanged but for its count, while no more
/// than `count` of them went, and is gone with the one after that.
pub proof fn lemma_dropped(m: Map<usize, ChunkView>, p: usize, n: nat)
    requires
        m.contains_key(p),
        n <= m[p].refcount + 1,
    ensures
        n <= m[p].refcount ==> dropped(m, p, n) == m.insert(
            p,
            ChunkView { refcount: (m[p].refcount - n) as usize, ..m[p] },
        ),
        n == m[p].refcount + 1 ==> dropped(m, p, n) == m.remove(p),
    decreases n,
{
    if n > 0 {
        lemma_dropped(m, p, (n - 1) as nat);
    }
    if n <= m[p].refcount {
        assert(dropped(m, p, n) =~= m.insert(
            p,
            ChunkView { refcount: (m[p].refcount - n) as usize, ..m[p] },
        ));
    } else {
        assert(dropped(m, p, n) =~= m.remove(p));
    }
}

/// What one more holder does, its going undoes.
pub proof fn lemma_held_let_go(v: ArenaView, p: usize)
    requires
        v.chunks.contains_key(p),
        v.chunks[p].refcount < usize::MAX,
    ensures
        v.held(p).let_go(p) == v,
{
    assert(v.held(p).let_go(p).chunks =~= v.chunks);
}

/// A chunk of the arena that somebody else holds outlives the arena with what its bytes hold,
/// and is gone exactly when all its holders are.
pub proof fn lemma_outlives(v: ArenaView, p: usize)
    requires
        v.sound(),
        v.chain.contains(p),
        v.chunks.contains_key(p),
    ensures
        v.chunks[p].refcount == 0 ==> !v.left_over().contains_key(p),
        v.chunks[p].refcount > 0 ==> {
            &&& v.left_over().contains_key(p)
            &&& v.left_over()[p].bytes == v.chunks[p].bytes
            &&& v.left_over()[p].start == v.chunks[p].start
            &&& !dropped(v.left_over(), p, v.chunks[p].refcount as nat).contains_key(p)
            &&& forall|n: nat|
                n < v.chunks[p].refcount ==> #[trigger] dropped(
                    v.left_over(),
                    p,
                    n,
                ).contains_key(p)
        },
{
    let m = v.left_over();
    if v.chunks[p].refcount > 0 {
        assert(m.contains_key(p));
        lemma_dropped(m, p, v.chunks[p].refcount as nat);
        assert forall|n: nat| n < v.chunks[p].refcount implies #[trigger] dropped(
            m,
            p,
            n,
        ).contains_key(p) by {
            lemma_dropped(m, p, n);
        }
    }
}

/// What is left of the chunks when the arena is gone: all that it did not list, as they are, and
/// those it listed that somebody else holds, with one holder less. A chunk that an earlier reset
/// let go stays until its holders are gone, one by one.
pub proof fn lemma_left_over(v: ArenaView, p: usize)
    ensures
        v.left_over().contains_key(p) <==> v.chunks.contains_key(p) && (v.chain.contains(p)
            ==> v.chunks[p].refcount > 0),
        v.chunks.contains_key(p) && v.chain.contains(p) && v.chunks[p].refcount > 0 ==> {
            &&& v.left_over()[p].refcount == v.chunks[p].refcount - 1
            &&& v.left_over()[p].start == v.chunks[p].start
            &&& v.left_over()[p].layout == v.chunks[p].layout
            &&& v.left_over()[p].bytes == v.chunks[p].bytes
        },
        v.chunks.contains_key(p) && !v.chain.contains(p) ==> {
            &&& v.left_over()[p] == v.chunks[p]
            &&& !dropped(v.left_over(), p, (v.chunks[p].refcount + 1) as nat).contains_key(p)
            &&& forall|n: nat|
                n <= v.chunks[p].refcount ==> #[trigger] dropped(
                    v.left_over(),
                    p,
                    n,
                ).contains_key(p)
        },
{
    let m = v.left_over();
    if v.chunks.contains_key(p) && !v.chain.contains(p) {
        assert(m.contains_key(p));
        lemma_dropped(m, p, (v.chunks[p].refcount + 1) as nat);
        assert forall|n: nat| n <= v.chunks[p].refcount implies #[trigger] dropped(
            m,
            p,
            n,
        ).contains_key(p) by {
            lemma_dropped(m, p, n);
        }
    }
}

/// Bytes that somebody besides the arena holds outlive the arena with what they hold, also after
/// any reset before its end.
pub proof fn lemma_held_outlives(v: ArenaView, p: usize, ptr: int, size: int)
    requires
        v.sound(),
        v.held_in(p, ptr, size),
    ensures
        in_chunk(v.left_over(), p, ptr, size),
        v.left_over()[p].bytes == v.chunks[p].bytes,
        v.left_over()[p].start == v.chunks[p].start,
        in_chunk(v.rewound().left_over(), p, ptr, size),
        v.rewound().left_over()[p].bytes == v.chunks[p].bytes,
        v.rewound().left_over()[p].start == v.chunks[p].start,
{
    lemma_left_over(v, p);
    lemma_rewound_keeps_held(v, p, ptr, size);
    lemma_left_over(v.rewound(), p);
}

/// Giving all blocks back leaves each chunk that the arena does not list as it is, takes a holder
/// from each that it lists but the current one, with which it is gone where it had no other, and
/// leaves the current one as it is but for the link to the chunk before it.
pub proof fn lemma_rewound_chunks(v: ArenaView, p: usize)
    requires
        v.sound(),
    ensures
        v.chunks.contains_key(p) && !v.chain.contains(p) ==> v.rewound().chunks.contains_key(p)
            && v.rewound().chunks[p] == v.chunks[p],
        !v.chunks.contains_key(p) ==> !v.rewound().chunks.contains_key(p),
        v.current == Some(p) ==> v.rewound().chunks.contains_key(p) && v.rewound().chunks[p] == (
        ChunkView { previous: None, ..v.chunks[p] }),
        v.chain.contains(p) && v.current != Some(p) ==> (v.rewound().chunks.contains_key(p)
            <==> v.chunks[p].refcount > 0),
        v.chain.contains(p) && v.current != Some(p) && v.chunks[p].refcount > 0 ==> {
            &&& v.rewound().chunks[p].refcount == v.chunks[p].refcount - 1
            &&& v.rewound().chunks[p].start == v.chunks[p].start
            &&& v.rewound().chunks[p].layout == v.chunks[p].layout
            &&& v.rewound().chunks[p].bytes == v.chunks[p].bytes
        },
        v.current is None ==> v.rewound() == v,
{
    if v.current is Some {
        lemma_current_last(v);
        let rest = v.chain.drop_last();
        if rest.contains(p) {
            let i = choose|i: int| 0 <= i < rest.len() && rest[i] == p;
            assert(v.chain[i] == p);
            assert(v.chain.contains(p));
        }
        if v.chain.contains(p) && v.current != Some(p) {
            lemma_rewound_held(v, p);
            let i = choose|i: int| 0 <= i < v.chain.len() && v.chain[i] == p;
            assert(rest[i] == p);
            assert(rest.contains(p));
        }
    } else {
        assert(!v.chain.contains(p));
    }
}

/// A fresh reference counted allocation of some size is in the current chunk, which has one
/// holder more than before, and its bytes are taken.
pub proof fn lemma_shared(v: ArenaView, layout: Layout, ptr: usize, new: ArenaView)
    requires
        v.sound(),
        new.sound(),
        is_pow2(layout.align as int),
        layout.size > 0,
        v.maybe_shared(Some(layout), Some(ptr), new),
        v.current matches Some(p) ==> v.chunks[p].refcount < usize::MAX,
    ensures
        new.current is Some,
        new.placed(ptr as int, layout.size as int),
        new.held_in(new.current->0, ptr as int, layout.size as int),
        new.chunks[new.current->0].refcount == if new.current == v.current {
            v.chunks[v.current->0].refcount + 1
        } else {
            1
        },
{
    let mid = choose|mid: ArenaView|
        #![trigger v.maybe_allocated(Some(layout), Some(ptr), mid)]
        v.maybe_allocated(Some(layout), Some(ptr), mid) && new == mid.held(mid.current->0);
    if v.fits(layout) {
        lemma_bumped_sound(v, layout);
        assert(v.chunks.contains_key(v.current->0));
    }
    lemma_shared_sound(mid, new);
    lemma_allocated(v, layout, ptr, mid);
    let p = choose|p: usize| #[trigger] mid.placed_in(p, ptr as int, layout.size as int);
    assert(mid.chain.len() > 0);
    assert(mid.chunks.contains_key(mid.current->0));
    lemma_recounted_sound(mid, mid.current->0, new);
    assert(mid.chain[mid.chain.len() - 1] == mid.current->0);
}

/// An arena was sound before a chunk of it got a holder where it is after.
proof fn lemma_shared_sound(mid: ArenaView, new: ArenaView)
    requires
        new.sound(),
        mid.current is Some,
        mid.chunks.contains_key(mid.current->0),
        new == mid.held(mid.current->0),
    ensures
        mid.sound(),
{
    let c = mid.current->0;
    let m = mid.chunks;
    let n = new.chunks;
    assert forall|q: usize| #[trigger] m.contains_key(q) implies m[q].sound() && m[q].footer()
        == q by {
        assert(n.contains_key(q));
        assert(n[q].sound());
    }
    assert forall|a: usize, b: usize|
        #![trigger m[a], m[b]]
        m.contains_key(a) && m.contains_key(b) && a != b implies apart(m[a], m[b]) by {
        assert(n.contains_key(a) && n.contains_key(b));
        assert(apart(n[a], n[b]));
    }
    assert forall|q: usize| #[trigger] new.chain.contains(q) implies m.contains_key(q)
        && m[q].previous == n[q].previous && m[q].layout == n[q].layout by {
        let i = choose|i: int| 0 <= i < new.chain.len() && new.chain[i] == q;
        crate::heap::lemma_chain_prefix(n, new.current, new.chain, i);
    }
    crate::heap::lemma_chain_frame(n, m, new.current, new.chain);
    assert(new.chain[new.chain.len() - 1] == c);
    assert(new.chain.contains(c));
    assert forall|q: usize| #[trigger] mid.chain.contains(q) implies m[q].layout.size
        <= m[c].layout.size by {
        assert(new.chain.contains(q));
    }
}

} // verus!

//! Where blocks go, how large chunks are, and when memory is refused.
use crate::align::{
    align_up, larger, lemma_align_down, lemma_align_down_floor, lemma_align_up,
};
use crate::arena::{all_cloned, box_ptr, granted, made_by, rc_ptr, slot_ptr};
use crate::boxed::Box;
use crate::chunk::{
    chunk_layout_for, lemma_chunk_layout, lemma_least_power_of_two, CHUNK_ALIGNMENT,
    FIRST_CHUNK_SIZE_WITHOUT_OVERHEAD, FOOTER_SIZE, OVERHEAD, PAGE_SIZE,
};
use crate::error::AllocError;
use crate::heap::{apart, fresh_chunk, given_at, lemma_asked, total_size, ChunkView};
use crate::layout::Layout;
use crate::raw::{with_capacity_state, ArenaView};
use crate::rc::Rc;
use crate::slot::Slot;
use std::collections::TryReserveError;
use vstd::arithmetic::power2::is_pow2;
use vstd::prelude::*;

verus! {

/// There is a chunk for every request that stays four pages, and twice its alignment, below
/// `isize::MAX`. A chunk is aligned as asked or to the alignment of chunks, whichever is more. With
/// its overhead it is at most twice what was asked up to a page, rounded up to a page above that.
pub proof fn lemma_chunk_bounds(size: int, align: int)
    requires
        is_pow2(align),
        0 <= size,
    ensures
        size + 2 * larger(align, CHUNK_ALIGNMENT as int) + 4 * PAGE_SIZE <= isize::MAX
            ==> chunk_layout_for(size, align) is Some,
        chunk_layout_for(size, align) matches Some(layout) ==> {
            &&& layout.align == larger(align, CHUNK_ALIGNMENT as int)
            &&& size + FOOTER_SIZE <= layout.size
            &&& size + layout.align <= PAGE_SIZE ==> layout.size < 2 * (size + layout.align
                + OVERHEAD)
            &&& size > PAGE_SIZE ==> layout.size < size + layout.align + PAGE_SIZE + FOOTER_SIZE
            &&& align_up(size, layout.align as int) <= PAGE_SIZE ==> is_pow2(
                layout.size - FOOTER_SIZE + OVERHEAD,
            ) && layout.size - FOOTER_SIZE + OVERHEAD < 2 * (align_up(size, layout.align as int)
                + OVERHEAD)
            &&& align_up(size, layout.align as int) > PAGE_SIZE ==> (layout.size - FOOTER_SIZE
                + OVERHEAD) % PAGE_SIZE as int == 0 && layout.size - FOOTER_SIZE < align_up(
                size,
                layout.align as int,
            ) + PAGE_SIZE
        },
{
    reveal(is_pow2);
    lemma_chunk_layout(size, align);
    let wide = larger(align, CHUNK_ALIGNMENT as int);
    lemma_align_up(size, wide);
    let fitted = align_up(size, wide);
    if fitted > PAGE_SIZE {
        lemma_align_up(fitted + OVERHEAD, PAGE_SIZE as int);
    } else {
        lemma_least_power_of_two(fitted + OVERHEAD);
    }
    assert(is_pow2(16)) by {
        reveal_with_fuel(is_pow2, 6);
    }
}

/// How many usable bytes a new chunk for a block of `layout` is asked to have at least, and no
/// more than rounding makes of it: as many as the block, as a first chunk, and as twice the
/// current chunk.
pub open spec fn least_chunk(v: ArenaView, layout: Layout) -> int {
    let current = match v.current {
        Some(p) => v.chunks[p].layout.size - FOOTER_SIZE,
        None => 0,
    };
    larger(
        larger(layout.size as int, FIRST_CHUNK_SIZE_WITHOUT_OVERHEAD as int),
        current + current,
    )
}

/// The next chunk is asked to be as large as the block, a first chunk, and twice the current one
/// need it to be, and no larger.
pub proof fn lemma_next_size(v: ArenaView, layout: Layout)
    ensures
        v.next_size(layout) == least_chunk(v, layout),
        v.next_size(layout) >= layout.size,
        v.next_size(layout) >= FIRST_CHUNK_SIZE_WITHOUT_OVERHEAD,
        v.current matches Some(p) ==> v.next_size(layout) >= 2 * (v.chunks[p].layout.size
            - FOOTER_SIZE),
        v.next_size(layout) == layout.size || v.next_size(layout)
            == FIRST_CHUNK_SIZE_WITHOUT_OVERHEAD || (v.current matches Some(p) && v.next_size(
            layout,
        ) == 2 * (v.chunks[p].layout.size - FOOTER_SIZE)),
{
}

/// There is a place for a block of `layout` at `a` in the part of the current chunk that is still
/// to be given out.
pub open spec fn free_at(v: ArenaView, layout: Layout, a: int) -> bool {
    &&& a % layout.align as int == 0
    &&& v.start <= a
    &&& a + layout.size <= v.cursor
}

/// Where there is a place for a block in the current chunk, it is granted there, whatever the
/// global allocator would say: as high as its alignment lets it be, with nothing else changed.
pub proof fn lemma_granted_in_current(
    v: ArenaView,
    layout: Layout,
    a: int,
    result: Option<usize>,
    new: ArenaView,
)
    requires
        v.sound(),
        is_pow2(layout.align as int),
        free_at(v, layout, a),
        v.allocated(layout, result, new),
    ensures
        result matches Some(ptr) && {
            &&& a <= ptr
            &&& ptr % layout.align == 0
            &&& ptr + layout.size <= v.cursor < ptr + layout.size + layout.align
            &&& new == (ArenaView { cursor: ptr, ..v })
        },
{
    reveal(is_pow2);
    lemma_align_down(v.cursor - layout.size, layout.align as int);
    lemma_align_down_floor(v.cursor - layout.size, a, layout.align as int);
}

/// Where there is no place for a block in the current chunk, a block that is granted is the last
/// one, as high as its alignment lets it be, of a chunk that the arena has just got: the chunk was
/// asked of the global allocator, nobody else holds it, its bytes are nought, and it is linked
/// after the others, which stay as they are.
pub proof fn lemma_granted_in_new(v: ArenaView, layout: Layout, ptr: usize, new: ArenaView)
    requires
        v.sound(),
        new.sound(),
        is_pow2(layout.align as int),
        forall|a: int| !#[trigger] free_at(v, layout, a),
        v.allocated(layout, Some(ptr), new),
    ensures
        new.current matches Some(footer) && {
            let chunk = new.chunks[footer];
            &&& !v.chunks.contains_key(footer)
            &&& new.chunks == v.chunks.insert(footer, chunk)
            &&& new.chain == v.chain.push(footer)
            &&& chunk.previous == v.current
            &&& chunk.refcount == 0
            &&& forall|i: int| 0 <= i < chunk.bytes.len() ==> #[trigger] chunk.bytes[i] == 0
            &&& new.start == chunk.start
            &&& ptr == new.cursor
            &&& ptr % layout.align == 0
            &&& ptr + layout.size <= footer < ptr + layout.size + layout.align
            &&& chunk_layout_for(least_chunk(v, layout), layout.align as int) == Some(chunk.layout)
            &&& exists|memory: &mut std::vec::Vec<u8>, nothing: ()| #[trigger]
                call_ensures(
                    std::vec::Vec::<u8>::try_reserve,
                    (memory, (chunk.layout.size + chunk.layout.align - 1) as usize),
                    Ok::<(), TryReserveError>(nothing),
                )
        },
{
    reveal(is_pow2);
    if v.fits(layout) {
        lemma_align_down(v.cursor - layout.size, layout.align as int);
        assert(free_at(v, layout, v.position(layout)));
    }
    let footer = new.current->0;
    let chunk = new.chunks[footer];
    lemma_align_down(footer - layout.size, layout.align as int);
    lemma_asked::<u8>((chunk.layout.size + chunk.layout.align - 1) as usize);
}

/// A block is refused only where there is no place for it in the current chunk, and a new chunk
/// cannot be had: what it takes comes within four pages, and twice the alignment, of `isize::MAX`,
/// or [`std::vec::Vec::try_reserve`] was asked for its memory and failed, or gave memory at an
/// address where a chunk in use is. The arena is as it was then.
pub proof fn lemma_refused(v: ArenaView, layout: Layout, new: ArenaView)
    requires
        v.sound(),
        is_pow2(layout.align as int),
        v.allocated(layout, None, new),
    ensures
        new == v,
        forall|a: int| !#[trigger] free_at(v, layout, a),
        match chunk_layout_for(least_chunk(v, layout), layout.align as int) {
            None => least_chunk(v, layout) + 2 * larger(
                layout.align as int,
                CHUNK_ALIGNMENT as int,
            ) + 4 * PAGE_SIZE > isize::MAX,
            Some(whole) => {
                ||| exists|memory: &mut std::vec::Vec<u8>, error: TryReserveError| #[trigger]
                    call_ensures(
                        std::vec::Vec::<u8>::try_reserve,
                        (memory, (whole.size + whole.align - 1) as usize),
                        Err::<(), TryReserveError>(error),
                    )
                ||| exists|base: usize, p: usize|
                    {
                        &&& #[trigger] given_at(whole.size + whole.align - 1, base)
                        &&& #[trigger] v.chunks.contains_key(p)
                        &&& !apart(
                            v.chunks[p],
                            fresh_chunk(
                                align_up(base as int, whole.align as int) as usize,
                                whole,
                                None,
                            ),
                        )
                    }
            },
        },
{
    reveal(is_pow2);
    assert forall|a: int| !#[trigger] free_at(v, layout, a) by {
        if free_at(v, layout, a) {
            lemma_granted_in_current(v, layout, a, None, new);
        }
    }
    lemma_next_size(v, layout);
    lemma_chunk_bounds(least_chunk(v, layout), layout.align as int);
    if let Some(whole) = chunk_layout_for(least_chunk(v, layout), layout.align as int) {
        lemma_chunk_layout(least_chunk(v, layout), layout.align as int);
        lemma_asked::<u8>((whole.size + whole.align - 1) as usize);
    }
}

/// An arena made with a capacity has one chunk of the size for that, with nothing in it.
pub proof fn lemma_begun(capacity: usize, v: ArenaView)
    requires
        v.sound(),
        with_capacity_state(capacity as int, v),
    ensures
        v.current matches Some(footer) && {
            &&& v.chunks.dom() == set![footer]
            &&& v.chain == seq![footer]
            &&& v.cursor == footer
            &&& v.chunks[footer].refcount == 0
            &&& v.chunks[footer].previous is None
            &&& v.chunks[footer].layout.size >= capacity + FOOTER_SIZE
            &&& v.chunks[footer].layout.align == CHUNK_ALIGNMENT
            &&& capacity + 16 <= PAGE_SIZE ==> v.chunks[footer].layout.size < 2 * (capacity + 16
                + OVERHEAD)
            &&& capacity > PAGE_SIZE ==> v.chunks[footer].layout.size < capacity + 16 + PAGE_SIZE
                + FOOTER_SIZE
        },
{
    assert(is_pow2(1)) by {
        reveal(is_pow2);
    }
    lemma_chunk_bounds(capacity as int, 1);
    assert(v.chunks.dom() =~= set![v.current->0]);
}

/// The last block grows into the free bytes before it where they are enough: it moves down by as
/// much as it grows, and by less than its alignment more. Nothing is asked of the global
/// allocator.
pub proof fn lemma_grown_in_place(
    v: ArenaView,
    ptr: usize,
    old_layout: Layout,
    new_layout: Layout,
    a: int,
    result: Option<usize>,
    new: ArenaView,
)
    requires
        v.sound(),
        is_pow2(old_layout.align as int),
        old_layout.size <= new_layout.size,
        old_layout.align >= new_layout.align,
        v.cursor == ptr,
        a % old_layout.align as int == 0,
        v.start <= a,
        a + (new_layout.size - old_layout.size) <= ptr,
        v.grown(ptr, old_layout, new_layout, result, new),
    ensures
        result matches Some(to) && {
            let more = new_layout.size - old_layout.size;
            &&& to % old_layout.align == 0
            &&& to + more <= ptr < to + more + old_layout.align
            &&& new.cursor == to
            &&& new.current == v.current
            &&& new.chain == v.chain
            &&& new.chunks.dom() == v.chunks.dom()
        },
{
    reveal(is_pow2);
    let more = new_layout.size - old_layout.size;
    lemma_align_down(ptr - more, old_layout.align as int);
    lemma_align_down_floor(ptr - more, a, old_layout.align as int);
}

/// A block that cannot grow in place, for it is not the last one, or needs a greater alignment, or
/// has too few free bytes before it, grows only where a block of the new layout is granted, and is
/// refused where that is. A refusal leaves the arena as it was.
pub proof fn lemma_grown_elsewhere(
    v: ArenaView,
    ptr: usize,
    old_layout: Layout,
    new_layout: Layout,
    result: Option<usize>,
    new: ArenaView,
)
    requires
        v.sound(),
        is_pow2(old_layout.align as int),
        old_layout.size <= new_layout.size,
        v.grown(ptr, old_layout, new_layout, result, new),
        v.cursor != ptr || old_layout.align < new_layout.align || forall|a: int|
            !#[trigger] free_at(
                v,
                Layout {
                    size: (new_layout.size - old_layout.size) as usize,
                    align: old_layout.align,
                },
                a,
            ),
    ensures
        result is None ==> new == v && v.allocated(new_layout, None, v),
        result matches Some(to) ==> exists|mid: ArenaView|
            {
                &&& #[trigger] v.allocated(new_layout, Some(to), mid)
                &&& mid.moved(ptr, to, old_layout.size, new)
            },
{
    let mid = choose|mid: ArenaView|
        #![trigger v.room_for_growth(ptr, old_layout, new_layout, result, mid)]
        {
            &&& v.room_for_growth(ptr, old_layout, new_layout, result, mid)
            &&& match result {
                Some(to) => mid.moved(ptr, to, old_layout.size, new),
                None => new == v,
            }
        };
    let more = Layout {
        size: (new_layout.size - old_layout.size) as usize,
        align: old_layout.align,
    };
    reveal(is_pow2);
    lemma_align_down(v.cursor - more.size, more.align as int);
    assert(v.fits(more) ==> free_at(v, more, v.position(more)));
    assert(v.allocated(new_layout, result, mid));
}

/// A block that shrinks without a greater alignment is never refused. The last one, giving up half
/// of its bytes or more, moves up by as many as it gives up, or less to stay aligned, and frees
/// them. Any other stays where it is, and the arena as it is.
pub proof fn lemma_shrunk_in_place(
    v: ArenaView,
    ptr: usize,
    old_layout: Layout,
    new_layout: Layout,
    result: Option<usize>,
    new: ArenaView,
)
    requires
        v.sound(),
        is_pow2(old_layout.align as int),
        is_pow2(new_layout.align as int),
        new_layout.size <= old_layout.size,
        ptr + old_layout.size <= usize::MAX,
        v.shrunk(ptr, old_layout, new_layout, result, new),
    ensures
        old_layout.align >= new_layout.align || ptr % new_layout.align == 0 ==> result is Some,
        old_layout.align >= new_layout.align && ptr == v.cursor && 2 * (old_layout.size
            - new_layout.size) >= old_layout.size ==> {
            let less = old_layout.size - new_layout.size;
            &&& result->0 % new_layout.align == 0
            &&& result->0 <= ptr + less < result->0 + new_layout.align
            &&& new.cursor == result->0
            &&& new.current == v.current
            &&& new.chain == v.chain
            &&& new.chunks.dom() == v.chunks.dom()
        },
        old_layout.align >= new_layout.align && (ptr != v.cursor || 2 * (old_layout.size
            - new_layout.size) < old_layout.size) ==> result == Some(ptr) && new == v,
        old_layout.align < new_layout.align && ptr % new_layout.align == 0 ==> result == Some(ptr)
            && new == v,
        result is None ==> new == v && v.allocated(new_layout, None, v),
{
    reveal(is_pow2);
    lemma_align_down(
        ptr + (old_layout.size - new_layout.size),
        new_layout.align as int,
    );
}

/// Giving back the last block frees its bytes. Giving back any other changes nothing.
pub proof fn lemma_given_back(v: ArenaView, ptr: usize, layout: Layout)
    requires
        ptr + layout.size <= usize::MAX,
    ensures
        ptr == v.cursor ==> v.released(ptr, layout).cursor == ptr + layout.size,
        ptr != v.cursor ==> v.released(ptr, layout) == v,
        v.released(ptr, layout).start == v.start,
        v.released(ptr, layout).current == v.current,
        v.released(ptr, layout).chain == v.chain,
        v.released(ptr, layout).chunks == v.chunks,
{
}

/// The size of an arena is that of its chunks together: a block in the current chunk leaves it as
/// it is, and a new chunk adds its own size.
pub proof fn lemma_size(v: ArenaView, layout: Layout, ptr: usize, new: ArenaView)
    requires
        v.sound(),
        new.sound(),
        v.allocated(layout, Some(ptr), new),
    ensures
        new.chain == v.chain ==> total_size(new.chunks, new.chain) == total_size(
            v.chunks,
            v.chain,
        ),
        new.chain != v.chain ==> total_size(new.chunks, new.chain) == total_size(v.chunks, v.chain)
            + new.chunks[new.current->0].layout.size,
{
    if !v.fits(layout) {
        let footer = new.current->0;
        assert(new.chain.drop_last() =~= v.chain);
        assert(new.chain.last() == footer);
        assert(new.chain.len() != v.chain.len());
        assert forall|q: usize| #[trigger] v.chain.contains(q) implies new.chunks[q].layout
            == v.chunks[q].layout by {
            let i = choose|i: int| 0 <= i < v.chain.len() && v.chain[i] == q;
            crate::heap::lemma_chain_prefix(v.chunks, v.current, v.chain, i);
        }
        lemma_same_total(v.chunks, new.chunks, v.chain);
    }
}

/// The size of the listed chunks depends on their layouts alone.
proof fn lemma_same_total(m: Map<usize, ChunkView>, n: Map<usize, ChunkView>, list: Seq<usize>)
    requires
        forall|q: usize| #[trigger] list.contains(q) ==> n[q].layout == m[q].layout,
    ensures
        total_size(n, list) == total_size(m, list),
    decreases list.len(),
{
    if list.len() > 0 {
        let less = list.drop_last();
        assert(list[list.len() - 1] == list.last());
        assert(list.contains(list.last()));
        assert forall|q: usize| #[trigger] less.contains(q) implies n[q].layout == m[q].layout by {
            let i = choose|i: int| 0 <= i < less.len() && less[i] == q;
            assert(list[i] == q);
            assert(list.contains(q));
        }
        lemma_same_total(m, n, less);
    }
}

/// What a plain allocation gives is the block that the arena granted, or nothing where it refused.
pub proof fn lemma_slot_of_block<T: ?Sized>(
    v: ArenaView,
    layout: Layout,
    result: Result<Slot<T>, AllocError>,
    new: ArenaView,
)
    requires
        v.maybe_allocated(Some(layout), slot_ptr(granted(result)), new),
    ensures
        result matches Ok(slot) ==> v.allocated(layout, Some(slot.ptr()), new),
        result is Err ==> v.allocated(layout, None, new),
{
}

/// What a boxed allocation gives is the block that the arena granted, or nothing where it refused.
pub proof fn lemma_box_of_block<T: ?Sized>(
    v: ArenaView,
    layout: Layout,
    result: Result<Box<T>, AllocError>,
    new: ArenaView,
)
    requires
        v.maybe_allocated(Some(layout), box_ptr(granted(result)), new),
    ensures
        result matches Ok(boxed) ==> v.allocated(layout, Some(boxed.ptr()), new),
        result is Err ==> v.allocated(layout, None, new),
{
}

/// What a reference counted allocation gives is the block that the arena granted, whose chunk then
/// has one holder more where it is of some size, or nothing where it refused.
pub proof fn lemma_rc_of_block<T: ?Sized>(
    v: ArenaView,
    layout: Layout,
    result: Result<Rc<T>, AllocError>,
    new: ArenaView,
)
    requires
        v.maybe_shared(Some(layout), rc_ptr(granted(result)), new),
    ensures
        result is Err ==> v.allocated(layout, None, new),
        result matches Ok(rc) ==> exists|mid: ArenaView|
            {
                &&& #[trigger] v.allocated(layout, Some(rc.ptr()), mid)
                &&& layout.size == 0 ==> new == mid
                &&& layout.size > 0 ==> {
                    let p = mid.current->0;
                    &&& new.cursor == mid.cursor && new.start == mid.start
                    &&& new.current == mid.current && new.chain == mid.chain
                    &&& forall|q: usize| q != p && mid.chunks.contains_key(q) ==> #[trigger]
                        new.chunks[q] == mid.chunks[q]
                    &&& new.chunks[p] == (ChunkView {
                        refcount: new.chunks[p].refcount,
                        ..mid.chunks[p]
                    })
                    &&& mid.chunks[p].refcount < usize::MAX ==> new.chunks[p].refcount
                        == mid.chunks[p].refcount + 1
                }
            },
{
    let result = rc_ptr(granted(result));
    let mid = choose|mid: ArenaView|
        #![trigger v.maybe_allocated(Some(layout), result, mid)]
        {
            &&& v.maybe_allocated(Some(layout), result, mid)
            &&& new == if result is Some && layout.size > 0 {
                mid.held(mid.current->0)
            } else {
                mid
            }
        };
    assert(v.allocated(layout, result, mid));
}

/// Clones of a slice are clones of its values, one by one, and no others.
pub proof fn lemma_all_cloned<T: Clone>(s: Seq<T>, t: Seq<T>)
    ensures
        all_cloned(s, t) <==> s.len() == t.len() && forall|i: int|
            0 <= i < t.len() ==> cloned(#[trigger] s[i], t[i]),
{
}

/// Values that a closure makes for a slice are what it gives for their positions, one by one, and
/// no others.
pub proof fn lemma_made_by<T, F: FnMut(usize) -> T>(f: F, len: usize, s: Seq<T>, i: usize)
    requires
        made_by(f, len, s),
    ensures
        s.len() == len,
        i < len ==> f.ensures((i,), s[i as int]),
{
}

} // verus!

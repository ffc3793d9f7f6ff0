//! Bump allocation in a list of chunks.
use crate::align::{
    align_down, align_down_with_provenance, is_aligned_to_unchecked, larger, lemma_align_down,
    lemma_align_down_floor, lemma_coarser_multiple,
};
use crate::chunk::{
    chunk_layout_for, lemma_chunk_layout, FIRST_CHUNK_SIZE_WITHOUT_OVERHEAD, FOOTER_SIZE,
};
use crate::heap::{
    apart, asked, byte, chunk_added, copied, memory_len, memory_refused, dealloc_chunk_list, fresh_chunk, holds, in_chunk, is_chain,
    lemma_chain_distinct, lemma_chain_frame, lemma_chain_prefix, lemma_total_bound, list_dropped,
    new_chunk, one_added, one_dropped, same_shape, sound_chunks, total_size, written, ChunkFooter,
    ChunkView, Heap,
};
use crate::layout::Layout;
use vstd::arithmetic::power2::is_pow2;
use vstd::prelude::*;

verus! {

/// The address that stands for no block.
pub const DANGLING: usize = 1;

/// The state of an arena.
#[verifier::ext_equal]
pub struct ArenaView {
    /// Address of the last block of the current chunk; its footer's where it has no block.
    pub cursor: usize,
    /// Address of the first byte of the current chunk.
    pub start: usize,
    /// Address of the footer of the current chunk.
    pub current: Option<usize>,
    /// Addresses of the footers of the arena's chunks, the current one last.
    pub chain: Seq<usize>,
    /// The chunks in use: those of the arena, and those it let go that others still hold.
    pub chunks: Map<usize, ChunkView>,
}

/// The `m` bytes from `a` on and the `n` bytes from `b` on have no byte in common.
pub open spec fn disjoint(a: int, m: int, b: int, n: int) -> bool {
    m <= 0 || n <= 0 || a + m <= b || b + n <= a
}

impl ArenaView {
    /// An arena that has asked for no memory yet.
    pub open spec fn empty() -> ArenaView {
        ArenaView {
            cursor: DANGLING,
            start: DANGLING,
            current: None,
            chain: Seq::empty(),
            chunks: Map::empty(),
        }
    }

    /// The chunks are sound, the arena's own are linked, the cursor is in the current one, and
    /// none of them is larger than that.
    pub open spec fn sound(self) -> bool {
        &&& sound_chunks(self.chunks)
        &&& is_chain(self.chunks, self.current, self.chain)
        &&& match self.current {
            None => self.cursor == DANGLING && self.start == DANGLING,
            Some(p) => self.start == self.chunks[p].start && self.start <= self.cursor <= p,
        }
        &&& forall|q: usize| #[trigger]
            self.chain.contains(q) ==> self.chunks[q].layout.size
                <= self.chunks[self.current->0].layout.size
    }

    /// Where a block of `layout` would go in the current chunk.
    pub open spec fn position(self, layout: Layout) -> int {
        align_down(self.cursor - layout.size, layout.align as int)
    }

    /// Whether a block of `layout` fits in the current chunk.
    pub open spec fn fits(self, layout: Layout) -> bool {
        self.start <= self.position(layout)
    }

    /// The state after a block of `layout` was put in the current chunk.
    pub open spec fn bumped(self, layout: Layout) -> ArenaView {
        ArenaView { cursor: self.position(layout) as usize, ..self }
    }

    /// How many bytes the next chunk is asked to hold, for a block of `layout`: at least twice
    /// those of the current one.
    pub open spec fn next_size(self, layout: Layout) -> int {
        let least = larger(layout.size as int, FIRST_CHUNK_SIZE_WITHOUT_OVERHEAD as int);
        match self.current {
            None => least,
            Some(p) => larger((self.chunks[p].layout.size - FOOTER_SIZE) * 2, least),
        }
    }

    /// The state without the chunk with its footer at `p`.
    pub open spec fn without(self, p: usize) -> ArenaView {
        ArenaView { chunks: self.chunks.remove(p), ..self }
    }

    /// `new` is the state after a block of `layout` was put in a new chunk.
    pub open spec fn extended(self, layout: Layout, new: ArenaView) -> bool {
        &&& new.current matches Some(footer)
        &&& chunk_added(
            self.chunks,
            new.chunks,
            footer,
            new.start,
            self.next_size(layout),
            layout.align as int,
            self.current,
        )
        &&& new.chain == self.chain.push(footer)
        &&& new.cursor == align_down(footer - layout.size, layout.align as int)
    }

    /// `new` is the state after a block of `layout` was asked for and `result` given: a block of
    /// the current chunk where it fits there, else one of a new chunk, or none where there is no
    /// memory for a new chunk.
    pub open spec fn allocated(
        self,
        layout: Layout,
        result: Option<usize>,
        new: ArenaView,
    ) -> bool {
        if self.fits(layout) {
            result == Some(self.position(layout) as usize) && new == self.bumped(layout)
        } else {
            match result {
                Some(ptr) => {
                    &&& self.extended(layout, new)
                    &&& ptr == new.cursor
                    &&& asked::<u8>(memory_len(new.chunks[new.current->0].layout), true)
                },
                None => new == self && self.refused(layout),
            }
        }
    }

    /// Whether there is no memory for a new chunk for a block of `layout`: none would do, or the
    /// global allocator did not give it.
    pub open spec fn refused(self, layout: Layout) -> bool {
        chunk_layout_for(self.next_size(layout), layout.align as int) matches Some(whole)
            ==> memory_refused(self.chunks, whole)
    }

    /// Whether no memory in the world would do for a block of `layout`.
    pub open spec fn too_large(self, layout: Layout) -> bool {
        !self.fits(layout) && chunk_layout_for(self.next_size(layout), layout.align as int) is None
    }

    /// The `size` bytes from `ptr` on are taken: they lie in one of the arena's chunks, and not
    /// in the part of the current one that is still to be given out.
    pub open spec fn placed(self, ptr: int, size: int) -> bool {
        size <= 0 || exists|p: usize| #[trigger] self.placed_in(p, ptr, size)
    }

    /// The `size` bytes from `ptr` on are taken, in the chunk with its footer at `p`.
    pub open spec fn placed_in(self, p: usize, ptr: int, size: int) -> bool {
        &&& self.chain.contains(p)
        &&& in_chunk(self.chunks, p, ptr, size)
        &&& self.current == Some(p) ==> self.cursor <= ptr
    }

    /// What is taken stays taken.
    pub open spec fn keeps(self, new: ArenaView) -> bool {
        forall|ptr: int, size: int| self.placed(ptr, size) ==> #[trigger] new.placed(ptr, size)
    }

    /// The state after the block of `layout` at `ptr` was given back: its bytes are free again
    /// where it was the last block.
    pub open spec fn released(self, ptr: usize, layout: Layout) -> ArenaView {
        if ptr == self.cursor {
            ArenaView { cursor: (ptr + layout.size) as usize, ..self }
        } else {
            self
        }
    }

    /// `new` differs in nothing but that the `len` bytes from `src` on were moved to `dst`.
    pub open spec fn moved(self, src: usize, dst: usize, len: usize, new: ArenaView) -> bool {
        &&& new == ArenaView { chunks: new.chunks, ..self }
        &&& copied(self.chunks, new.chunks, src as int, dst as int, len as int)
    }

    /// What growing a block in place takes.
    pub open spec fn growth(old_layout: Layout, new_layout: Layout) -> Layout {
        Layout { size: (new_layout.size - old_layout.size) as usize, align: old_layout.align }
    }

    /// Whether the block of `old_layout` at `ptr` can grow without moving to another place in
    /// the arena: it is the last one and there is room before it.
    pub open spec fn grows_in_place(
        self,
        ptr: usize,
        old_layout: Layout,
        new_layout: Layout,
    ) -> bool {
        &&& old_layout.align >= new_layout.align
        &&& self.cursor == ptr
        &&& self.fits(ArenaView::growth(old_layout, new_layout))
    }

    /// `mid` is the state after room for growing a block was asked for and `result` given.
    pub open spec fn room_for_growth(
        self,
        ptr: usize,
        old_layout: Layout,
        new_layout: Layout,
        result: Option<usize>,
        mid: ArenaView,
    ) -> bool {
        if self.grows_in_place(ptr, old_layout, new_layout) {
            let more = ArenaView::growth(old_layout, new_layout);
            result == Some(self.position(more) as usize) && mid == self.bumped(more)
        } else {
            self.allocated(new_layout, result, mid)
        }
    }

    /// `new` is the state after the block of `old_layout` at `ptr` was grown to `new_layout` and
    /// `result` given: there is room for it, and it holds what the old one held.
    pub open spec fn grown(
        self,
        ptr: usize,
        old_layout: Layout,
        new_layout: Layout,
        result: Option<usize>,
        new: ArenaView,
    ) -> bool {
        exists|mid: ArenaView|
            #![trigger self.room_for_growth(ptr, old_layout, new_layout, result, mid)]
            {
                &&& self.room_for_growth(ptr, old_layout, new_layout, result, mid)
                &&& match result {
                    Some(to) => mid.moved(ptr, to, old_layout.size, new),
                    None => new == self,
                }
            }
    }

    /// Where the last block goes when it shrinks.
    pub open spec fn shrunk_to(ptr: usize, old_layout: Layout, new_layout: Layout) -> int {
        align_down(ptr + (old_layout.size - new_layout.size), new_layout.align as int)
    }

    /// Whether shrinking the block of `old_layout` at `ptr` moves it up: it is the last one and
    /// gives up half of its bytes or more.
    pub open spec fn shrinks_in_place(
        self,
        ptr: usize,
        old_layout: Layout,
        new_layout: Layout,
    ) -> bool {
        self.cursor == ptr && (old_layout.size - new_layout.size) * 2 >= old_layout.size
    }

    /// `mid` is the state after room for a block that shrinks was asked for and `result` given.
    pub open spec fn room_for_shrinking(
        self,
        ptr: usize,
        old_layout: Layout,
        new_layout: Layout,
        result: Option<usize>,
        mid: ArenaView,
    ) -> bool {
        if old_layout.align < new_layout.align {
            if ptr % new_layout.align == 0 {
                result == Some(ptr) && mid == self
            } else {
                self.allocated(new_layout, result, mid)
            }
        } else if self.shrinks_in_place(ptr, old_layout, new_layout) {
            let to = ArenaView::shrunk_to(ptr, old_layout, new_layout) as usize;
            result == Some(to) && mid == (ArenaView { cursor: to, ..self })
        } else {
            result == Some(ptr) && mid == self
        }
    }

    /// `new` is the state after the block of `old_layout` at `ptr` was shrunk to `new_layout`
    /// and `result` given.
    pub open spec fn shrunk(
        self,
        ptr: usize,
        old_layout: Layout,
        new_layout: Layout,
        result: Option<usize>,
        new: ArenaView,
    ) -> bool {
        if old_layout.align < new_layout.align {
            if ptr % new_layout.align == 0 {
                result == Some(ptr) && new == self
            } else {
                exists|mid: ArenaView|
                    #![trigger self.allocated(new_layout, result, mid)]
                    {
                        &&& self.allocated(new_layout, result, mid)
                        &&& match result {
                            Some(to) => mid.moved(ptr, to, new_layout.size, new),
                            None => new == self,
                        }
                    }
            }
        } else if self.shrinks_in_place(ptr, old_layout, new_layout) {
            let to = ArenaView::shrunk_to(ptr, old_layout, new_layout) as usize;
            &&& result == Some(to)
            &&& (ArenaView { cursor: to, ..self }).moved(ptr, to, new_layout.size, new)
        } else {
            result == Some(ptr) && new == self
        }
    }

    /// The state after all blocks were given back: of the arena's chunks the current one stays,
    /// and the others lose a holder. What is taken of the current one stays taken while somebody
    /// else holds it.
    pub open spec fn rewound(self) -> ArenaView {
        match self.current {
            None => self,
            Some(p) => ArenaView {
                cursor: if self.chunks[p].refcount > 0 {
                    self.cursor
                } else {
                    p
                },
                start: self.start,
                current: self.current,
                chain: seq![p],
                chunks: list_dropped(
                    self.chunks.insert(p, ChunkView { previous: None, ..self.chunks[p] }),
                    self.chain.drop_last(),
                ),
            },
        }
    }

    /// The state after the chunk with its footer at `p` got one more holder.
    pub open spec fn held(self, p: usize) -> ArenaView {
        ArenaView { chunks: one_added(self.chunks, p), ..self }
    }

    /// The state after the chunk with its footer at `p` lost a holder.
    pub open spec fn let_go(self, p: usize) -> ArenaView {
        ArenaView { chunks: one_dropped(self.chunks, p), ..self }
    }

    /// Whether somebody besides the arena holds the chunk with its footer at `p`, as far as the
    /// arena knows: the chunk is in use, and counted where it is the arena's own.
    pub open spec fn holder_of(self, p: usize) -> bool {
        &&& self.chunks.contains_key(p)
        &&& self.chain.contains(p) ==> self.chunks[p].refcount > 0
    }

    /// The `size` bytes from `ptr` on are held: they lie in the chunk with its footer at `p`,
    /// which somebody besides the arena holds, and not in the part of the current one that is
    /// still to be given out.
    pub open spec fn held_in(self, p: usize, ptr: int, size: int) -> bool {
        &&& self.holder_of(p)
        &&& in_chunk(self.chunks, p, ptr, size)
        &&& self.current == Some(p) ==> self.cursor <= ptr
    }

    /// The chunks in use after the arena itself is gone.
    pub open spec fn left_over(self) -> Map<usize, ChunkView> {
        list_dropped(self.chunks, self.chain)
    }
}

/// Putting a block in the current chunk keeps the arena sound.
pub proof fn lemma_bumped_sound(v: ArenaView, layout: Layout)
    requires
        v.sound(),
        is_pow2(layout.align as int),
        v.fits(layout),
    ensures
        v.bumped(layout).sound(),
        v.start <= v.position(layout) <= v.cursor - layout.size,
        v.position(layout) % layout.align as int == 0,
        v.current is None ==> layout.size == 0 && v.position(layout) == DANGLING,
{
    reveal(is_pow2);
    lemma_align_down(v.cursor - layout.size, layout.align as int);
}

/// Putting a block in a new chunk keeps the arena sound, and the block is in that chunk.
pub proof fn lemma_extended_sound(v: ArenaView, layout: Layout, new: ArenaView)
    requires
        v.sound(),
        is_pow2(layout.align as int),
        v.extended(layout, new),
        sound_chunks(new.chunks),
    ensures
        new.sound(),
        new.start <= new.cursor,
        new.cursor + layout.size <= new.current->0,
        new.cursor % layout.align == 0,
        forall|p: usize|
            v.chunks.contains_key(p) ==> #[trigger] new.chunks.contains_key(p) && new.chunks[p]
                == v.chunks[p],
{
    reveal(is_pow2);
    let footer = new.current->0;
    let size = v.next_size(layout);
    lemma_chunk_layout(size, layout.align as int);
    let whole = chunk_layout_for(size, layout.align as int)->0;
    assert(new.chunks.contains_key(footer));
    assert(new.chunks[footer] == fresh_chunk(new.start, whole, v.current));
    assert(new.chunks[footer].sound());
    assert(new.chunks[footer].footer() == footer);
    lemma_coarser_multiple(new.start as int, whole.align as int, layout.align as int);
    lemma_align_down_floor(footer - layout.size, new.start as int, layout.align as int);
    lemma_align_down(footer - layout.size, layout.align as int);
    assert(new.chain.drop_last() =~= v.chain);
    assert forall|p: usize| #[trigger] v.chain.contains(p) implies new.chunks.contains_key(p)
        && new.chunks[p].previous == v.chunks[p].previous by {
        let i = choose|i: int| 0 <= i < v.chain.len() && v.chain[i] == p;
        lemma_chain_prefix(v.chunks, v.current, v.chain, i);
    }
    lemma_chain_frame(v.chunks, new.chunks, v.current, v.chain);
    assert forall|q: usize| #[trigger] new.chain.contains(q) implies new.chunks[q].layout.size
        <= whole.size by {
        let i = choose|i: int| 0 <= i < new.chain.len() && new.chain[i] == q;
        if i < v.chain.len() {
            assert(v.chain[i] == q);
            assert(v.chain.contains(q));
            assert(v.chunks.contains_key(v.current->0));
            assert(v.chunks[v.current->0].sound());
        }
    }
}

/// Whatever the bytes hold, the arena stays sound, and what is taken taken.
pub proof fn lemma_reshaped_sound(v: ArenaView, new: ArenaView)
    requires
        v.sound(),
        new == (ArenaView { chunks: new.chunks, ..v }),
        same_shape(v.chunks, new.chunks),
    ensures
        new.sound(),
        forall|ptr: int, size: int| v.placed(ptr, size) ==> #[trigger] new.placed(ptr, size),
{
    let m = v.chunks;
    let n = new.chunks;
    assert forall|p: usize| #[trigger] n.contains_key(p) implies n[p].sound() && n[p].footer()
        == p by {
        assert(m.contains_key(p));
        assert(m[p].sound());
    }
    assert forall|p: usize, q: usize|
        #![trigger n[p], n[q]]
        n.contains_key(p) && n.contains_key(q) && p != q implies apart(n[p], n[q]) by {
        assert(m.contains_key(p) && m.contains_key(q));
        assert(apart(m[p], m[q]));
    }
    assert forall|p: usize| #[trigger] v.chain.contains(p) implies n.contains_key(p)
        && n[p].previous == m[p].previous by {
        let i = choose|i: int| 0 <= i < v.chain.len() && v.chain[i] == p;
        lemma_chain_prefix(m, v.current, v.chain, i);
        assert(m.contains_key(p));
    }
    lemma_chain_frame(m, n, v.current, v.chain);
    if let Some(p) = v.current {
        assert(m.contains_key(p));
        assert(n[p].start == m[p].start);
        assert(n[p].layout == m[p].layout);
    }
    assert forall|q: usize| #[trigger] new.chain.contains(q) implies n[q].layout.size
        <= n[new.current->0].layout.size by {
        assert(m[q].layout.size <= m[v.current->0].layout.size);
        assert(n[q].layout == m[q].layout);
        assert(v.chain.len() > 0);
    }
    assert forall|ptr: int, size: int| v.placed(ptr, size) implies #[trigger] new.placed(
        ptr,
        size,
    ) by {
        if size > 0 {
            let p = choose|p: usize| #[trigger] v.placed_in(p, ptr, size);
            assert(m.contains_key(p));
            assert(n[p].start == m[p].start);
            assert(new.placed_in(p, ptr, size));
        }
    }
}

/// Taken bytes lie in a chunk.
pub proof fn lemma_placed_holds(v: ArenaView, ptr: int, size: int)
    requires
        v.placed(ptr, size),
        size > 0,
    ensures
        holds(v.chunks, ptr, size),
{
    let p = choose|p: usize| #[trigger] v.placed_in(p, ptr, size);
    assert(in_chunk(v.chunks, p, ptr, size));
}

/// Taken bytes that begin where the cursor is are in the current chunk.
pub proof fn lemma_last_block(v: ArenaView, size: int)
    requires
        v.sound(),
        v.placed(v.cursor as int, size),
        size > 0,
    ensures
        v.current is Some,
        in_chunk(v.chunks, v.current->0, v.cursor as int, size),
{
    let p = choose|p: usize| #[trigger] v.placed_in(p, v.cursor as int, size);
    match v.current {
        Some(q) => {
            if p != q {
                assert(apart(v.chunks[p], v.chunks[q]));
            }
        },
        None => {
            assert(v.chain.len() == 0);
        },
    }
}

/// A block that was asked for is aligned as asked and taken from then on. What was taken
/// before stays taken, and has no byte in common with the new block.
pub proof fn lemma_allocated(v: ArenaView, layout: Layout, ptr: usize, new: ArenaView)
    requires
        v.sound(),
        new.sound(),
        is_pow2(layout.align as int),
        v.allocated(layout, Some(ptr), new),
    ensures
        ptr % layout.align == 0,
        ptr > 0,
        ptr == new.cursor,
        new.placed(ptr as int, layout.size as int),
        forall|a: int, n: int|
            #![trigger v.placed(a, n)]
            #![trigger new.placed(a, n)]
            v.placed(a, n) ==> new.placed(a, n) && disjoint(
                a,
                n,
                ptr as int,
                layout.size as int,
            ),
{
    reveal(is_pow2);
    if v.fits(layout) {
        lemma_bumped_sound(v, layout);
        if layout.size > 0 {
            let p = v.current->0;
            assert(v.chain[v.chain.len() - 1] == p);
            assert(v.chain.contains(p));
            assert(v.chunks.contains_key(p));
            assert(new.placed_in(p, ptr as int, layout.size as int));
        }
        assert forall|a: int, n: int|
            #![trigger v.placed(a, n)]
            #![trigger new.placed(a, n)]
            v.placed(a, n) implies new.placed(a, n) && disjoint(
            a,
            n,
            ptr as int,
            layout.size as int,
        ) by {
            if n > 0 {
                let q = choose|q: usize| #[trigger] v.placed_in(q, a, n);
                assert(new.placed_in(q, a, n));
                if layout.size > 0 && v.current != Some(q) {
                    assert(apart(v.chunks[q], v.chunks[v.current->0]));
                }
            }
        }
    } else {
        lemma_extended_sound(v, layout, new);
        let p = new.current->0;
        assert(new.chain[new.chain.len() - 1] == p);
        assert(new.chain.contains(p));
        assert(new.chunks.contains_key(p));
        assert(new.placed_in(p, ptr as int, layout.size as int));
        assert forall|a: int, n: int|
            #![trigger v.placed(a, n)]
            #![trigger new.placed(a, n)]
            v.placed(a, n) implies new.placed(a, n) && disjoint(
            a,
            n,
            ptr as int,
            layout.size as int,
        ) by {
            if n > 0 {
                let q = choose|q: usize| #[trigger] v.placed_in(q, a, n);
                let i = choose|i: int| 0 <= i < v.chain.len() && v.chain[i] == q;
                assert(new.chain[i] == q);
                assert(new.chain.contains(q));
                assert(v.chunks.contains_key(q));
                assert(new.chunks.contains_key(q));
                assert(q != p);
                assert(new.placed_in(q, a, n));
                assert(apart(new.chunks[q], new.chunks[p]));
            }
        }
    }
}

/// Giving a block back keeps the arena sound. Other blocks that have no byte in common with it
/// stay taken.
pub proof fn lemma_released(v: ArenaView, ptr: usize, layout: Layout)
    requires
        v.sound(),
        v.placed(ptr as int, layout.size as int),
    ensures
        v.released(ptr, layout).sound(),
        forall|a: int, n: int|
            v.placed(a, n) && disjoint(a, n, ptr as int, layout.size as int)
                ==> #[trigger] v.released(ptr, layout).placed(a, n),
{
    let new = v.released(ptr, layout);
    if ptr == v.cursor && layout.size > 0 {
        lemma_last_block(v, layout.size as int);
    }
    assert forall|a: int, n: int|
        v.placed(a, n) && disjoint(
            a,
            n,
            ptr as int,
            layout.size as int,
        ) implies #[trigger] new.placed(a, n) by {
        if n > 0 {
            let q = choose|q: usize| #[trigger] v.placed_in(q, a, n);
            assert(new.placed_in(q, a, n));
        }
    }
}

/// The current chunk is the last one in the list, and stands there once.
pub proof fn lemma_current_last(v: ArenaView)
    requires
        v.sound(),
        v.current is Some,
    ensures
        v.chain.len() > 0,
        v.chain.last() == v.current->0,
        v.chain.contains(v.current->0),
        v.chunks.contains_key(v.current->0),
        !v.chain.drop_last().contains(v.current->0),
{
    let p = v.current->0;
    let rest = v.chain.drop_last();
    lemma_chain_distinct(v.chunks, v.current, v.chain);
    assert(v.chain[v.chain.len() - 1] == p);
    if rest.contains(p) {
        let i = choose|i: int| 0 <= i < rest.len() && rest[i] == p;
        assert(v.chain[i] == v.chain[v.chain.len() - 1]);
    }
}

/// Giving all blocks back keeps the arena sound.
pub proof fn lemma_rewound_sound(v: ArenaView)
    requires
        v.sound(),
    ensures
        v.rewound().sound(),
        v.current matches Some(p) ==> is_chain(
            v.chunks.insert(p, ChunkView { previous: None, ..v.chunks[p] }),
            v.chunks[p].previous,
            v.chain.drop_last(),
        ),
{
    if let Some(p) = v.current {
        let m = v.chunks.insert(p, ChunkView { previous: None, ..v.chunks[p] });
        let rest = v.chain.drop_last();
        lemma_current_last(v);
        assert forall|q: usize| #[trigger] rest.contains(q) implies m.contains_key(q)
            && m[q].previous == v.chunks[q].previous by {
            let i = choose|i: int| 0 <= i < rest.len() && rest[i] == q;
            assert(v.chain[i] == q);
            lemma_chain_prefix(v.chunks, v.current, v.chain, i);
        }
        lemma_chain_frame(v.chunks, m, v.chunks[p].previous, rest);
        let n = list_dropped(m, rest);
        assert forall|q: usize| #[trigger] n.contains_key(q) implies n[q].sound() && n[q].footer()
            == q by {
            assert(v.chunks.contains_key(q));
            assert(v.chunks[q].sound());
        }
        assert forall|a: usize, b: usize|
            #![trigger n[a], n[b]]
            n.contains_key(a) && n.contains_key(b) && a != b implies apart(n[a], n[b]) by {
            assert(v.chunks.contains_key(a) && v.chunks.contains_key(b));
            assert(apart(v.chunks[a], v.chunks[b]));
        }
        assert(n.contains_key(p));
        assert(seq![p].drop_last() =~= Seq::<usize>::empty());
        assert(is_chain(n, None, Seq::<usize>::empty()));
        assert(is_chain(n, Some(p), seq![p]));
        assert(v.rewound().chain =~= seq![p]);
        assert forall|q: usize| #[trigger] v.rewound().chain.contains(q) implies q == p by {}
    }
}

/// A holder more or less keeps the arena sound, and what is taken taken.
pub proof fn lemma_recounted_sound(v: ArenaView, p: usize, new: ArenaView)
    requires
        v.sound(),
        v.chunks.contains_key(p),
        new == v.held(p) || (new == v.let_go(p) && v.holder_of(p)),
    ensures
        new.sound(),
        forall|ptr: int, size: int| v.placed(ptr, size) ==> #[trigger] new.placed(ptr, size),
{
    let m = v.chunks;
    let n = new.chunks;
    assert(m[p].sound());
    assert forall|q: usize| #[trigger] n.contains_key(q) implies n[q].sound() && n[q].footer()
        == q by {
        assert(m.contains_key(q));
        assert(m[q].sound());
    }
    assert forall|a: usize, b: usize|
        #![trigger n[a], n[b]]
        n.contains_key(a) && n.contains_key(b) && a != b implies apart(n[a], n[b]) by {
        assert(m.contains_key(a) && m.contains_key(b));
        assert(apart(m[a], m[b]));
    }
    assert forall|q: usize| #[trigger] v.chain.contains(q) implies n.contains_key(q)
        && n[q].previous == m[q].previous && n[q].layout == m[q].layout && n[q].start
        == m[q].start by {
        let i = choose|i: int| 0 <= i < v.chain.len() && v.chain[i] == q;
        lemma_chain_prefix(m, v.current, v.chain, i);
    }
    lemma_chain_frame(m, n, v.current, v.chain);
    if let Some(c) = v.current {
        assert(v.chain[v.chain.len() - 1] == c);
        assert(v.chain.contains(c));
    }
    assert forall|q: usize| #[trigger] new.chain.contains(q) implies n[q].layout.size
        <= n[new.current->0].layout.size by {
        assert(v.chain.len() > 0);
    }
    assert forall|ptr: int, size: int| v.placed(ptr, size) implies #[trigger] new.placed(
        ptr,
        size,
    ) by {
        if size > 0 {
            let q = choose|q: usize| #[trigger] v.placed_in(q, ptr, size);
            assert(new.placed_in(q, ptr, size));
        }
    }
}

/// Implementation of an arena allocator.
///
/// It provides a few simple methods: one can allocate a layout, deallocate, grow or shrink.
pub struct RawArena {
    /// Bump allocation address, pointing to the last allocation of the current chunk.
    cursor_ptr: usize,
    /// Address of the footer of the current (last in the list) chunk.
    current_chunk_ptr: Option<usize>,
    /// Address of the allocatable region of the current chunk.
    start_ptr: usize,
    /// The chunks in use.
    heap: Heap,
    /// Addresses of the footers of this arena's chunks.
    chain: Ghost<Seq<usize>>,
}

impl View for RawArena {
    type V = ArenaView;

    closed spec fn view(&self) -> ArenaView {
        ArenaView {
            cursor: self.cursor_ptr,
            start: self.start_ptr,
            current: self.current_chunk_ptr,
            chain: self.chain@,
            chunks: self.heap@,
        }
    }
}

impl RawArena {
    /// The arena is sound, and so is what it is kept in.
    pub open spec fn wf(&self) -> bool {
        &&& self@.sound()
        &&& self.kept_well()
    }

    /// What the chunks are kept in is sound.
    pub closed spec fn kept_well(&self) -> bool {
        self.heap.wf()
    }

    /// Creates a new arena without performing any allocations.
    pub fn new() -> (arena: RawArena)
        ensures
            arena.wf(),
            arena@ == ArenaView::empty(),
    {
        RawArena {
            cursor_ptr: DANGLING,
            current_chunk_ptr: None,
            start_ptr: DANGLING,
            heap: Heap::new(),
            chain: Ghost(Seq::empty()),
        }
    }

    /// Creates a new arena with pre-allocated `capacity`.
    ///
    /// Returns `None` if the global allocator failed to allocate enough memory.
    pub fn try_with_capacity(capacity: usize) -> (result: Option<RawArena>)
        ensures
            chunk_layout_for(capacity as int, 1) is None ==> result is None,
            chunk_layout_for(capacity as int, 1) matches Some(layout) ==> asked::<u8>(
                memory_len(layout),
                result is Some,
            ),
            result matches Some(arena) ==> arena.wf() && with_capacity_state(
                capacity as int,
                arena@,
            ),
    {
        let mut heap = Heap::new();
        proof {
            reveal(is_pow2);
        }
        let chunk = new_chunk(&mut heap, capacity, 1, None);
        RawArena::with_first_chunk(heap, chunk)
    }

    /// An arena whose one chunk is that of `heap`, if there is one: `chunk` holds the addresses
    /// of its footer and of its first byte.
    pub fn with_first_chunk(heap: Heap, chunk: Option<(usize, usize)>) -> (result: Option<RawArena>)
        requires
            heap.wf(),
            chunk matches Some((footer, start)) ==> {
                &&& heap@.dom() == set![footer]
                &&& heap@[footer].start == start
                &&& heap@[footer].previous is None
            },
        ensures
            match chunk {
                Some((footer, start)) => {
                    &&& result matches Some(arena)
                    &&& arena.wf()
                    &&& arena@ == ArenaView {
                        cursor: footer,
                        start,
                        current: Some(footer),
                        chain: seq![footer],
                        chunks: heap@,
                    }
                },
                None => result is None,
            },
    {
        match chunk {
            Some((chunk_ptr, start_ptr)) => {
                let arena = RawArena {
                    cursor_ptr: chunk_ptr,
                    current_chunk_ptr: Some(chunk_ptr),
                    start_ptr,
                    heap,
                    chain: Ghost(Seq::empty().push(chunk_ptr)),
                };
                proof {
                    arena.heap.lemma_wf();
                    let m = arena.heap@;
                    assert(m.contains_key(chunk_ptr));
                    assert(m[chunk_ptr].sound());
                    assert(seq![chunk_ptr].drop_last() =~= Seq::<usize>::empty());
                    assert(is_chain(m, None, Seq::<usize>::empty()));
                    assert(is_chain(m, Some(chunk_ptr), seq![chunk_ptr]));
                    assert(arena@.chain =~= seq![chunk_ptr]);
                    assert forall|q: usize| #[trigger] arena@.chain.contains(q) implies q
                        == chunk_ptr by {}
                }
                Some(arena)
            },
            None => None,
        }
    }

    /// Attempts to allocate `layout` in the current chunk, otherwise creates a new one large
    /// enough to fit requested size.
    ///
    /// Returns `None` if the global allocator failed to allocate enough capacity.
    pub fn try_alloc(&mut self, layout: Layout) -> (result: Option<usize>)
        requires
            old(self).wf(),
            is_pow2(layout.align as int),
        ensures
            final(self).wf(),
            old(self)@.allocated(layout, result, final(self)@),
            old(self)@.too_large(layout) ==> result is None,
    {
        match self.try_alloc_in(layout) {
            Some(ptr) => Some(ptr),
            None => self.try_alloc_with_new(layout),
        }
    }

    /// Attempts to allocate `layout` in the current chunk.
    ///
    /// Returns `None` if the chunk doesn't have enough space to fit aligned layout.
    pub fn try_alloc_in(&mut self, layout: Layout) -> (result: Option<usize>)
        requires
            old(self).wf(),
            is_pow2(layout.align as int),
        ensures
            final(self).wf(),
            if old(self)@.fits(layout) {
                &&& result == Some(old(self)@.position(layout) as usize)
                &&& final(self)@ == old(self)@.bumped(layout)
            } else {
                result is None && final(self)@ == old(self)@
            },
    {
        proof {
            reveal(is_pow2);
            lemma_align_down(self.cursor_ptr - layout.size, layout.align as int);
        }
        if layout.size > self.cursor_ptr {
            return None;
        }
        let ptr_aligned = align_down_with_provenance(self.cursor_ptr - layout.size, layout.align);
        // Check the pointer to be within current chunk.
        if ptr_aligned < self.start_ptr {
            return None;
        }
        proof {
            lemma_bumped_sound(self@, layout);
        }
        self.cursor_ptr = ptr_aligned;
        Some(ptr_aligned)
    }

    /// Attempts to allocate `layout` in a new chunk.
    ///
    /// Returns `None` in case of failed allocation or allocation larger than `isize::MAX`.
    pub fn try_alloc_with_new(&mut self, layout: Layout) -> (result: Option<usize>)
        requires
            old(self).wf(),
            is_pow2(layout.align as int),
        ensures
            final(self).wf(),
            chunk_layout_for(old(self)@.next_size(layout), layout.align as int) is None
                ==> result is None,
            match result {
                Some(ptr) => {
                    &&& old(self)@.extended(layout, final(self)@)
                    &&& ptr == final(self)@.cursor
                    &&& asked::<u8>(
                        memory_len(final(self)@.chunks[final(self)@.current->0].layout),
                        true,
                    )
                },
                None => final(self)@ == old(self)@ && old(self)@.refused(layout),
            },
    {
        let minimum_size: usize = if layout.size >= FIRST_CHUNK_SIZE_WITHOUT_OVERHEAD {
            layout.size
        } else {
            FIRST_CHUNK_SIZE_WITHOUT_OVERHEAD
        };
        let size: usize = match self.current_chunk_ptr {
            Some(ptr) => {
                proof {
                    assert(self.heap@.contains_key(ptr));
                    assert(self.heap@[ptr].sound());
                }
                let previous_chunk_size: usize = self.heap.layout_at(ptr).size - FOOTER_SIZE;
                if previous_chunk_size * 2 >= minimum_size {
                    previous_chunk_size * 2
                } else {
                    minimum_size
                }
            },
            None => minimum_size,
        };
        let chunk = new_chunk(&mut self.heap, size, layout.align, self.current_chunk_ptr);
        proof {
            if let Some((footer, _)) = chunk {
                assert(self@.without(footer).chunks =~= old(self)@.chunks);
                assert(self@.without(footer) =~= old(self)@);
            }
        }
        self.alloc_in_chunk(layout, chunk)
    }

    /// Allocates `layout` in a chunk that was created for it, if there is one, which becomes the
    /// current chunk: `chunk` holds the addresses of its footer and of its first byte.
    pub(crate) fn alloc_in_chunk(&mut self, layout: Layout, chunk: Option<(usize, usize)>) -> (
    result: Option<usize>)
        requires
            old(self).kept_well(),
            is_pow2(layout.align as int),
            match chunk {
                Some((footer, start)) => {
                    let before = old(self)@.without(footer);
                    &&& before.sound()
                    &&& chunk_added(
                        before.chunks,
                        old(self)@.chunks,
                        footer,
                        start,
                        before.next_size(layout),
                        layout.align as int,
                        before.current,
                    )
                },
                None => old(self)@.sound(),
            },
        ensures
            final(self).wf(),
            match chunk {
                Some((footer, start)) => {
                    &&& result == Some(final(self)@.cursor)
                    &&& old(self)@.without(footer).extended(layout, final(self)@)
                    &&& final(self)@.current == Some(footer)
                    &&& final(self)@.start == start
                },
                None => result is None && final(self)@ == old(self)@,
            },
    {
        match chunk {
            Some((chunk_ptr, start_ptr)) => {
                self.current_chunk_ptr = Some(chunk_ptr);
                self.cursor_ptr = chunk_ptr;
                self.start_ptr = start_ptr;
                self.chain = Ghost(self.chain@.push(chunk_ptr));
                proof {
                    self.heap.lemma_wf();
                    lemma_new_chunk_room(old(self)@.without(chunk_ptr), layout, self@);
                    lemma_bumped_sound(self@, layout);
                }
                self.try_alloc_in(layout)
            },
            None => None,
        }
    }

    /// Deallocates an allocation inside this arena associated with its `ptr` and `layout`.
    pub fn dealloc(&mut self, ptr: usize, layout: Layout)
        requires
            old(self).wf(),
            old(self)@.placed(ptr as int, layout.size as int),
        ensures
            final(self).wf(),
            final(self)@ == old(self)@.released(ptr, layout),
    {
        proof {
            lemma_released(self@, ptr, layout);
            if layout.size > 0 && ptr == self.cursor_ptr {
                lemma_last_block(self@, layout.size as int);
            }
        }
        if ptr == self.cursor_ptr {
            self.cursor_ptr = ptr + layout.size;
        }
    }

    /// Attempts to grow an allocation from `old_layout` to `new_layout`.
    pub fn grow(&mut self, ptr: usize, old_layout: Layout, new_layout: Layout) -> (result: Option<
        usize,
    >)
        requires
            old(self).wf(),
            is_pow2(old_layout.align as int),
            is_pow2(new_layout.align as int),
            old_layout.size <= new_layout.size,
            old(self)@.placed(ptr as int, old_layout.size as int),
        ensures
            final(self).wf(),
            old(self)@.grown(ptr, old_layout, new_layout, result, final(self)@),
    {
        let result = self.room_to_grow(ptr, old_layout, new_layout);
        let ghost mid = self@;
        if let Some(new_ptr) = result {
            self.copy(ptr, new_ptr, old_layout.size);
        }
        assert(old(self)@.room_for_growth(ptr, old_layout, new_layout, result, mid));
        result
    }

    /// Attempts to make room for growing an allocation from `old_layout` to `new_layout`.
    ///
    /// What the allocation holds is still to be moved to the returned address.
    pub fn room_to_grow(
        &mut self,
        ptr: usize,
        old_layout: Layout,
        new_layout: Layout,
    ) -> (result: Option<usize>)
        requires
            old(self).wf(),
            is_pow2(old_layout.align as int),
            is_pow2(new_layout.align as int),
            old_layout.size <= new_layout.size,
            old(self)@.placed(ptr as int, old_layout.size as int),
        ensures
            final(self).wf(),
            old(self)@.room_for_growth(ptr, old_layout, new_layout, result, final(self)@),
            result matches Some(new_ptr) ==> {
                &&& final(self)@.placed(ptr as int, old_layout.size as int)
                &&& final(self)@.placed(new_ptr as int, old_layout.size as int)
            },
    {
        let ghost before = self@;
        if old_layout.align >= new_layout.align && self.cursor_ptr == ptr {
            let more = Layout {
                size: new_layout.size - old_layout.size,
                align: old_layout.align,
            };
            if let Some(new_ptr) = self.try_alloc_in(more) {
                proof {
                    lemma_bumped_sound(before, more);
                    lemma_grown_block(before, old_layout.size as int, more, new_ptr, self@);
                }
                return Some(new_ptr);
            }
        }
        let result = self.try_alloc(new_layout);
        proof {
            if let Some(new_ptr) = result {
                lemma_allocated(before, new_layout, new_ptr, self@);
                lemma_placed_part(
                    self@,
                    new_ptr as int,
                    new_layout.size as int,
                    old_layout.size as int,
                );
            }
        }
        result
    }

    /// Attempts to shrink an allocation from `old_layout` to `new_layout`.
    pub fn shrink(&mut self, ptr: usize, old_layout: Layout, new_layout: Layout) -> (result: Option<
        usize,
    >)
        requires
            old(self).wf(),
            is_pow2(old_layout.align as int),
            is_pow2(new_layout.align as int),
            new_layout.size <= old_layout.size,
            old(self)@.placed(ptr as int, old_layout.size as int),
            ptr % old_layout.align == 0,
        ensures
            final(self).wf(),
            old(self)@.shrunk(ptr, old_layout, new_layout, result, final(self)@),
    {
        let result = self.room_to_shrink(ptr, old_layout, new_layout);
        let ghost mid = self@;
        if let Some(new_ptr) = result {
            if new_ptr != ptr {
                self.move_bytes(ptr, new_ptr, new_layout.size);
            }
        }
        assert(old(self)@.room_for_shrinking(ptr, old_layout, new_layout, result, mid));
        result
    }

    /// Attempts to make room for an allocation of `old_layout` shrunk to `new_layout`.
    ///
    /// What is left of what the allocation holds is still to be moved to the returned address.
    pub fn room_to_shrink(
        &mut self,
        ptr: usize,
        old_layout: Layout,
        new_layout: Layout,
    ) -> (result: Option<usize>)
        requires
            old(self).wf(),
            is_pow2(old_layout.align as int),
            is_pow2(new_layout.align as int),
            new_layout.size <= old_layout.size,
            old(self)@.placed(ptr as int, old_layout.size as int),
            ptr % old_layout.align == 0,
        ensures
            final(self).wf(),
            old(self)@.room_for_shrinking(ptr, old_layout, new_layout, result, final(self)@),
            result is Some && new_layout.size > 0 ==> {
                &&& holds(final(self)@.chunks, ptr as int, new_layout.size as int)
                &&& holds(final(self)@.chunks, result->0 as int, new_layout.size as int)
            },
    {
        let ghost before = self@;
        proof {
            lemma_placed_part(
                before,
                ptr as int,
                old_layout.size as int,
                new_layout.size as int,
            );
            if new_layout.size > 0 {
                lemma_placed_holds(before, ptr as int, new_layout.size as int);
            }
        }
        if old_layout.align < new_layout.align {
            if is_aligned_to_unchecked(ptr, new_layout.align) {
                return Some(ptr);
            }
            let result = self.try_alloc(new_layout);
            proof {
                if let Some(new_ptr) = result {
                    lemma_allocated(before, new_layout, new_ptr, self@);
                    if new_layout.size > 0 {
                        lemma_placed_holds(self@, ptr as int, new_layout.size as int);
                        lemma_placed_holds(self@, new_ptr as int, new_layout.size as int);
                    }
                }
            }
            return result;
        }
        let delta: usize = old_layout.size - new_layout.size;
        // Half of the bytes, rounded up.
        let half: usize = old_layout.size / 2 + old_layout.size % 2;
        if self.cursor_ptr == ptr && delta >= half {
            proof {
                reveal(is_pow2);
                if old_layout.size > 0 {
                    lemma_last_block(self@, old_layout.size as int);
                }
                lemma_coarser_multiple(
                    ptr as int,
                    old_layout.align as int,
                    new_layout.align as int,
                );
                lemma_align_down_floor(ptr + delta, ptr as int, new_layout.align as int);
                lemma_align_down(ptr + delta, new_layout.align as int);
            }
            let new_ptr = align_down_with_provenance(ptr + delta, new_layout.align);
            self.cursor_ptr = new_ptr;
            proof {
                if new_layout.size > 0 {
                    let p = before.current->0;
                    assert(in_chunk(self@.chunks, p, ptr as int, new_layout.size as int));
                    assert(in_chunk(self@.chunks, p, new_ptr as int, new_layout.size as int));
                }
            }
            return Some(new_ptr);
        }
        Some(ptr)
    }

    /// Moves the `len` bytes from `src` on to `dst`, both taken.
    fn copy(&mut self, src: usize, dst: usize, len: usize)
        requires
            old(self).wf(),
            old(self)@.placed(src as int, len as int),
            old(self)@.placed(dst as int, len as int),
        ensures
            final(self).wf(),
            old(self)@.moved(src, dst, len, final(self)@),
    {
        proof {
            if len > 0 {
                lemma_placed_holds(self@, src as int, len as int);
                lemma_placed_holds(self@, dst as int, len as int);
            }
        }
        self.move_bytes(src, dst, len);
    }

    /// Moves the `len` bytes from `src` on to `dst`, both in a chunk.
    fn move_bytes(&mut self, src: usize, dst: usize, len: usize)
        requires
            old(self).wf(),
            len > 0 ==> holds(old(self)@.chunks, src as int, len as int),
            len > 0 ==> holds(old(self)@.chunks, dst as int, len as int),
        ensures
            final(self).wf(),
            old(self)@.moved(src, dst, len, final(self)@),
    {
        let ghost before = self@;
        self.heap.copy(src, dst, len);
        proof {
            lemma_reshaped_sound(before, self@);
        }
    }

    /// Returns address of the footer of the current chunk, if it exists.
    pub fn get_chunk_ptr(&self) -> (ptr: Option<usize>)
        ensures
            ptr == self@.current,
    {
        self.current_chunk_ptr
    }

    /// Returns address of the last allocation.
    pub fn cursor(&self) -> (ptr: usize)
        ensures
            ptr == self@.cursor,
    {
        self.cursor_ptr
    }

    /// Resets all allocations of this arena, letting go all chunks except the current one,
    /// which is the largest.
    ///
    /// Reference counted allocations are valid until they are given back: what is taken of the
    /// current chunk is given out again only if nobody else holds the chunk.
    pub fn reset(&mut self)
        requires
            old(self).wf(),
        ensures
            final(self).wf(),
            final(self)@ == old(self)@.rewound(),
    {
        let current_chunk_ptr = match self.current_chunk_ptr {
            Some(ptr) => ptr,
            None => {
                return;
            },
        };
        let ghost before = self@;
        proof {
            lemma_rewound_sound(before);
            assert(self.heap@.contains_key(current_chunk_ptr));
        }
        if self.heap.refcount_of(current_chunk_ptr) == Some(0) {
            self.cursor_ptr = current_chunk_ptr;
        }
        let previous = self.heap.take_previous(current_chunk_ptr);
        dealloc_chunk_list(&mut self.heap, previous);
        self.chain = Ghost(Seq::empty().push(current_chunk_ptr));
    }

    /// Lets go all chunks of this arena. What others still hold is returned.
    pub fn into_left_over(self) -> (heap: Heap)
        requires
            self.wf(),
        ensures
            heap.wf(),
            heap@ == self@.left_over(),
            forall|p: usize| #[trigger]
                heap@.contains_key(p) <==> self@.chunks.contains_key(p) && (
                self@.chain.contains(p) ==> self@.chunks[p].refcount > 0),
            forall|p: usize|
                #![trigger heap@[p]]
                self@.chunks.contains_key(p) && !self@.chain.contains(p) ==> heap@[p]
                    == self@.chunks[p],
    {
        let mut heap = self.heap;
        dealloc_chunk_list(&mut heap, self.current_chunk_ptr);
        assert(heap@ == list_dropped(self@.chunks, self@.chain));
        heap
    }

    /// Adds a holder to the chunk with its footer at `ptr`.
    pub fn increment_refcount(&mut self, ptr: usize)
        requires
            old(self).wf(),
            old(self)@.chunks.contains_key(ptr),
        ensures
            final(self).wf(),
            old(self)@.keeps(final(self)@),
            final(self)@ == old(self)@.held(ptr),
    {
        let ghost before = self@;
        ChunkFooter::increment_refcount(&mut self.heap, ptr);
        proof {
            lemma_recounted_sound(before, ptr, self@);
        }
    }

    /// Takes a holder from the chunk with its footer at `ptr`, and the chunk itself where that
    /// was the last one.
    pub fn drop_from_ptr(&mut self, ptr: usize)
        requires
            old(self).wf(),
            old(self)@.holder_of(ptr),
        ensures
            final(self).wf(),
            final(self)@ == old(self)@.let_go(ptr),
    {
        let ghost before = self@;
        let _ = ChunkFooter::drop_from_ptr(&mut self.heap, ptr);
        proof {
            lemma_recounted_sound(before, ptr, self@);
        }
    }

    /// What the byte at `ptr` holds.
    pub fn read(&self, ptr: usize) -> (value: u8)
        requires
            self.wf(),
            self@.placed(ptr as int, 1),
        ensures
            value == byte(self@.chunks, ptr as int),
    {
        proof {
            lemma_placed_holds(self@, ptr as int, 1);
        }
        self.heap.read(ptr)
    }

    /// Writes `value` to the byte at `ptr`.
    pub fn write(&mut self, ptr: usize, value: u8)
        requires
            old(self).wf(),
            old(self)@.placed(ptr as int, 1),
        ensures
            final(self).wf(),
            final(self)@ == (ArenaView { chunks: final(self)@.chunks, ..old(self)@ }),
            written(old(self)@.chunks, final(self)@.chunks, ptr as int, value),
    {
        let ghost before = self@;
        proof {
            lemma_placed_holds(self@, ptr as int, 1);
        }
        self.heap.write(ptr, value);
        proof {
            lemma_reshaped_sound(before, self@);
        }
    }

    /// How many holders the chunk with its footer at `ptr` has besides this arena, if there is
    /// such a chunk.
    pub fn refcount_of(&self, ptr: usize) -> (refcount: Option<usize>)
        requires
            self.wf(),
        ensures
            refcount == if self@.chunks.contains_key(ptr) {
                Some(self@.chunks[ptr].refcount)
            } else {
                None
            },
    {
        self.heap.refcount_of(ptr)
    }

    /// How many chunks are in use.
    pub fn count(&self) -> (count: usize)
        requires
            self.wf(),
        ensures
            count == self@.chunks.len(),
    {
        self.heap.count()
    }

    /// Total size of the chunks of this arena.
    pub fn size(&self) -> (size: usize)
        requires
            self.wf(),
        ensures
            size == total_size(self@.chunks, self@.chain),
    {
        let ghost m = self.heap@;
        let ghost whole = self.chain@;
        let ghost mut rest = whole;
        let mut size: usize = 0;
        let mut current: Option<usize> = self.current_chunk_ptr;
        proof {
            lemma_chain_distinct(m, current, whole);
            assert forall|i: int| 0 <= i < whole.len() implies m.contains_key(
                #[trigger] whole[i],
            ) by {
                lemma_chain_prefix(m, self.current_chunk_ptr, whole, i);
            }
            lemma_total_bound(m, whole);
        }
        while current.is_some()
            invariant
                self.wf(),
                m == self.heap@,
                is_chain(m, current, rest),
                0 <= total_size(m, rest),
                size + total_size(m, rest) == total_size(m, whole),
                total_size(m, whole) <= usize::MAX,
            decreases rest.len(),
        {
            let ptr = current.unwrap();
            proof {
                lemma_total_nonnegative(m, rest.drop_last());
            }
            size = size + self.heap.layout_at(ptr).size;
            current = self.heap.previous_of(ptr);
            proof {
                rest = rest.drop_last();
            }
        }
        size
    }
}

/// `v` is the state of an arena that began with one chunk for `capacity` bytes.
pub open spec fn with_capacity_state(capacity: int, v: ArenaView) -> bool {
    &&& v.current matches Some(footer)
    &&& chunk_added(Map::empty(), v.chunks, footer, v.start, capacity, 1, None)
    &&& v.chain == seq![footer]
    &&& v.cursor == footer
}

/// Sizes together are not negative.
pub proof fn lemma_total_nonnegative(m: Map<usize, ChunkView>, list: Seq<usize>)
    ensures
        0 <= total_size(m, list),
    decreases list.len(),
{
    if list.len() > 0 {
        lemma_total_nonnegative(m, list.drop_last());
    }
}

/// A part of taken bytes is taken.
pub proof fn lemma_placed_part(v: ArenaView, ptr: int, size: int, part: int)
    requires
        v.placed(ptr, size),
        part <= size,
    ensures
        v.placed(ptr, part),
{
    if part > 0 {
        let p = choose|p: usize| #[trigger] v.placed_in(p, ptr, size);
        assert(v.placed_in(p, ptr, part));
    }
}

/// A new chunk has room for the block it was made for.
proof fn lemma_new_chunk_room(v: ArenaView, layout: Layout, mid: ArenaView)
    requires
        v.sound(),
        is_pow2(layout.align as int),
        mid.current is Some,
        chunk_added(
            v.chunks,
            mid.chunks,
            mid.current->0,
            mid.start,
            v.next_size(layout),
            layout.align as int,
            v.current,
        ),
        mid.chain == v.chain.push(mid.current->0),
        mid.cursor == mid.current->0,
        sound_chunks(mid.chunks),
    ensures
        mid.sound(),
        mid.fits(layout),
{
    let footer = mid.current->0;
    assert(mid.chunks.contains_key(footer));
    assert(mid.chunks[footer].footer() == footer);
    assert(mid.chunks[footer].sound());
    lemma_chunk_layout(v.next_size(layout), layout.align as int);
    let whole = chunk_layout_for(v.next_size(layout), layout.align as int)->0;
    lemma_coarser_multiple(mid.start as int, whole.align as int, layout.align as int);
    reveal(is_pow2);
    lemma_align_down_floor(footer - layout.size, mid.start as int, layout.align as int);
    lemma_align_down(footer - layout.size, layout.align as int);
    let full = ArenaView {
        cursor: align_down(footer - layout.size, layout.align as int) as usize,
        ..mid
    };
    lemma_extended_sound(v, layout, full);
}

/// The last block and the bytes put before it make up one block.
pub proof fn lemma_grown_block(
    v: ArenaView,
    size: int,
    more: Layout,
    new_ptr: usize,
    new: ArenaView,
)
    requires
        v.sound(),
        new.sound(),
        is_pow2(more.align as int),
        v.fits(more),
        new == v.bumped(more),
        new_ptr == v.position(more),
        0 <= size,
        v.placed(v.cursor as int, size),
    ensures
        new.placed(new_ptr as int, size + more.size),
        new.placed(new_ptr as int, size),
        new.placed(v.cursor as int, size),
{
    lemma_bumped_sound(v, more);
    if size > 0 {
        lemma_last_block(v, size);
    }
    if size + more.size > 0 {
        assert(v.current is Some);
        let p = v.current->0;
        assert(v.chain[v.chain.len() - 1] == p);
        assert(v.chain.contains(p));
        assert(v.chunks.contains_key(p));
        assert(new.placed_in(p, new_ptr as int, size + more.size));
        lemma_placed_part(new, new_ptr as int, size + more.size, size);
        if size > 0 {
            assert(new.placed_in(p, v.cursor as int, size));
        }
    }
}

/// Bytes have none in common where there is no address that belongs to both.
pub proof fn lemma_disjoint(a: int, m: int, b: int, n: int)
    requires
        0 <= m,
        0 <= n,
    ensures
        disjoint(a, m, b, n) <==> forall|i: int| !(a <= i < a + m && #[trigger] within(b, n, i)),
{
    if !disjoint(a, m, b, n) {
        let i = if a >= b {
            a
        } else {
            b
        };
        assert(within(b, n, i));
    }
}

/// The address `i` is that of one of the `n` bytes from `b` on.
pub open spec fn within(b: int, n: int, i: int) -> bool {
    b <= i < b + n
}

} // verus!

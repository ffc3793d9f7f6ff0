//! The blocks of an arena that are in use, through any sequence of calls.
use crate::heap::{byte, in_chunk, lemma_byte};
use crate::laws::{lemma_allocated_bytes, lemma_grown, lemma_shrunk, same_bytes};
use crate::layout::Layout;
use crate::raw::{disjoint, lemma_allocated, lemma_recounted_sound, lemma_released, ArenaView};
use vstd::arithmetic::power2::is_pow2;
use vstd::prelude::*;

verus! {

/// A block in use: where it is, and what it was asked for with.
pub struct Block {
    pub ptr: usize,
    pub layout: Layout,
}

impl Block {
    /// The block is aligned, and its bytes are taken.
    pub open spec fn good(self, v: ArenaView) -> bool {
        &&& is_pow2(self.layout.align as int)
        &&& self.ptr % self.layout.align == 0
        &&& v.placed(self.ptr as int, self.layout.size as int)
    }

    /// The two blocks have no byte in common.
    pub open spec fn apart_from(self, other: Block) -> bool {
        disjoint(
            self.ptr as int,
            self.layout.size as int,
            other.ptr as int,
            other.layout.size as int,
        )
    }

    /// The block holds in `new` what it held in `v`.
    pub open spec fn unchanged(self, v: ArenaView, new: ArenaView) -> bool {
        same_bytes(
            v.chunks,
            self.ptr as int,
            new.chunks,
            self.ptr as int,
            self.layout.size as int,
        )
    }
}

/// The blocks are in use together: each is aligned and its bytes are taken, and no two have a
/// byte in common.
pub open spec fn live(v: ArenaView, blocks: Seq<Block>) -> bool {
    &&& forall|i: int| 0 <= i < blocks.len() ==> (#[trigger] blocks[i]).good(v)
    &&& forall|i: int, j: int|
        0 <= i < blocks.len() && 0 <= j < blocks.len() && i != j ==> (#[trigger] blocks[i])
            .apart_from(#[trigger] blocks[j])
}

/// To begin with, no block is in use.
pub proof fn lemma_live_none(v: ArenaView)
    ensures
        live(v, Seq::empty()),
{
}

/// A block that was granted is in use besides those that were, which hold what they held.
pub proof fn lemma_live_allocated(
    v: ArenaView,
    blocks: Seq<Block>,
    layout: Layout,
    ptr: usize,
    new: ArenaView,
)
    requires
        v.sound(),
        new.sound(),
        live(v, blocks),
        is_pow2(layout.align as int),
        v.allocated(layout, Some(ptr), new),
    ensures
        live(new, blocks.push(Block { ptr, layout })),
        forall|i: int| 0 <= i < blocks.len() ==> (#[trigger] blocks[i]).unchanged(v, new),
{
    lemma_allocated(v, layout, ptr, new);
    lemma_allocated_bytes(v, layout, ptr, new);
    let more = blocks.push(Block { ptr, layout });
    assert forall|i: int| 0 <= i < more.len() implies (#[trigger] more[i]).good(new) by {
        if i < blocks.len() {
            assert(blocks[i].good(v));
        }
    }
    assert forall|i: int| 0 <= i < blocks.len() implies (#[trigger] blocks[i]).unchanged(v, new) by {
        assert(blocks[i].good(v));
    }
    assert forall|i: int, j: int|
        0 <= i < more.len() && 0 <= j < more.len() && i != j implies (#[trigger] more[i]).apart_from(
        #[trigger] more[j],
    ) by {
        if i < blocks.len() {
            assert(blocks[i].good(v));
        }
        if j < blocks.len() {
            assert(blocks[j].good(v));
        }
        if i < blocks.len() && j < blocks.len() {
            assert(blocks[i].apart_from(blocks[j]));
        }
    }
}

/// After one block was given back the others are still in use, and hold what they held.
pub proof fn lemma_live_released(v: ArenaView, blocks: Seq<Block>, i: int)
    requires
        v.sound(),
        live(v, blocks),
        0 <= i < blocks.len(),
    ensures
        v.released(blocks[i].ptr, blocks[i].layout).sound(),
        live(v.released(blocks[i].ptr, blocks[i].layout), blocks.remove(i)),
        v.released(blocks[i].ptr, blocks[i].layout).chunks == v.chunks,
{
    let gone = blocks[i];
    let rest = blocks.remove(i);
    let new = v.released(gone.ptr, gone.layout);
    assert(gone.good(v));
    lemma_released(v, gone.ptr, gone.layout);
    let back = |j: int| if j < i { j } else { j + 1 };
    assert forall|j: int| 0 <= j < rest.len() implies (#[trigger] rest[j]).good(new) by {
        assert(rest[j] == blocks[back(j)]);
        assert(blocks[back(j)].good(v));
        assert(blocks[back(j)].apart_from(blocks[i]));
    }
    assert forall|j: int, k: int|
        0 <= j < rest.len() && 0 <= k < rest.len() && j != k implies (#[trigger] rest[j]).apart_from(
        #[trigger] rest[k],
    ) by {
        assert(blocks[back(j)].apart_from(blocks[back(k)]));
    }
}

/// After one block was moved to `to` with the layout `layout`, apart from the others that stayed,
/// all are in use.
proof fn lemma_live_replaced(
    v: ArenaView,
    blocks: Seq<Block>,
    i: int,
    moved: Block,
    new: ArenaView,
)
    requires
        live(v, blocks),
        0 <= i < blocks.len(),
        moved.good(new),
        forall|a: int, n: int| #[trigger]
            v.placed(a, n) && disjoint(
                a,
                n,
                blocks[i].ptr as int,
                blocks[i].layout.size as int,
            ) ==> {
                &&& new.placed(a, n)
                &&& disjoint(a, n, moved.ptr as int, moved.layout.size as int)
                &&& same_bytes(v.chunks, a, new.chunks, a, n)
            },
    ensures
        live(new, blocks.update(i, moved)),
        forall|j: int|
            0 <= j < blocks.len() && j != i ==> (#[trigger] blocks[j]).unchanged(v, new),
{
    let all = blocks.update(i, moved);
    assert forall|j: int| 0 <= j < blocks.len() && j != i implies (#[trigger] blocks[j]).unchanged(
        v,
        new,
    ) && blocks[j].good(new) && blocks[j].apart_from(moved) by {
        assert(blocks[j].good(v));
        assert(blocks[j].apart_from(blocks[i]));
    }
    assert forall|j: int| 0 <= j < all.len() implies (#[trigger] all[j]).good(new) by {
        if j != i {
            assert(all[j] == blocks[j]);
        }
    }
    assert forall|j: int, k: int|
        0 <= j < all.len() && 0 <= k < all.len() && j != k implies (#[trigger] all[j]).apart_from(
        #[trigger] all[k],
    ) by {
        if j != i && k != i {
            assert(blocks[j].apart_from(blocks[k]));
        } else if j == i {
            assert(all[k] == blocks[k]);
            assert(blocks[k].apart_from(moved));
        } else {
            assert(all[j] == blocks[j]);
            assert(blocks[j].apart_from(moved));
        }
    }
}

/// After one block was grown all are in use, and the others hold what they held.
pub proof fn lemma_live_grown(
    v: ArenaView,
    blocks: Seq<Block>,
    i: int,
    layout: Layout,
    to: usize,
    new: ArenaView,
)
    requires
        v.sound(),
        new.sound(),
        live(v, blocks),
        0 <= i < blocks.len(),
        is_pow2(layout.align as int),
        blocks[i].layout.size <= layout.size,
        v.grown(blocks[i].ptr, blocks[i].layout, layout, Some(to), new),
    ensures
        live(new, blocks.update(i, Block { ptr: to, layout })),
        forall|j: int|
            0 <= j < blocks.len() && j != i ==> (#[trigger] blocks[j]).unchanged(v, new),
{
    assert(blocks[i].good(v));
    lemma_grown(v, blocks[i].ptr, blocks[i].layout, layout, to, new);
    lemma_live_replaced(v, blocks, i, Block { ptr: to, layout }, new);
}

/// After one block was shrunk all are in use, and the others hold what they held.
pub proof fn lemma_live_shrunk(
    v: ArenaView,
    blocks: Seq<Block>,
    i: int,
    layout: Layout,
    to: usize,
    new: ArenaView,
)
    requires
        v.sound(),
        new.sound(),
        live(v, blocks),
        0 <= i < blocks.len(),
        is_pow2(layout.align as int),
        layout.size <= blocks[i].layout.size,
        v.shrunk(blocks[i].ptr, blocks[i].layout, layout, Some(to), new),
    ensures
        live(new, blocks.update(i, Block { ptr: to, layout })),
        forall|j: int|
            0 <= j < blocks.len() && j != i ==> (#[trigger] blocks[j]).unchanged(v, new),
{
    assert(blocks[i].good(v));
    lemma_shrunk(v, blocks[i].ptr, blocks[i].layout, layout, to, new);
    lemma_live_replaced(v, blocks, i, Block { ptr: to, layout }, new);
}

/// A holder of a chunk more or less leaves the blocks in use, with what they hold.
pub proof fn lemma_live_recounted(v: ArenaView, blocks: Seq<Block>, p: usize, new: ArenaView)
    requires
        v.sound(),
        live(v, blocks),
        v.chunks.contains_key(p),
        new == v.held(p) || (new == v.let_go(p) && v.holder_of(p)),
    ensures
        new.sound(),
        live(new, blocks),
        forall|i: int| 0 <= i < blocks.len() ==> (#[trigger] blocks[i]).unchanged(v, new),
{
    lemma_recounted_sound(v, p, new);
    assert forall|i: int| 0 <= i < blocks.len() implies (#[trigger] blocks[i]).good(new) by {
        assert(blocks[i].good(v));
    }
    assert forall|i: int| 0 <= i < blocks.len() implies (#[trigger] blocks[i]).unchanged(v, new) by {
        assert(blocks[i].good(v));
        let a = blocks[i].ptr as int;
        let n = blocks[i].layout.size as int;
        assert forall|k: int| 0 <= k < n implies #[trigger] byte(new.chunks, a + k) == byte(
            v.chunks,
            a + k,
        ) by {
            let q = choose|q: usize| #[trigger] v.placed_in(q, a, n);
            assert(in_chunk(v.chunks, q, a + k, 1));
            assert(in_chunk(new.chunks, q, a + k, 1));
            lemma_byte(v.chunks, q, a + k);
            lemma_byte(new.chunks, q, a + k);
        }
    }
}

} // verus!

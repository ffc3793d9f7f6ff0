//! Chunks of memory and the footers that describe them.
use crate::align::{align_to_checked, align_up, larger};
use crate::layout::{is_layout, Layout};
use vstd::arithmetic::power2::is_pow2;
use vstd::prelude::*;

verus! {

/// Alignment of an arena's chunks.
pub const CHUNK_ALIGNMENT: usize = 16;

/// Typical overhead of underlying allocators.
pub const MALLOC_OVERHEAD: usize = 16;

/// Typical page size.
pub const PAGE_SIZE: usize = 4096;

/// Size of the part at the end of a chunk that its footer takes, in bytes: five words, rounded up
/// to the alignment of chunks.
pub const FOOTER_SIZE: usize = (5 * (usize::BITS as usize / 8) + 15) / 16 * 16;

/// Overhead of a chunk allocation, in bytes.
pub const OVERHEAD: usize = MALLOC_OVERHEAD + FOOTER_SIZE;

/// Minimum size of a first chunk.
pub const FIRST_CHUNK_SIZE: usize = 512;

/// Minimum size of usable space of a first chunk.
pub const FIRST_CHUNK_SIZE_WITHOUT_OVERHEAD: usize = FIRST_CHUNK_SIZE - OVERHEAD;

/// The first power of two from `p` on, doubling, that is at least `n`.
pub open spec fn doubled_to(p: int, n: int) -> int
    decreases larger(n - p, 0),
{
    if p <= 0 || p >= n {
        p
    } else {
        doubled_to(2 * p, n)
    }
}

/// The least power of two that is at least `n`.
pub open spec fn least_power_of_two(n: int) -> int {
    doubled_to(1, n)
}

/// The layout of a chunk that can hold `size` bytes aligned to `align`, its footer included.
/// Up to a page the chunk with its overhead is a power of two, above that a number of pages.
pub open spec fn chunk_layout_for(size: int, align: int) -> Option<Layout> {
    let align = larger(align, CHUNK_ALIGNMENT as int);
    let fitted = align_up(size, align);
    let whole = if fitted > PAGE_SIZE {
        align_up(fitted + OVERHEAD, PAGE_SIZE as int)
    } else {
        least_power_of_two(fitted + OVERHEAD)
    };
    let total = whole - OVERHEAD + FOOTER_SIZE;
    if size + align - 1 <= usize::MAX && fitted <= isize::MAX - 1 - OVERHEAD && is_layout(
        total,
        align,
    ) {
        Some(Layout { size: total as usize, align: align as usize })
    } else {
        None
    }
}

/// Doubling stops at the least power of two that is large enough.
proof fn lemma_doubled_to(p: int, n: int)
    requires
        is_pow2(p),
        p == 1 || p / 2 < n,
    ensures
        is_pow2(doubled_to(p, n)),
        n <= doubled_to(p, n),
        p <= doubled_to(p, n),
        doubled_to(p, n) == 1 || doubled_to(p, n) / 2 < n,
        forall|q: int| #[trigger] is_pow2(q) && n <= q ==> doubled_to(p, n) <= q,
    decreases larger(n - p, 0),
{
    reveal(is_pow2);
    if p < n {
        assert(is_pow2(2 * p));
        lemma_doubled_to(2 * p, n);
    } else {
        assert forall|q: int| #[trigger] is_pow2(q) && n <= q implies p <= q by {
            if q < p {
                crate::align::lemma_half_at_least(p, q);
            }
        }
    }
}

/// [`least_power_of_two`] is what its name says.
pub proof fn lemma_least_power_of_two(n: int)
    ensures
        is_pow2(least_power_of_two(n)),
        n <= least_power_of_two(n),
        n >= 1 ==> least_power_of_two(n) < 2 * n,
        forall|q: int| #[trigger] is_pow2(q) && n <= q ==> least_power_of_two(n) <= q,
{
    reveal(is_pow2);
    lemma_doubled_to(1, n);
}

/// The least power of two that is at least `n`.
pub fn next_power_of_two(n: usize) -> (result: usize)
    requires
        2 * n <= usize::MAX,
    ensures
        result == least_power_of_two(n as int),
{
    proof {
        lemma_least_power_of_two(n as int);
        reveal(is_pow2);
    }
    let mut p: usize = 1;
    while p < n
        invariant
            2 * n <= usize::MAX,
            1 <= p,
            p == 1 || p / 2 < n,
            doubled_to(1, n as int) == doubled_to(p as int, n as int),
        decreases 2 * n - p,
    {
        p = p * 2;
    }
    p
}

/// A chunk that is granted has room for what was asked, is aligned as asked, and is cut at
/// multiples of the chunk alignment.
pub proof fn lemma_chunk_layout(size: int, align: int)
    requires
        is_pow2(align),
        0 <= size,
    ensures
        chunk_layout_for(size, align) matches Some(layout) ==> {
            &&& layout.valid()
            &&& layout.align >= align
            &&& layout.align >= CHUNK_ALIGNMENT
            &&& layout.size >= FOOTER_SIZE
            &&& layout.size - FOOTER_SIZE >= size
            &&& (layout.size - FOOTER_SIZE) % CHUNK_ALIGNMENT as int == 0
            &&& layout.size <= isize::MAX
        },
{
    reveal(is_pow2);
    let wide = larger(align, CHUNK_ALIGNMENT as int);
    assert(is_pow2(16)) by {
        reveal_with_fuel(is_pow2, 6);
    }
    crate::align::lemma_align_up(size, wide);
    let fitted = align_up(size, wide);
    if fitted > PAGE_SIZE {
        crate::align::lemma_align_up(fitted + OVERHEAD, PAGE_SIZE as int);
        let whole = align_up(fitted + OVERHEAD, PAGE_SIZE as int);
        assert(whole % 16 == 0);
    } else {
        lemma_least_power_of_two(fitted + OVERHEAD);
        let whole = least_power_of_two(fitted + OVERHEAD);
        vstd::arithmetic::div_mod::lemma_mod_self_0(whole);
        crate::align::lemma_coarser_multiple(whole, whole, 16);
    }
}

/// Decides the layout of a chunk capable of storing at least `size` bytes aligned to `align`.
///
/// Returns `None` where such a chunk, with its footer, would be larger than any layout.
pub fn chunk_layout(size: usize, align: usize) -> (result: Option<Layout>)
    requires
        is_pow2(align as int),
    ensures
        result == chunk_layout_for(size as int, align as int),
{
    let wide: usize = if align >= CHUNK_ALIGNMENT {
        align
    } else {
        CHUNK_ALIGNMENT
    };
    proof {
        reveal(is_pow2);
        assert(is_pow2(16)) by {
            reveal_with_fuel(is_pow2, 6);
        }
        assert(is_pow2(4096)) by {
            reveal_with_fuel(is_pow2, 14);
        }
        crate::align::lemma_align_up(size as int, wide as int);
    }
    let fitted: usize = match align_to_checked(size, wide) {
        Some(fitted) => fitted,
        None => {
            return None;
        },
    };
    // For smaller allocations, use next closest power of two, otherwise round up to page size.
    let whole: usize = if fitted > PAGE_SIZE {
        if fitted > isize::MAX as usize - 1 - OVERHEAD {
            return None;
        }
        proof {
            crate::align::lemma_align_up(fitted + OVERHEAD, PAGE_SIZE as int);
        }
        match align_to_checked(fitted + OVERHEAD, PAGE_SIZE) {
            Some(whole) => whole,
            None => {
                return None;
            },
        }
    } else {
        proof {
            lemma_least_power_of_two(fitted + OVERHEAD);
        }
        next_power_of_two(fitted + OVERHEAD)
    };
    let chunk_size: usize = whole - OVERHEAD;
    match Layout::from_size_align(chunk_size + FOOTER_SIZE, wide) {
        Ok(layout) => Some(layout),
        Err(_) => None,
    }
}

} // verus!

//! The chunks that an arena has from the global allocator, found by the addresses of their
//! footers.
use crate::align::{align_up, align_to_unchecked, lemma_align_up};
use crate::chunk::{
    chunk_layout, chunk_layout_for, lemma_chunk_layout, CHUNK_ALIGNMENT, FOOTER_SIZE,
};
use crate::layout::Layout;
use std::collections::TryReserveError;
use vstd::arithmetic::power2::is_pow2;
use vstd::prelude::*;
use vstd::set_lib::{lemma_int_range, lemma_len_subset, lemma_set_disjoint_lens, set_int_range};

verus! {

/// What is known of one chunk.
#[verifier::ext_equal]
pub struct ChunkView {
    /// How many holders the chunk has besides the arena that asked for it.
    pub refcount: usize,
    /// Address of the footer of the chunk before this one.
    pub previous: Option<usize>,
    /// Address of the first byte.
    pub start: usize,
    /// Layout of the whole chunk, its footer included.
    pub layout: Layout,
    /// What the usable bytes hold.
    pub bytes: Seq<u8>,
}

impl ChunkView {
    /// Address of the footer, where the usable part ends.
    pub open spec fn footer(self) -> int {
        self.start + self.layout.size - FOOTER_SIZE
    }

    /// Address after the last byte.
    pub open spec fn end(self) -> int {
        self.start + self.layout.size
    }

    /// The chunk lies in the address space, aligned as its layout says, and ends in its footer.
    pub open spec fn sound(self) -> bool {
        &&& 0 < self.start
        &&& self.end() <= usize::MAX
        &&& self.layout.valid()
        &&& self.layout.align >= CHUNK_ALIGNMENT
        &&& self.layout.size >= FOOTER_SIZE
        &&& self.start as int % self.layout.align as int == 0
        &&& self.footer() % CHUNK_ALIGNMENT as int == 0
        &&& self.bytes.len() == self.layout.size - FOOTER_SIZE
    }
}

/// Two chunks share no byte.
pub open spec fn apart(a: ChunkView, b: ChunkView) -> bool {
    a.end() <= b.start || b.end() <= a.start
}

/// Every chunk is sound and is found by the address of its footer, and no two share a byte.
pub open spec fn sound_chunks(m: Map<usize, ChunkView>) -> bool {
    &&& forall|p: usize| #[trigger] m.contains_key(p) ==> m[p].sound() && m[p].footer() == p
    &&& forall|p: usize, q: usize|
        #![trigger m[p], m[q]]
        m.contains_key(p) && m.contains_key(q) && p != q ==> apart(m[p], m[q])
}

/// A chunk as it is right after it was obtained.
pub open spec fn fresh_chunk(start: usize, layout: Layout, previous: Option<usize>) -> ChunkView {
    ChunkView {
        refcount: 0,
        previous,
        start,
        layout,
        bytes: Seq::new((layout.size - FOOTER_SIZE) as nat, |i: int| 0u8),
    }
}

/// The `n` bytes from `a` on lie in the usable part of the chunk with its footer at `p`.
pub open spec fn in_chunk(m: Map<usize, ChunkView>, p: usize, a: int, n: int) -> bool {
    &&& m.contains_key(p)
    &&& m[p].start <= a
    &&& a + n <= p
}

/// The `n` bytes from `a` on lie in the usable part of one chunk.
pub open spec fn holds(m: Map<usize, ChunkView>, a: int, n: int) -> bool {
    exists|p: usize| in_chunk(m, p, a, n)
}

/// What the byte at `a` holds.
pub open spec fn byte(m: Map<usize, ChunkView>, a: int) -> u8 {
    let p = choose|p: usize| in_chunk(m, p, a, 1);
    m[p].bytes[a - m[p].start]
}

/// Nothing but what the bytes hold differs.
pub open spec fn same_shape(m: Map<usize, ChunkView>, n: Map<usize, ChunkView>) -> bool {
    &&& m.dom() == n.dom()
    &&& forall|p: usize|
        #![trigger m[p]]
        #![trigger n[p]]
        m.contains_key(p) ==> n[p] == (ChunkView { bytes: n[p].bytes, ..m[p] }) && n[p].bytes.len()
            == m[p].bytes.len()
}

/// `n` is `m` after the `len` bytes from `src` on were moved to `dst`.
pub open spec fn copied(
    m: Map<usize, ChunkView>,
    n: Map<usize, ChunkView>,
    src: int,
    dst: int,
    len: int,
) -> bool {
    &&& same_shape(m, n)
    &&& forall|a: int| #[trigger]
        holds(m, a, 1) ==> byte(n, a) == if dst <= a < dst + len {
            byte(m, src + (a - dst))
        } else {
            byte(m, a)
        }
}

/// One holder of the chunk with its footer at `p` less: with no holder but one, the chunk is
/// gone.
pub open spec fn one_dropped(m: Map<usize, ChunkView>, p: usize) -> Map<usize, ChunkView> {
    if m[p].refcount == 0 {
        m.remove(p)
    } else {
        m.insert(p, ChunkView { refcount: (m[p].refcount - 1) as usize, ..m[p] })
    }
}

/// One holder of each chunk in `list` less, and none of them linked any more.
pub open spec fn list_dropped(m: Map<usize, ChunkView>, list: Seq<usize>) -> Map<usize, ChunkView> {
    Map::new(
        |p: usize| m.contains_key(p) && (list.contains(p) ==> m[p].refcount > 0),
        |p: usize|
            if list.contains(p) {
                ChunkView { refcount: (m[p].refcount - 1) as usize, previous: None, ..m[p] }
            } else {
                m[p]
            },
    )
}

/// `list` are the footers met from `last` on by going from each chunk to the one before it,
/// the first of them last.
pub open spec fn is_chain(m: Map<usize, ChunkView>, last: Option<usize>, list: Seq<usize>) -> bool
    decreases list.len(),
{
    match last {
        None => list.len() == 0,
        Some(p) => {
            &&& list.len() > 0
            &&& list.last() == p
            &&& m.contains_key(p)
            &&& is_chain(m, m[p].previous, list.drop_last())
        },
    }
}

/// The sizes of the chunks in `list` together.
pub open spec fn total_size(m: Map<usize, ChunkView>, list: Seq<usize>) -> int
    decreases list.len(),
{
    if list.len() == 0 {
        0
    } else {
        total_size(m, list.drop_last()) + m[list.last()].layout.size
    }
}

/// Following the links from one chunk gives one list only.
pub proof fn lemma_chain_unique(
    m: Map<usize, ChunkView>,
    last: Option<usize>,
    a: Seq<usize>,
    b: Seq<usize>,
)
    requires
        is_chain(m, last, a),
        is_chain(m, last, b),
    ensures
        a == b,
    decreases a.len(),
{
    if let Some(p) = last {
        lemma_chain_unique(m, m[p].previous, a.drop_last(), b.drop_last());
        assert(a == a.drop_last().push(p));
        assert(b == b.drop_last().push(p));
    } else {
        assert(a == b);
    }
}

/// Every footer in a chain is that of a chunk, and what comes before it is its own chain.
pub proof fn lemma_chain_prefix(
    m: Map<usize, ChunkView>,
    last: Option<usize>,
    list: Seq<usize>,
    i: int,
)
    requires
        is_chain(m, last, list),
        0 <= i < list.len(),
    ensures
        m.contains_key(list[i]),
        is_chain(m, Some(list[i]), list.take(i + 1)),
    decreases list.len(),
{
    if i < list.len() - 1 {
        lemma_chain_prefix(m, m[list.last()].previous, list.drop_last(), i);
        assert(list.drop_last().take(i + 1) == list.take(i + 1));
    } else {
        assert(list.take(i + 1) == list);
    }
}

/// No footer occurs twice in a chain.
pub proof fn lemma_chain_distinct(m: Map<usize, ChunkView>, last: Option<usize>, list: Seq<usize>)
    requires
        is_chain(m, last, list),
    ensures
        list.no_duplicates(),
{
    assert forall|i: int, j: int| 0 <= i < j < list.len() implies list[i] != list[j] by {
        if list[i] == list[j] {
            lemma_chain_prefix(m, last, list, i);
            lemma_chain_prefix(m, last, list, j);
            lemma_chain_unique(m, Some(list[i]), list.take(i + 1), list.take(j + 1));
            assert(list.take(i + 1).len() == list.take(j + 1).len());
        }
    }
}

/// A chain stays one while its own chunks stay and keep their links.
pub proof fn lemma_chain_frame(
    m: Map<usize, ChunkView>,
    n: Map<usize, ChunkView>,
    last: Option<usize>,
    list: Seq<usize>,
)
    requires
        is_chain(m, last, list),
        forall|p: usize| #[trigger]
            list.contains(p) ==> n.contains_key(p) && n[p].previous == m[p].previous,
    ensures
        is_chain(n, last, list),
    decreases list.len(),
{
    if let Some(p) = last {
        assert(list[list.len() - 1] == p);
        assert(list.contains(p));
        assert forall|q: usize| #[trigger] list.drop_last().contains(q) implies n.contains_key(q)
            && n[q].previous == m[q].previous by {
            let i = choose|i: int| 0 <= i < list.drop_last().len() && list.drop_last()[i] == q;
            assert(list[i] == q);
            assert(list.contains(q));
        }
        lemma_chain_frame(m, n, m[p].previous, list.drop_last());
    }
}

/// The addresses of the listed chunks.
spec fn covered(m: Map<usize, ChunkView>, list: Seq<usize>) -> Set<int>
    decreases list.len(),
{
    if list.len() == 0 {
        Set::empty()
    } else {
        let last = m[list.last()];
        covered(m, list.drop_last()) + set_int_range(last.start as int, last.end())
    }
}

/// Listed chunks cover as many addresses as their sizes say.
proof fn lemma_covered(m: Map<usize, ChunkView>, list: Seq<usize>)
    requires
        sound_chunks(m),
        list.no_duplicates(),
        forall|i: int| 0 <= i < list.len() ==> m.contains_key(#[trigger] list[i]),
    ensures
        covered(m, list).finite(),
        covered(m, list).len() == total_size(m, list),
        forall|a: int| #[trigger]
            covered(m, list).contains(a) ==> exists|i: int|
                0 <= i < list.len() && m[#[trigger] list[i]].start <= a < m[list[i]].end(),
    decreases list.len(),
{
    if list.len() > 0 {
        let rest = list.drop_last();
        let p = list.last();
        assert(forall|i: int| 0 <= i < rest.len() ==> rest[i] == list[i]);
        lemma_covered(m, rest);
        assert(m.contains_key(list[list.len() - 1]));
        let own = set_int_range(m[p].start as int, m[p].end());
        lemma_int_range(m[p].start as int, m[p].end());
        assert(covered(m, rest).disjoint(own)) by {
            assert forall|a: int| covered(m, rest).contains(a) implies !own.contains(a) by {
                let i = choose|i: int|
                    0 <= i < rest.len() && m[#[trigger] rest[i]].start <= a < m[rest[i]].end();
                assert(list[i] != p);
                assert(m.contains_key(list[i]));
                assert(apart(m[list[i]], m[p]));
            }
        }
        lemma_set_disjoint_lens(covered(m, rest), own);
        assert forall|a: int| #[trigger] covered(m, list).contains(a) implies exists|i: int|
            0 <= i < list.len() && m[#[trigger] list[i]].start <= a < m[list[i]].end() by {
            if covered(m, rest).contains(a) {
                let i = choose|i: int|
                    0 <= i < rest.len() && m[#[trigger] rest[i]].start <= a < m[rest[i]].end();
                assert(m[list[i]].start <= a < m[list[i]].end());
            } else {
                assert(m[list[list.len() - 1]].start <= a < m[list[list.len() - 1]].end());
            }
        }
    }
}

/// Chunks that share no byte are together no larger than the address space.
pub proof fn lemma_total_bound(m: Map<usize, ChunkView>, list: Seq<usize>)
    requires
        sound_chunks(m),
        list.no_duplicates(),
        forall|i: int| 0 <= i < list.len() ==> m.contains_key(#[trigger] list[i]),
    ensures
        0 <= total_size(m, list) <= usize::MAX,
{
    lemma_covered(m, list);
    let space = set_int_range(0, usize::MAX as int);
    lemma_int_range(0, usize::MAX as int);
    assert forall|a: int| covered(m, list).contains(a) implies space.contains(a) by {
        let i = choose|i: int|
            0 <= i < list.len() && m[#[trigger] list[i]].start <= a < m[list[i]].end();
        assert(m.contains_key(list[i]));
    }
    lemma_len_subset(covered(m, list), space);
}

/// A byte lies in one chunk only.
pub proof fn lemma_byte(m: Map<usize, ChunkView>, p: usize, a: int)
    requires
        sound_chunks(m),
        in_chunk(m, p, a, 1),
    ensures
        byte(m, a) == m[p].bytes[a - m[p].start],
        holds(m, a, 1),
        forall|q: usize| in_chunk(m, q, a, 1) ==> q == p,
{
    assert forall|q: usize| in_chunk(m, q, a, 1) implies q == p by {
        if q != p {
            assert(apart(m[p], m[q]));
        }
    }
}

/// Data required to find, hold and release a chunk of memory owned by an arena.
#[derive(Debug)]
pub struct ChunkFooter {
    /// How many holders the chunk has besides the arena that asked for it.
    refcount: usize,
    /// Address of the footer of the previous chunk.
    previous_chunk_ptr: Option<usize>,
    /// Address of the first byte of the chunk.
    ptr: usize,
    /// Layout of the chunk.
    layout: Layout,
    /// The memory that holds the chunk.
    memory: std::vec::Vec<u8>,
    /// How many bytes of the memory come before the chunk.
    lead: usize,
}

impl View for ChunkFooter {
    type V = ChunkView;

    closed spec fn view(&self) -> ChunkView {
        ChunkView {
            refcount: self.refcount,
            previous: self.previous_chunk_ptr,
            start: self.ptr,
            layout: self.layout,
            bytes: self.memory@.subrange(
                self.lead as int,
                self.lead + self.layout.size - FOOTER_SIZE,
            ),
        }
    }
}

impl ChunkFooter {
    /// The chunk is sound and lies in the memory that holds it.
    spec fn wf(&self) -> bool {
        &&& self@.sound()
        &&& self.lead + self.layout.size <= self.memory.len()
    }

    /// Creates a new footer from parts describing its chunk.
    fn new(
        memory: std::vec::Vec<u8>,
        lead: usize,
        ptr: usize,
        layout: Layout,
        previous_chunk_ptr: Option<usize>,
    ) -> (footer: ChunkFooter)
        ensures
            footer.refcount == 0,
            footer.previous_chunk_ptr == previous_chunk_ptr,
            footer.ptr == ptr,
            footer.layout == layout,
            footer.memory == memory,
            footer.lead == lead,
    {
        ChunkFooter { refcount: 0, previous_chunk_ptr, ptr, layout, memory, lead }
    }

    /// Adds a holder to the chunk with its footer at `ptr`.
    pub fn increment_refcount(heap: &mut Heap, ptr: usize)
        requires
            old(heap).wf(),
            old(heap)@.contains_key(ptr),
        ensures
            final(heap).wf(),
            final(heap)@ == one_added(old(heap)@, ptr),
    {
        let i = heap.index_of(ptr).unwrap();
        let ghost before = heap.chunks@;
        let count = heap.chunks[i].refcount.wrapping_add(1);
        heap.set_refcount(i, count);
        proof {
            lemma_heap_update(before, heap.chunks@, i as int);
        }
    }

    /// Releases the chunk with its footer at `ptr`, or takes a holder from it if the chunk is
    /// still in use.
    ///
    /// Returns address of the footer of the previous chunk.
    pub fn drop_from_ptr(heap: &mut Heap, ptr: usize) -> (previous: Option<usize>)
        requires
            old(heap).wf(),
            old(heap)@.contains_key(ptr),
        ensures
            final(heap).wf(),
            final(heap)@ == one_dropped(old(heap)@, ptr),
            previous == old(heap)@[ptr].previous,
    {
        let i = heap.index_of(ptr).unwrap();
        let ghost before = heap.chunks@;
        let previous = heap.chunks[i].previous_chunk_ptr;
        let refcount = heap.chunks[i].refcount;
        if refcount == 0 {
            let _ = heap.chunks.remove(i);
            proof {
                lemma_heap_remove(before, heap.chunks@, i as int);
            }
        } else {
            heap.set_refcount(i, refcount - 1);
            proof {
                lemma_heap_update(before, heap.chunks@, i as int);
            }
        }
        previous
    }
}

/// One holder of the chunk with its footer at `p` more; the count wraps around.
pub open spec fn one_added(m: Map<usize, ChunkView>, p: usize) -> Map<usize, ChunkView> {
    m.insert(
        p,
        ChunkView {
            refcount: if m[p].refcount == usize::MAX {
                0
            } else {
                (m[p].refcount + 1) as usize
            },
            ..m[p]
        },
    )
}

/// The chunks that are in use, each of which its footer describes.
#[derive(Debug)]
pub struct Heap {
    chunks: std::vec::Vec<ChunkFooter>,
}

/// The footer at `p` is that at index `i`.
spec fn found_at(s: Seq<ChunkFooter>, p: usize, i: int) -> bool {
    0 <= i < s.len() && s[i]@.footer() == p
}

/// The chunks by the addresses of their footers.
spec fn by_footer(s: Seq<ChunkFooter>) -> Map<usize, ChunkView> {
    Map::new(
        |p: usize| exists|i: int| found_at(s, p, i),
        |p: usize| s[choose|i: int| found_at(s, p, i)]@,
    )
}

/// Every footer is sound and no two chunks share a byte.
spec fn sound_footers(s: Seq<ChunkFooter>) -> bool {
    &&& forall|i: int| 0 <= i < s.len() ==> (#[trigger] s[i]).wf()
    &&& forall|i: int, j: int|
        #![trigger s[i], s[j]]
        0 <= i < s.len() && 0 <= j < s.len() && i != j ==> apart(s[i]@, s[j]@)
}

impl View for Heap {
    type V = Map<usize, ChunkView>;

    closed spec fn view(&self) -> Map<usize, ChunkView> {
        by_footer(self.chunks@)
    }
}

/// Each footer is found by its address, and only it.
proof fn lemma_found(s: Seq<ChunkFooter>, i: int)
    requires
        sound_footers(s),
        0 <= i < s.len(),
    ensures
        0 <= s[i]@.footer() <= usize::MAX,
        by_footer(s).contains_key(s[i]@.footer() as usize),
        by_footer(s)[s[i]@.footer() as usize] == s[i]@,
        forall|p: usize, j: int| #[trigger] found_at(s, p, j) && p == s[i]@.footer() ==> j == i,
{
    let p = s[i]@.footer() as usize;
    assert(s[i].wf());
    assert(found_at(s, p, i));
    assert forall|q: usize, j: int| #[trigger] found_at(s, q, j) && q == p implies j == i by {
        if j != i {
            assert(s[j].wf());
            assert(apart(s[i]@, s[j]@));
        }
    }
}

/// What is found is in the list.
proof fn lemma_found_back(s: Seq<ChunkFooter>, p: usize) -> (i: int)
    requires
        sound_footers(s),
        by_footer(s).contains_key(p),
    ensures
        found_at(s, p, i),
        by_footer(s)[p] == s[i]@,
{
    let i = choose|i: int| found_at(s, p, i);
    lemma_found(s, i);
    i
}

/// Sound footers make up sound chunks.
proof fn lemma_sound(s: Seq<ChunkFooter>)
    requires
        sound_footers(s),
    ensures
        sound_chunks(by_footer(s)),
{
    let m = by_footer(s);
    assert forall|p: usize| #[trigger] m.contains_key(p) implies m[p].sound() && m[p].footer()
        == p by {
        let i = lemma_found_back(s, p);
        assert(s[i].wf());
    }
    assert forall|p: usize, q: usize|
        #![trigger m[p], m[q]]
        m.contains_key(p) && m.contains_key(q) && p != q implies apart(m[p], m[q]) by {
        let i = lemma_found_back(s, p);
        let j = lemma_found_back(s, q);
        assert(i != j);
        assert(apart(s[i]@, s[j]@));
    }
}

/// Changing a footer in place, where the chunk stays where it is, changes what is found there.
proof fn lemma_heap_update(s: Seq<ChunkFooter>, t: Seq<ChunkFooter>, i: int)
    requires
        sound_footers(s),
        0 <= i < s.len(),
        t == s.update(i, t[i]),
        t[i].wf(),
        t[i]@.start == s[i]@.start,
        t[i]@.layout == s[i]@.layout,
    ensures
        sound_footers(t),
        by_footer(t) == by_footer(s).insert(s[i]@.footer() as usize, t[i]@),
{
    assert forall|j: int, k: int|
        #![trigger t[j], t[k]]
        0 <= j < t.len() && 0 <= k < t.len() && j != k implies apart(t[j]@, t[k]@) by {
        assert(apart(s[j]@, s[k]@));
    }
    let p = s[i]@.footer() as usize;
    lemma_found(s, i);
    lemma_found(t, i);
    let m = by_footer(s).insert(p, t[i]@);
    let n = by_footer(t);
    assert forall|q: usize| m.contains_key(q) <==> n.contains_key(q) by {
        if m.contains_key(q) && q != p {
            let j = lemma_found_back(s, q);
            assert(found_at(t, q, j));
        }
        if n.contains_key(q) {
            let j = lemma_found_back(t, q);
            assert(found_at(s, q, j));
        }
    }
    assert forall|q: usize| m.contains_key(q) implies m[q] == n[q] by {
        if q != p {
            let j = lemma_found_back(s, q);
            let k = lemma_found_back(t, q);
            lemma_found(s, j);
            assert(found_at(s, q, k));
        }
    }
    assert(m =~= n);
}

/// Removing a footer removes what was found there and nothing else.
proof fn lemma_heap_remove(s: Seq<ChunkFooter>, t: Seq<ChunkFooter>, i: int)
    requires
        sound_footers(s),
        0 <= i < s.len(),
        t == s.remove(i),
    ensures
        sound_footers(t),
        by_footer(t) == by_footer(s).remove(s[i]@.footer() as usize),
{
    let back = |j: int| if j < i { j } else { j + 1 };
    assert(forall|j: int| 0 <= j < t.len() ==> #[trigger] t[j] == s[back(j)]);
    assert forall|j: int, k: int|
        #![trigger t[j], t[k]]
        0 <= j < t.len() && 0 <= k < t.len() && j != k implies apart(t[j]@, t[k]@) by {
        assert(apart(s[back(j)]@, s[back(k)]@));
    }
    let p = s[i]@.footer() as usize;
    lemma_found(s, i);
    let m = by_footer(s).remove(p);
    let n = by_footer(t);
    assert forall|q: usize| m.contains_key(q) <==> n.contains_key(q) by {
        if m.contains_key(q) {
            let j = lemma_found_back(s, q);
            if j < i {
                assert(found_at(t, q, j));
            } else {
                assert(j > i);
                assert(t[j - 1] == s[j]);
                assert(found_at(t, q, j - 1));
            }
        }
        if n.contains_key(q) {
            let j = lemma_found_back(t, q);
            assert(found_at(s, q, back(j)));
            if q == p {
                assert(back(j) == i);
            }
        }
    }
    assert forall|q: usize| m.contains_key(q) implies m[q] == n[q] by {
        let k = lemma_found_back(t, q);
        lemma_found(s, back(k));
    }
    assert(m =~= n);
}

/// Adding a footer whose chunk shares no byte with the others adds what is found there.
proof fn lemma_heap_push(s: Seq<ChunkFooter>, t: Seq<ChunkFooter>)
    requires
        sound_footers(s),
        t.len() == s.len() + 1,
        t == s.push(t.last()),
        t.last().wf(),
        forall|i: int| 0 <= i < s.len() ==> apart((#[trigger] s[i])@, t.last()@),
    ensures
        sound_footers(t),
        by_footer(t) == by_footer(s).insert(t.last()@.footer() as usize, t.last()@),
        !by_footer(s).contains_key(t.last()@.footer() as usize),
{
    let i = s.len() as int;
    assert(t[i] == t.last());
    assert forall|j: int, k: int|
        #![trigger t[j], t[k]]
        0 <= j < t.len() && 0 <= k < t.len() && j != k implies apart(t[j]@, t[k]@) by {
        if j < i && k < i {
            assert(apart(s[j]@, s[k]@));
        } else if j < i {
            assert(apart(s[j]@, t.last()@));
        } else {
            assert(apart(s[k]@, t.last()@));
        }
    }
    let p = t.last()@.footer() as usize;
    lemma_found(t, i);
    let m = by_footer(s).insert(p, t[i]@);
    let n = by_footer(t);
    if by_footer(s).contains_key(p) {
        let j = lemma_found_back(s, p);
        assert(found_at(t, p, j));
    }
    assert forall|q: usize| m.contains_key(q) <==> n.contains_key(q) by {
        if m.contains_key(q) && q != p {
            let j = lemma_found_back(s, q);
            assert(found_at(t, q, j));
        }
        if n.contains_key(q) {
            let j = lemma_found_back(t, q);
            if j < i {
                assert(found_at(s, q, j));
            }
        }
    }
    assert forall|q: usize| m.contains_key(q) implies m[q] == n[q] by {
        if q != p {
            let j = lemma_found_back(s, q);
            lemma_found(t, j);
        }
    }
    assert(m =~= n);
}

impl Heap {
    /// Every chunk is sound and no two share a byte.
    pub closed spec fn wf(&self) -> bool {
        sound_footers(self.chunks@)
    }

    /// The chunks of a heap are sound.
    pub proof fn lemma_wf(&self)
        requires
            self.wf(),
        ensures
            sound_chunks(self@),
    {
        lemma_sound(self.chunks@);
    }

    /// A heap without chunks.
    pub fn new() -> (heap: Heap)
        ensures
            heap.wf(),
            heap@ == Map::<usize, ChunkView>::empty(),
    {
        let heap = Heap { chunks: std::vec::Vec::new() };
        assert(heap@ =~= Map::<usize, ChunkView>::empty());
        heap
    }

    /// How many chunks are in use.
    pub fn count(&self) -> (count: usize)
        requires
            self.wf(),
        ensures
            count == self@.len(),
            self@.dom().finite(),
    {
        proof {
            lemma_heap_len(self.chunks@);
        }
        self.chunks.len()
    }

    /// Where the footer with the address `ptr` is kept.
    fn index_of(&self, ptr: usize) -> (result: Option<usize>)
        requires
            self.wf(),
        ensures
            result is Some <==> self@.contains_key(ptr),
            result matches Some(i) ==> {
                &&& i < self.chunks@.len()
                &&& self.chunks@[i as int]@.footer() == ptr
                &&& self.chunks@[i as int].wf()
                &&& self@[ptr] == self.chunks@[i as int]@
            },
    {
        let mut i: usize = 0;
        while i < self.chunks.len()
            invariant
                self.wf(),
                i <= self.chunks@.len(),
                forall|j: int| 0 <= j < i ==> !found_at(self.chunks@, ptr, j),
            decreases self.chunks@.len() - i,
        {
            let footer = &self.chunks[i];
            assert(footer.wf());
            if footer.ptr + (footer.layout.size - FOOTER_SIZE) == ptr {
                proof {
                    lemma_found(self.chunks@, i as int);
                }
                return Some(i);
            }
            i = i + 1;
        }
        None
    }

    /// Sets the count of holders in the footer kept at `i`.
    fn set_refcount(&mut self, i: usize, count: usize)
        requires
            i < old(self).chunks@.len(),
            old(self).chunks@[i as int].wf(),
        ensures
            final(self).chunks@ == old(self).chunks@.update(
                i as int,
                final(self).chunks@[i as int],
            ),
            final(self).chunks@[i as int].wf(),
            final(self).chunks@[i as int]@ == (ChunkView {
                refcount: count,
                ..old(self).chunks@[i as int]@
            }),
    {
        self.chunks[i].refcount = count;
    }
}

/// A heap has as many chunks as footers.
proof fn lemma_heap_len(s: Seq<ChunkFooter>)
    requires
        sound_footers(s),
    ensures
        by_footer(s).dom().finite(),
        by_footer(s).len() == s.len(),
    decreases s.len(),
{
    if s.len() == 0 {
        assert(by_footer(s) =~= Map::empty());
    } else {
        let r = s.drop_last();
        assert(s == r.push(s.last()));
        assert(s[s.len() - 1].wf());
        lemma_heap_len(r);
        lemma_heap_push(r, s);
    }
}

impl Heap {
    /// Layout of the chunk with its footer at `ptr`.
    pub fn layout_at(&self, ptr: usize) -> (layout: Layout)
        requires
            self.wf(),
            self@.contains_key(ptr),
        ensures
            layout == self@[ptr].layout,
    {
        let i = self.index_of(ptr).unwrap();
        self.chunks[i].layout
    }

    /// Address of the footer of the chunk before that with its footer at `ptr`.
    pub fn previous_of(&self, ptr: usize) -> (previous: Option<usize>)
        requires
            self.wf(),
            self@.contains_key(ptr),
        ensures
            previous == self@[ptr].previous,
    {
        let i = self.index_of(ptr).unwrap();
        self.chunks[i].previous_chunk_ptr
    }

    /// How many holders the chunk with its footer at `ptr` has besides its arena, if there is
    /// such a chunk.
    pub fn refcount_of(&self, ptr: usize) -> (refcount: Option<usize>)
        requires
            self.wf(),
        ensures
            refcount == if self@.contains_key(ptr) {
                Some(self@[ptr].refcount)
            } else {
                None
            },
    {
        match self.index_of(ptr) {
            Some(i) => Some(self.chunks[i].refcount),
            None => None,
        }
    }

    /// Unlinks the chunk with its footer at `ptr` from the one before it, whose footer's
    /// address is returned.
    pub(crate) fn take_previous(&mut self, ptr: usize) -> (previous: Option<usize>)
        requires
            old(self).wf(),
            old(self)@.contains_key(ptr),
        ensures
            final(self).wf(),
            final(self)@ == old(self)@.insert(
                ptr,
                ChunkView { previous: None, ..old(self)@[ptr] },
            ),
            previous == old(self)@[ptr].previous,
    {
        let i = self.index_of(ptr).unwrap();
        let ghost before = self.chunks@;
        let previous = self.chunks[i].previous_chunk_ptr;
        self.chunks[i].previous_chunk_ptr = None;
        proof {
            lemma_heap_update(before, self.chunks@, i as int);
        }
        previous
    }

    /// Makes a chunk of `layout` out of `memory` found at the address `base`.
    ///
    /// Returns addresses of the chunk's footer and of its first byte, or `None` where the
    /// memory is that of a chunk in use.
    pub(crate) fn place_chunk(
        &mut self,
        memory: std::vec::Vec<u8>,
        base: usize,
        layout: Layout,
        previous: Option<usize>,
    ) -> (result: Option<(usize, usize)>)
        requires
            old(self).wf(),
            layout.valid(),
            layout.align >= CHUNK_ALIGNMENT,
            layout.size >= FOOTER_SIZE,
            (layout.size - FOOTER_SIZE) % CHUNK_ALIGNMENT as int == 0,
            memory@.len() == layout.size + layout.align - 1,
            forall|i: int| 0 <= i < memory@.len() ==> memory@[i] == 0,
            0 < base,
            base + memory@.len() <= usize::MAX,
        ensures
            final(self).wf(),
            chunk_placed(old(self)@, base, layout, previous, result, final(self)@),
    {
        proof {
            reveal(is_pow2);
            lemma_align_up(base as int, layout.align as int);
        }
        let start = align_to_unchecked(base, layout.align);
        let footer = ChunkFooter::new(memory, start - base, start, layout, previous);
        let ghost chunk = fresh_chunk(start, layout, previous);
        proof {
            assert(footer@.bytes =~= chunk.bytes);
            assert(footer@ == chunk);
            assert(is_pow2(16)) by {
                reveal_with_fuel(is_pow2, 6);
            }
            crate::align::lemma_coarser_multiple(start as int, layout.align as int, 16);
            assert((start + (layout.size - FOOTER_SIZE)) % 16 == 0);
            assert(footer.wf());
        }
        let end: usize = start + layout.size;
        let mut i: usize = 0;
        while i < self.chunks.len()
            invariant
                self.wf(),
                *self == *old(self),
                i <= self.chunks@.len(),
                chunk == fresh_chunk(
                    align_up(base as int, layout.align as int) as usize,
                    layout,
                    previous,
                ),
                start == chunk.start,
                end == chunk.end(),
                forall|j: int| 0 <= j < i ==> apart((#[trigger] self.chunks@[j])@, chunk),
            decreases self.chunks@.len() - i,
        {
            let other = &self.chunks[i];
            assert(other.wf());
            if !(other.ptr + other.layout.size <= start || end <= other.ptr) {
                proof {
                    lemma_found(self.chunks@, i as int);
                    let p = other@.footer() as usize;
                    assert(self@.contains_key(p));
                    assert(!apart(self@[p], chunk));
                }
                return None;
            }
            i = i + 1;
        }
        let ghost before = self.chunks@;
        self.chunks.push(footer);
        proof {
            lemma_heap_push(before, self.chunks@);
            assert forall|p: usize| #[trigger] by_footer(before).contains_key(p) implies apart(
                by_footer(before)[p],
                chunk,
            ) by {
                let j = lemma_found_back(before, p);
            }
        }
        Some((start + (layout.size - FOOTER_SIZE), start))
    }
}

/// The global allocator was asked, through a vector, for room for `len` more values of type `T`,
/// and answered: `given` tells whether it gave them.
pub open spec fn asked<T>(len: usize, given: bool) -> bool {
    exists|memory: &mut std::vec::Vec<T>, answer: Result<(), TryReserveError>|
        {
            &&& #[trigger] call_ensures(
                std::vec::Vec::<T>::try_reserve,
                (memory, len),
                answer,
            )
            &&& answer is Ok == given
        }
}

/// That the global allocator was asked means that [`std::vec::Vec::try_reserve`] was called with
/// that length, and gave that answer.
pub proof fn lemma_asked<T>(len: usize)
    ensures
        asked::<T>(len, true) <==> exists|memory: &mut std::vec::Vec<T>, nothing: ()| #[trigger]
            call_ensures(
                std::vec::Vec::<T>::try_reserve,
                (memory, len),
                Ok::<(), TryReserveError>(nothing),
            ),
        asked::<T>(len, false) <==> exists|
            memory: &mut std::vec::Vec<T>,
            error: TryReserveError,
        | #[trigger]
            call_ensures(
                std::vec::Vec::<T>::try_reserve,
                (memory, len),
                Err::<(), TryReserveError>(error),
            ),
{
    if asked::<T>(len, true) {
        let (memory, answer) = choose|
            memory: &mut std::vec::Vec<T>,
            answer: Result<(), TryReserveError>,
        | #[trigger]
            call_ensures(std::vec::Vec::<T>::try_reserve, (memory, len), answer) && answer is Ok;
        assert(answer == Ok::<(), TryReserveError>(answer->Ok_0));
    }
    if asked::<T>(len, false) {
        let (memory, answer) = choose|
            memory: &mut std::vec::Vec<T>,
            answer: Result<(), TryReserveError>,
        | #[trigger]
            call_ensures(std::vec::Vec::<T>::try_reserve, (memory, len), answer) && !(answer is Ok);
        assert(answer == Err::<(), TryReserveError>(answer->Err_0));
    }
}

/// `len` bytes that the global allocator gave were found at the address `base`.
pub closed spec fn given_at(len: int, base: usize) -> bool {
    exists|bytes: &mut std::vec::Vec<u8>|
        bytes@.len() == len && #[trigger] call_ensures(address_of, (bytes,), base)
}

/// How many bytes the memory for a chunk of `layout` has: those of the chunk, and what it takes to
/// align it.
pub open spec fn memory_len(layout: Layout) -> usize {
    (layout.size + layout.align - 1) as usize
}

/// The global allocator did not give the memory for a chunk of `layout`, or gave memory that it
/// had given for a chunk in use.
pub open spec fn memory_refused(m: Map<usize, ChunkView>, layout: Layout) -> bool {
    ||| asked::<u8>(memory_len(layout), false)
    ||| exists|base: usize, p: usize|
        {
            &&& #[trigger] given_at(memory_len(layout) as int, base)
            &&& #[trigger] m.contains_key(p)
            &&& !apart(
                m[p],
                fresh_chunk(
                    align_up(base as int, layout.align as int) as usize,
                    layout,
                    None,
                ),
            )
        }
}

/// A chunk of `layout` was to be made out of memory found at `base`, and `result` given: the
/// chunk is there where no chunk in use has a byte of it.
pub open spec fn chunk_placed(
    m: Map<usize, ChunkView>,
    base: usize,
    layout: Layout,
    previous: Option<usize>,
    result: Option<(usize, usize)>,
    n: Map<usize, ChunkView>,
) -> bool {
    let chunk = fresh_chunk(
        align_up(base as int, layout.align as int) as usize,
        layout,
        previous,
    );
    if forall|p: usize| #[trigger] m.contains_key(p) ==> apart(m[p], chunk) {
        &&& result == Some((chunk.footer() as usize, chunk.start))
        &&& !m.contains_key(chunk.footer() as usize)
        &&& chunk.sound()
        &&& n == m.insert(chunk.footer() as usize, chunk)
    } else {
        result is None && n == m
    }
}

/// Address of the first byte of `bytes`: calls [`std::vec::Vec::as_mut_ptr`], which leaves the
/// bytes as they are.
///
/// A vector that owns bytes has them in one allocation. No allocation begins at the address
/// zero, and none reaches past the end of the address space. Nothing else is said of the
/// address, which the global allocator picks.
#[verifier::external_body]
fn address_of(bytes: &mut std::vec::Vec<u8>) -> (address: usize)
    ensures
        final(bytes)@ == old(bytes)@,
        address > 0,
        address + old(bytes)@.len() <= usize::MAX,
{
    bytes.as_mut_ptr() as usize
}

/// Asks the global allocator for `len` bytes. It decides whether there are any: [`zeroed`] says
/// what is made of its answer.
fn try_memory(len: usize) -> (result: Option<std::vec::Vec<u8>>)
    ensures
        result matches Some(memory) ==> memory@ == Seq::new(len as nat, |i: int| 0u8),
        asked::<u8>(len, result is Some),
{
    let mut memory: std::vec::Vec<u8> = std::vec::Vec::new();
    let answer = memory.try_reserve(len);
    let reserved = answer.is_ok();
    zeroed(memory, reserved, len)
}

/// `memory` with `len` bytes in it, where room for them was `reserved`.
fn zeroed(memory: std::vec::Vec<u8>, reserved: bool, len: usize) -> (result: Option<
    std::vec::Vec<u8>,
>)
    requires
        memory@.len() == 0,
    ensures
        match result {
            Some(bytes) => reserved && bytes@ == Seq::new(len as nat, |i: int| 0u8),
            None => !reserved,
        },
{
    if !reserved {
        return None;
    }
    let mut bytes = memory;
    bytes.resize(len, 0);
    assert(bytes@ =~= Seq::new(len as nat, |i: int| 0u8));
    Some(bytes)
}

/// `n` is `m` with a new chunk that can hold `size` bytes aligned to `align`.
pub open spec fn chunk_added(
    m: Map<usize, ChunkView>,
    n: Map<usize, ChunkView>,
    footer: usize,
    start: usize,
    size: int,
    align: int,
    previous: Option<usize>,
) -> bool {
    &&& chunk_layout_for(size, align) is Some
    &&& !m.contains_key(footer)
    &&& n == m.insert(
        footer,
        fresh_chunk(start, chunk_layout_for(size, align)->0, previous),
    )
}

/// Creates a new chunk capable of storing at least `size` bytes aligned to `align`.
///
/// Returns addresses of the chunk's footer and of the start of usable region. The global
/// allocator decides whether there is memory for it, and where.
pub fn new_chunk(
    heap: &mut Heap,
    size: usize,
    align: usize,
    current_chunk_ptr: Option<usize>,
) -> (result: Option<(usize, usize)>)
    requires
        old(heap).wf(),
        is_pow2(align as int),
    ensures
        final(heap).wf(),
        chunk_layout_for(size as int, align as int) is None ==> result is None,
        match result {
            Some((footer, start)) => {
                &&& chunk_added(
                    old(heap)@,
                    final(heap)@,
                    footer,
                    start,
                    size as int,
                    align as int,
                    current_chunk_ptr,
                )
                &&& asked::<u8>(
                    memory_len(chunk_layout_for(size as int, align as int)->0),
                    true,
                )
            },
            None => {
                &&& final(heap)@ == old(heap)@
                &&& chunk_layout_for(size as int, align as int) matches Some(layout)
                    ==> memory_refused(old(heap)@, layout)
            },
        },
{
    let layout = match chunk_layout(size, align) {
        Some(layout) => layout,
        None => {
            return None;
        },
    };
    proof {
        lemma_chunk_layout(size as int, align as int);
        reveal(is_pow2);
    }
    let len = layout.size + (layout.align - 1);
    assert(len == memory_len(layout));
    let memory = match try_memory(len) {
        Some(given) => {
            let mut bytes = given;
            let base = address_of(&mut bytes);
            assert(given_at(len as int, base));
            Some((bytes, base))
        },
        None => None,
    };
    proof {
        if let Some((_, base)) = memory {
            let start = align_up(base as int, layout.align as int) as usize;
            let chunk = fresh_chunk(start, layout, current_chunk_ptr);
            let alone = fresh_chunk(start, layout, None);
            if exists|p: usize| #[trigger] heap@.contains_key(p) && !apart(heap@[p], chunk) {
                let p = choose|p: usize| #[trigger]
                    heap@.contains_key(p) && !apart(heap@[p], chunk);
                assert(!apart(heap@[p], alone));
                assert(memory_refused(heap@, layout));
            }
        }
    }
    chunk_in_memory(heap, memory, layout, current_chunk_ptr)
}

/// Creates a new chunk of `layout` in `memory`: the bytes that the global allocator gave, if it
/// gave any, and the address of the first one.
///
/// Returns addresses of the chunk's footer and of the start of usable region.
pub fn chunk_in_memory(
    heap: &mut Heap,
    memory: Option<(std::vec::Vec<u8>, usize)>,
    layout: Layout,
    current_chunk_ptr: Option<usize>,
) -> (result: Option<(usize, usize)>)
    requires
        old(heap).wf(),
        layout.valid(),
        layout.align >= CHUNK_ALIGNMENT,
        layout.size >= FOOTER_SIZE,
        (layout.size - FOOTER_SIZE) % CHUNK_ALIGNMENT as int == 0,
        memory matches Some((bytes, base)) ==> {
            &&& bytes@ == Seq::new((layout.size + layout.align - 1) as nat, |i: int| 0u8)
            &&& 0 < base
            &&& base + bytes@.len() <= usize::MAX
        },
    ensures
        final(heap).wf(),
        match memory {
            Some((_, base)) => chunk_placed(
                old(heap)@,
                base,
                layout,
                current_chunk_ptr,
                result,
                final(heap)@,
            ),
            None => result is None && final(heap)@ == old(heap)@,
        },
{
    match memory {
        Some((bytes, base)) => heap.place_chunk(bytes, base, layout, current_chunk_ptr),
        None => None,
    }
}

/// Releases all chunks in a list starting from `last_chunk_ptr`, or takes a holder from those
/// that are still in use.
pub fn dealloc_chunk_list(heap: &mut Heap, last_chunk_ptr: Option<usize>)
    requires
        old(heap).wf(),
        exists|list: Seq<usize>| is_chain(old(heap)@, last_chunk_ptr, list),
    ensures
        final(heap).wf(),
        forall|list: Seq<usize>|
            is_chain(old(heap)@, last_chunk_ptr, list) ==> final(heap)@ == list_dropped(
                old(heap)@,
                list,
            ),
{
    let ghost whole = choose|list: Seq<usize>| is_chain(old(heap)@, last_chunk_ptr, list);
    let ghost mut rest = whole;
    let ghost m = heap@;
    let mut last: Option<usize> = last_chunk_ptr;
    proof {
        lemma_chain_distinct(m, last, whole);
        assert(whole.skip(whole.len() as int) =~= Seq::<usize>::empty());
        assert(list_dropped(m, Seq::<usize>::empty()) =~= m);
        assert(whole.take(whole.len() as int) =~= whole);
    }
    while last.is_some()
        invariant
            heap.wf(),
            m == old(heap)@,
            rest.len() <= whole.len(),
            rest == whole.take(rest.len() as int),
            whole.no_duplicates(),
            is_chain(m, last, rest),
            heap@ == list_dropped(m, whole.skip(rest.len() as int)),
        decreases rest.len(),
    {
        let ptr = last.unwrap();
        let ghost done = whole.skip(rest.len() as int);
        let ghost next = rest.drop_last();
        proof {
            let k = rest.len() - 1;
            assert(rest[k] == ptr);
            assert(whole[k] == ptr);
            assert(!done.contains(ptr)) by {
                if done.contains(ptr) {
                    let j = choose|j: int| 0 <= j < done.len() && done[j] == ptr;
                    assert(whole[j + rest.len()] == ptr);
                }
            }
            assert(whole.skip(k) =~= seq![ptr] + done);
            assert forall|p: usize| whole.skip(k).contains(p) <==> (p == ptr || done.contains(
                p,
            )) by {
                if done.contains(p) {
                    let j = choose|j: int| 0 <= j < done.len() && done[j] == p;
                    assert(whole.skip(k)[j + 1] == p);
                }
                if p == ptr {
                    assert(whole.skip(k)[0] == p);
                }
                if whole.skip(k).contains(p) && p != ptr {
                    let j = choose|j: int| 0 <= j < whole.skip(k).len() && whole.skip(k)[j] == p;
                    assert(done[j - 1] == p);
                }
            }
            assert(next == whole.take(next.len() as int));
        }
        last = heap.take_previous(ptr);
        let _ = ChunkFooter::drop_from_ptr(heap, ptr);
        proof {
            assert(heap@ =~= list_dropped(m, whole.skip(next.len() as int)));
            rest = next;
        }
    }
    proof {
        assert(whole.skip(0) =~= whole);
        assert forall|list: Seq<usize>| is_chain(m, last_chunk_ptr, list) implies heap@
            == list_dropped(m, list) by {
            lemma_chain_unique(m, last_chunk_ptr, whole, list);
        }
    }
}

/// `n` is `m` after `value` was written at `a`.
pub open spec fn written(
    m: Map<usize, ChunkView>,
    n: Map<usize, ChunkView>,
    a: int,
    value: u8,
) -> bool {
    &&& same_shape(m, n)
    &&& forall|b: int| #[trigger]
        holds(m, b, 1) ==> byte(n, b) == if b == a {
            value
        } else {
            byte(m, b)
        }
}

/// Where only the bytes of one chunk differ, the other chunks' bytes are what they were.
proof fn lemma_bytes_changed(m: Map<usize, ChunkView>, n: Map<usize, ChunkView>, p: usize)
    requires
        sound_chunks(m),
        m.contains_key(p),
        n == m.insert(p, ChunkView { bytes: n[p].bytes, ..m[p] }),
        n[p].bytes.len() == m[p].bytes.len(),
    ensures
        sound_chunks(n),
        same_shape(m, n),
        forall|a: int| #[trigger]
            holds(m, a, 1) ==> byte(n, a) == if m[p].start <= a < p {
                n[p].bytes[a - m[p].start]
            } else {
                byte(m, a)
            },
{
    assert(m.dom() =~= n.dom());
    assert forall|a: int| #[trigger] holds(m, a, 1) implies byte(n, a) == if m[p].start <= a < p {
        n[p].bytes[a - m[p].start]
    } else {
        byte(m, a)
    } by {
        let q = choose|q: usize| in_chunk(m, q, a, 1);
        lemma_byte(m, q, a);
        assert(in_chunk(n, q, a, 1));
        lemma_byte(n, q, a);
        if m[p].start <= a < p {
            assert(in_chunk(m, p, a, 1));
        }
    }
}

impl Heap {
    /// Where the footer is kept of the chunk in which the `len` bytes from `addr` on lie.
    fn index_of_block(&self, addr: usize, len: usize) -> (result: Option<usize>)
        requires
            self.wf(),
        ensures
            result is Some <==> holds(self@, addr as int, len as int),
            result matches Some(i) ==> {
                &&& i < self.chunks@.len()
                &&& self.chunks@[i as int].wf()
                &&& in_chunk(
                    self@,
                    self.chunks@[i as int]@.footer() as usize,
                    addr as int,
                    len as int,
                )
                &&& self@[self.chunks@[i as int]@.footer() as usize] == self.chunks@[i as int]@
            },
    {
        let mut i: usize = 0;
        while i < self.chunks.len()
            invariant
                self.wf(),
                i <= self.chunks@.len(),
                forall|j: int|
                    0 <= j < i ==> !(self.chunks@[j]@.start <= addr && addr + len
                        <= (#[trigger] self.chunks@[j])@.footer()),
            decreases self.chunks@.len() - i,
        {
            let footer = &self.chunks[i];
            assert(footer.wf());
            let usable: usize = footer.layout.size - FOOTER_SIZE;
            if footer.ptr <= addr && len <= usable && addr - footer.ptr <= usable - len {
                proof {
                    lemma_found(self.chunks@, i as int);
                    assert(in_chunk(self@, footer@.footer() as usize, addr as int, len as int));
                }
                return Some(i);
            }
            i = i + 1;
        }
        proof {
            if holds(self@, addr as int, len as int) {
                let p = choose|p: usize| in_chunk(self@, p, addr as int, len as int);
                let j = lemma_found_back(self.chunks@, p);
            }
        }
        None
    }

    /// Whether the `len` bytes from `addr` on lie in a chunk.
    pub fn has_block(&self, addr: usize, len: usize) -> (result: bool)
        requires
            self.wf(),
        ensures
            result == holds(self@, addr as int, len as int),
    {
        self.index_of_block(addr, len).is_some()
    }

    /// What the byte at `addr` holds.
    pub fn read(&self, addr: usize) -> (value: u8)
        requires
            self.wf(),
            holds(self@, addr as int, 1),
        ensures
            value == byte(self@, addr as int),
    {
        let i = self.index_of_block(addr, 1).unwrap();
        proof {
            self.lemma_wf();
            lemma_byte(self@, self.chunks@[i as int]@.footer() as usize, addr as int);
        }
        let footer = &self.chunks[i];
        footer.memory[footer.lead + (addr - footer.ptr)]
    }

    /// Writes `value` to the byte at `addr`.
    pub fn write(&mut self, addr: usize, value: u8)
        requires
            old(self).wf(),
            holds(old(self)@, addr as int, 1),
        ensures
            final(self).wf(),
            written(old(self)@, final(self)@, addr as int, value),
    {
        let i = self.index_of_block(addr, 1).unwrap();
        let ghost before = self.chunks@;
        let ghost m = self@;
        let ghost p = before[i as int]@.footer() as usize;
        let at: usize = self.chunks[i].lead + (addr - self.chunks[i].ptr);
        self.chunks[i].memory[at] = value;
        proof {
            assert(self.chunks@[i as int]@.bytes =~= before[i as int]@.bytes.update(
                addr - before[i as int]@.start,
                value,
            ));
            lemma_heap_update(before, self.chunks@, i as int);
            lemma_sound(before);
            lemma_bytes_changed(m, self@, p);
            assert forall|b: int| #[trigger] holds(m, b, 1) implies byte(self@, b) == if b == addr {
                value
            } else {
                byte(m, b)
            } by {
                if m[p].start <= b < p {
                    lemma_byte(m, p, b);
                }
            }
        }
    }

    /// Moves the `len` bytes from `src` on to `dst`; the two may overlap.
    #[verifier::spinoff_prover]
    #[verifier::rlimit(60)]
    pub fn copy(&mut self, src: usize, dst: usize, len: usize)
        requires
            old(self).wf(),
            len > 0 ==> holds(old(self)@, src as int, len as int),
            len > 0 ==> holds(old(self)@, dst as int, len as int),
        ensures
            final(self).wf(),
            copied(old(self)@, final(self)@, src as int, dst as int, len as int),
    {
        if len == 0 {
            return;
        }
        let from = self.index_of_block(src, len).unwrap();
        let to = self.index_of_block(dst, len).unwrap();
        let ghost before = self.chunks@;
        let ghost m = self@;
        let ghost p = before[from as int]@.footer() as usize;
        let ghost q = before[to as int]@.footer() as usize;
        proof {
            lemma_sound(before);
        }
        let mut data: std::vec::Vec<u8> = std::vec::Vec::new();
        let first: usize = self.chunks[from].lead + (src - self.chunks[from].ptr);
        let mut i: usize = 0;
        while i < len
            invariant
                self.chunks@ == before,
                from < before.len(),
                i <= len,
                first + len <= before[from as int].memory.len(),
                data@ == before[from as int].memory@.subrange(first as int, first + i),
            decreases len - i,
        {
            data.push(self.chunks[from].memory[first + i]);
            i = i + 1;
        }
        let target: usize = self.chunks[to].lead + (dst - self.chunks[to].ptr);
        let ghost footer = before[to as int];
        i = 0;
        while i < len
            invariant
                to < before.len(),
                footer == before[to as int],
                self.chunks@ == before.update(to as int, self.chunks@[to as int]),
                self.chunks@[to as int] == (ChunkFooter {
                    memory: self.chunks@[to as int].memory,
                    ..footer
                }),
                i <= len,
                data@.len() == len,
                target + len <= footer.memory.len(),
                self.chunks@[to as int].memory@ == footer.memory@.subrange(0, target as int)
                    + data@.subrange(0, i as int) + footer.memory@.subrange(
                    target + i,
                    footer.memory@.len() as int,
                ),
            decreases len - i,
        {
            self.chunks[to].memory[target + i] = data[i];
            i = i + 1;
            assert(self.chunks@[to as int].memory@ =~= footer.memory@.subrange(0, target as int)
                + data@.subrange(0, i as int) + footer.memory@.subrange(
                target + i,
                footer.memory@.len() as int,
            ));
        }
        proof {
            let after = self.chunks@[to as int];
            assert(after.wf());
            assert(after@ == (ChunkView { bytes: after@.bytes, ..footer@ }));
            lemma_heap_update(before, self.chunks@, to as int);
            lemma_bytes_changed(m, self@, q);
            assert forall|a: int| #[trigger] holds(m, a, 1) implies byte(self@, a) == if dst <= a
                < dst + len {
                byte(m, src + (a - dst))
            } else {
                byte(m, a)
            } by {
                if dst <= a < dst + len {
                    assert(in_chunk(m, p, src + (a - dst), 1));
                    lemma_byte(m, p, src + (a - dst));
                } else if m[q].start <= a < q {
                    lemma_byte(m, q, a);
                }
            }
        }
    }
}

} // verus!

//! Bump allocator for per-request allocations.
//!
//! Memory comes in chunks; an allocation takes the next suitably aligned bytes of the
//! current chunk, and all allocations are released at once by `reset`, which keeps the
//! chunks for reuse. An allocation is named by an `ArenaPtr`: a chunk index and a byte
//! offset into that chunk.

use vstd::prelude::*;
use vstd::arithmetic::power2::is_pow2;
use vstd::layout::{align_of, layout_for_type_is_valid, size_of};

verus! {

/// Default chunk size: 64KB.
pub const DEFAULT_CHUNK_SIZE: usize = 65536;

/// Smallest chunk size an arena is made with.
pub const MIN_CHUNK_SIZE: usize = 1024;

/// Largest alignment an allocation gets.
pub const MAX_ALIGN: usize = 16;

/// Largest size of one chunk (what a 16-aligned allocation may span).
pub open spec fn max_chunk() -> int {
    isize::MAX as int - 15
}

/// `pos` rounded up to a multiple of `align`.
pub open spec fn align_up(pos: int, align: int) -> int {
    (pos + align - 1) / align * align
}

/// The alignment an allocation actually gets: at most `MAX_ALIGN`.
pub open spec fn effective_align(align: int) -> int {
    if align < MAX_ALIGN { align } else { MAX_ALIGN as int }
}

/// An allocation of `size` bytes aligned to `align` fits in a chunk of capacity `cap`
/// filled up to `fill`.
pub open spec fn fits_at(cap: int, fill: int, size: int, align: int) -> bool {
    align_up(fill, align) + size <= cap
}

/// A chunk that has at least `size + align` bytes left is taken up again when growing.
pub open spec fn roomy(cap: int, fill: int, size: int, align: int) -> bool {
    cap - fill >= size + align
}

/// The first chunk at index `from` or later that is roomy, or the chunk count if none is.
pub open spec fn first_roomy(caps: Seq<int>, fills: Seq<int>, from: int, size: int, align: int) -> int
    decreases caps.len() - from,
{
    if from >= caps.len() || from < 0 {
        caps.len() as int
    } else if roomy(caps[from], fills[from], size, align) {
        from
    } else {
        first_roomy(caps, fills, from + 1, size, align)
    }
}

/// Capacity of the chunk added when no chunk has room.
pub open spec fn new_chunk_capacity(chunk_size: int, size: int) -> int {
    if chunk_size >= size + MAX_ALIGN { chunk_size } else { size + MAX_ALIGN }
}

/// The chunk an allocation goes to: the current one if it fits there, else the first
/// roomy chunk after it, else a new chunk at the end.
pub open spec fn target_chunk(caps: Seq<int>, fills: Seq<int>, current: int, size: int, align: int) -> int {
    let a = effective_align(align);
    if fits_at(caps[current], fills[current], size, a) {
        current
    } else {
        first_roomy(caps, fills, current + 1, size, a)
    }
}

/// The offset an allocation gets in its chunk.
pub open spec fn target_offset(caps: Seq<int>, fills: Seq<int>, current: int, size: int, align: int) -> int {
    let c = target_chunk(caps, fills, current, size, align);
    if c < caps.len() { align_up(fills[c], effective_align(align)) } else { 0 }
}

/// Chunk capacities after an allocation.
pub open spec fn caps_after(caps: Seq<int>, fills: Seq<int>, current: int, chunk_size: int, size: int, align: int) -> Seq<int> {
    if target_chunk(caps, fills, current, size, align) < caps.len() {
        caps
    } else {
        caps.push(new_chunk_capacity(chunk_size, size))
    }
}

/// Chunk fill marks after an allocation: the target chunk is filled to the end of it.
pub open spec fn fills_after(caps: Seq<int>, fills: Seq<int>, current: int, size: int, align: int) -> Seq<int> {
    let c = target_chunk(caps, fills, current, size, align);
    let end = target_offset(caps, fills, current, size, align) + size;
    if c < caps.len() { fills.update(c, end) } else { fills.push(end) }
}

/// Chunk bookkeeping is consistent: fills within capacities, capacities within limits.
pub open spec fn chunks_ok(caps: Seq<int>, fills: Seq<int>, current: int) -> bool {
    &&& caps.len() == fills.len()
    &&& 0 <= current < caps.len()
    &&& forall|i: int| 0 <= i < caps.len() ==> 0 <= #[trigger] fills[i] <= caps[i] <= max_chunk()
}

/// Allocations never overlap: when two allocations in a row land in the same chunk, the
/// second starts at or after the end of the first.
pub proof fn law_allocations_do_not_overlap(
    caps: Seq<int>,
    fills: Seq<int>,
    current: int,
    chunk_size: int,
    size1: int,
    align1: int,
    size2: int,
    align2: int,
)
    requires
        chunks_ok(caps, fills, current),
        size1 >= 0,
        size2 >= 0,
        align1 >= 1,
        align2 >= 1,
    ensures
        ({
            let c1 = target_chunk(caps, fills, current, size1, align1);
            let o1 = target_offset(caps, fills, current, size1, align1);
            let caps1 = caps_after(caps, fills, current, chunk_size, size1, align1);
            let fills1 = fills_after(caps, fills, current, size1, align1);
            let c2 = target_chunk(caps1, fills1, c1, size2, align2);
            let o2 = target_offset(caps1, fills1, c1, size2, align2);
            c1 == c2 ==> o1 + size1 <= o2
        }),
{
    let a1 = effective_align(align1);
    let a2 = effective_align(align2);
    let c1 = target_chunk(caps, fills, current, size1, align1);
    let o1 = target_offset(caps, fills, current, size1, align1);
    let caps1 = caps_after(caps, fills, current, chunk_size, size1, align1);
    let fills1 = fills_after(caps, fills, current, size1, align1);
    lemma_first_roomy_range(caps, fills, current + 1, size1, a1);
    if c1 < caps.len() {
        assert(0 <= fills[c1]);
        lemma_align_up_bounds(fills[c1], a1);
    }
    assert(o1 >= 0);
    assert(c1 < caps1.len());
    assert(fills1[c1] == o1 + size1);
    let c2 = target_chunk(caps1, fills1, c1, size2, align2);
    if c2 == c1 {
        lemma_align_up_bounds(fills1[c1], a2);
    }
}

/// Every block is handed out at or after its chunk's fill mark (a new chunk starts
/// empty), the chunk's fill mark moves to the block's end, and no fill mark goes down.
/// So each block handed out since the last reset lies below the fill marks when the next
/// one is handed out, and no two of them overlap.
pub proof fn law_blocks_are_fresh(
    caps: Seq<int>,
    fills: Seq<int>,
    current: int,
    size: int,
    align: int,
)
    requires
        chunks_ok(caps, fills, current),
        size >= 0,
        align >= 1,
    ensures
        ({
            let c = target_chunk(caps, fills, current, size, align);
            let o = target_offset(caps, fills, current, size, align);
            let f1 = fills_after(caps, fills, current, size, align);
            &&& 0 <= c <= fills.len()
            &&& c < fills.len() ==> fills[c] <= o
            &&& c == fills.len() ==> o == 0
            &&& f1.len() >= fills.len()
            &&& f1[c] == o + size
            &&& forall|i: int| 0 <= i < fills.len() ==> fills[i] <= #[trigger] f1[i]
        }),
{
    let a = effective_align(align);
    let c = target_chunk(caps, fills, current, size, align);
    lemma_first_roomy_range(caps, fills, current + 1, size, a);
    if c < caps.len() {
        assert(0 <= fills[c]);
        lemma_align_up_bounds(fills[c], a);
    }
}

/// Where an allocation lives: a chunk and a byte offset in it.
#[derive(Debug, Clone, Copy, PartialEq, Eq, Structural)]
pub struct ArenaPtr {
    pub chunk: usize,
    pub offset: usize,
}

/// An allocation of `len` items.
#[derive(Debug, Clone, Copy, PartialEq, Eq, Structural)]
pub struct ArenaSlice {
    pub ptr: ArenaPtr,
    pub len: usize,
}

impl ArenaSlice {
    /// Number of items.
    pub fn len(&self) -> (r: usize)
        ensures
            r == self.len,
    {
        self.len
    }
}

/// Arena statistics.
#[derive(Debug, Clone, Copy)]
pub struct ArenaStats {
    pub total_allocated: usize,
    pub total_capacity: usize,
    pub alloc_count: usize,
    pub chunk_count: usize,
}

struct Chunk {
    data: Vec<u8>,
    pos: usize,
}

/// Sum of a sequence.
pub open spec fn total(s: Seq<int>) -> int
    decreases s.len(),
{
    if s.len() == 0 { 0 } else { total(s.drop_last()) + s.last() }
}

proof fn lemma_total_push(s: Seq<int>, x: int)
    ensures
        total(s.push(x)) == total(s) + x,
{
    assert(s.push(x).drop_last() =~= s);
}

proof fn lemma_total_nonneg_bound(s: Seq<int>, i: int)
    requires
        forall|j: int| 0 <= j < s.len() ==> #[trigger] s[j] >= 0,
        0 <= i <= s.len(),
    ensures
        0 <= total(s.subrange(0, i)) <= total(s),
    decreases s.len() - i,
{
    if i < s.len() {
        lemma_total_nonneg_bound(s, i + 1);
        assert(s.subrange(0, i + 1).drop_last() =~= s.subrange(0, i));
    } else {
        assert(s.subrange(0, i) =~= s);
    }
    lemma_total_nonneg(s.subrange(0, i));
}

proof fn lemma_total_nonneg(s: Seq<int>)
    requires
        forall|j: int| 0 <= j < s.len() ==> #[trigger] s[j] >= 0,
    ensures
        total(s) >= 0,
    decreases s.len(),
{
    if s.len() > 0 {
        lemma_total_nonneg(s.drop_last());
    }
}


/// The alignments an allocation can get.
pub open spec fn small_pow2(a: int) -> bool {
    a == 1 || a == 2 || a == 4 || a == 8 || a == 16
}

proof fn lemma_effective_align(align: usize)
    requires
        is_pow2(align as int),
    ensures
        small_pow2(effective_align(align as int)),
{
    reveal_with_fuel(is_pow2, 5);
}

proof fn lemma_align_up_bounds(x: int, a: int)
    requires
        x >= 0,
        a >= 1,
    ensures
        x <= align_up(x, a) <= x + a - 1,
        align_up(x, a) % a == 0,
{
    let n = x + a - 1;
    vstd::arithmetic::div_mod::lemma_fundamental_div_mod(n, a);
    vstd::arithmetic::div_mod::lemma_mod_multiples_basic(n / a, a);
    vstd::arithmetic::mul::lemma_mul_is_commutative(a, n / a);
}

proof fn lemma_align_mask(x: usize, a: usize)
    requires
        small_pow2(a as int),
        x <= usize::MAX - 15,
    ensures
        ((x + a - 1) as usize) & !((a - 1) as usize) == align_up(x as int, a as int),
{
    assert((x + 15) as usize == x + 15);
    if a == 1 {
        assert(((x + 0) as usize) & !0usize == ((x + 0) as usize) / 1 * 1) by (bit_vector);
    } else if a == 2 {
        assert(((x + 1) as usize) & !1usize == ((x + 1) as usize) / 2 * 2) by (bit_vector)
            requires (x + 15) as usize == x + 15;
    } else if a == 4 {
        assert(((x + 3) as usize) & !3usize == ((x + 3) as usize) / 4 * 4) by (bit_vector)
            requires (x + 15) as usize == x + 15;
    } else if a == 8 {
        assert(((x + 7) as usize) & !7usize == ((x + 7) as usize) / 8 * 8) by (bit_vector)
            requires (x + 15) as usize == x + 15;
    } else {
        assert(((x + 15) as usize) & !15usize == ((x + 15) as usize) / 16 * 16) by (bit_vector)
            requires (x + 15) as usize == x + 15;
    }
}

proof fn lemma_first_roomy_skip(caps: Seq<int>, fills: Seq<int>, from: int, i: int, size: int, align: int)
    requires
        0 <= from <= i <= caps.len(),
        forall|j: int| from <= j < i ==> !roomy(caps[j], fills[j], size, align),
    ensures
        first_roomy(caps, fills, from, size, align) == first_roomy(caps, fills, i, size, align),
    decreases i - from,
{
    if from < i {
        lemma_first_roomy_skip(caps, fills, from + 1, i, size, align);
    }
}

proof fn lemma_first_roomy_range(caps: Seq<int>, fills: Seq<int>, from: int, size: int, align: int)
    requires
        0 <= from,
    ensures
        from <= first_roomy(caps, fills, from, size, align) <= caps.len()
            || first_roomy(caps, fills, from, size, align) == caps.len(),
        first_roomy(caps, fills, from, size, align) < caps.len() ==> roomy(
            caps[first_roomy(caps, fills, from, size, align)],
            fills[first_roomy(caps, fills, from, size, align)],
            size,
            align,
        ),
    decreases caps.len() - from,
{
    if from < caps.len() && !roomy(caps[from], fills[from], size, align) {
        lemma_first_roomy_range(caps, fills, from + 1, size, align);
    }
}

impl Chunk {
    /// Takes `size` bytes aligned to `align` from the chunk, if they fit.
    fn take(&mut self, size: usize, align: usize) -> (r: Option<usize>)
        requires
            small_pow2(align as int),
            old(self).pos <= old(self).data@.len() <= max_chunk(),
        ensures
            final(self).data == old(self).data,
            fits_at(old(self).data@.len() as int, old(self).pos as int, size as int, align as int) ==> {
                &&& r == Some(align_up(old(self).pos as int, align as int) as usize)
                &&& final(self).pos == align_up(old(self).pos as int, align as int) + size
            },
            !fits_at(old(self).data@.len() as int, old(self).pos as int, size as int, align as int) ==> {
                &&& r is None
                &&& final(self).pos == old(self).pos
            },
    {
        proof {
            lemma_align_mask(self.pos, align);
            lemma_align_up_bounds(self.pos as int, align as int);
        }
        let aligned_pos = (self.pos + align - 1) & !(align - 1);
        if aligned_pos > self.data.len() || size > self.data.len() - aligned_pos {
            return None;
        }
        self.pos = aligned_pos + size;
        Some(aligned_pos)
    }
}

/// Bump allocator.
pub struct Arena {
    chunks: Vec<Chunk>,
    current: usize,
    chunk_size: usize,
    total_allocated: usize,
    alloc_count: usize,
}

impl Arena {
    /// Capacities of the chunks.
    pub closed spec fn capacities(&self) -> Seq<int> {
        self.chunks@.map_values(|c: Chunk| c.data@.len() as int)
    }

    /// How far each chunk is filled.
    pub closed spec fn fills(&self) -> Seq<int> {
        self.chunks@.map_values(|c: Chunk| c.pos as int)
    }

    /// The bytes of chunk `i`.
    pub closed spec fn contents(&self, i: int) -> Seq<u8> {
        self.chunks@[i].data@
    }

    /// Index of the chunk allocations are taken from.
    pub closed spec fn current_chunk(&self) -> int {
        self.current as int
    }

    /// Size of a new chunk.
    pub closed spec fn min_chunk(&self) -> int {
        self.chunk_size as int
    }

    /// Bytes asked for since the last reset.
    pub closed spec fn allocated(&self) -> int {
        self.total_allocated as int
    }

    /// Allocations since the last reset.
    pub closed spec fn allocations(&self) -> int {
        self.alloc_count as int
    }

    /// Bytes the arena holds in all.
    pub open spec fn reserved(&self) -> int {
        total(self.capacities())
    }

    /// The bookkeeping is consistent: fills within capacities, a current chunk, a chunk
    /// size within limits, and all chunks together within the address space.
    pub closed spec fn wf(&self) -> bool {
        &&& chunks_ok(self.capacities(), self.fills(), self.current as int)
        &&& MIN_CHUNK_SIZE <= self.chunk_size <= max_chunk()
        &&& self.reserved() <= usize::MAX
    }

    /// Arena with the default chunk size.
    pub fn new() -> (r: Self)
        ensures
            r.capacities() == seq![DEFAULT_CHUNK_SIZE as int],
            r.fills() == seq![0int],
            r.current_chunk() == 0,
            r.min_chunk() == DEFAULT_CHUNK_SIZE,
            r.allocated() == 0,
            r.allocations() == 0,
            r.wf(),
    {
        Self::with_capacity(DEFAULT_CHUNK_SIZE)
    }

    /// Arena whose chunks hold at least `chunk_size` bytes (and at least `MIN_CHUNK_SIZE`).
    pub fn with_capacity(chunk_size: usize) -> (r: Self)
        requires
            chunk_size <= max_chunk(),
        ensures
            r.min_chunk() == (if chunk_size < MIN_CHUNK_SIZE { MIN_CHUNK_SIZE } else { chunk_size }),
            r.capacities() == seq![r.min_chunk()],
            r.fills() == seq![0int],
            r.current_chunk() == 0,
            r.allocated() == 0,
            r.allocations() == 0,
            r.wf(),
    {
        let chunk_size = if chunk_size < MIN_CHUNK_SIZE { MIN_CHUNK_SIZE } else { chunk_size };
        let mut chunks: Vec<Chunk> = Vec::new();
        chunks.push(Chunk { data: vec![0u8; chunk_size], pos: 0 });
        proof {
            let caps = chunks@.map_values(|c: Chunk| c.data@.len() as int);
            assert(caps =~= seq![chunk_size as int]);
            assert(caps =~= Seq::<int>::empty().push(chunk_size as int));
            lemma_total_push(Seq::<int>::empty(), chunk_size as int);
            assert(chunks@.map_values(|c: Chunk| c.pos as int) =~= seq![0int]);
        }
        let r = Arena { chunks, current: 0, chunk_size, total_allocated: 0, alloc_count: 0 };
        r
    }

    /// An allocation of `size` bytes aligned to `align` needs a new chunk.
    pub open spec fn needs_chunk(&self, size: int, align: int) -> bool {
        target_chunk(self.capacities(), self.fills(), self.current_chunk(), size, align)
            >= self.capacities().len()
    }

    /// What an allocation of `size` bytes aligned to `align` asks of the arena: a valid
    /// layout, counters that do not overflow, and, where a chunk has to be added, a chunk
    /// that can be laid out and that keeps the arena within the address space.
    pub open spec fn can_alloc(&self, size: int, align: int) -> bool {
        &&& is_pow2(align)
        &&& size <= isize::MAX - (isize::MAX as int % align)
        &&& self.has_room_for(size, align)
    }

    /// The counters do not overflow on an allocation of `size` bytes aligned to `align`,
    /// and where it needs a new chunk, that chunk can be laid out and keeps the arena
    /// within the address space.
    pub open spec fn has_room_for(&self, size: int, align: int) -> bool {
        &&& self.allocated() + size <= usize::MAX
        &&& self.allocations() + 1 <= usize::MAX
        &&& self.needs_chunk(size, align) ==> {
            &&& size + MAX_ALIGN <= max_chunk()
            &&& self.reserved() + new_chunk_capacity(self.min_chunk(), size) <= usize::MAX
        }
    }

    /// The arena after an allocation of `size` bytes aligned to `align`: the allocation
    /// goes to `target_chunk` at `target_offset`, the counters grow by one allocation
    /// of `size` bytes.
    pub open spec fn allocated_from(&self, old: &Self, size: int, align: int, p: ArenaPtr) -> bool {
        let caps = old.capacities();
        let fills = old.fills();
        let cur = old.current_chunk();
        &&& p.chunk == target_chunk(caps, fills, cur, size, align)
        &&& p.offset == target_offset(caps, fills, cur, size, align)
        &&& self.capacities() == caps_after(caps, fills, cur, old.min_chunk(), size, align)
        &&& self.fills() == fills_after(caps, fills, cur, size, align)
        &&& self.current_chunk() == p.chunk
        &&& self.min_chunk() == old.min_chunk()
        &&& self.allocated() == old.allocated() + size
        &&& self.allocations() == old.allocations() + 1
        &&& forall|i: int| 0 <= i < caps.len() ==> self.contents(i) == old.contents(i)
        &&& p.chunk == caps.len() ==> self.contents(p.chunk as int).len() == self.capacities()[p.chunk as int]
    }

    /// Allocates `size` bytes aligned to `align` (at most `MAX_ALIGN`): from the current
    /// chunk if they fit there, else from the first later chunk with `size + align` bytes
    /// left, else from a new chunk of `max(chunk size, size + MAX_ALIGN)` bytes. The bytes
    /// handed out are fresh: they start at or after the chunk's fill mark, at a multiple of
    /// the alignment, and end within the chunk.
    pub fn alloc_layout(&mut self, size: usize, align: usize) -> (p: ArenaPtr)
        requires
            old(self).wf(),
            old(self).can_alloc(size as int, align as int),
        ensures
            final(self).wf(),
            final(self).allocated_from(old(self), size as int, align as int, p),
            p.chunk < old(self).capacities().len() ==> p.offset >= old(self).fills()[p.chunk as int],
            p.offset as int % effective_align(align as int) == 0,
            p.offset + size == final(self).fills()[p.chunk as int],
            p.offset + size <= final(self).capacities()[p.chunk as int],
    {
        proof {
            lemma_effective_align(align);
        }
        let a = if align < MAX_ALIGN { align } else { MAX_ALIGN };
        self.total_allocated = self.total_allocated + size;
        self.alloc_count = self.alloc_count + 1;
        let cur = self.current;
        let ghost caps = self.capacities();
        let ghost fills = self.fills();
        let ghost old_chunks = self.chunks@;
        proof {
            assert(caps[cur as int] == old_chunks[cur as int].data@.len());
            assert(fills[cur as int] == old_chunks[cur as int].pos);
            assert(0 <= fills[cur as int] <= caps[cur as int] <= max_chunk());
            lemma_align_up_bounds(fills[cur as int], a as int);
        }
        let got = self.chunks[cur].take(size, a);
        match got {
            Some(offset) => {
                proof {
                    assert(fits_at(caps[cur as int], fills[cur as int], size as int, a as int));
                    assert(self.capacities() =~= caps);
                    assert(self.fills() =~= fills.update(cur as int, offset + size));
                }
                ArenaPtr { chunk: cur, offset }
            },
            None => {
                proof {
                    assert(self.chunks@ =~= old_chunks.update(cur as int, self.chunks@[cur as int]));
                    assert(self.capacities() =~= caps);
                    assert(self.fills() =~= fills);
                }
                let p = self.grow(size, a);
                proof {
                    lemma_first_roomy_range(caps, fills, cur + 1, size as int, a as int);
                    let k = p.chunk as int;
                    if k < caps.len() {
                        assert(fills[k] <= caps[k] <= max_chunk());
                        lemma_align_up_bounds(fills[k], a as int);
                    } else {
                        assert(0int % (a as int) == 0);
                    }
                }
                p
            },
        }
    }

    /// Takes the allocation from a later chunk with room, or from a new chunk.
    fn grow(&mut self, size: usize, align: usize) -> (p: ArenaPtr)
        requires
            old(self).wf(),
            small_pow2(align as int),
            !fits_at(
                old(self).capacities()[old(self).current_chunk()],
                old(self).fills()[old(self).current_chunk()],
                size as int,
                align as int,
            ),
            first_roomy(old(self).capacities(), old(self).fills(), old(self).current_chunk() + 1, size as int, align as int)
                >= old(self).capacities().len() ==> {
                &&& size + MAX_ALIGN <= max_chunk()
                &&& old(self).reserved() + new_chunk_capacity(old(self).min_chunk(), size as int) <= usize::MAX
            },
        ensures
            final(self).wf(),
            ({
                let caps = old(self).capacities();
                let fills = old(self).fills();
                let k = first_roomy(caps, fills, old(self).current_chunk() + 1, size as int, align as int);
                &&& p.chunk == k
                &&& p.offset == (if k < caps.len() { align_up(fills[k], align as int) } else { 0 })
                &&& final(self).capacities() == (if k < caps.len() { caps } else {
                    caps.push(new_chunk_capacity(old(self).min_chunk(), size as int)) })
                &&& final(self).fills() == (if k < caps.len() { fills.update(k, p.offset + size) } else {
                    fills.push(size as int) })
                &&& final(self).current_chunk() == k
                &&& forall|i: int| 0 <= i < caps.len() ==> final(self).contents(i) == old(self).contents(i)
                &&& k == caps.len() ==> final(self).contents(k).len() == final(self).capacities()[k]
            }),
            final(self).min_chunk() == old(self).min_chunk(),
            final(self).allocated() == old(self).allocated(),
            final(self).allocations() == old(self).allocations(),
    {
        let ghost caps = self.capacities();
        let ghost fills = self.fills();
        let n = self.chunks.len();
        proof {
            assert(caps.len() == self.chunks@.len());
            assert(self.current < n);
        }
        let ghost from = self.current + 1;
        let mut i = self.current + 1;
        while i < self.chunks.len()
            invariant
                self.wf(),
                self.capacities() == caps,
                self.fills() == fills,
                self.current + 1 == from,
                from <= i <= caps.len(),
                small_pow2(align as int),
                forall|j: int| from <= j < i ==> !roomy(caps[j], fills[j], size as int, align as int),
                self.chunk_size == old(self).chunk_size,
                self.total_allocated == old(self).total_allocated,
                self.alloc_count == old(self).alloc_count,
                self.chunks@ == old(self).chunks@,
                self.current == old(self).current,
            decreases self.chunks.len() - i,
        {
            proof {
                assert(caps[i as int] == self.chunks@[i as int].data@.len());
                assert(fills[i as int] == self.chunks@[i as int].pos);
                assert(fills[i as int] <= caps[i as int]);
            }
            let room = self.chunks[i].data.len() - self.chunks[i].pos;
            if room >= size && room - size >= align {
                proof {
                    lemma_first_roomy_skip(caps, fills, from, i as int, size as int, align as int);
                    lemma_align_up_bounds(fills[i as int], align as int);
                }
                let ghost before = self.chunks@;
                self.current = i;
                let got = self.chunks[i].take(size, align);
                let offset = got.unwrap();
                proof {
                    assert(self.capacities() =~= caps);
                    assert(self.fills() =~= fills.update(i as int, offset + size));
                    assert forall|j: int| 0 <= j < caps.len() implies self.contents(j) == old(self).contents(j) by {
                        if j != i {
                            assert(self.chunks@[j] == before[j]);
                        }
                    }
                }
                return ArenaPtr { chunk: i, offset };
            }
            i = i + 1;
        }
        proof {
            lemma_first_roomy_skip(caps, fills, from, i as int, size as int, align as int);
        }
        let new_size = if self.chunk_size >= size + MAX_ALIGN { self.chunk_size } else { size + MAX_ALIGN };
        let mut chunk = Chunk { data: vec![0u8; new_size], pos: 0 };
        proof {
            lemma_align_up_bounds(0, align as int);
        }
        let offset = chunk.take(size, align).unwrap();
        let ghost before = self.chunks@;
        self.chunks.push(chunk);
        self.current = self.chunks.len() - 1;
        proof {
            assert(self.capacities() =~= caps.push(new_size as int));
            assert(self.fills() =~= fills.push(size as int));
            lemma_total_push(caps, new_size as int);
            assert forall|j: int| 0 <= j < caps.len() implies self.contents(j) == old(self).contents(j) by {
                assert(self.chunks@[j] == before[j]);
            }
        }
        ArenaPtr { chunk: self.current, offset }
    }

    /// Allocates room for one value of type `T`.
    pub fn allocate<T>(&mut self) -> (p: ArenaPtr)
        requires
            old(self).wf(),
            old(self).has_room_for(size_of::<T>() as int, align_of::<T>() as int),
        ensures
            final(self).wf(),
            final(self).allocated_from(old(self), size_of::<T>() as int, align_of::<T>() as int, p),
            p.chunk < old(self).capacities().len() ==> p.offset >= old(self).fills()[p.chunk as int],
            p.offset as int % effective_align(align_of::<T>() as int) == 0,
            p.offset + size_of::<T>() == final(self).fills()[p.chunk as int],
    {
        layout_for_type_is_valid::<T>();
        let size = core::mem::size_of::<T>();
        let align = core::mem::align_of::<T>();
        self.alloc_layout(size, align)
    }

    /// Allocates room for `len` values of type `T`.
    pub fn alloc_slice<T>(&mut self, len: usize) -> (r: ArenaSlice)
        requires
            old(self).wf(),
            size_of::<T>() * len <= isize::MAX - (isize::MAX as int % align_of::<T>() as int),
            old(self).has_room_for(size_of::<T>() * len, align_of::<T>() as int),
        ensures
            final(self).wf(),
            r.len == len,
            final(self).allocated_from(old(self), size_of::<T>() * len, align_of::<T>() as int, r.ptr),
    {
        layout_for_type_is_valid::<T>();
        let size = core::mem::size_of::<T>() * len;
        let align = core::mem::align_of::<T>();
        let ptr = self.alloc_layout(size, align);
        ArenaSlice { ptr, len }
    }

    /// Allocates `size` bytes with no alignment.
    pub fn alloc_bytes(&mut self, size: usize) -> (p: ArenaPtr)
        requires
            old(self).wf(),
            size <= isize::MAX,
            old(self).has_room_for(size as int, 1),
        ensures
            final(self).wf(),
            final(self).allocated_from(old(self), size as int, 1, p),
    {
        proof {
            reveal_with_fuel(is_pow2, 2);
        }
        self.alloc_layout(size, 1)
    }

    /// Releases all allocations at once: every chunk is kept, emptied, and the counters
    /// start again from zero.
    pub fn reset(&mut self)
        requires
            old(self).wf(),
        ensures
            final(self).wf(),
            final(self).capacities() == old(self).capacities(),
            final(self).fills() == Seq::new(old(self).fills().len(), |i: int| 0int),
            final(self).current_chunk() == 0,
            final(self).min_chunk() == old(self).min_chunk(),
            final(self).allocated() == 0,
            final(self).allocations() == 0,
            forall|i: int| 0 <= i < old(self).capacities().len() ==> final(self).contents(i) == old(self).contents(i),
    {
        let ghost caps = self.capacities();
        let ghost old_chunks = self.chunks@;
        let n = self.chunks.len();
        let mut i: usize = 0;
        while i < n
            invariant
                n == self.chunks@.len(),
                0 <= i <= n,
                self.capacities() == caps,
                self.chunks@.len() == old_chunks.len(),
                forall|j: int| 0 <= j < n ==> #[trigger] self.chunks@[j].data == old_chunks[j].data,
                forall|j: int| 0 <= j < i ==> #[trigger] self.chunks@[j].pos == 0,
                forall|j: int| i <= j < n ==> #[trigger] self.chunks@[j].pos == old_chunks[j].pos,
                self.chunk_size == old(self).chunk_size,
            decreases n - i,
        {
            self.chunks[i].pos = 0;
            proof {
                assert(self.capacities() =~= caps);
            }
            i = i + 1;
        }
        self.current = 0;
        self.total_allocated = 0;
        self.alloc_count = 0;
        proof {
            let old_fills = old(self).fills();
            assert(self.fills() =~= Seq::new(caps.len(), |i: int| 0int));
            assert(self.capacities().len() == old_chunks.len());
            assert forall|j: int| 0 <= j < caps.len() implies 0 <= #[trigger] self.fills()[j] <= caps[j] <= max_chunk() by {
                assert(old_fills[j] <= caps[j]);
            }
        }
    }

    /// Statistics: bytes and allocations since the last reset, total capacity and number
    /// of chunks.
    pub fn stats(&self) -> (r: ArenaStats)
        requires
            self.wf(),
        ensures
            r.total_allocated == self.allocated(),
            r.total_capacity == self.reserved(),
            r.alloc_count == self.allocations(),
            r.chunk_count == self.capacities().len(),
    {
        let ghost caps = self.capacities();
        let n = self.chunks.len();
        let mut total_capacity: usize = 0;
        let mut i: usize = 0;
        proof {
            assert forall|j: int| 0 <= j < caps.len() implies #[trigger] caps[j] >= 0 by {
                assert(self.fills()[j] <= caps[j]);
            }
        }
        while i < n
            invariant
                n == caps.len(),
                caps == self.capacities(),
                0 <= i <= n,
                total_capacity == total(caps.subrange(0, i as int)),
                total(caps) <= usize::MAX,
                forall|j: int| 0 <= j < caps.len() ==> #[trigger] caps[j] >= 0,
            decreases n - i,
        {
            proof {
                assert(caps.subrange(0, i + 1).drop_last() =~= caps.subrange(0, i as int));
                lemma_total_nonneg_bound(caps, i + 1);
            }
            total_capacity = total_capacity + self.chunks[i].data.len();
            i = i + 1;
        }
        proof {
            assert(caps.subrange(0, n as int) =~= caps);
        }
        ArenaStats {
            total_allocated: self.total_allocated,
            total_capacity,
            alloc_count: self.alloc_count,
            chunk_count: n,
        }
    }

    /// Copies `bytes` into the arena at `at`.
    pub fn write_bytes(&mut self, at: ArenaPtr, bytes: &[u8])
        requires
            old(self).wf(),
            at.chunk < old(self).capacities().len(),
            at.offset + bytes@.len() <= old(self).capacities()[at.chunk as int],
        ensures
            final(self).wf(),
            final(self).capacities() == old(self).capacities(),
            final(self).fills() == old(self).fills(),
            final(self).current_chunk() == old(self).current_chunk(),
            final(self).min_chunk() == old(self).min_chunk(),
            final(self).allocated() == old(self).allocated(),
            final(self).allocations() == old(self).allocations(),
            final(self).contents(at.chunk as int) == old(self).contents(at.chunk as int).subrange(0, at.offset as int)
                + bytes@ + old(self).contents(at.chunk as int).subrange(at.offset + bytes@.len(), old(self).contents(at.chunk as int).len() as int),
            forall|i: int| 0 <= i < old(self).capacities().len() && i != at.chunk ==> final(self).contents(i) == old(self).contents(i),
    {
        let ghost caps = self.capacities();
        let ghost fills = self.fills();
        let ghost old_chunks = self.chunks@;
        let c = at.chunk;
        proof {
            assert(caps[c as int] == old_chunks[c as int].data@.len());
            assert(fills[c as int] <= caps[c as int] <= max_chunk());
        }
        let mut k: usize = 0;
        while k < bytes.len()
            invariant
                0 <= k <= bytes@.len(),
                c < old_chunks.len(),
                at.offset + bytes@.len() <= old_chunks[c as int].data@.len() <= max_chunk(),
                self.chunks@.len() == old_chunks.len(),
                forall|j: int| 0 <= j < old_chunks.len() && j != c ==> #[trigger] self.chunks@[j] == old_chunks[j],
                self.chunks@[c as int].pos == old_chunks[c as int].pos,
                self.chunks@[c as int].data@ == old_chunks[c as int].data@.subrange(0, at.offset as int)
                    + bytes@.subrange(0, k as int)
                    + old_chunks[c as int].data@.subrange(at.offset + k, old_chunks[c as int].data@.len() as int),
                self.current == old(self).current,
                self.chunk_size == old(self).chunk_size,
                self.total_allocated == old(self).total_allocated,
                self.alloc_count == old(self).alloc_count,
            decreases bytes@.len() - k,
        {
            self.chunks[c].data.set(at.offset + k, bytes[k]);
            proof {
                let d = old_chunks[c as int].data@;
                assert(self.chunks@[c as int].data@ =~= d.subrange(0, at.offset as int)
                    + bytes@.subrange(0, k + 1)
                    + d.subrange(at.offset + k + 1, d.len() as int));
            }
            k = k + 1;
        }
        proof {
            assert(bytes@.subrange(0, bytes@.len() as int) =~= bytes@);
            assert(self.capacities() =~= caps);
            assert(self.fills() =~= fills);
        }
    }

    /// A copy of `len` bytes of the arena at `at`.
    pub fn read_bytes(&self, at: ArenaPtr, len: usize) -> (r: Vec<u8>)
        requires
            self.wf(),
            at.chunk < self.capacities().len(),
            at.offset + len <= self.capacities()[at.chunk as int],
        ensures
            r@ == self.contents(at.chunk as int).subrange(at.offset as int, at.offset + len),
    {
        let c = at.chunk;
        let ghost d = self.chunks@[c as int].data@;
        proof {
            assert(self.capacities()[c as int] == d.len());
            assert(self.fills()[c as int] <= self.capacities()[c as int] <= max_chunk());
        }
        let mut out: Vec<u8> = Vec::with_capacity(len);
        let mut k: usize = 0;
        while k < len
            invariant
                0 <= k <= len,
                c < self.chunks@.len(),
                d == self.chunks@[c as int].data@,
                at.offset + len <= d.len() <= max_chunk(),
                out@ == d.subrange(at.offset as int, at.offset + k),
            decreases len - k,
        {
            out.push(self.chunks[c].data[at.offset + k]);
            proof {
                assert(out@ =~= d.subrange(at.offset as int, at.offset + k + 1));
            }
            k = k + 1;
        }
        out
    }
}

impl Default for Arena {
    fn default() -> (r: Self)
        ensures
            r.wf(),
            r.capacities() == seq![DEFAULT_CHUNK_SIZE as int],
            r.fills() == seq![0int],
            r.min_chunk() == DEFAULT_CHUNK_SIZE,
            r.allocated() == 0,
            r.allocations() == 0,
    {
        Arena::new()
    }
}

} // verus!

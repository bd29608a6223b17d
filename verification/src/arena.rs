//! Bump placement in an arena of chunks.
//!
//! An arena hands out addresses from its newest chunk, one after the other,
//! each aligned as asked. It never takes a single allocation back; a reset
//! releases them all at once and starts again in the newest chunk. The
//! arena keeps the addresses; the memory behind them belongs to whoever
//! made the chunks.

use vstd::arithmetic::div_mod::{lemma_fundamental_div_mod, lemma_mod_multiples_basic};
use vstd::prelude::*;

verus! {

/// The least size of a chunk.
pub const CHUNK_SIZE: usize = 65536;

/// The lowest address at or above `p` that is a multiple of `align`.
pub open spec fn align_up(p: int, align: int) -> int {
    if p % align == 0 {
        p
    } else {
        p + (align - p % align)
    }
}

/// `align_up` gives a multiple of the alignment, less than one alignment
/// above the address.
pub proof fn lemma_align_up(p: int, align: int)
    requires
        0 <= p,
        0 < align,
    ensures
        align_up(p, align) % align == 0,
        p <= align_up(p, align) < p + align,
{
    lemma_fundamental_div_mod(p, align);
    let rem = p % align;
    if rem != 0 {
        lemma_mod_multiples_basic(p / align + 1, align);
        assert(p + (align - rem) == (p / align + 1) * align) by (nonlinear_arith)
            requires
                p == align * (p / align) + rem,
        ;
    }
}

/// The bookkeeping of an arena: the range of its newest chunk that is
/// still free, and how many chunks it holds on to.
pub struct Arena {
    /// The first address of the newest chunk.
    pub start: usize,
    /// The next free address of the newest chunk.
    pub ptr: usize,
    /// The address after the newest chunk.
    pub end: usize,
    /// The number of chunks that the arena holds on to.
    pub chunks: usize,
}

impl Arena {
    /// The free range lies within the newest chunk; without a chunk it is empty.
    pub open spec fn wf(&self) -> bool {
        &&& self.start <= self.ptr <= self.end
        &&& self.chunks == 0 ==> self.start == 0 && self.end == 0
    }

    /// An arena without a chunk.
    pub fn new() -> (arena: Self)
        ensures
            arena.wf(),
            arena.chunks == 0,
            arena.ptr == 0,
            arena.end == 0,
    {
        Arena { start: 0, ptr: 0, end: 0, chunks: 0 }
    }

    /// Releases every allocation at once: the arena lets go of all chunks
    /// but the newest and starts again at its first address.
    pub fn reset(&mut self)
        requires
            old(self).wf(),
        ensures
            final(self).wf(),
            final(self).ptr == old(self).start,
            final(self).start == old(self).start,
            final(self).end == old(self).end,
            final(self).chunks == (if old(self).chunks == 0 {
                0usize
            } else {
                1usize
            }),
    {
        self.ptr = self.start;
        if self.chunks > 0 {
            self.chunks = 1;
        }
    }

    /// The size of the chunk to make for an allocation that the newest
    /// chunk has no room for: room for the allocation wherever the chunk
    /// begins, and not less than the least size. `None` where no size is
    /// large enough.
    pub fn chunk_size_for(size: usize, align: usize) -> (r: Option<usize>)
        ensures
            size + align > usize::MAX ==> r.is_none(),
            size + align <= usize::MAX ==> r == Some(
                if size + align > CHUNK_SIZE {
                    (size + align) as usize
                } else {
                    CHUNK_SIZE
                },
            ),
    {
        match size.checked_add(align) {
            Some(needed) => {
                if needed > CHUNK_SIZE {
                    Some(needed)
                } else {
                    Some(CHUNK_SIZE)
                }
            },
            None => None,
        }
    }

    /// Takes over a new chunk of `len` bytes at the address `base`; the
    /// chunks from before stay until the next reset.
    pub fn adopt_chunk(&mut self, base: usize, len: usize)
        requires
            old(self).wf(),
            base + len <= usize::MAX,
            old(self).chunks < usize::MAX,
        ensures
            final(self).wf(),
            final(self).start == base,
            final(self).ptr == base,
            final(self).end == base + len,
            final(self).chunks == old(self).chunks + 1,
    {
        self.start = base;
        self.ptr = base;
        self.end = base + len;
        self.chunks = self.chunks + 1;
    }

    /// Places `size` bytes at the lowest free address of the newest chunk
    /// that is a multiple of `align`, and gives that address. Where the
    /// chunk has no room left for them, nothing changes.
    pub fn allocate(&mut self, size: usize, align: usize) -> (r: Option<usize>)
        requires
            old(self).wf(),
            align > 0,
        ensures
            final(self).wf(),
            final(self).start == old(self).start,
            final(self).end == old(self).end,
            final(self).chunks == old(self).chunks,
            r.is_some() <==> align_up(old(self).ptr as int, align as int) + size <= old(self).end,
            r.is_some() ==> r.unwrap() == align_up(old(self).ptr as int, align as int) && final(self).ptr
                == r.unwrap() + size,
            r.is_none() ==> final(self).ptr == old(self).ptr,
    {
        let rem: usize = self.ptr % align;
        let pad: usize = if rem == 0 {
            0
        } else {
            align - rem
        };
        proof {
            lemma_align_up(self.ptr as int, align as int);
        }
        let fits = match self.ptr.checked_add(pad) {
            Some(aligned) => match aligned.checked_add(size) {
                Some(next) => next <= self.end,
                None => false,
            },
            None => false,
        };
        if !fits {
            return None;
        }
        let aligned: usize = self.ptr + pad;
        self.ptr = aligned + size;
        Some(aligned)
    }
}

impl Default for Arena {
    fn default() -> (arena: Self)
        ensures
            arena.wf(),
            arena.chunks == 0,
    {
        Arena::new()
    }
}

} // verus!

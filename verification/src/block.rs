//! Blocks of the pool: free blocks, and the blocks that live allocations occupy.

use crate::align::{align_up, is_aligned, lemma_align_up_is_least, padding_to};
use vstd::prelude::*;

verus! {

/// Bytes taken at the start of every block by its header.
pub const HEADER_SIZE: usize = 16;

/// The address that stands for "no memory": what a failed allocation returns.
pub const NULL: usize = 0;

/// A block of unused memory: the bytes `[addr, addr + size)`, header included.
#[derive(Clone, Copy, Debug, PartialEq, Eq, Structural)]
pub struct FreeBlock {
    pub addr: usize,
    pub size: usize,
}

/// A block handed out to a caller.
///
/// The block is `[start, start + span)`. It begins with the header, then the
/// padding that alignment asked for, then the `size` bytes at `ptr` that the
/// caller owns, then slack too short to make a free block of.
#[derive(Clone, Copy, Debug, PartialEq, Eq, Structural)]
pub struct Allocation {
    pub start: usize,
    pub span: usize,
    pub ptr: usize,
    pub size: usize,
    pub align: usize,
}

impl FreeBlock {
    /// One past the last byte of the block.
    pub open spec fn end(self) -> int {
        self.addr + self.size
    }

    /// The block holds at least a header and lies within the address space.
    pub open spec fn wf(self) -> bool {
        self.size >= HEADER_SIZE && self.end() <= usize::MAX
    }

    /// Whether the two blocks share a byte.
    pub open spec fn overlaps(self, other: FreeBlock) -> bool {
        self.addr < other.end() && other.addr < self.end()
    }

    /// Whether the block lies inside `[lo, hi)`.
    pub open spec fn within(self, lo: int, hi: int) -> bool {
        lo <= self.addr && self.end() <= hi
    }

    /// The lowest address after the header that is a multiple of `align`.
    pub open spec fn payload(self, align: int) -> int {
        align_up(self.addr + HEADER_SIZE, align)
    }

    /// Whether `size` bytes aligned to `align` can be placed in the block after its header.
    pub open spec fn fits(self, size: int, align: int) -> bool {
        align > 0 && self.payload(align) + size <= self.end()
    }

    /// Bytes that a request consumes: header, padding and payload.
    pub open spec fn used(self, size: int, align: int) -> int {
        self.payload(align) - self.addr + size
    }

    /// Whether what a request leaves over is enough for a free block of its own.
    pub open spec fn splits(self, size: int, align: int) -> bool {
        self.size - self.used(size, align) >= HEADER_SIZE
    }

    /// The free block that is left behind the payload when the block is split.
    pub open spec fn remainder(self, size: int, align: int) -> FreeBlock {
        FreeBlock {
            addr: (self.payload(align) + size) as usize,
            size: (self.size - self.used(size, align)) as usize,
        }
    }

    /// The allocation that a request is granted from this block: the consumed
    /// prefix when the block is split, the whole block otherwise.
    pub open spec fn granted(self, size: int, align: int) -> Allocation {
        Allocation {
            start: self.addr,
            span: if self.splits(size, align) {
                self.used(size, align) as usize
            } else {
                self.size
            },
            ptr: self.payload(align) as usize,
            size: size as usize,
            align: align as usize,
        }
    }

    /// The address at which a request would be placed in this block, if it fits.
    pub fn place(&self, size: usize, align: usize) -> (r: Option<usize>)
        requires
            self.wf(),
        ensures
            r is Some <==> self.fits(size as int, align as int),
            r matches Some(p) ==> p == self.payload(align as int),
    {
        if align == 0 {
            return None;
        }
        let first: usize = self.addr + HEADER_SIZE;
        let room: usize = self.size - HEADER_SIZE;
        let pad: usize = padding_to(first, align);
        if pad <= room && size <= room - pad {
            Some(first + pad)
        } else {
            None
        }
    }

    /// Cuts a request out of the block: the allocation granted, and the free
    /// block that remains, if what is left over can hold a header.
    pub fn carve(&self, size: usize, align: usize) -> (r: (Allocation, Option<FreeBlock>))
        requires
            self.wf(),
            self.fits(size as int, align as int),
        ensures
            r.0 == self.granted(size as int, align as int),
            r.1 == if self.splits(size as int, align as int) {
                Some(self.remainder(size as int, align as int))
            } else {
                None::<FreeBlock>
            },
    {
        let first: usize = self.addr + HEADER_SIZE;
        let ptr: usize = first + padding_to(first, align);
        let used: usize = ptr - self.addr + size;
        let rest: usize = self.size - used;
        if rest >= HEADER_SIZE {
            (
                Allocation { start: self.addr, span: used, ptr, size, align },
                Some(FreeBlock { addr: ptr + size, size: rest }),
            )
        } else {
            (Allocation { start: self.addr, span: self.size, ptr, size, align }, None)
        }
    }
}

impl Allocation {
    /// One past the last byte of the block that the allocation occupies.
    pub open spec fn end(self) -> int {
        self.start + self.span
    }

    /// The block that goes back to the free list when the allocation is released.
    pub open spec fn block(self) -> FreeBlock {
        FreeBlock { addr: self.start, size: self.span }
    }

    /// The payload sits aligned behind the header, inside the block, and the
    /// slack behind it is shorter than a header.
    pub open spec fn wf(self) -> bool {
        &&& self.align > 0
        &&& self.block().wf()
        &&& self.ptr == self.block().payload(self.align as int)
        &&& self.ptr + self.size <= self.end()
        &&& self.end() - (self.ptr + self.size) < HEADER_SIZE
    }

    /// Whether a release with these parameters names this allocation.
    pub open spec fn matches(self, ptr: int, size: int, align: int) -> bool {
        self.ptr == ptr && self.size == size && self.align == align
    }

    /// Whether the blocks of the two allocations share a byte.
    pub open spec fn overlaps(self, other: Allocation) -> bool {
        self.block().overlaps(other.block())
    }
}

/// What is cut out of a block that a request fits in is a well-formed
/// allocation at the start of the block, its address a multiple of the
/// alignment; what remains, if anything, is a well-formed free block that
/// begins where the allocation ends and ends where the block ended.
pub proof fn lemma_carve(b: FreeBlock, size: int, align: int)
    requires
        b.wf(),
        0 <= size <= usize::MAX,
        0 < align <= usize::MAX,
        b.fits(size, align),
    ensures
        b.granted(size, align).wf(),
        b.granted(size, align).start == b.addr,
        is_aligned(b.granted(size, align).ptr as int, align),
        b.granted(size, align).ptr >= b.addr + HEADER_SIZE,
        b.granted(size, align).matches(b.payload(align), size, align),
        b.splits(size, align) ==> {
            &&& b.remainder(size, align).wf()
            &&& b.remainder(size, align).addr == b.granted(size, align).end()
            &&& b.remainder(size, align).end() == b.end()
        },
        !b.splits(size, align) ==> b.granted(size, align).end() == b.end(),
{
    lemma_align_up_is_least(b.addr + HEADER_SIZE, align);
}

} // verus!

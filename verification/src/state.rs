//! The allocator as a mathematical state, and the steps that take one state
//! to the next.

use crate::block::{Allocation, FreeBlock, HEADER_SIZE, NULL};
use crate::free_list::{first_fit, holds, ordered, released, taken, total};
use vstd::prelude::*;

verus! {

/// What an allocator holds: the pool `[pool_start, pool_start + pool_size)`,
/// the free list, and the allocations that are live.
pub struct PoolState {
    pub pool_start: int,
    pub pool_size: int,
    pub initialized: bool,
    pub locked: bool,
    pub free: Seq<FreeBlock>,
    pub live: Seq<Allocation>,
}

/// The blocks that the allocations occupy.
pub open spec fn blocks_of(live: Seq<Allocation>) -> Seq<FreeBlock> {
    live.map_values(|a: Allocation| a.block())
}

/// Whether address `x` lies in a block, be it one of the free blocks or the
/// block of one of the live allocations.
pub open spec fn covers(free: Seq<FreeBlock>, live: Seq<Allocation>, x: int) -> bool {
    holds(free, x) || holds(blocks_of(live), x)
}

/// `j` is the index of the first live allocation that a release with these
/// parameters names.
pub open spec fn is_first_match(
    live: Seq<Allocation>,
    ptr: int,
    size: int,
    align: int,
    j: int,
) -> bool {
    &&& 0 <= j < live.len()
    &&& live[j].matches(ptr, size, align)
    &&& forall|i: int| 0 <= i < j ==> !(#[trigger] live[i]).matches(ptr, size, align)
}

/// Whether a release with these parameters names a live allocation.
pub open spec fn is_live(live: Seq<Allocation>, ptr: int, size: int, align: int) -> bool {
    exists|j: int| 0 <= j < live.len() && (#[trigger] live[j]).matches(ptr, size, align)
}

/// The index of the live allocation that a release with these parameters
/// names; `None` when it names none.
pub open spec fn find_live(live: Seq<Allocation>, ptr: int, size: int, align: int) -> Option<int> {
    if is_live(live, ptr, size, align) {
        Some(choose|j: int| is_first_match(live, ptr, size, align, j))
    } else {
        None
    }
}

impl PoolState {
    /// One past the last address of the pool.
    pub open spec fn end(self) -> int {
        self.pool_start + self.pool_size
    }

    /// The number of bytes in free blocks.
    pub open spec fn free_bytes(self) -> int {
        total(self.free)
    }

    /// The number of bytes in the blocks of live allocations: their headers,
    /// padding, payload and slack.
    pub open spec fn live_bytes(self) -> int {
        total(blocks_of(self.live))
    }

    /// Whether address `x` lies in a block, free or live.
    pub open spec fn covers(self, x: int) -> bool {
        covers(self.free, self.live, x)
    }

    /// Whether the blocks leave no gap: every address of the pool lies in one.
    pub open spec fn tiled(self) -> bool {
        forall|x: int|
            self.pool_start <= x < self.end() ==> #[trigger] covers(self.free, self.live, x)
    }

    /// The invariant of the allocator.
    ///
    /// Before initialisation there are no blocks. After it, the free list is
    /// ordered, every block lies in the pool, every live allocation is well
    /// formed, no two blocks share a byte, be they free or live, every
    /// address of the pool lies in a block, and the blocks together hold as
    /// many bytes as the pool.
    pub open spec fn wf(self) -> bool {
        &&& ordered(self.free)
        &&& forall|i: int|
            0 <= i < self.free.len() ==> (#[trigger] self.free[i]).within(
                self.pool_start,
                self.end(),
            )
        &&& forall|j: int|
            0 <= j < self.live.len() ==> {
                &&& (#[trigger] self.live[j]).wf()
                &&& self.live[j].block().within(self.pool_start, self.end())
            }
        &&& forall|i: int, j: int|
            #![trigger self.live[i], self.live[j]]
            0 <= i < j < self.live.len() ==> !self.live[i].overlaps(self.live[j])
        &&& forall|i: int, j: int|
            #![trigger self.free[i], self.live[j]]
            0 <= i < self.free.len() && 0 <= j < self.live.len() ==> !self.free[i].overlaps(
                self.live[j].block(),
            )
        &&& if self.initialized {
            &&& self.pool_start > 0
            &&& self.pool_size >= HEADER_SIZE
            &&& self.end() <= usize::MAX
            &&& self.free_bytes() + self.live_bytes() == self.pool_size
            &&& self.tiled()
        } else {
            self.free.len() == 0 && self.live.len() == 0
        }
    }

    /// The state of an allocator that has been made for a pool and not yet
    /// initialised.
    pub open spec fn created(pool_start: int, pool_size: int) -> PoolState {
        PoolState {
            pool_start,
            pool_size,
            initialized: false,
            locked: false,
            free: Seq::empty(),
            live: Seq::empty(),
        }
    }

    /// Whether the allocator may be initialised: it has not been, its pool
    /// does not start at the null address, can hold a header, and ends within
    /// the address space.
    pub open spec fn can_init(self) -> bool {
        &&& !self.initialized
        &&& self.pool_start > 0
        &&& self.pool_size >= HEADER_SIZE
        &&& self.end() <= usize::MAX
    }

    /// The state after initialisation: one free block that spans the pool.
    pub open spec fn init(self) -> PoolState {
        PoolState {
            initialized: true,
            free: seq![FreeBlock { addr: self.pool_start as usize, size: self.pool_size as usize }],
            live: Seq::empty(),
            ..self
        }
    }

    /// The state after the request has been cut out of free block `i`.
    pub open spec fn granted_at(self, i: int, size: int, align: int) -> PoolState {
        PoolState {
            free: taken(self.free, i, size, align),
            live: self.live.push(self.free[i].granted(size, align)),
            ..self
        }
    }

    /// A search for a block: the state after it and the address it yields.
    ///
    /// The request goes to the first free block, from the lowest address up,
    /// that it fits in, and yields the aligned address behind that block's
    /// header. When it fits in no block the state stays as it is and the
    /// address is null.
    pub open spec fn find_fit(self, size: int, align: int) -> (PoolState, int) {
        match first_fit(self.free, size, align) {
            Some(i) => (self.granted_at(i, size, align), self.free[i].payload(align)),
            None => (self, NULL as int),
        }
    }

    /// An allocation: a search for a block inside the exclusive section. When
    /// the section is held already, the allocation fails at once.
    pub open spec fn allocate(self, size: int, align: int) -> (PoolState, int) {
        if self.locked {
            (self, NULL as int)
        } else {
            self.find_fit(size, align)
        }
    }

    /// The state after live allocation `j` has been given back to the free list.
    pub open spec fn released_at(self, j: int) -> PoolState {
        PoolState {
            free: released(self.free, self.live[j].block()),
            live: self.live.remove(j),
            ..self
        }
    }

    /// A release. The block of the live allocation that the parameters name
    /// goes back to the free list. The state stays as it is when they name
    /// none, and when the exclusive section is held already.
    pub open spec fn dealloc(self, ptr: int, size: int, align: int) -> PoolState {
        if self.locked {
            self
        } else {
            match find_live(self.live, ptr, size, align) {
                Some(j) => self.released_at(j),
                None => self,
            }
        }
    }
}

} // verus!

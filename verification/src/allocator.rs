//! The allocator: a pool, its free list, its live allocations and its guard.

use crate::block::{Allocation, FreeBlock, HEADER_SIZE, NULL};
use crate::free_list::{has_fit, total, FreeList};
use crate::free_list_lemmas::{lemma_slot_unique, lemma_total_nonneg, lemma_total_prefix};
use crate::guard::Guard;
use crate::state::{blocks_of, find_live, is_first_match, is_live, PoolState};
use crate::state_lemmas::{
    lemma_find_fit, lemma_first_match_unique, lemma_granted_at_wf, lemma_init_wf,
    lemma_live_in_pool, lemma_release_premises, lemma_released_at_wf,
};
use vstd::prelude::*;

verus! {

/// A first-fit allocator over the pool `[pool_start, pool_start + pool_size)`.
///
/// It hands out addresses and never touches the bytes behind them. What it
/// knows of the pool it keeps in two tables: the free list, and the blocks
/// of the allocations that are live.
pub struct FreeListAllocator {
    free_list: FreeList,
    live: Vec<Allocation>,
    pool_start: usize,
    pool_size: usize,
    initialized: bool,
    guard: Guard,
}

impl View for FreeListAllocator {
    type V = PoolState;

    closed spec fn view(&self) -> PoolState {
        PoolState {
            pool_start: self.pool_start as int,
            pool_size: self.pool_size as int,
            initialized: self.initialized,
            locked: self.guard.is_held(),
            free: self.free_list@,
            live: self.live@,
        }
    }
}

impl FreeListAllocator {
    /// The allocator keeps its invariant.
    pub open spec fn wf(&self) -> bool {
        self@.wf()
    }

    /// An allocator for the pool of `pool_size` bytes at `pool_start`. It has
    /// no block to give until `init` has run.
    pub fn new(pool_start: usize, pool_size: usize) -> (a: FreeListAllocator)
        ensures
            a@ == PoolState::created(pool_start as int, pool_size as int),
            a.wf(),
    {
        FreeListAllocator {
            free_list: FreeList::new(),
            live: Vec::new(),
            pool_start,
            pool_size,
            initialized: false,
            guard: Guard::new(),
        }
    }

    /// The first address of the pool.
    pub fn pool_start(&self) -> (a: usize)
        ensures
            a == self@.pool_start,
    {
        self.pool_start
    }

    /// The number of bytes in the pool.
    pub fn pool_size(&self) -> (n: usize)
        ensures
            n == self@.pool_size,
    {
        self.pool_size
    }

    /// Whether `init` has run.
    pub fn is_initialized(&self) -> (b: bool)
        ensures
            b == self@.initialized,
    {
        self.initialized
    }

    /// Whether `init` may run: it has not yet, and the pool does not start at
    /// the null address, can hold a header, and ends within the address space.
    pub fn can_init(&self) -> (b: bool)
        ensures
            b == self@.can_init(),
    {
        !self.initialized && self.pool_start > 0 && self.pool_size >= HEADER_SIZE
            && self.pool_size <= usize::MAX - self.pool_start
    }

    /// Whether the exclusive section is held.
    pub fn is_locked(&self) -> (b: bool)
        ensures
            b == self@.locked,
    {
        self.guard.held()
    }

    /// Enters the exclusive section if it is free, and says whether it did.
    /// While the section is held, `allocate` and `dealloc` fail at once.
    pub fn try_lock(&mut self) -> (entered: bool)
        ensures
            entered == !old(self)@.locked,
            final(self)@ == (PoolState { locked: true, ..old(self)@ }),
            old(self).wf() ==> final(self).wf(),
    {
        self.guard.try_acquire()
    }

    /// Leaves the exclusive section.
    pub fn unlock(&mut self)
        ensures
            final(self)@ == (PoolState { locked: false, ..old(self)@ }),
            old(self).wf() ==> final(self).wf(),
    {
        self.guard.release()
    }

    /// The free list, lowest address first.
    pub fn free_blocks(&self) -> (v: Vec<FreeBlock>)
        ensures
            v@ == self@.free,
    {
        self.free_list.to_vec()
    }

    /// The live allocations, oldest first.
    pub fn live_allocations(&self) -> (v: Vec<Allocation>)
        ensures
            v@ == self@.live,
    {
        let n: usize = self.live.len();
        let mut v: Vec<Allocation> = Vec::new();
        let mut i: usize = 0;
        while i < n
            invariant
                n == self.live@.len(),
                i <= n,
                v@ == self.live@.subrange(0, i as int),
            decreases n - i,
        {
            v.push(self.live[i]);
            i += 1;
            assert(v@ =~= self.live@.subrange(0, i as int));
        }
        assert(v@ =~= self.live@);
        v
    }

    /// The number of bytes in free blocks.
    pub fn free_bytes(&self) -> (n: usize)
        requires
            self.wf(),
        ensures
            n == self@.free_bytes(),
    {
        proof {
            lemma_total_nonneg(self@.free);
            lemma_total_nonneg(blocks_of(self@.live));
        }
        self.free_list.bytes()
    }

    /// The number of bytes in the blocks of live allocations.
    pub fn live_bytes(&self) -> (n: usize)
        requires
            self.wf(),
        ensures
            n == self@.live_bytes(),
    {
        proof {
            lemma_total_nonneg(self@.free);
            lemma_total_nonneg(blocks_of(self@.live));
        }
        let ghost blocks = blocks_of(self@.live);
        let len: usize = self.live.len();
        let mut n: usize = 0;
        let mut i: usize = 0;
        while i < len
            invariant
                len == self.live@.len(),
                blocks == blocks_of(self.live@),
                i <= len,
                n == total(blocks.subrange(0, i as int)),
                total(blocks) <= usize::MAX,
            decreases len - i,
        {
            proof {
                lemma_total_prefix(blocks, i as int);
            }
            n = n + self.live[i].span;
            i += 1;
        }
        assert(blocks.subrange(0, len as int) =~= blocks);
        n
    }

    /// Makes the whole pool one free block.
    pub fn init(&mut self)
        requires
            old(self).wf(),
            old(self)@.can_init(),
        ensures
            final(self).wf(),
            final(self)@ == old(self)@.init(),
    {
        proof {
            lemma_init_wf(self@);
            lemma_slot_unique(self.free_list@, self.pool_start as int, 0);
        }
        self.free_list.insert(FreeBlock { addr: self.pool_start, size: self.pool_size });
        self.initialized = true;
        assert(self@.free =~= old(self)@.init().free);
        assert(self@.live =~= old(self)@.init().live);
    }

    /// Searches the free list for the first block that the request fits in,
    /// and cuts the request out of it.
    fn find_fit(&mut self, size: usize, align: usize) -> (ptr: usize)
        requires
            old(self).wf(),
        ensures
            final(self).wf(),
            final(self)@ == old(self)@.find_fit(size as int, align as int).0,
            ptr == old(self)@.find_fit(size as int, align as int).1,
    {
        match self.free_list.first_fit(size, align) {
            Some(i) => {
                proof {
                    lemma_granted_at_wf(self@, i as int, size as int, align as int);
                }
                let a: Allocation = self.free_list.take(i, size, align);
                self.live.push(a);
                a.ptr
            },
            None => NULL,
        }
    }

    /// Looks for the live allocation that a release with these parameters names.
    fn find_live(&self, ptr: usize, size: usize, align: usize) -> (r: Option<usize>)
        ensures
            match r {
                Some(j) => is_first_match(
                    self@.live,
                    ptr as int,
                    size as int,
                    align as int,
                    j as int,
                ),
                None => find_live(self@.live, ptr as int, size as int, align as int) is None,
            },
    {
        let n: usize = self.live.len();
        let mut j: usize = 0;
        while j < n
            invariant
                n == self.live@.len(),
                j <= n,
                forall|i: int|
                    0 <= i < j ==> !(#[trigger] self.live@[i]).matches(
                        ptr as int,
                        size as int,
                        align as int,
                    ),
            decreases n - j,
        {
            let a: Allocation = self.live[j];
            if a.ptr == ptr && a.size == size && a.align == align {
                return Some(j);
            }
            j += 1;
        }
        None
    }

    /// Whether a release with these parameters names a live allocation.
    pub fn is_live(&self, ptr: usize, size: usize, align: usize) -> (b: bool)
        ensures
            b == is_live(self@.live, ptr as int, size as int, align as int),
    {
        self.find_live(ptr, size, align).is_some()
    }

    /// Allocates `size` bytes at an address that is a multiple of `align`.
    ///
    /// Returns the address, or `NULL` when the request fits in no free block
    /// or the exclusive section is held. A call that returns `NULL` changes
    /// nothing. The alignment is a power of two as a rule, but any positive
    /// alignment is kept; an alignment of zero fits no block.
    pub fn allocate(&mut self, size: usize, align: usize) -> (ptr: usize)
        requires
            old(self).wf(),
        ensures
            final(self).wf(),
            final(self)@ == old(self)@.allocate(size as int, align as int).0,
            ptr == old(self)@.allocate(size as int, align as int).1,
            final(self)@.locked == old(self)@.locked,
            ptr == NULL <==> old(self)@.locked || !has_fit(
                old(self)@.free,
                size as int,
                align as int,
            ),
            ptr == NULL ==> final(self)@ == old(self)@,
            ptr != NULL ==> {
                &&& align > 0
                &&& ptr % align == 0
                &&& old(self)@.pool_start + HEADER_SIZE <= ptr
                &&& ptr + size <= old(self)@.end()
                &&& final(self)@.live.last().matches(ptr as int, size as int, align as int)
                &&& forall|j: int|
                    0 <= j < old(self)@.live.len() ==> {
                        let a = #[trigger] old(self)@.live[j];
                        ptr + size <= a.start || a.end() <= ptr
                    }
                &&& forall|i: int|
                    0 <= i < final(self)@.free.len() ==> {
                        let f = #[trigger] final(self)@.free[i];
                        ptr + size <= f.addr || f.end() <= ptr
                    }
            },
    {
        if !self.guard.try_acquire() {
            return NULL;
        }
        proof {
            lemma_find_fit(self@, size as int, align as int);
        }
        let ptr: usize = self.find_fit(size, align);
        self.guard.release();
        proof {
            if ptr != NULL {
                let t = self@;
                let n = t.live.len() - 1;
                lemma_live_in_pool(t, n);
                assert forall|j: int| 0 <= j < n implies {
                    let a = #[trigger] old(self)@.live[j];
                    ptr + size <= a.start || a.end() <= ptr
                } by {
                    assert(t.live[j] == old(self)@.live[j]);
                    assert(!t.live[j].overlaps(t.live[n]));
                }
                assert forall|i: int| 0 <= i < t.free.len() implies {
                    let f = #[trigger] t.free[i];
                    ptr + size <= f.addr || f.end() <= ptr
                } by {
                    assert(!t.free[i].overlaps(t.live[n].block()));
                }
            }
        }
        ptr
    }

    /// Releases the allocation of `size` bytes aligned to `align` at `ptr`.
    ///
    /// Its block goes back to the free list and is merged with the free
    /// blocks that it touches. A call that names no live allocation, or that
    /// finds the exclusive section held, changes nothing.
    pub fn dealloc(&mut self, ptr: usize, size: usize, align: usize)
        requires
            old(self).wf(),
        ensures
            final(self).wf(),
            final(self)@ == old(self)@.dealloc(ptr as int, size as int, align as int),
            final(self)@.locked == old(self)@.locked,
            final(self)@ != old(self)@ ==> !old(self)@.locked && is_live(
                old(self)@.live,
                ptr as int,
                size as int,
                align as int,
            ),
    {
        if !self.guard.try_acquire() {
            return;
        }
        match self.find_live(ptr, size, align) {
            Some(j) => {
                proof {
                    lemma_first_match_unique(
                        self@.live,
                        ptr as int,
                        size as int,
                        align as int,
                        j as int,
                    );
                    lemma_released_at_wf(self@, j as int);
                    lemma_release_premises(self@, j as int);
                }
                let a: Allocation = self.live.remove(j);
                self.free_list.insert(FreeBlock { addr: a.start, size: a.span });
            },
            None => {},
        }
        self.guard.release();
    }
}

} // verus!

//! What holds of the allocator over every sequence of calls.

use crate::align::{is_aligned, lemma_align_up_is_least};
use crate::block::{FreeBlock, HEADER_SIZE, NULL};
use crate::free_list::{first_fit, holds};
use crate::free_list_lemmas::{
    lemma_first_fit_exists, lemma_ordered_span, lemma_taken_released, lemma_total_small,
};
use crate::state::{blocks_of, PoolState};
use crate::state_lemmas::{
    lemma_dealloc, lemma_find_fit, lemma_init_wf, lemma_live_in_pool, lemma_newest_is_found,
};
use vstd::prelude::*;

verus! {

/// A request fits in a block exactly when the block holds an address, at or
/// behind the end of its header, that is a multiple of the alignment and has
/// `size` bytes of the block behind it.
pub proof fn lemma_fits(b: FreeBlock, size: int, align: int)
    requires
        b.wf(),
        0 < align,
    ensures
        b.fits(size, align) <==> exists|p: int|
            b.addr + HEADER_SIZE <= p && #[trigger] is_aligned(p, align) && b.end() - p >= size,
{
    lemma_align_up_is_least(b.addr + HEADER_SIZE, align);
    if b.fits(size, align) {
        assert(is_aligned(b.payload(align), align));
    }
}

/// A call on the allocator.
pub enum Call {
    Allocate { size: usize, align: usize },
    Release { ptr: usize, size: usize, align: usize },
}

/// The state after one call.
pub open spec fn step(s: PoolState, c: Call) -> PoolState {
    match c {
        Call::Allocate { size, align } => s.allocate(size as int, align as int).0,
        Call::Release { ptr, size, align } => s.dealloc(ptr as int, size as int, align as int),
    }
}

/// The state after a sequence of calls, made one after the other.
pub open spec fn run(s: PoolState, calls: Seq<Call>) -> PoolState
    decreases calls.len(),
{
    if calls.len() == 0 {
        s
    } else {
        step(run(s, calls.drop_last()), calls.last())
    }
}

/// The state of an allocator for the given pool once it has been initialised.
pub open spec fn fresh(pool_start: int, pool_size: int) -> PoolState {
    PoolState::created(pool_start, pool_size).init()
}

/// A freshly initialised allocator keeps the invariant, and its free list is
/// one block that spans the pool.
pub proof fn lemma_fresh(pool_start: int, pool_size: int)
    requires
        PoolState::created(pool_start, pool_size).can_init(),
    ensures
        fresh(pool_start, pool_size).wf(),
        fresh(pool_start, pool_size).free == seq![
            FreeBlock { addr: pool_start as usize, size: pool_size as usize },
        ],
        fresh(pool_start, pool_size).free[0].addr == pool_start,
        fresh(pool_start, pool_size).free[0].size == pool_size,
        fresh(pool_start, pool_size).live.len() == 0,
{
    lemma_init_wf(PoolState::created(pool_start, pool_size));
}

/// Every call keeps the invariant, leaves the pool where it is, and leaves
/// the exclusive section as it found it.
pub proof fn lemma_step(s: PoolState, c: Call)
    requires
        s.wf(),
    ensures
        step(s, c).wf(),
        step(s, c).pool_start == s.pool_start,
        step(s, c).pool_size == s.pool_size,
        step(s, c).initialized == s.initialized,
        step(s, c).locked == s.locked,
{
    match c {
        Call::Allocate { size, align } => {
            lemma_find_fit(s, size as int, align as int);
        },
        Call::Release { ptr, size, align } => {
            lemma_dealloc(s, ptr as int, size as int, align as int);
        },
    }
}

/// Every sequence of calls keeps the invariant, leaves the pool where it is,
/// and leaves the exclusive section as it found it.
pub proof fn lemma_run(s: PoolState, calls: Seq<Call>)
    requires
        s.wf(),
    ensures
        run(s, calls).wf(),
        run(s, calls).pool_start == s.pool_start,
        run(s, calls).pool_size == s.pool_size,
        run(s, calls).initialized == s.initialized,
        run(s, calls).locked == s.locked,
    decreases calls.len(),
{
    if calls.len() > 0 {
        lemma_run(s, calls.drop_last());
        lemma_step(run(s, calls.drop_last()), calls.last());
    }
}

/// No bytes are made or lost: after any sequence of calls on an initialised
/// allocator, the bytes in free blocks and the bytes in the blocks of live
/// allocations add up to the size of the pool.
pub proof fn lemma_conservation(s: PoolState, calls: Seq<Call>)
    requires
        s.wf(),
        s.initialized,
    ensures
        run(s, calls).free_bytes() + run(s, calls).live_bytes() == s.pool_size,
{
    lemma_run(s, calls);
}

/// After any sequence of calls, no two live allocations share a byte, and no
/// live allocation shares a byte with a free block.
pub proof fn lemma_live_disjoint(s: PoolState, calls: Seq<Call>)
    requires
        s.wf(),
    ensures
        forall|i: int, j: int|
            #![trigger run(s, calls).live[i], run(s, calls).live[j]]
            0 <= i < run(s, calls).live.len() && 0 <= j < run(s, calls).live.len() && i != j ==> {
                let a = run(s, calls).live[i];
                let b = run(s, calls).live[j];
                a.ptr + a.size <= b.ptr || b.ptr + b.size <= a.ptr
            },
        forall|i: int, j: int|
            #![trigger run(s, calls).live[i], run(s, calls).free[j]]
            0 <= i < run(s, calls).live.len() && 0 <= j < run(s, calls).free.len() ==> {
                let a = run(s, calls).live[i];
                let f = run(s, calls).free[j];
                a.ptr + a.size <= f.addr || f.end() <= a.ptr
            },
{
    let t = run(s, calls);
    lemma_run(s, calls);
    assert forall|i: int, j: int|
        #![trigger t.live[i], t.live[j]]
        0 <= i < t.live.len() && 0 <= j < t.live.len() && i != j implies {
        let a = t.live[i];
        let b = t.live[j];
        a.ptr + a.size <= b.ptr || b.ptr + b.size <= a.ptr
    } by {
        lemma_live_in_pool(t, i);
        lemma_live_in_pool(t, j);
        if i < j {
            assert(!t.live[i].overlaps(t.live[j]));
        } else {
            assert(!t.live[j].overlaps(t.live[i]));
        }
    }
    assert forall|i: int, j: int|
        #![trigger t.live[i], t.free[j]]
        0 <= i < t.live.len() && 0 <= j < t.free.len() implies {
        let a = t.live[i];
        let f = t.free[j];
        a.ptr + a.size <= f.addr || f.end() <= a.ptr
    } by {
        lemma_live_in_pool(t, i);
        assert(!t.free[j].overlaps(t.live[i].block()));
    }
}

/// An allocation followed at once by its release leaves the allocator as it
/// was: the block that was cut is whole again.
pub proof fn lemma_round_trip(s: PoolState, size: usize, align: usize)
    requires
        s.wf(),
        s.allocate(size as int, align as int).1 != NULL,
    ensures
        s.allocate(size as int, align as int).0.dealloc(
            s.allocate(size as int, align as int).1,
            size as int,
            align as int,
        ) == s,
{
    let size = size as int;
    let align = align as int;
    let (t, p) = s.allocate(size, align);
    lemma_find_fit(s, size, align);
    lemma_first_fit_exists(s.free, size, align);
    let i = first_fit(s.free, size, align).unwrap();
    let n = s.live.len() as int;
    lemma_newest_is_found(s, i, size, align);
    lemma_taken_released(s.free, i, size, align);
    let u = t.released_at(n);
    assert(t.dealloc(p, size, align) == u);
    assert(u.live =~= s.live);
    assert(u.free == s.free);
}

/// A single allocation from a fresh allocator, released at once, leaves the
/// free list as one block that spans the pool.
pub proof fn lemma_round_trip_fresh(pool_start: int, pool_size: int, size: usize, align: usize)
    requires
        PoolState::created(pool_start, pool_size).can_init(),
        fresh(pool_start, pool_size).allocate(size as int, align as int).1 != NULL,
    ensures
        fresh(pool_start, pool_size).allocate(size as int, align as int).0.dealloc(
            fresh(pool_start, pool_size).allocate(size as int, align as int).1,
            size as int,
            align as int,
        ).free == seq![FreeBlock { addr: pool_start as usize, size: pool_size as usize }],
{
    lemma_fresh(pool_start, pool_size);
    lemma_round_trip(fresh(pool_start, pool_size), size, align);
}

/// Merging bounds fragmentation: an initialised allocator without live
/// allocations has one free block, and it spans the pool.
pub proof fn lemma_idle_is_whole(s: PoolState)
    requires
        s.wf(),
        s.initialized,
        s.live.len() == 0,
    ensures
        s.free == seq![FreeBlock { addr: s.pool_start as usize, size: s.pool_size as usize }],
{
    assert(blocks_of(s.live) =~= Seq::<FreeBlock>::empty());
    lemma_total_small(blocks_of(s.live));
    if s.free.len() == 0 {
        lemma_total_small(s.free);
    } else {
        lemma_ordered_span(s.free);
        assert(s.free[0].within(s.pool_start, s.end()));
        assert(s.free.last().within(s.pool_start, s.end()));
        lemma_total_small(s.free);
        assert(s.free =~= seq![
            FreeBlock { addr: s.pool_start as usize, size: s.pool_size as usize },
        ]);
    }
}

/// No address lies in two blocks, and none lies in a block outside the pool.
pub proof fn lemma_no_double_cover(s: PoolState, x: int)
    requires
        s.wf(),
    ensures
        !(holds(s.free, x) && holds(blocks_of(s.live), x)),
        s.covers(x) ==> s.pool_start <= x < s.end(),
        forall|i: int, j: int|
            #![trigger s.free[i], s.free[j]]
            0 <= i < s.free.len() && 0 <= j < s.free.len() && s.free[i].addr <= x < s.free[i].end()
                && s.free[j].addr <= x < s.free[j].end() ==> i == j,
        forall|i: int, j: int|
            #![trigger s.live[i], s.live[j]]
            0 <= i < s.live.len() && 0 <= j < s.live.len() && s.live[i].start <= x
                < s.live[i].end() && s.live[j].start <= x < s.live[j].end() ==> i == j,
{
    let live = blocks_of(s.live);
    if holds(s.free, x) {
        let i = choose|i: int|
            0 <= i < s.free.len() && (#[trigger] s.free[i]).addr <= x < s.free[i].end();
        assert(s.free[i].within(s.pool_start, s.end()));
        if holds(live, x) {
            let j = choose|j: int|
                0 <= j < live.len() && (#[trigger] live[j]).addr <= x < live[j].end();
            assert(!s.free[i].overlaps(s.live[j].block()));
        }
    }
    if holds(live, x) {
        let j = choose|j: int|
            0 <= j < live.len() && (#[trigger] live[j]).addr <= x < live[j].end();
        assert(s.live[j].block().within(s.pool_start, s.end()));
    }
    assert forall|i: int, j: int|
        #![trigger s.free[i], s.free[j]]
        0 <= i < s.free.len() && 0 <= j < s.free.len() && s.free[i].addr <= x < s.free[i].end()
            && s.free[j].addr <= x < s.free[j].end() implies i == j by {
        if i < j {
            assert(s.free[i].end() < s.free[j].addr);
        } else if j < i {
            assert(s.free[j].end() < s.free[i].addr);
        }
    }
    assert forall|i: int, j: int|
        #![trigger s.live[i], s.live[j]]
        0 <= i < s.live.len() && 0 <= j < s.live.len() && s.live[i].start <= x < s.live[i].end()
            && s.live[j].start <= x < s.live[j].end() implies i == j by {
        if i < j {
            assert(!s.live[i].overlaps(s.live[j]));
        } else if j < i {
            assert(!s.live[j].overlaps(s.live[i]));
        }
    }
}

/// After any sequence of calls on an initialised allocator, every address of
/// the pool lies in a block.
pub proof fn lemma_tiled(s: PoolState, calls: Seq<Call>)
    requires
        s.wf(),
        s.initialized,
    ensures
        run(s, calls).tiled(),
{
    lemma_run(s, calls);
}

/// A request for more bytes than the largest free block holds fails, and
/// leaves the allocator as it was.
pub proof fn lemma_exhaustion(s: PoolState, size: usize, align: usize)
    requires
        s.wf(),
        forall|i: int| 0 <= i < s.free.len() ==> (#[trigger] s.free[i]).size < size,
    ensures
        s.allocate(size as int, align as int).1 == NULL,
        s.allocate(size as int, align as int).0 == s,
{
    assert forall|i: int| 0 <= i < s.free.len() implies !(#[trigger] s.free[i]).fits(
        size as int,
        align as int,
    ) by {
        assert(s.free[i].size < size);
        if align > 0 {
            lemma_align_up_is_least(s.free[i].addr + HEADER_SIZE, align as int);
        }
    }
    lemma_find_fit(s, size as int, align as int);
}

/// A request that, with its header, is larger than the pool fails in every
/// state, and leaves the allocator as it was.
pub proof fn lemma_larger_than_pool(s: PoolState, size: usize, align: usize)
    requires
        s.wf(),
        size + HEADER_SIZE > s.pool_size,
    ensures
        s.allocate(size as int, align as int).1 == NULL,
        s.allocate(size as int, align as int).0 == s,
{
    assert forall|i: int| 0 <= i < s.free.len() implies !(#[trigger] s.free[i]).fits(
        size as int,
        align as int,
    ) by {
        assert(s.free[i].within(s.pool_start, s.end()));
        if align > 0 {
            lemma_align_up_is_least(s.free[i].addr + HEADER_SIZE, align as int);
        }
    }
    lemma_find_fit(s, size as int, align as int);
}

/// A request for no bytes at all, with no alignment to keep, fails only when
/// the free list is empty or the exclusive section is held. It is granted a
/// block of its own, which holds at least a header.
pub proof fn lemma_zero_size(s: PoolState)
    requires
        s.wf(),
    ensures
        s.allocate(0, 1).1 == NULL <==> s.locked || s.free.len() == 0,
        s.allocate(0, 1).1 != NULL ==> s.allocate(0, 1).0.live.last().span >= HEADER_SIZE,
{
    lemma_find_fit(s, 0, 1);
    if s.free.len() > 0 {
        lemma_align_up_is_least(s.free[0].addr + HEADER_SIZE, 1);
        assert(s.free[0].fits(0, 1));
    }
    if s.allocate(0, 1).1 != NULL {
        let t = s.allocate(0, 1).0;
        assert(t.live[t.live.len() - 1].wf());
    }
}

} // verus!

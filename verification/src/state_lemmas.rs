//! Lemmas on the steps of the allocator: each of them keeps the invariant.

use crate::align::{is_aligned, lemma_align_up_is_least};
use crate::block::{lemma_carve, Allocation, FreeBlock, HEADER_SIZE, NULL};
use crate::free_list::{first_fit, has_fit, holds, is_slot, ordered, slot, total};
use crate::free_list_lemmas::{
    lemma_first_fit_exists, lemma_push_holds, lemma_released_blocks, lemma_released_holds,
    lemma_released_ordered, lemma_released_total, lemma_remove_holds, lemma_slot_exists,
    lemma_slot_neighbours, lemma_taken, lemma_taken_holds, lemma_total_concat,
    lemma_total_small, lemma_total_split,
};
use crate::state::{blocks_of, covers, find_live, is_first_match, is_live, PoolState};
use vstd::prelude::*;

verus! {

/// Only one index can be the first match.
pub proof fn lemma_first_match_unique(
    live: Seq<Allocation>,
    ptr: int,
    size: int,
    align: int,
    j: int,
)
    requires
        is_first_match(live, ptr, size, align, j),
    ensures
        find_live(live, ptr, size, align) == Some(j),
{
    let c = choose|c: int| is_first_match(live, ptr, size, align, c);
    assert(is_first_match(live, ptr, size, align, c));
    if c < j {
        assert(!live[c].matches(ptr, size, align));
    } else if j < c {
        assert(!live[j].matches(ptr, size, align));
    }
}

/// Initialisation establishes the invariant.
pub proof fn lemma_init_wf(s: PoolState)
    requires
        s.wf(),
        s.can_init(),
    ensures
        s.init().wf(),
{
    let t = s.init();
    lemma_total_small(t.free);
    assert forall|x: int| t.pool_start <= x < t.end() implies #[trigger] covers(
        t.free,
        t.live,
        x,
    ) by {
        assert(t.free[0].addr <= x < t.free[0].end());
    }
    assert(blocks_of(t.live) =~= Seq::<FreeBlock>::empty());
    lemma_total_small(blocks_of(t.live));
}

/// A new allocation adds the bytes of its block to those of the live ones.
pub proof fn lemma_live_push(live: Seq<Allocation>, a: Allocation)
    ensures
        total(blocks_of(live.push(a))) == total(blocks_of(live)) + a.span,
{
    assert(blocks_of(live.push(a)) =~= blocks_of(live) + seq![a.block()]);
    lemma_total_concat(blocks_of(live), seq![a.block()]);
    lemma_total_small(seq![a.block()]);
}

/// An allocation that leaves takes the bytes of its block from those of the
/// live ones.
pub proof fn lemma_live_remove(live: Seq<Allocation>, j: int)
    requires
        0 <= j < live.len(),
    ensures
        total(blocks_of(live.remove(j))) + live[j].span == total(blocks_of(live)),
{
    let b = blocks_of(live);
    let r = blocks_of(live.remove(j));
    lemma_total_split(b, j, j + 1);
    lemma_total_small(b.subrange(j, j + 1));
    lemma_total_split(r, j, j);
    lemma_total_small(r.subrange(j, j));
    assert(r.subrange(0, j) =~= b.subrange(0, j));
    assert(r.subrange(j, r.len() as int) =~= b.subrange(j + 1, b.len() as int));
}

/// An address that lay in a block before a request was granted lies in one
/// after it.
pub proof fn lemma_granted_at_covers(s: PoolState, i: int, size: int, align: int, x: int)
    requires
        s.wf(),
        0 <= i < s.free.len(),
        0 <= size <= usize::MAX,
        0 < align <= usize::MAX,
        s.free[i].fits(size, align),
        s.covers(x),
    ensures
        s.granted_at(i, size, align).covers(x),
{
    let t = s.granted_at(i, size, align);
    let a = s.free[i].granted(size, align);
    assert(blocks_of(t.live) =~= blocks_of(s.live).push(a.block()));
    if holds(s.free, x) {
        lemma_taken_holds(s.free, i, size, align, x);
    }
    if !holds(t.free, x) {
        lemma_push_holds(blocks_of(s.live), a.block(), x);
    }
}

/// An address that lay in a block before a live allocation was given back
/// lies in one after it.
pub proof fn lemma_released_at_covers(s: PoolState, j: int, x: int)
    requires
        s.wf(),
        0 <= j < s.live.len(),
        s.covers(x),
    ensures
        s.released_at(j).covers(x),
{
    let t = s.released_at(j);
    let blk = s.live[j].block();
    lemma_release_premises(s, j);
    assert(blocks_of(t.live) =~= blocks_of(s.live).remove(j));
    if holds(blocks_of(s.live), x) {
        lemma_remove_holds(blocks_of(s.live), j, x);
    }
    if !holds(blocks_of(t.live), x) {
        lemma_released_holds(s.free, blk, slot(s.free, blk.addr as int), x);
    }
}

/// The bytes of a live allocation lie in its block behind the header, and
/// its block lies in the pool.
pub proof fn lemma_live_in_pool(s: PoolState, i: int)
    requires
        s.wf(),
        0 <= i < s.live.len(),
    ensures
        s.pool_start <= s.live[i].start,
        s.live[i].start + HEADER_SIZE <= s.live[i].ptr,
        s.live[i].ptr + s.live[i].size <= s.live[i].end(),
        s.live[i].end() <= s.end(),
{
    let a = s.live[i];
    assert(a.wf());
    lemma_align_up_is_least(a.start + HEADER_SIZE, a.align as int);
}

/// Granting a request from the first block that it fits in keeps the
/// invariant.
pub proof fn lemma_granted_at_wf(s: PoolState, i: int, size: int, align: int)
    requires
        s.wf(),
        0 <= i < s.free.len(),
        0 <= size <= usize::MAX,
        0 < align <= usize::MAX,
        s.free[i].fits(size, align),
    ensures
        s.granted_at(i, size, align).wf(),
        s.initialized,
{
    let t = s.granted_at(i, size, align);
    let b = s.free[i];
    let a = b.granted(size, align);
    lemma_carve(b, size, align);
    lemma_taken(s.free, i, size, align);
    lemma_live_push(s.live, a);
    assert(b.within(s.pool_start, s.end()));
    assert forall|x: int| t.pool_start <= x < t.end() implies #[trigger] covers(
        t.free,
        t.live,
        x,
    ) by {
        assert(covers(s.free, s.live, x));
        lemma_granted_at_covers(s, i, size, align, x);
    }
    assert forall|x: int| 0 <= x < t.free.len() implies (#[trigger] t.free[x]).within(
        t.pool_start,
        t.end(),
    ) && (t.free[x] == b.remainder(size, align) && b.splits(size, align) || exists|y: int|
        0 <= y < s.free.len() && y != i && s.free[y] == t.free[x]) by {
        if b.splits(size, align) {
            if x != i {
                assert(s.free[x].within(s.pool_start, s.end()));
            }
        } else {
            let y = if x < i { x } else { x + 1 };
            assert(s.free[y].within(s.pool_start, s.end()));
        }
    }
    assert forall|j: int| 0 <= j < t.live.len() implies (#[trigger] t.live[j]).wf()
        && t.live[j].block().within(t.pool_start, t.end()) by {
        if j < s.live.len() {
            assert(s.live[j].wf());
        }
    }
    assert forall|x: int, y: int|
        #![trigger t.live[x], t.live[y]]
        0 <= x < y < t.live.len() implies !t.live[x].overlaps(t.live[y]) by {
        if y < s.live.len() {
            assert(!s.live[x].overlaps(s.live[y]));
        } else {
            assert(!s.free[i].overlaps(s.live[x].block()));
        }
    }
    assert forall|x: int, y: int|
        #![trigger t.free[x], t.live[y]]
        0 <= x < t.free.len() && 0 <= y < t.live.len() implies !t.free[x].overlaps(
            t.live[y].block(),
        ) by {
        assert(t.free[x].within(t.pool_start, t.end()));
        if t.free[x] == b.remainder(size, align) && b.splits(size, align) {
            if y < s.live.len() {
                assert(!s.free[i].overlaps(s.live[y].block()));
            }
        } else {
            let z = choose|z: int| 0 <= z < s.free.len() && z != i && s.free[z] == t.free[x];
            if y < s.live.len() {
                assert(!s.free[z].overlaps(s.live[y].block()));
            } else {
                if z < i {
                    assert(s.free[z].end() < s.free[i].addr);
                } else {
                    assert(s.free[i].end() < s.free[z].addr);
                }
            }
        }
    }
}

/// What a search for a block yields.
///
/// The search keeps the invariant. It yields null exactly when the request
/// fits in no free block, and then changes nothing. Otherwise the address is
/// a multiple of the alignment, and the bytes of the request lie in the pool
/// behind a header; the request has become the newest live allocation.
pub proof fn lemma_find_fit(s: PoolState, size: int, align: int)
    requires
        s.wf(),
        0 <= size <= usize::MAX,
        0 <= align <= usize::MAX,
    ensures
        s.find_fit(size, align).0.wf(),
        s.find_fit(size, align).1 == NULL <==> !has_fit(s.free, size, align),
        s.find_fit(size, align).1 == NULL ==> s.find_fit(size, align).0 == s,
        s.find_fit(size, align).1 != NULL ==> {
            let (t, p) = s.find_fit(size, align);
            &&& is_aligned(p, align)
            &&& s.pool_start + HEADER_SIZE <= p
            &&& p + size <= s.end()
            &&& t.live.len() == s.live.len() + 1
            &&& t.live.last().matches(p, size, align)
        },
{
    if has_fit(s.free, size, align) {
        lemma_first_fit_exists(s.free, size, align);
        let i = first_fit(s.free, size, align).unwrap();
        lemma_granted_at_wf(s, i, size, align);
        lemma_carve(s.free[i], size, align);
        assert(s.free[i].within(s.pool_start, s.end()));
    }
}

/// In a state that keeps the invariant, no two live allocations have the
/// same address.
pub proof fn lemma_live_ptr_unique(s: PoolState, i: int, j: int)
    requires
        s.wf(),
        0 <= i < s.live.len(),
        0 <= j < s.live.len(),
        s.live[i].ptr == s.live[j].ptr,
    ensures
        i == j,
{
    let a = s.live[i];
    let b = s.live[j];
    assert(a.wf() && b.wf());
    lemma_align_up_is_least(a.start + HEADER_SIZE, a.align as int);
    lemma_align_up_is_least(b.start + HEADER_SIZE, b.align as int);
    if i < j {
        assert(!s.live[i].overlaps(s.live[j]));
    } else if j < i {
        assert(!s.live[j].overlaps(s.live[i]));
    }
}

/// What a release yields: it keeps the invariant, and changes nothing when its
/// parameters name no live allocation.
pub proof fn lemma_dealloc(s: PoolState, ptr: int, size: int, align: int)
    requires
        s.wf(),
    ensures
        s.dealloc(ptr, size, align).wf(),
        !is_live(s.live, ptr, size, align) ==> s.dealloc(ptr, size, align) == s,
{
    if !s.locked && is_live(s.live, ptr, size, align) {
        lemma_find_live(s.live, ptr, size, align);
        let j = find_live(s.live, ptr, size, align).unwrap();
        lemma_released_at_wf(s, j);
    }
}

/// A release that names a live allocation finds the first one that it names.
pub proof fn lemma_find_live(live: Seq<Allocation>, ptr: int, size: int, align: int)
    requires
        is_live(live, ptr, size, align),
    ensures
        find_live(live, ptr, size, align) is Some,
        is_first_match(live, ptr, size, align, find_live(live, ptr, size, align).unwrap()),
{
    let w = choose|j: int| 0 <= j < live.len() && (#[trigger] live[j]).matches(ptr, size, align);
    lemma_least_match(live, ptr, size, align, w);
}

proof fn lemma_least_match(live: Seq<Allocation>, ptr: int, size: int, align: int, w: int)
    requires
        0 <= w < live.len(),
        live[w].matches(ptr, size, align),
    ensures
        exists|j: int| is_first_match(live, ptr, size, align, j),
    decreases w,
{
    if forall|i: int| 0 <= i < w ==> !(#[trigger] live[i]).matches(ptr, size, align) {
        assert(is_first_match(live, ptr, size, align, w));
    } else {
        let i = choose|i: int| 0 <= i < w && (#[trigger] live[i]).matches(ptr, size, align);
        lemma_least_match(live, ptr, size, align, i);
    }
}

/// The block of a live allocation can enter the free list: it is well
/// formed, overlaps no free block, and has a place in the list.
pub proof fn lemma_release_premises(s: PoolState, j: int)
    requires
        s.wf(),
        0 <= j < s.live.len(),
    ensures
        ordered(s.free),
        s.live[j].block().wf(),
        forall|i: int|
            0 <= i < s.free.len() ==> !(#[trigger] s.free[i]).overlaps(s.live[j].block()),
        is_slot(s.free, s.live[j].start as int, slot(s.free, s.live[j].start as int)),
{
    assert(s.live[j].wf());
    assert forall|i: int| 0 <= i < s.free.len() implies !(#[trigger] s.free[i]).overlaps(
        s.live[j].block(),
    ) by {
        assert(!s.free[i].overlaps(s.live[j].block()));
    }
    lemma_slot_exists(s.free, s.live[j].start as int);
}

/// Giving a live allocation back to the free list keeps the invariant.
pub proof fn lemma_released_at_wf(s: PoolState, j: int)
    requires
        s.wf(),
        0 <= j < s.live.len(),
    ensures
        s.released_at(j).wf(),
        s.initialized,
{
    let t = s.released_at(j);
    let a = s.live[j];
    let blk = a.block();
    let k = slot(s.free, blk.addr as int);
    assert(a.wf());
    assert(blk.within(s.pool_start, s.end()));
    lemma_release_premises(s, j);
    lemma_slot_neighbours(s.free, blk, k);
    lemma_released_ordered(s.free, blk, k);
    lemma_released_total(s.free, blk, k);
    lemma_released_blocks(s.free, blk, k);
    lemma_live_remove(s.live, j);
    assert forall|x: int| t.pool_start <= x < t.end() implies #[trigger] covers(
        t.free,
        t.live,
        x,
    ) by {
        assert(covers(s.free, s.live, x));
        lemma_released_at_covers(s, j, x);
    }
    if k > 0 {
        assert(s.free[k - 1].within(s.pool_start, s.end()));
    }
    if k < s.free.len() {
        assert(s.free[k].within(s.pool_start, s.end()));
    }
    assert forall|x: int| 0 <= x < t.free.len() implies (#[trigger] t.free[x]).within(
        t.pool_start,
        t.end(),
    ) by {
        let b = t.free[x];
        if exists|y: int| 0 <= y < s.free.len() && s.free[y] == b {
            let y = choose|y: int| 0 <= y < s.free.len() && s.free[y] == b;
            assert(s.free[y].within(s.pool_start, s.end()));
        }
    }
    assert forall|x: int| 0 <= x < t.live.len() implies (#[trigger] t.live[x]).wf()
        && t.live[x].block().within(t.pool_start, t.end()) by {
        let y = if x < j { x } else { x + 1 };
        assert(s.live[y].wf());
    }
    assert forall|x: int, y: int|
        #![trigger t.live[x], t.live[y]]
        0 <= x < y < t.live.len() implies !t.live[x].overlaps(t.live[y]) by {
        let sx = if x < j { x } else { x + 1 };
        let sy = if y < j { y } else { y + 1 };
        assert(!s.live[sx].overlaps(s.live[sy]));
    }
    assert forall|x: int, y: int|
        #![trigger t.free[x], t.live[y]]
        0 <= x < t.free.len() && 0 <= y < t.live.len() implies !t.free[x].overlaps(
            t.live[y].block(),
        ) by {
        let b = t.free[x];
        let sy = if y < j { y } else { y + 1 };
        assert(s.live[sy].wf());
        if exists|z: int| 0 <= z < s.free.len() && s.free[z] == b {
            let z = choose|z: int| 0 <= z < s.free.len() && s.free[z] == b;
            assert(!s.free[z].overlaps(s.live[sy].block()));
        } else {
            if sy < j {
                assert(!s.live[sy].overlaps(s.live[j]));
            } else {
                assert(!s.live[j].overlaps(s.live[sy]));
            }
            if k > 0 {
                assert(!s.free[k - 1].overlaps(s.live[sy].block()));
            }
            if k < s.free.len() {
                assert(!s.free[k].overlaps(s.live[sy].block()));
            }
        }
    }
}

/// A release that names the allocation just granted finds that allocation.
pub proof fn lemma_newest_is_found(s: PoolState, i: int, size: int, align: int)
    requires
        s.wf(),
        0 <= i < s.free.len(),
        0 <= size <= usize::MAX,
        0 < align <= usize::MAX,
        s.free[i].fits(size, align),
    ensures
        find_live(s.granted_at(i, size, align).live, s.free[i].payload(align), size, align)
            == Some(s.live.len() as int),
{
    let t = s.granted_at(i, size, align);
    let p = s.free[i].payload(align);
    let n = s.live.len() as int;
    lemma_granted_at_wf(s, i, size, align);
    lemma_carve(s.free[i], size, align);
    assert(t.live[n] == s.free[i].granted(size, align));
    assert forall|x: int| 0 <= x < n implies !(#[trigger] t.live[x]).matches(p, size, align) by {
        if t.live[x].ptr == p {
            lemma_live_ptr_unique(t, x, n);
        }
    }
    assert(is_first_match(t.live, p, size, align, n));
    lemma_first_match_unique(t.live, p, size, align, n);
}

} // verus!

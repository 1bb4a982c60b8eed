use freelist_alloc::{Allocation, FreeBlock, FreeListAllocator, HEADER_SIZE, NULL};

const BASE: usize = 4096;
const POOL: usize = 1024;

fn pool() -> FreeListAllocator {
    let mut a = FreeListAllocator::new(BASE, POOL);
    assert!(a.can_init());
    a.init();
    a
}

fn whole_pool() -> Vec<FreeBlock> {
    vec![FreeBlock { addr: BASE, size: POOL }]
}

#[test]
fn new_allocator_has_no_blocks() {
    let a = FreeListAllocator::new(BASE, POOL);
    assert_eq!(a.pool_start(), BASE);
    assert_eq!(a.pool_size(), POOL);
    assert!(!a.is_initialized());
    assert!(!a.is_locked());
    assert!(a.free_blocks().is_empty());
    assert!(a.live_allocations().is_empty());
}

#[test]
fn init_makes_one_block_spanning_the_pool() {
    let a = pool();
    assert!(a.is_initialized());
    assert_eq!(a.free_blocks(), whole_pool());
    assert!(a.live_allocations().is_empty());
    assert_eq!(a.free_bytes(), POOL);
    assert_eq!(a.live_bytes(), 0);
}

#[test]
fn init_is_refused_twice() {
    let a = pool();
    assert!(!a.can_init());
}

#[test]
fn init_is_refused_for_a_pool_at_null() {
    let a = FreeListAllocator::new(0, POOL);
    assert!(!a.can_init());
}

#[test]
fn init_is_refused_for_a_pool_smaller_than_a_header() {
    let a = FreeListAllocator::new(BASE, HEADER_SIZE - 1);
    assert!(!a.can_init());
    let b = FreeListAllocator::new(BASE, HEADER_SIZE);
    assert!(b.can_init());
}

#[test]
fn init_is_refused_for_a_pool_past_the_address_space() {
    let a = FreeListAllocator::new(usize::MAX - 100, POOL);
    assert!(!a.can_init());
    let b = FreeListAllocator::new(usize::MAX - POOL, POOL);
    assert!(b.can_init());
}

#[test]
fn allocate_before_init_fails() {
    let mut a = FreeListAllocator::new(BASE, POOL);
    assert_eq!(a.allocate(8, 8), NULL);
    a.dealloc(BASE + HEADER_SIZE, 8, 8);
    assert!(a.free_blocks().is_empty());
}

#[test]
fn allocate_returns_the_address_behind_the_header() {
    let mut a = pool();
    let p = a.allocate(100, 8);
    assert_eq!(p, BASE + HEADER_SIZE);
    assert_eq!(
        a.live_allocations(),
        vec![Allocation { start: BASE, span: 116, ptr: BASE + 16, size: 100, align: 8 }]
    );
    assert_eq!(a.free_blocks(), vec![FreeBlock { addr: BASE + 116, size: POOL - 116 }]);
}

#[test]
fn allocate_pads_to_the_alignment() {
    let mut a = pool();
    let p = a.allocate(100, 8);
    let q = a.allocate(100, 8);
    assert_eq!(p, 4112);
    // The second block starts at 4212; behind its header, 4228 is no multiple of 8.
    assert_eq!(q, 4232);
    assert_eq!(
        a.live_allocations()[1],
        Allocation { start: 4212, span: 120, ptr: 4232, size: 100, align: 8 }
    );
    assert_eq!(a.free_blocks(), vec![FreeBlock { addr: 4332, size: 788 }]);
}

#[test]
fn round_trip_restores_the_pool() {
    let mut a = pool();
    let p = a.allocate(100, 8);
    assert_ne!(p, NULL);
    a.dealloc(p, 100, 8);
    assert_eq!(a.free_blocks(), whole_pool());
    assert!(a.live_allocations().is_empty());
}

#[test]
fn round_trip_restores_a_fragmented_list() {
    let mut a = pool();
    let p = a.allocate(30, 4);
    let q = a.allocate(50, 16);
    let r = a.allocate(70, 2);
    a.dealloc(q, 50, 16);
    let before = a.free_blocks();
    let live = a.live_allocations();
    let s = a.allocate(20, 32);
    assert_ne!(s, NULL);
    a.dealloc(s, 20, 32);
    assert_eq!(a.free_blocks(), before);
    assert_eq!(a.live_allocations(), live);
    a.dealloc(p, 30, 4);
    a.dealloc(r, 70, 2);
    assert_eq!(a.free_blocks(), whole_pool());
}

#[test]
fn request_larger_than_every_block_fails_and_changes_nothing() {
    let mut a = pool();
    let p = a.allocate(500, 8);
    assert_ne!(p, NULL);
    let free = a.free_blocks();
    let live = a.live_allocations();
    assert_eq!(free, vec![FreeBlock { addr: BASE + 516, size: 508 }]);
    assert_eq!(a.allocate(509, 1), NULL);
    assert_eq!(a.free_blocks(), free);
    assert_eq!(a.live_allocations(), live);
    // 508 bytes are free, but 16 of them are the header.
    assert_eq!(a.allocate(493, 1), NULL);
    assert_eq!(a.free_blocks(), free);
    assert_ne!(a.allocate(492, 1), NULL);
}

#[test]
fn coalescing_in_allocation_order() {
    let mut a = pool();
    let p = a.allocate(100, 8);
    let q = a.allocate(100, 8);
    let live = a.live_allocations();
    assert_eq!(live[0].start + live[0].span, live[1].start);
    a.dealloc(p, 100, 8);
    a.dealloc(q, 100, 8);
    assert_eq!(a.free_blocks(), whole_pool());
    assert_ne!(a.allocate(POOL - 2 * HEADER_SIZE, 8), NULL);
}

#[test]
fn coalescing_in_reverse_order() {
    let mut a = pool();
    let p = a.allocate(100, 8);
    let q = a.allocate(100, 8);
    a.dealloc(q, 100, 8);
    a.dealloc(p, 100, 8);
    assert_eq!(a.free_blocks(), whole_pool());
    assert_ne!(a.allocate(POOL - 2 * HEADER_SIZE, 8), NULL);
}

#[test]
fn without_coalescing_the_large_request_would_fail() {
    let mut a = pool();
    let p = a.allocate(100, 8);
    let q = a.allocate(100, 8);
    a.dealloc(p, 100, 8);
    // The first block is free again, the second is live between two free blocks.
    assert_eq!(
        a.free_blocks(),
        vec![FreeBlock { addr: 4096, size: 116 }, FreeBlock { addr: 4332, size: 788 }]
    );
    assert_eq!(a.allocate(POOL - 2 * HEADER_SIZE, 8), NULL);
    a.dealloc(q, 100, 8);
    assert_eq!(a.free_blocks(), whole_pool());
}

#[test]
fn release_merges_with_the_next_block_only() {
    let mut a = pool();
    let p = a.allocate(100, 8);
    let q = a.allocate(100, 8);
    a.dealloc(q, 100, 8);
    assert_eq!(a.free_blocks(), vec![FreeBlock { addr: 4212, size: 908 }]);
    a.dealloc(p, 100, 8);
    assert_eq!(a.free_blocks(), whole_pool());
}

#[test]
fn release_merges_with_the_previous_block_only() {
    let mut a = pool();
    let p = a.allocate(100, 8);
    let q = a.allocate(100, 8);
    let r = a.allocate(100, 8);
    assert_eq!(r, 4352);
    a.dealloc(p, 100, 8);
    a.dealloc(q, 100, 8);
    assert_eq!(
        a.free_blocks(),
        vec![FreeBlock { addr: 4096, size: 236 }, FreeBlock { addr: 4452, size: 668 }]
    );
    a.dealloc(r, 100, 8);
    assert_eq!(a.free_blocks(), whole_pool());
}

#[test]
fn release_bridges_two_free_blocks() {
    let mut a = pool();
    let p = a.allocate(100, 8);
    let q = a.allocate(100, 8);
    let r = a.allocate(100, 8);
    let s = a.allocate(100, 8);
    a.dealloc(p, 100, 8);
    a.dealloc(r, 100, 8);
    assert_eq!(a.free_blocks().len(), 3);
    a.dealloc(q, 100, 8);
    let free = a.free_blocks();
    assert_eq!(free.len(), 2);
    assert_eq!(free[0], FreeBlock { addr: 4096, size: 356 });
    a.dealloc(s, 100, 8);
    assert_eq!(a.free_blocks(), whole_pool());
}

#[test]
fn release_without_a_free_neighbour_enters_in_address_order() {
    let mut a = pool();
    let p = a.allocate(100, 8);
    let q = a.allocate(100, 8);
    let r = a.allocate(100, 8);
    let s = a.allocate(100, 8);
    let _t = a.allocate(100, 8);
    a.dealloc(s, 100, 8);
    a.dealloc(q, 100, 8);
    let free = a.free_blocks();
    assert_eq!(free.len(), 3);
    assert!(free[0].addr < free[1].addr && free[1].addr < free[2].addr);
    assert_eq!(free[0].addr, 4212);
    let _ = (p, r);
}

#[test]
fn alignment_under_fragmentation() {
    let mut a = pool();
    let p = a.allocate(3, 1);
    let q = a.allocate(7, 2);
    let r = a.allocate(13, 4);
    assert_ne!(p, NULL);
    assert_ne!(q, NULL);
    assert_ne!(r, NULL);
    let s = a.allocate(10, 64);
    assert_ne!(s, NULL);
    assert_eq!(s % 64, 0);
    // The free block starts at 4169; the first multiple of 64 behind its header is 4224.
    assert_eq!(s, 4224);
    assert_eq!(
        a.live_allocations()[3],
        Allocation { start: 4169, span: 65, ptr: 4224, size: 10, align: 64 }
    );
}

#[test]
fn alignment_skips_a_block_that_is_too_short_behind_the_padding() {
    let mut a = FreeListAllocator::new(4100, POOL);
    a.init();
    let p = a.allocate(40, 4);
    let _q = a.allocate(40, 4);
    a.dealloc(p, 40, 4);
    // The hole at 4100 holds 56 bytes; aligned to 64 the payload would start at 4160,
    // past its end. The next block starts at 4212.
    let r = a.allocate(8, 64);
    assert_eq!(r, 4288);
    assert_eq!(a.free_blocks()[0], FreeBlock { addr: 4100, size: 56 });
}

#[test]
fn exhaustion() {
    let mut a = pool();
    assert_eq!(a.allocate(2000, 8), NULL);
    assert_eq!(a.free_blocks(), whole_pool());
    assert!(a.live_allocations().is_empty());
}

#[test]
fn alignment_wider_than_the_pool_fails() {
    let mut a = FreeListAllocator::new(4100, POOL);
    a.init();
    assert_eq!(a.allocate(10, 4096), NULL);
    assert_eq!(a.free_blocks(), vec![FreeBlock { addr: 4100, size: POOL }]);
}

#[test]
fn alignment_of_zero_fails() {
    let mut a = pool();
    assert_eq!(a.allocate(10, 0), NULL);
    assert_eq!(a.free_blocks(), whole_pool());
}

#[test]
fn request_near_the_top_of_the_address_space_fails() {
    let mut a = FreeListAllocator::new(usize::MAX - POOL, POOL);
    a.init();
    assert_eq!(a.allocate(usize::MAX, 8), NULL);
    assert_eq!(a.allocate(8, usize::MAX), NULL);
    assert_ne!(a.allocate(8, 8), NULL);
}

#[test]
fn zero_size_request_gets_a_block_of_its_own() {
    let mut a = pool();
    let p = a.allocate(0, 8);
    let q = a.allocate(0, 8);
    assert_eq!(p, 4112);
    assert_eq!(q, 4128);
    let live = a.live_allocations();
    assert_eq!(live[0].span, HEADER_SIZE);
    assert_eq!(live[1].span, HEADER_SIZE);
    a.dealloc(p, 0, 8);
    a.dealloc(q, 0, 8);
    assert_eq!(a.free_blocks(), whole_pool());
}

#[test]
fn remainder_shorter_than_a_header_goes_to_the_allocation() {
    let mut a = pool();
    let p = a.allocate(POOL - HEADER_SIZE - 8, 8);
    assert_eq!(p, BASE + HEADER_SIZE);
    assert!(a.free_blocks().is_empty());
    let live = a.live_allocations();
    assert_eq!(live[0].span, POOL);
    assert_eq!(a.allocate(0, 1), NULL);
    a.dealloc(p, POOL - HEADER_SIZE - 8, 8);
    assert_eq!(a.free_blocks(), whole_pool());
}

#[test]
fn remainder_of_exactly_a_header_is_split_off() {
    let mut a = pool();
    let p = a.allocate(POOL - 2 * HEADER_SIZE, 8);
    assert_ne!(p, NULL);
    assert_eq!(
        a.free_blocks(),
        vec![FreeBlock { addr: BASE + POOL - HEADER_SIZE, size: HEADER_SIZE }]
    );
    assert_eq!(a.allocate(0, 1), BASE + POOL);
    assert!(a.free_blocks().is_empty());
}

#[test]
fn first_fit_takes_the_lowest_block_not_the_tightest() {
    let mut a = pool();
    let p = a.allocate(200, 8);
    let _q = a.allocate(100, 8);
    let r = a.allocate(40, 8);
    let _s = a.allocate(100, 8);
    a.dealloc(p, 200, 8);
    a.dealloc(r, 40, 8);
    let free = a.free_blocks();
    assert_eq!(free.len(), 3);
    assert!(free[0].size > free[1].size);
    // The request would fit the second hole exactly; it goes to the first.
    let t = a.allocate(40, 8);
    assert_eq!(t, p);
}

#[test]
fn bytes_are_conserved() {
    let mut a = pool();
    let mut held: Vec<(usize, usize, usize)> = Vec::new();
    let sizes = [1usize, 17, 33, 5, 64, 9, 120, 0, 31];
    let aligns = [1usize, 2, 4, 8, 16, 32, 64, 8, 1];
    for i in 0..sizes.len() {
        let p = a.allocate(sizes[i], aligns[i]);
        if p != NULL {
            held.push((p, sizes[i], aligns[i]));
        }
        assert_eq!(a.free_bytes() + a.live_bytes(), POOL);
    }
    assert!(held.len() > 4);
    while held.len() > 0 {
        let (p, size, align) = held.remove(held.len() / 2);
        a.dealloc(p, size, align);
        assert_eq!(a.free_bytes() + a.live_bytes(), POOL);
    }
    assert_eq!(a.free_blocks(), whole_pool());
}

#[test]
fn every_address_is_aligned() {
    let mut a = FreeListAllocator::new(4099, 4096);
    a.init();
    let aligns = [1usize, 2, 4, 8, 16, 32, 64, 128, 256, 3, 24];
    for align in aligns {
        let p = a.allocate(5, align);
        assert_ne!(p, NULL);
        assert_eq!(p % align, 0);
    }
}

#[test]
fn live_allocations_do_not_overlap() {
    let mut a = pool();
    let mut held: Vec<(usize, usize, usize)> = Vec::new();
    let sizes = [10usize, 40, 7, 90, 3, 60, 25];
    let aligns = [8usize, 64, 1, 16, 2, 32, 4];
    for i in 0..sizes.len() {
        let p = a.allocate(sizes[i], aligns[i]);
        assert_ne!(p, NULL);
        held.push((p, sizes[i], aligns[i]));
    }
    let (p, size, align) = held.remove(3);
    a.dealloc(p, size, align);
    let (p, size, align) = held.remove(1);
    a.dealloc(p, size, align);
    held.push((a.allocate(50, 8), 50, 8));
    held.push((a.allocate(12, 128), 12, 128));
    for i in 0..held.len() {
        assert_ne!(held[i].0, NULL);
        assert!(held[i].0 >= BASE + HEADER_SIZE);
        assert!(held[i].0 + held[i].1 <= BASE + POOL);
        for j in 0..held.len() {
            if i != j {
                assert!(held[i].0 + held[i].1 <= held[j].0 || held[j].0 + held[j].1 <= held[i].0);
            }
        }
    }
    let free = a.free_blocks();
    for f in free.iter() {
        for h in held.iter() {
            assert!(h.0 + h.1 <= f.addr || f.addr + f.size <= h.0);
        }
    }
}

#[test]
fn every_byte_lies_in_exactly_one_block() {
    let mut a = pool();
    let p = a.allocate(33, 8);
    let q = a.allocate(70, 64);
    let r = a.allocate(5, 2);
    let s = a.allocate(200, 16);
    a.dealloc(q, 70, 64);
    a.dealloc(s, 200, 16);
    let _t = a.allocate(9, 4);
    let free = a.free_blocks();
    let live = a.live_allocations();
    for x in BASE..BASE + POOL {
        let in_free = free.iter().filter(|f| f.addr <= x && x < f.addr + f.size).count();
        let in_live = live.iter().filter(|l| l.start <= x && x < l.start + l.span).count();
        assert_eq!(in_free + in_live, 1);
    }
    let _ = (p, r);
}

#[test]
fn free_blocks_never_touch() {
    let mut a = pool();
    let mut held: Vec<(usize, usize, usize)> = Vec::new();
    for i in 0..12usize {
        let size = 10 + 7 * i;
        let p = a.allocate(size, 4);
        assert_ne!(p, NULL);
        held.push((p, size, 4));
    }
    for i in [1usize, 7, 3, 4, 9, 0, 5] {
        let (p, size, align) = held[i];
        a.dealloc(p, size, align);
        let free = a.free_blocks();
        for k in 1..free.len() {
            assert!(free[k - 1].addr + free[k - 1].size < free[k].addr);
        }
        for f in free.iter() {
            assert!(f.size >= HEADER_SIZE);
        }
    }
}

#[test]
fn release_that_names_no_allocation_changes_nothing() {
    let mut a = pool();
    let p = a.allocate(100, 8);
    let free = a.free_blocks();
    let live = a.live_allocations();
    a.dealloc(p + 8, 100, 8);
    a.dealloc(p, 99, 8);
    a.dealloc(p, 100, 16);
    a.dealloc(NULL, 0, 1);
    assert_eq!(a.free_blocks(), free);
    assert_eq!(a.live_allocations(), live);
}

#[test]
fn is_live_tells_which_releases_are_honoured() {
    let mut a = pool();
    let p = a.allocate(100, 8);
    assert!(a.is_live(p, 100, 8));
    assert!(!a.is_live(p, 100, 4));
    assert!(!a.is_live(p, 101, 8));
    assert!(!a.is_live(p + 1, 100, 8));
    a.dealloc(p, 100, 8);
    assert!(!a.is_live(p, 100, 8));
}

#[test]
fn double_release_changes_nothing() {
    let mut a = pool();
    let p = a.allocate(100, 8);
    let _q = a.allocate(100, 8);
    a.dealloc(p, 100, 8);
    let free = a.free_blocks();
    let live = a.live_allocations();
    a.dealloc(p, 100, 8);
    assert_eq!(a.free_blocks(), free);
    assert_eq!(a.live_allocations(), live);
}

#[test]
fn held_section_makes_allocate_fail_at_once() {
    let mut a = pool();
    assert!(a.try_lock());
    assert!(a.is_locked());
    assert_eq!(a.allocate(8, 8), NULL);
    assert!(a.is_locked());
    assert_eq!(a.free_blocks(), whole_pool());
    a.unlock();
    assert!(!a.is_locked());
    assert_eq!(a.allocate(8, 8), BASE + HEADER_SIZE);
    assert!(!a.is_locked());
}

#[test]
fn held_section_makes_release_do_nothing() {
    let mut a = pool();
    let p = a.allocate(8, 8);
    let free = a.free_blocks();
    assert!(a.try_lock());
    a.dealloc(p, 8, 8);
    assert_eq!(a.free_blocks(), free);
    assert_eq!(a.live_allocations().len(), 1);
    a.unlock();
    a.dealloc(p, 8, 8);
    assert_eq!(a.free_blocks(), whole_pool());
}

#[test]
fn section_is_entered_once() {
    let mut a = pool();
    assert!(a.try_lock());
    assert!(!a.try_lock());
    assert!(a.is_locked());
    a.unlock();
    assert!(a.try_lock());
}

#[test]
fn section_is_left_on_the_failure_path() {
    let mut a = pool();
    assert_eq!(a.allocate(2000, 8), NULL);
    assert!(!a.is_locked());
    a.dealloc(BASE, 1, 1);
    assert!(!a.is_locked());
    assert_ne!(a.allocate(8, 8), NULL);
}

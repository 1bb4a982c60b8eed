use freelist_alloc::align::padding_to;
use freelist_alloc::{Allocation, FreeBlock, FreeList, Guard, HEADER_SIZE};

#[test]
fn header_is_two_words() {
    assert_eq!(HEADER_SIZE, 16);
}

#[test]
fn padding_to_the_next_multiple() {
    assert_eq!(padding_to(4112, 8), 0);
    assert_eq!(padding_to(4228, 8), 4);
    assert_eq!(padding_to(4188, 64), 36);
    assert_eq!(padding_to(1, 4096), 4095);
    assert_eq!(padding_to(0, 16), 0);
    assert_eq!(padding_to(10, 3), 2);
    assert_eq!(padding_to(7, 1), 0);
}

#[test]
fn place_gives_the_aligned_address_behind_the_header() {
    let b = FreeBlock { addr: 4212, size: 908 };
    assert_eq!(b.place(100, 8), Some(4232));
    assert_eq!(b.place(0, 1), Some(4228));
    assert_eq!(b.place(10, 64), Some(4288));
}

#[test]
fn place_fails_when_the_request_does_not_fit() {
    let b = FreeBlock { addr: 4100, size: 56 };
    assert_eq!(b.place(40, 4), Some(4116));
    assert_eq!(b.place(41, 4), None);
    assert_eq!(b.place(8, 64), None);
    assert_eq!(b.place(0, 64), None);
    assert_eq!(b.place(8, 0), None);
    assert_eq!(b.place(usize::MAX, 1), None);
}

#[test]
fn place_fits_a_request_that_ends_with_the_block() {
    let b = FreeBlock { addr: 4096, size: 64 };
    assert_eq!(b.place(48, 16), Some(4112));
    assert_eq!(b.place(49, 16), None);
    assert_eq!(b.place(0, 64), Some(4160));
}

#[test]
fn carve_splits_when_a_header_remains() {
    let b = FreeBlock { addr: 4096, size: 1024 };
    let (a, rest) = b.carve(100, 8);
    assert_eq!(a, Allocation { start: 4096, span: 116, ptr: 4112, size: 100, align: 8 });
    assert_eq!(rest, Some(FreeBlock { addr: 4212, size: 908 }));
}

#[test]
fn carve_counts_the_padding_as_used() {
    let b = FreeBlock { addr: 4172, size: 948 };
    let (a, rest) = b.carve(10, 64);
    assert_eq!(a, Allocation { start: 4172, span: 62, ptr: 4224, size: 10, align: 64 });
    assert_eq!(rest, Some(FreeBlock { addr: 4234, size: 886 }));
    assert_eq!(a.span + 886, b.size);
}

#[test]
fn carve_grants_the_whole_block_when_less_than_a_header_remains() {
    let b = FreeBlock { addr: 4096, size: 131 };
    let (a, rest) = b.carve(100, 8);
    assert_eq!(a, Allocation { start: 4096, span: 131, ptr: 4112, size: 100, align: 8 });
    assert_eq!(rest, None);
    let c = FreeBlock { addr: 4096, size: 132 };
    let (a, rest) = c.carve(100, 8);
    assert_eq!(a.span, 116);
    assert_eq!(rest, Some(FreeBlock { addr: 4212, size: 16 }));
}

#[test]
fn free_list_starts_empty() {
    let list = FreeList::new();
    assert_eq!(list.len(), 0);
    assert!(list.to_vec().is_empty());
    assert_eq!(list.bytes(), 0);
    assert_eq!(list.first_fit(0, 1), None);
}

#[test]
fn free_list_keeps_address_order() {
    let mut list = FreeList::new();
    list.insert(FreeBlock { addr: 3000, size: 100 });
    list.insert(FreeBlock { addr: 1000, size: 100 });
    list.insert(FreeBlock { addr: 2000, size: 100 });
    assert_eq!(
        list.to_vec(),
        vec![
            FreeBlock { addr: 1000, size: 100 },
            FreeBlock { addr: 2000, size: 100 },
            FreeBlock { addr: 3000, size: 100 },
        ]
    );
    assert_eq!(list.len(), 3);
    assert_eq!(list.get(1), FreeBlock { addr: 2000, size: 100 });
    assert_eq!(list.bytes(), 300);
}

#[test]
fn free_list_merges_touching_blocks() {
    let mut list = FreeList::new();
    list.insert(FreeBlock { addr: 1000, size: 100 });
    list.insert(FreeBlock { addr: 1200, size: 100 });
    list.insert(FreeBlock { addr: 1400, size: 100 });
    // Touches the block before it.
    list.insert(FreeBlock { addr: 1100, size: 50 });
    assert_eq!(list.get(0), FreeBlock { addr: 1000, size: 150 });
    assert_eq!(list.len(), 3);
    // Touches the block behind it.
    list.insert(FreeBlock { addr: 1350, size: 50 });
    assert_eq!(list.get(2), FreeBlock { addr: 1350, size: 150 });
    assert_eq!(list.len(), 3);
    // Touches both.
    list.insert(FreeBlock { addr: 1150, size: 50 });
    assert_eq!(
        list.to_vec(),
        vec![FreeBlock { addr: 1000, size: 300 }, FreeBlock { addr: 1350, size: 150 }]
    );
    assert_eq!(list.bytes(), 450);
}

#[test]
fn free_list_first_fit_finds_the_lowest_block() {
    let mut list = FreeList::new();
    list.insert(FreeBlock { addr: 1000, size: 32 });
    list.insert(FreeBlock { addr: 2000, size: 64 });
    list.insert(FreeBlock { addr: 3000, size: 48 });
    assert_eq!(list.first_fit(16, 8), Some(0));
    assert_eq!(list.first_fit(17, 8), Some(1));
    assert_eq!(list.first_fit(32, 8), Some(1));
    assert_eq!(list.first_fit(49, 8), None);
    // At 1000 the payload would start at 1024 and end past the block's end.
    assert_eq!(list.first_fit(8, 64), Some(0));
    assert_eq!(list.first_fit(9, 64), Some(1));
}

#[test]
fn free_list_take_replaces_the_block_by_its_remainder() {
    let mut list = FreeList::new();
    list.insert(FreeBlock { addr: 1000, size: 32 });
    list.insert(FreeBlock { addr: 2000, size: 64 });
    list.insert(FreeBlock { addr: 3000, size: 48 });
    let a = list.take(1, 20, 8);
    assert_eq!(a, Allocation { start: 2000, span: 36, ptr: 2016, size: 20, align: 8 });
    assert_eq!(
        list.to_vec(),
        vec![
            FreeBlock { addr: 1000, size: 32 },
            FreeBlock { addr: 2036, size: 28 },
            FreeBlock { addr: 3000, size: 48 },
        ]
    );
    let b = list.take(0, 16, 8);
    assert_eq!(b, Allocation { start: 1000, span: 32, ptr: 1016, size: 16, align: 8 });
    assert_eq!(list.len(), 2);
    assert_eq!(list.get(0), FreeBlock { addr: 2036, size: 28 });
}

#[test]
fn guard_is_entered_once() {
    let mut g = Guard::new();
    assert!(!g.held());
    assert!(g.try_acquire());
    assert!(g.held());
    assert!(!g.try_acquire());
    assert!(g.held());
    g.release();
    assert!(!g.held());
    assert!(g.try_acquire());
}

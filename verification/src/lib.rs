//! A first-fit free-list allocator over one fixed pool of addresses.
//!
//! The pool is a range of addresses. The allocator keeps the unused part of
//! it as a list of free blocks in ascending address order. An allocation
//! takes the first block that it fits in, and gives back what it does not
//! need; a release puts the block back and merges it with the free blocks on
//! either side.
//!
//! The allocator deals in addresses and never reads or writes the pool.
//! Every block sets aside `HEADER_SIZE` bytes at its start, and what a header
//! would record is kept in the allocator's tables: for a free block its
//! address and size, for a live one also the address, size and alignment that
//! the caller asked for.
//!
//! - `align`: rounding an address up to an alignment.
//! - `block`: free blocks and live allocations, and how a request is cut out
//!   of a block.
//! - `free_list`: the free list, its first-fit search and its merging insert;
//!   `free_list_lemmas` holds the proofs about it.
//! - `guard`: the exclusive section around every change to the free list.
//! - `state`: the allocator as a mathematical state with its invariant;
//!   `state_lemmas` proves that every step keeps the invariant.
//! - `allocator`: the allocator itself.
//! - `laws`: what holds over every sequence of calls.

pub mod align;
pub mod allocator;
pub mod block;
pub mod free_list;
pub mod free_list_lemmas;
pub mod guard;
pub mod laws;
pub mod state;
pub mod state_lemmas;

pub use allocator::FreeListAllocator;
pub use block::{Allocation, FreeBlock, HEADER_SIZE, NULL};
pub use free_list::FreeList;
pub use guard::Guard;

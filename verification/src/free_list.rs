//! The free list: the unused blocks of the pool in ascending address order.

use crate::block::{Allocation, FreeBlock};
use crate::free_list_lemmas::{
    lemma_first_fit_unique, lemma_released_ordered, lemma_released_total, lemma_slot_neighbours,
    lemma_slot_unique, lemma_taken, lemma_total_prefix,
};
use vstd::prelude::*;

verus! {

/// The invariant of a free list: every block can hold a header, and each block
/// ends strictly below the start of every later one. So the blocks are in
/// ascending address order, share no byte, and no two of them touch: blocks
/// that touch have been merged.
pub open spec fn ordered(s: Seq<FreeBlock>) -> bool {
    &&& forall|i: int| 0 <= i < s.len() ==> (#[trigger] s[i]).wf()
    &&& forall|i: int, j: int|
        #![trigger s[i], s[j]]
        0 <= i < j < s.len() ==> s[i].end() < s[j].addr
}

/// The number of bytes in the blocks of `s`.
pub open spec fn total(s: Seq<FreeBlock>) -> int
    decreases s.len(),
{
    if s.len() == 0 {
        0
    } else {
        total(s.drop_last()) + s.last().size
    }
}

/// Whether address `x` lies in a block of `s`.
pub open spec fn holds(s: Seq<FreeBlock>, x: int) -> bool {
    exists|i: int| 0 <= i < s.len() && (#[trigger] s[i]).addr <= x < s[i].end()
}

/// `i` is the index of the first block of `s` that the request fits in.
pub open spec fn is_first_fit(s: Seq<FreeBlock>, size: int, align: int, i: int) -> bool {
    &&& 0 <= i < s.len()
    &&& s[i].fits(size, align)
    &&& forall|j: int| 0 <= j < i ==> !(#[trigger] s[j]).fits(size, align)
}

/// Whether the request fits in some block of `s`.
pub open spec fn has_fit(s: Seq<FreeBlock>, size: int, align: int) -> bool {
    exists|i: int| 0 <= i < s.len() && (#[trigger] s[i]).fits(size, align)
}

/// The index of the first block of `s`, from the lowest address up, that the
/// request fits in; `None` when it fits in none.
pub open spec fn first_fit(s: Seq<FreeBlock>, size: int, align: int) -> Option<int> {
    if has_fit(s, size, align) {
        Some(choose|i: int| is_first_fit(s, size, align, i))
    } else {
        None
    }
}

/// The free list after the request has been cut out of block `i`: the block
/// gives way to its remainder, or leaves the list when nothing worth a header
/// remains.
pub open spec fn taken(s: Seq<FreeBlock>, i: int, size: int, align: int) -> Seq<FreeBlock> {
    if s[i].splits(size, align) {
        s.update(i, s[i].remainder(size, align))
    } else {
        s.remove(i)
    }
}

/// `k` is the place of address `addr` in `s`: the blocks before index `k`
/// start below `addr`, the others do not.
pub open spec fn is_slot(s: Seq<FreeBlock>, addr: int, k: int) -> bool {
    &&& 0 <= k <= s.len()
    &&& forall|i: int| 0 <= i < k ==> (#[trigger] s[i]).addr < addr
    &&& forall|i: int| k <= i < s.len() ==> (#[trigger] s[i]).addr >= addr
}

/// The index at which a block that starts at `addr` enters `s` in address order.
pub open spec fn slot(s: Seq<FreeBlock>, addr: int) -> int {
    choose|k: int| is_slot(s, addr, k)
}

/// Whether a block entering at index `k` begins where its predecessor ends.
pub open spec fn touches_prev(s: Seq<FreeBlock>, blk: FreeBlock, k: int) -> bool {
    k > 0 && s[k - 1].end() == blk.addr
}

/// Whether a block entering at index `k` ends where its successor begins.
pub open spec fn touches_next(s: Seq<FreeBlock>, blk: FreeBlock, k: int) -> bool {
    k < s.len() && blk.end() == s[k].addr
}

/// The free list after `blk` has entered at index `k`, merged with the
/// neighbours that it touches.
pub open spec fn released_at(s: Seq<FreeBlock>, blk: FreeBlock, k: int) -> Seq<FreeBlock> {
    let lo = if touches_prev(s, blk, k) { k - 1 } else { k };
    let hi = if touches_next(s, blk, k) { k + 1 } else { k };
    let start = if touches_prev(s, blk, k) { s[k - 1].addr as int } else { blk.addr as int };
    let end = if touches_next(s, blk, k) { s[k].end() } else { blk.end() };
    s.subrange(0, lo).push(FreeBlock { addr: start as usize, size: (end - start) as usize })
        + s.subrange(hi, s.len() as int)
}

/// The free list after `blk` has been given back: it enters in address order
/// and is merged with each neighbour that it touches.
pub open spec fn released(s: Seq<FreeBlock>, blk: FreeBlock) -> Seq<FreeBlock> {
    released_at(s, blk, slot(s, blk.addr as int))
}

/// The unused blocks of the pool, lowest address first.
pub struct FreeList {
    blocks: Vec<FreeBlock>,
}

impl View for FreeList {
    type V = Seq<FreeBlock>;

    closed spec fn view(&self) -> Seq<FreeBlock> {
        self.blocks@
    }
}

impl FreeList {
    /// The list keeps its invariant.
    pub open spec fn wf(&self) -> bool {
        ordered(self@)
    }

    /// A list without blocks.
    pub fn new() -> (list: FreeList)
        ensures
            list@ == Seq::<FreeBlock>::empty(),
            list.wf(),
    {
        FreeList { blocks: Vec::new() }
    }

    /// The number of blocks in the list.
    pub fn len(&self) -> (n: usize)
        ensures
            n == self@.len(),
    {
        self.blocks.len()
    }

    /// The block at index `i`.
    pub fn get(&self, i: usize) -> (b: FreeBlock)
        requires
            i < self@.len(),
        ensures
            b == self@[i as int],
    {
        self.blocks[i]
    }

    /// The blocks of the list, lowest address first.
    pub fn to_vec(&self) -> (v: Vec<FreeBlock>)
        ensures
            v@ == self@,
    {
        let n: usize = self.blocks.len();
        let mut v: Vec<FreeBlock> = Vec::new();
        let mut i: usize = 0;
        while i < n
            invariant
                n == self@.len(),
                i <= n,
                v@ == self@.subrange(0, i as int),
            decreases n - i,
        {
            v.push(self.blocks[i]);
            i += 1;
            assert(v@ =~= self@.subrange(0, i as int));
        }
        assert(v@ =~= self@);
        v
    }

    /// The number of bytes in the blocks of the list.
    pub fn bytes(&self) -> (n: usize)
        requires
            total(self@) <= usize::MAX,
        ensures
            n == total(self@),
    {
        let len: usize = self.blocks.len();
        let mut n: usize = 0;
        let mut i: usize = 0;
        while i < len
            invariant
                len == self@.len(),
                i <= len,
                n == total(self@.subrange(0, i as int)),
                total(self@) <= usize::MAX,
            decreases len - i,
        {
            proof {
                lemma_total_prefix(self@, i as int);
            }
            n = n + self.blocks[i].size;
            i += 1;
        }
        assert(self@.subrange(0, len as int) =~= self@);
        n
    }

    /// Walks the list from the lowest address and stops at the first block
    /// that the request fits in.
    pub fn first_fit(&self, size: usize, align: usize) -> (r: Option<usize>)
        requires
            self.wf(),
        ensures
            match r {
                Some(i) => first_fit(self@, size as int, align as int) == Some(i as int)
                    && is_first_fit(self@, size as int, align as int, i as int),
                None => first_fit(self@, size as int, align as int) is None,
            },
    {
        let n: usize = self.blocks.len();
        let mut i: usize = 0;
        while i < n
            invariant
                n == self@.len(),
                i <= n,
                self.wf(),
                forall|j: int|
                    0 <= j < i ==> !(#[trigger] self@[j]).fits(size as int, align as int),
            decreases n - i,
        {
            if self.blocks[i].place(size, align).is_some() {
                proof {
                    lemma_first_fit_unique(self@, size as int, align as int, i as int);
                }
                return Some(i);
            }
            i += 1;
        }
        None
    }

    /// Cuts the request out of block `i`. The block leaves the list; what the
    /// request does not consume comes back in its place if it can hold a
    /// header, and goes to the allocation as slack if it cannot.
    pub fn take(&mut self, i: usize, size: usize, align: usize) -> (a: Allocation)
        requires
            old(self).wf(),
            i < old(self)@.len(),
            old(self)@[i as int].fits(size as int, align as int),
        ensures
            a == old(self)@[i as int].granted(size as int, align as int),
            final(self)@ == taken(old(self)@, i as int, size as int, align as int),
            final(self).wf(),
            total(final(self)@) + a.span == total(old(self)@),
    {
        let block: FreeBlock = self.blocks[i];
        let (a, rest) = block.carve(size, align);
        proof {
            lemma_taken(self@, i as int, size as int, align as int);
        }
        match rest {
            Some(r) => {
                self.blocks[i] = r;
            },
            None => {
                self.blocks.remove(i);
            },
        }
        a
    }

    /// Puts a block back. It enters at its place in address order; if it ends
    /// where the next block begins it absorbs that block, and if the block
    /// before it ends where it begins, that block absorbs it.
    pub fn insert(&mut self, blk: FreeBlock)
        requires
            old(self).wf(),
            blk.wf(),
            forall|i: int| 0 <= i < old(self)@.len() ==> !(#[trigger] old(self)@[i]).overlaps(blk),
        ensures
            final(self)@ == released(old(self)@, blk),
            final(self).wf(),
            total(final(self)@) == total(old(self)@) + blk.size,
    {
        let ghost before = self@;
        let n: usize = self.blocks.len();
        let mut k: usize = 0;
        while k < n && self.blocks[k].addr < blk.addr
            invariant
                n == self@.len(),
                k <= n,
                self@ == before,
                forall|i: int| 0 <= i < k ==> (#[trigger] self@[i]).addr < blk.addr,
            decreases n - k,
        {
            k += 1;
        }
        proof {
            assert forall|i: int| k <= i < before.len() implies (#[trigger] before[i]).addr
                >= blk.addr by {
                if i > k {
                    assert(before[k as int].end() < before[i].addr);
                }
            }
            lemma_slot_unique(before, blk.addr as int, k as int);
            lemma_slot_neighbours(before, blk, k as int);
            lemma_released_ordered(before, blk, k as int);
            lemma_released_total(before, blk, k as int);
        }
        let mut merged: FreeBlock = blk;
        if k < n && blk.addr + blk.size == self.blocks[k].addr {
            let next: FreeBlock = self.blocks.remove(k);
            merged = FreeBlock { addr: blk.addr, size: blk.size + next.size };
        }
        if k > 0 && self.blocks[k - 1].addr + self.blocks[k - 1].size == blk.addr {
            let prev: FreeBlock = self.blocks[k - 1];
            self.blocks[k - 1] = FreeBlock { addr: prev.addr, size: prev.size + merged.size };
        } else {
            self.blocks.insert(k, merged);
        }
        assert(self@ =~= released_at(before, blk, k as int));
    }
}

} // verus!

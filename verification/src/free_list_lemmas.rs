//! Lemmas on free lists.

use crate::block::{lemma_carve, FreeBlock};
use crate::free_list::{
    first_fit, has_fit, holds, is_first_fit, is_slot, ordered, released, released_at, slot, taken,
    total, touches_next, touches_prev,
};
use vstd::prelude::*;

verus! {

/// Only one index can be the first fit.
pub proof fn lemma_first_fit_unique(s: Seq<FreeBlock>, size: int, align: int, i: int)
    requires
        is_first_fit(s, size, align, i),
    ensures
        first_fit(s, size, align) == Some(i),
{
    let j = choose|j: int| is_first_fit(s, size, align, j);
    assert(is_first_fit(s, size, align, j));
    if j < i {
        assert(!s[j].fits(size, align));
    } else if i < j {
        assert(!s[i].fits(size, align));
    }
}

/// A request that fits in some block has a first block that it fits in.
pub proof fn lemma_first_fit_exists(s: Seq<FreeBlock>, size: int, align: int)
    requires
        has_fit(s, size, align),
    ensures
        first_fit(s, size, align) is Some,
        is_first_fit(s, size, align, first_fit(s, size, align).unwrap()),
{
    let w = choose|i: int| 0 <= i < s.len() && (#[trigger] s[i]).fits(size, align);
    lemma_least_fit(s, size, align, w);
}

proof fn lemma_least_fit(s: Seq<FreeBlock>, size: int, align: int, w: int)
    requires
        0 <= w < s.len(),
        s[w].fits(size, align),
    ensures
        exists|i: int| is_first_fit(s, size, align, i),
    decreases w,
{
    if forall|j: int| 0 <= j < w ==> !(#[trigger] s[j]).fits(size, align) {
        assert(is_first_fit(s, size, align, w));
    } else {
        let j = choose|j: int| 0 <= j < w && (#[trigger] s[j]).fits(size, align);
        lemma_least_fit(s, size, align, j);
    }
}

/// Only one index can be the place of an address.
pub proof fn lemma_slot_unique(s: Seq<FreeBlock>, addr: int, k: int)
    requires
        is_slot(s, addr, k),
    ensures
        slot(s, addr) == k,
{
    let j = slot(s, addr);
    assert(is_slot(s, addr, j));
    if j < k {
        assert(s[j].addr < addr);
    } else if k < j {
        assert(s[k].addr < addr);
    }
}

/// Every address has a place in an ordered list.
pub proof fn lemma_slot_exists(s: Seq<FreeBlock>, addr: int)
    requires
        ordered(s),
    ensures
        is_slot(s, addr, slot(s, addr)),
    decreases s.len(),
{
    if s.len() == 0 {
        assert(is_slot(s, addr, 0));
    } else if s.last().addr < addr {
        let n = s.len() as int;
        assert forall|i: int| 0 <= i < n implies (#[trigger] s[i]).addr < addr by {
            if i < n - 1 {
                assert(s[i].end() < s[n - 1].addr);
            }
        }
        assert(is_slot(s, addr, n));
    } else {
        let t = s.drop_last();
        assert(ordered(t)) by {
            assert forall|i: int| 0 <= i < t.len() implies (#[trigger] t[i]).wf() by {
                assert(t[i] == s[i]);
            }
            assert forall|i: int, j: int|
                #![trigger t[i], t[j]]
                0 <= i < j < t.len() implies t[i].end() < t[j].addr by {
                assert(s[i].end() < s[j].addr);
            }
        }
        lemma_slot_exists(t, addr);
        let k = slot(t, addr);
        assert forall|i: int| 0 <= i < k implies (#[trigger] s[i]).addr < addr by {
            assert(t[i].addr < addr);
        }
        assert forall|i: int| k <= i < s.len() implies (#[trigger] s[i]).addr >= addr by {
            if i < t.len() {
                assert(t[i].addr >= addr);
            }
        }
        assert(is_slot(s, addr, k));
    }
}

/// The bytes of a concatenation are the bytes of its parts.
pub proof fn lemma_total_concat(a: Seq<FreeBlock>, b: Seq<FreeBlock>)
    ensures
        total(a + b) == total(a) + total(b),
    decreases b.len(),
{
    if b.len() == 0 {
        assert(a + b =~= a);
    } else {
        assert((a + b).drop_last() =~= a + b.drop_last());
        lemma_total_concat(a, b.drop_last());
    }
}

/// The bytes of a list are those of the blocks in `[lo, hi)` and those outside.
pub proof fn lemma_total_split(s: Seq<FreeBlock>, lo: int, hi: int)
    requires
        0 <= lo <= hi <= s.len(),
    ensures
        total(s) == total(s.subrange(0, lo)) + total(s.subrange(lo, hi)) + total(
            s.subrange(hi, s.len() as int),
        ),
{
    let a = s.subrange(0, lo);
    let b = s.subrange(lo, hi);
    let c = s.subrange(hi, s.len() as int);
    assert(s =~= (a + b) + c);
    lemma_total_concat(a + b, c);
    lemma_total_concat(a, b);
}

/// The bytes of a list of one block, and of none.
pub proof fn lemma_total_small(s: Seq<FreeBlock>)
    requires
        s.len() <= 1,
    ensures
        total(s) == if s.len() == 1 { s[0].size as int } else { 0 },
{
    if s.len() == 1 {
        assert(s.drop_last().len() == 0);
        assert(total(s.drop_last()) == 0);
    }
}

/// The bytes of the first `i + 1` blocks are those of the first `i` and of
/// block `i`; they are no more than the bytes of the list.
pub proof fn lemma_total_prefix(s: Seq<FreeBlock>, i: int)
    requires
        0 <= i < s.len(),
    ensures
        total(s.subrange(0, i + 1)) == total(s.subrange(0, i)) + s[i].size,
        total(s.subrange(0, i + 1)) <= total(s),
{
    assert(s.subrange(0, i + 1).drop_last() =~= s.subrange(0, i));
    lemma_total_split(s, 0, i + 1);
    lemma_total_nonneg(s.subrange(0, 0));
    lemma_total_nonneg(s.subrange(i + 1, s.len() as int));
    lemma_total_small(s.subrange(0, 0));
}

/// The blocks of an ordered list lie between the start of the first and the
/// end of the last, with at least one byte between each two: so the list has
/// no more bytes than that range less one for every gap.
pub proof fn lemma_ordered_span(s: Seq<FreeBlock>)
    requires
        ordered(s),
        s.len() > 0,
    ensures
        total(s) + (s.len() - 1) <= s.last().end() - s[0].addr,
    decreases s.len(),
{
    let t = s.drop_last();
    if t.len() == 0 {
        lemma_total_small(s);
    } else {
        assert(ordered(t)) by {
            assert forall|i: int| 0 <= i < t.len() implies (#[trigger] t[i]).wf() by {
                assert(t[i] == s[i]);
            }
            assert forall|i: int, j: int|
                #![trigger t[i], t[j]]
                0 <= i < j < t.len() implies t[i].end() < t[j].addr by {
                assert(s[i].end() < s[j].addr);
            }
        }
        lemma_ordered_span(t);
        assert(t.last() == s[s.len() - 2]);
        assert(s[s.len() - 2].end() < s[s.len() - 1].addr);
    }
}

/// A list holds no negative number of bytes.
pub proof fn lemma_total_nonneg(s: Seq<FreeBlock>)
    ensures
        0 <= total(s),
    decreases s.len(),
{
    if s.len() > 0 {
        lemma_total_nonneg(s.drop_last());
    }
}

/// A block that overlaps no block of an ordered list lies between the
/// blocks on either side of its place.
pub proof fn lemma_slot_neighbours(s: Seq<FreeBlock>, blk: FreeBlock, k: int)
    requires
        ordered(s),
        blk.wf(),
        forall|i: int| 0 <= i < s.len() ==> !(#[trigger] s[i]).overlaps(blk),
        is_slot(s, blk.addr as int, k),
    ensures
        k > 0 ==> s[k - 1].end() <= blk.addr,
        k < s.len() ==> blk.end() <= s[k].addr,
{
    if k > 0 {
        assert(!s[k - 1].overlaps(blk));
    }
    if k < s.len() {
        assert(!s[k].overlaps(blk));
    }
}

/// A block that overlaps no block of an ordered list, entering at its place,
/// leaves the list ordered.
pub proof fn lemma_released_ordered(s: Seq<FreeBlock>, blk: FreeBlock, k: int)
    requires
        ordered(s),
        blk.wf(),
        forall|i: int| 0 <= i < s.len() ==> !(#[trigger] s[i]).overlaps(blk),
        is_slot(s, blk.addr as int, k),
    ensures
        ordered(released_at(s, blk, k)),
{
    let lo = if touches_prev(s, blk, k) { k - 1 } else { k };
    let hi = if touches_next(s, blk, k) { k + 1 } else { k };
    let r = released_at(s, blk, k);
    lemma_slot_neighbours(s, blk, k);
    assert(r.len() == lo + 1 + (s.len() - hi));
    assert forall|i: int| 0 <= i < r.len() implies (#[trigger] r[i]).wf() by {
        if i < lo {
            assert(r[i] == s[i]);
        } else if i > lo {
            assert(r[i] == s[i - lo - 1 + hi]);
        }
    }
    assert forall|i: int, j: int|
        #![trigger r[i], r[j]]
        0 <= i < j < r.len() implies r[i].end() < r[j].addr by {
        let si = if i < lo { i } else { i - lo - 1 + hi };
        let sj = if j < lo { j } else { j - lo - 1 + hi };
        if i != lo {
            assert(r[i] == s[si]);
        }
        if j != lo {
            assert(r[j] == s[sj]);
        }
        if i != lo && j != lo {
            assert(s[si].end() < s[sj].addr);
        } else if j == lo {
            if touches_prev(s, blk, k) {
                assert(s[si].end() < s[k - 1].addr);
            } else if k > 0 {
                assert(s[si].end() <= s[k - 1].end()) by {
                    if si < k - 1 {
                        assert(s[si].end() < s[k - 1].addr);
                    }
                }
            }
        } else {
            if touches_next(s, blk, k) {
                assert(s[k].end() < s[sj].addr);
            } else if k < s.len() {
                assert(s[k].addr <= s[sj].addr) by {
                    if k < sj {
                        assert(s[k].end() < s[sj].addr);
                    }
                }
            }
        }
    }
}

/// After a block has entered at its place, every block of the list is one
/// that was there before, but for one: the block that entered, grown by the
/// neighbours that it touched.
pub proof fn lemma_released_blocks(s: Seq<FreeBlock>, blk: FreeBlock, k: int)
    requires
        ordered(s),
        blk.wf(),
        forall|i: int| 0 <= i < s.len() ==> !(#[trigger] s[i]).overlaps(blk),
        is_slot(s, blk.addr as int, k),
    ensures
        forall|x: int|
            0 <= x < released_at(s, blk, k).len() ==> {
                let b = #[trigger] released_at(s, blk, k)[x];
                ||| exists|y: int| 0 <= y < s.len() && s[y] == b
                ||| {
                    &&& b.addr == if touches_prev(s, blk, k) { s[k - 1].addr } else { blk.addr }
                    &&& b.end() == if touches_next(s, blk, k) { s[k].end() } else { blk.end() }
                }
            },
{
    let lo = if touches_prev(s, blk, k) { k - 1 } else { k };
    let hi = if touches_next(s, blk, k) { k + 1 } else { k };
    let r = released_at(s, blk, k);
    lemma_slot_neighbours(s, blk, k);
    assert forall|x: int| 0 <= x < r.len() implies {
        let b = #[trigger] r[x];
        ||| exists|y: int| 0 <= y < s.len() && s[y] == b
        ||| {
            &&& b.addr == if touches_prev(s, blk, k) { s[k - 1].addr } else { blk.addr }
            &&& b.end() == if touches_next(s, blk, k) { s[k].end() } else { blk.end() }
        }
    } by {
        if x < lo {
            assert(s[x] == r[x]);
        } else if x > lo {
            assert(s[x - lo - 1 + hi] == r[x]);
        }
    }
}

/// An address that lies in a block of the list, or in the block that enters,
/// lies in a block of the list afterwards.
pub proof fn lemma_released_holds(s: Seq<FreeBlock>, blk: FreeBlock, k: int, x: int)
    requires
        ordered(s),
        blk.wf(),
        forall|i: int| 0 <= i < s.len() ==> !(#[trigger] s[i]).overlaps(blk),
        is_slot(s, blk.addr as int, k),
        holds(s, x) || blk.addr <= x < blk.end(),
    ensures
        holds(released_at(s, blk, k), x),
{
    let lo = if touches_prev(s, blk, k) { k - 1 } else { k };
    let hi = if touches_next(s, blk, k) { k + 1 } else { k };
    let r = released_at(s, blk, k);
    lemma_slot_neighbours(s, blk, k);
    assert(r.len() == lo + 1 + (s.len() - hi));
    if blk.addr <= x < blk.end() {
        assert(r[lo].addr <= x < r[lo].end());
    } else {
        let f = choose|f: int| 0 <= f < s.len() && (#[trigger] s[f]).addr <= x < s[f].end();
        if f < lo {
            assert(r[f] == s[f]);
        } else if f >= hi {
            assert(r[f - hi + lo + 1] == s[f]);
        } else {
            assert(r[lo].addr <= x < r[lo].end());
        }
    }
}

/// An address that lies in a block of the list lies, after a request has
/// been cut out of block `i`, in a block of the list or in the block of the
/// allocation granted.
pub proof fn lemma_taken_holds(s: Seq<FreeBlock>, i: int, size: int, align: int, x: int)
    requires
        ordered(s),
        0 <= i < s.len(),
        0 <= size <= usize::MAX,
        0 < align <= usize::MAX,
        s[i].fits(size, align),
        holds(s, x),
    ensures
        holds(taken(s, i, size, align), x) || {
            let a = s[i].granted(size, align);
            a.start <= x < a.end()
        },
{
    let t = taken(s, i, size, align);
    let b = s[i];
    let a = b.granted(size, align);
    lemma_carve(b, size, align);
    let f = choose|f: int| 0 <= f < s.len() && (#[trigger] s[f]).addr <= x < s[f].end();
    if f == i {
        if x >= a.end() {
            assert(t[i] == b.remainder(size, align));
            assert(t[i].addr <= x < t[i].end());
        }
    } else if b.splits(size, align) {
        assert(t[f] == s[f]);
    } else {
        let g = if f < i { f } else { f - 1 };
        assert(t[g] == s[f]);
    }
}

/// An address that lies in a block of the list lies in a block of the list
/// with one more block.
pub proof fn lemma_push_holds(s: Seq<FreeBlock>, b: FreeBlock, x: int)
    requires
        holds(s, x) || b.addr <= x < b.end(),
    ensures
        holds(s.push(b), x),
{
    let t = s.push(b);
    if holds(s, x) {
        let f = choose|f: int| 0 <= f < s.len() && (#[trigger] s[f]).addr <= x < s[f].end();
        assert(t[f] == s[f]);
    } else {
        assert(t[s.len() as int] == b);
    }
}

/// An address that lies in a block of the list lies in block `j` or in a
/// block of the list without block `j`.
pub proof fn lemma_remove_holds(s: Seq<FreeBlock>, j: int, x: int)
    requires
        0 <= j < s.len(),
        holds(s, x),
    ensures
        holds(s.remove(j), x) || s[j].addr <= x < s[j].end(),
{
    let t = s.remove(j);
    let f = choose|f: int| 0 <= f < s.len() && (#[trigger] s[f]).addr <= x < s[f].end();
    if f != j {
        let g = if f < j { f } else { f - 1 };
        assert(t[g] == s[f]);
    }
}

/// A block that overlaps no block of an ordered list, entering at its place,
/// adds its bytes to the list.
pub proof fn lemma_released_total(s: Seq<FreeBlock>, blk: FreeBlock, k: int)
    requires
        ordered(s),
        blk.wf(),
        forall|i: int| 0 <= i < s.len() ==> !(#[trigger] s[i]).overlaps(blk),
        is_slot(s, blk.addr as int, k),
    ensures
        total(released_at(s, blk, k)) == total(s) + blk.size,
{
    let lo = if touches_prev(s, blk, k) { k - 1 } else { k };
    let hi = if touches_next(s, blk, k) { k + 1 } else { k };
    let start = if touches_prev(s, blk, k) { s[k - 1].addr as int } else { blk.addr as int };
    let end = if touches_next(s, blk, k) { s[k].end() } else { blk.end() };
    let merged = FreeBlock { addr: start as usize, size: (end - start) as usize };
    let head = s.subrange(0, lo);
    let mid = s.subrange(lo, hi);
    let tail = s.subrange(hi, s.len() as int);
    lemma_slot_neighbours(s, blk, k);
    lemma_total_split(s, lo, hi);
    assert(released_at(s, blk, k) =~= (head + seq![merged]) + tail);
    lemma_total_concat(head + seq![merged], tail);
    lemma_total_concat(head, seq![merged]);
    lemma_total_small(seq![merged]);
    if mid.len() == 2 {
        lemma_total_small(mid.drop_last());
        assert(total(mid) == mid[0].size + mid[1].size);
    } else {
        lemma_total_small(mid);
    }
    assert(merged.size == blk.size + total(mid));
}

/// Cutting a request out of a block of an ordered list leaves the list
/// ordered, and takes from it the bytes that the allocation is granted.
pub proof fn lemma_taken(s: Seq<FreeBlock>, i: int, size: int, align: int)
    requires
        ordered(s),
        0 <= i < s.len(),
        0 <= size <= usize::MAX,
        0 < align <= usize::MAX,
        s[i].fits(size, align),
    ensures
        ordered(taken(s, i, size, align)),
        total(taken(s, i, size, align)) + s[i].granted(size, align).span == total(s),
{
    let t = taken(s, i, size, align);
    lemma_carve(s[i], size, align);
    lemma_total_split(s, i, i + 1);
    lemma_total_small(s.subrange(i, i + 1));
    if s[i].splits(size, align) {
        lemma_total_split(t, i, i + 1);
        lemma_total_small(t.subrange(i, i + 1));
        assert(t.subrange(0, i) =~= s.subrange(0, i));
        assert(t.subrange(i + 1, t.len() as int) =~= s.subrange(i + 1, s.len() as int));
        assert forall|x: int, y: int|
            #![trigger t[x], t[y]]
            0 <= x < y < t.len() implies t[x].end() < t[y].addr by {
            assert(s[x].end() < s[y].addr);
        }
    } else {
        lemma_total_split(t, i, i);
        lemma_total_small(t.subrange(i, i));
        assert(t.subrange(0, i) =~= s.subrange(0, i));
        assert(t.subrange(i, t.len() as int) =~= s.subrange(i + 1, s.len() as int));
        assert forall|x: int, y: int|
            #![trigger t[x], t[y]]
            0 <= x < y < t.len() implies t[x].end() < t[y].addr by {
            let sx = if x < i { x } else { x + 1 };
            let sy = if y < i { y } else { y + 1 };
            assert(s[sx].end() < s[sy].addr);
        }
    }
}

/// A block that was cut from a free list and is given back at once makes the
/// list what it was: the block merges with its own remainder, and with
/// nothing else.
pub proof fn lemma_taken_released(free: Seq<FreeBlock>, i: int, size: int, align: int)
    requires
        ordered(free),
        0 <= i < free.len(),
        0 <= size <= usize::MAX,
        0 < align <= usize::MAX,
        free[i].fits(size, align),
    ensures
        released(taken(free, i, size, align), free[i].granted(size, align).block()) == free,
{
    let b = free[i];
    let t = taken(free, i, size, align);
    let blk = b.granted(size, align).block();
    lemma_carve(b, size, align);
    assert forall|x: int| 0 <= x < i implies (#[trigger] t[x]).addr < blk.addr by {
        assert(t[x] == free[x]);
        assert(free[x].end() < free[i].addr);
    }
    assert forall|x: int| i <= x < t.len() implies (#[trigger] t[x]).addr >= blk.addr by {
        if b.splits(size, align) {
            if x > i {
                assert(t[x] == free[x]);
                assert(free[i].end() < free[x].addr);
            }
        } else {
            assert(t[x] == free[x + 1]);
            assert(free[i].end() < free[x + 1].addr);
        }
    }
    assert(is_slot(t, blk.addr as int, i));
    lemma_slot_unique(t, blk.addr as int, i);
    if i > 0 {
        assert(t[i - 1] == free[i - 1]);
        assert(free[i - 1].end() < free[i].addr);
    }
    if !b.splits(size, align) && i < t.len() {
        assert(t[i] == free[i + 1]);
        assert(free[i].end() < free[i + 1].addr);
    }
    assert(released_at(t, blk, i) =~= free);
}

} // verus!

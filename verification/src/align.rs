//! Rounding addresses up to an alignment.

use vstd::arithmetic::div_mod::{lemma_fundamental_div_mod, lemma_mod_multiples_basic};
use vstd::prelude::*;

verus! {

/// Whether `addr` is a multiple of the positive alignment `align`.
pub open spec fn is_aligned(addr: int, align: int) -> bool {
    align > 0 && addr % align == 0
}

/// The least address at or above `x` that is a multiple of `align`.
pub open spec fn align_up(x: int, align: int) -> int {
    x + padding(x, align)
}

/// The number of bytes to skip from `x` to reach the next multiple of `align`.
pub open spec fn padding(x: int, align: int) -> int {
    if x % align == 0 {
        0
    } else {
        align - x % align
    }
}

/// `align_up(x, align)` is a multiple of `align`, lies in `[x, x + align)`, and no
/// multiple of `align` lies between `x` and it.
pub proof fn lemma_align_up_is_least(x: int, align: int)
    requires
        0 <= x,
        0 < align,
    ensures
        x <= align_up(x, align) < x + align,
        is_aligned(align_up(x, align), align),
        forall|y: int| x <= y && #[trigger] is_aligned(y, align) ==> align_up(x, align) <= y,
{
    let q = x / align;
    let r = x % align;
    lemma_fundamental_div_mod(x, align);
    assert(x == align * q + r);
    if r != 0 {
        assert(align_up(x, align) == align * q + align);
        assert(align * (q + 1) == align * q + align) by (nonlinear_arith);
        lemma_mod_multiples_basic(q + 1, align);
        assert((q + 1) * align == align * (q + 1)) by (nonlinear_arith);
    }
    assert forall|y: int| x <= y && #[trigger] is_aligned(y, align) implies align_up(x, align)
        <= y by {
        let k = y / align;
        lemma_fundamental_div_mod(y, align);
        assert(y == align * k);
        if r != 0 {
            assert(k > q) by (nonlinear_arith)
                requires
                    align * k >= align * q + r,
                    r > 0,
                    align > 0,
            ;
            assert(align * k >= align * q + align) by (nonlinear_arith)
                requires
                    k >= q + 1,
                    align > 0,
            ;
        }
    }
}

/// Computes the padding from `x` to the next multiple of `align`.
pub fn padding_to(x: usize, align: usize) -> (pad: usize)
    requires
        align > 0,
    ensures
        pad == padding(x as int, align as int),
        pad < align,
{
    let rem: usize = x % align;
    if rem == 0 {
        0
    } else {
        align - rem
    }
}

} // verus!

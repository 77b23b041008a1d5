//! Size and alignment requests, and the arithmetic of aligning addresses.

use vstd::arithmetic::power2::is_pow2;
use vstd::layout::valid_layout;
use vstd::prelude::*;

verus! {

/// The first address at or after `addr` that is a multiple of `align`.
pub open spec fn align_up_spec(addr: int, align: int) -> int {
    if addr % align == 0 {
        addr
    } else {
        addr + (align - addr % align)
    }
}

/// `align_up_spec` yields a multiple of `align`, and the least one that is not below `addr`:
/// every multiple of `align` at or after `addr` is at or after the result.
pub proof fn lemma_align_up_is_least(addr: int, align: int, other: int)
    requires
        align > 0,
    ensures
        align_up_spec(addr, align) % align == 0,
        addr <= align_up_spec(addr, align) < addr + align,
        other >= addr && other % align == 0 ==> other >= align_up_spec(addr, align),
{
    let up = align_up_spec(addr, align);
    assert(up % align == 0 && addr <= up < addr + align) by (nonlinear_arith)
        requires
            align > 0,
            up == if addr % align == 0 {
                addr
            } else {
                addr + (align - addr % align)
            },
    ;
    if other >= addr && other % align == 0 && other < up {
        assert(false) by (nonlinear_arith)
            requires
                align > 0,
                other % align == 0,
                up % align == 0,
                addr <= other < up < addr + align,
        ;
    }
}

/// Rounds `addr` up to the next multiple of `align`.
///
/// Returns `None` exactly when that multiple does not fit in a `usize`.
pub fn align_up(addr: usize, align: usize) -> (res: Option<usize>)
    requires
        align > 0,
    ensures
        res is Some <==> align_up_spec(addr as int, align as int) <= usize::MAX,
        res matches Some(up) ==> up == align_up_spec(addr as int, align as int),
{
    let rem = addr % align;
    if rem == 0 {
        Some(addr)
    } else {
        addr.checked_add(align - rem)
    }
}

/// Tells whether `n` is a power of two.
pub fn is_power_of_two(n: usize) -> (res: bool)
    ensures
        res == is_pow2(n as int),
{
    if n == 0 {
        proof {
            reveal(is_pow2);
        }
        return false;
    }
    let mut m = n;
    while m % 2 == 0
        invariant
            m > 0,
            is_pow2(m as int) == is_pow2(n as int),
        decreases m,
    {
        proof {
            reveal(is_pow2);
        }
        m = m / 2;
    }
    proof {
        reveal(is_pow2);
    }
    m == 1
}

/// A request for memory: a size in bytes and an alignment.
///
/// Every value satisfies [`valid_layout`]: the alignment is a power of two, and the size,
/// rounded up to the alignment, does not exceed `isize::MAX`.
#[derive(Clone, Copy, Debug, PartialEq, Eq)]
pub struct Layout {
    size: usize,
    align: usize,
}

impl Layout {
    #[verifier::type_invariant]
    pub closed spec fn inv(self) -> bool {
        valid_layout(self.size, self.align)
    }

    /// The requested size in bytes.
    pub closed spec fn spec_size(&self) -> usize {
        self.size
    }

    /// The requested alignment in bytes.
    pub closed spec fn spec_align(&self) -> usize {
        self.align
    }

    /// A layout that satisfies the invariant of the type is valid; its alignment is not zero.
    pub proof fn lemma_valid(self)
        requires
            self.inv(),
        ensures
            valid_layout(self.size(), self.align()),
            self.align() > 0,
    {
        reveal(is_pow2);
    }

    /// Builds a layout, or returns `None` if `size` and `align` do not form a valid one.
    pub fn from_size_align(size: usize, align: usize) -> (res: Option<Layout>)
        ensures
            res is Some <==> valid_layout(size, align),
            res matches Some(layout) ==> layout.size() == size && layout.align() == align,
    {
        if !is_power_of_two(align) {
            return None;
        }
        proof {
            reveal(is_pow2);
        }
        let max = isize::MAX as usize;
        assert(max % align <= max) by (nonlinear_arith)
            requires
                align > 0,
        ;
        if size > max - max % align {
            return None;
        }
        Some(Layout { size, align })
    }

    /// The requested size in bytes.
    #[verifier::when_used_as_spec(spec_size)]
    pub fn size(&self) -> (n: usize)
        ensures
            n == self.size(),
    {
        self.size
    }

    /// The requested alignment in bytes: a power of two, so never zero.
    #[verifier::when_used_as_spec(spec_align)]
    pub fn align(&self) -> (n: usize)
        ensures
            n == self.align(),
            n > 0,
            valid_layout(self.size(), n),
    {
        proof {
            use_type_invariant(self);
            self.lemma_valid();
        }
        self.align
    }
}

} // verus!

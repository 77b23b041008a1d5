//! The free list of a heap block: a chain of holes in address order, first-fit search in it,
//! and the return of freed memory to it.

use crate::block::HeapBlock;
use crate::fit::{
    first_fit, fits, lemma_first_fit, lemma_min_fragment_size, min_fragment_size, split, Split,
};
use crate::layout::{align_up, lemma_align_up_is_least, Layout};
use crate::region::{
    coalesce, lemma_coalesce_absorbs, lemma_coalesce_skips, lemma_rank_is, lemma_remove,
    lemma_skip_first, ordered, overlaps_any, within, Region,
};
use vstd::prelude::*;

verus! {

/// A free stretch of memory, and the link to the next one.
///
/// A hole stands for the addresses `addr .. addr + size`. The head of a chain is a placeholder
/// at address 0 with size 0, which stands for no memory.
pub struct Hole {
    pub addr: usize,
    pub size: usize,
    pub next: Option<Box<Hole>>,
}

/// The address and size of a hole, without the link.
#[derive(Debug, Clone, Copy)]
pub struct HoleInfo {
    pub addr: usize,
    pub size: usize,
}

/// A successful split: the allocated stretch (`info`), and what is left of the hole before and
/// after it. Both paddings are free memory and have to go back into the free list.
#[derive(Debug, Clone, Copy)]
pub struct Allocation {
    pub info: HoleInfo,
    pub front_padding: Option<HoleInfo>,
    pub back_padding: Option<HoleInfo>,
}

/// No hole can serve the request.
///
/// This is an ordinary outcome: the caller may turn to another block.
#[derive(Debug, Clone, Copy, PartialEq, Eq)]
pub struct AllocError;

/// The memory given back overlaps memory that is free already.
///
/// This is a fault of the caller, most likely a double free or a wrong address or size, and
/// nothing that the caller can make up for: what it takes to be allocated is not. The free
/// list has not taken the memory in and is as it was.
#[derive(Debug, Clone, Copy, PartialEq, Eq)]
pub struct InvalidDeallocation;

impl View for HoleInfo {
    type V = Region;

    open spec fn view(&self) -> Region {
        Region { addr: self.addr as int, size: self.size as int }
    }
}

/// The region of a padding, if there is one.
pub open spec fn padding_view(padding: Option<HoleInfo>) -> Option<Region> {
    match padding {
        Some(info) => Some(info@),
        None => None,
    }
}

impl View for Allocation {
    type V = Split;

    open spec fn view(&self) -> Split {
        Split {
            region: self.info@,
            front: padding_view(self.front_padding),
            back: padding_view(self.back_padding),
        }
    }
}

/// The regions of the holes from `link` on, in chain order.
pub open spec fn chain(link: Option<Box<Hole>>) -> Seq<Region>
    decreases link,
{
    match link {
        Some(hole) => seq![hole.region()] + chain(hole.next),
        None => Seq::empty(),
    }
}

impl Hole {
    /// The region of this hole.
    pub open spec fn region(&self) -> Region {
        Region { addr: self.addr as int, size: self.size as int }
    }

    /// The regions of the holes after this one.
    pub open spec fn holes(&self) -> Seq<Region> {
        chain(self.next)
    }

    /// The region of this hole, then those of the holes after it.
    pub open spec fn regions(&self) -> Seq<Region> {
        seq![self.region()] + chain(self.next)
    }

    /// The regions of a chain are the region of its first hole and the regions of the holes
    /// after it.
    pub proof fn lemma_regions(&self)
        ensures
            self.regions().len() == self.holes().len() + 1,
            self.regions()[0] == self.region(),
            self.regions().skip(1) == self.holes(),
    {
        assert(self.regions().skip(1) =~= self.holes());
    }

    /// The address and size of the hole.
    pub fn info(&self) -> (info: HoleInfo)
        ensures
            info@ == self.region(),
    {
        HoleInfo { addr: self.addr, size: self.size }
    }
}

/// Cuts an allocation for `required_layout` out of `hole`, if the hole can serve it, and
/// returns `None` if it cannot.
///
/// The allocation starts at the start of the hole if that is aligned. If not, it starts at
/// the first aligned address that leaves room for a minimal fragment before it, and the
/// memory before it is the front padding. What the hole holds behind the allocation is the
/// back padding. The hole cannot serve the request if the allocation would end behind it, or
/// if the back padding would be smaller than a minimal fragment.
pub fn split_hole(hole: HoleInfo, required_layout: Layout) -> (res: Option<Allocation>)
    requires
        hole.addr + hole.size <= usize::MAX,
    ensures
        res is Some <==> fits(hole@, required_layout.size() as int, required_layout.align() as int),
        res matches Some(allocation) ==> allocation@ == split(
            hole@,
            required_layout.size() as int,
            required_layout.align() as int,
        ),
{
    let required_size = required_layout.size();
    let required_align = required_layout.align();
    let hole_end = hole.addr + hole.size;
    proof {
        lemma_min_fragment_size();
        lemma_align_up_is_least(hole.addr + min_fragment_size(), required_align as int, 0);
    }

    let (aligned_addr, front_padding) = if hole.addr % required_align == 0 {
        // the hole starts at an aligned address
        (hole.addr, None)
    } else {
        // the allocation starts further on, behind a front padding
        let aligned_addr = match hole.addr.checked_add(HeapBlock::min_size()) {
            Some(shifted) => align_up(shifted, required_align),
            None => None,
        };
        match aligned_addr {
            Some(aligned_addr) => (
                aligned_addr,
                Some(HoleInfo { addr: hole.addr, size: aligned_addr - hole.addr }),
            ),
            None => {
                // the aligned address lies beyond the address space, and so beyond the hole
                return None;
            },
        }
    };

    if aligned_addr > hole_end || required_size > hole_end - aligned_addr {
        // the allocation would end behind the hole
        return None;
    }
    let aligned_hole = HoleInfo { addr: aligned_addr, size: hole_end - aligned_addr };

    let back_padding = if aligned_hole.size == required_size {
        // the allocation ends where the hole ends
        None
    } else if aligned_hole.size - required_size < HeapBlock::min_size() {
        // what is left behind the allocation would be too small for a hole
        return None;
    } else {
        // what is left behind the allocation is the back padding
        Some(
            HoleInfo {
                addr: aligned_hole.addr + required_size,
                size: aligned_hole.size - required_size,
            },
        )
    };

    Some(
        Allocation {
            info: HoleInfo { addr: aligned_hole.addr, size: required_size },
            front_padding,
            back_padding,
        },
    )
}

/// Searches the chain after `previous` for the first hole that can serve `layout`, takes that
/// hole out of the chain and returns how it is split.
///
/// The paddings of the split are free memory that is in no hole any more: the caller has to
/// put them back. If no hole can serve the request, the chain is left as it is.
pub fn allocate_first_fit(previous: &mut Hole, layout: Layout) -> (res: Result<
    Allocation,
    AllocError,
>)
    requires
        within(old(previous).holes(), 0, usize::MAX as int),
    ensures
        final(previous).region() == old(previous).region(),
        res is Ok <==> first_fit(
            old(previous).holes(),
            layout.size() as int,
            layout.align() as int,
        ) < old(previous).holes().len(),
        res matches Ok(allocation) ==> {
            let i = first_fit(old(previous).holes(), layout.size() as int, layout.align() as int);
            &&& allocation@ == split(
                old(previous).holes()[i],
                layout.size() as int,
                layout.align() as int,
            )
            &&& final(previous).holes() == old(previous).holes().remove(i)
        },
        res is Err ==> *final(previous) == *old(previous),
    decreases old(previous).holes().len(),
{
    let allocation: Option<Allocation> = match &previous.next {
        Some(current) => {
            assert(previous.holes()[0] == current.region());
            split_hole(current.info(), layout)
        },
        None => None,
    };
    match allocation {
        Some(allocation) => {
            // this hole serves the request: take it out of the chain
            let mut current = previous.next.take().unwrap();
            previous.next = current.next.take();
            proof {
                assert(previous.holes() =~= old(previous).holes().remove(0));
            }
            Ok(allocation)
        },
        None => match &mut previous.next {
            Some(current) => {
                // this hole cannot serve the request: go on behind it
                proof {
                    let s = old(previous).holes();
                    assert(current.holes() =~= s.skip(1));
                    lemma_skip_first(s, 0, usize::MAX as int);
                }
                let res = allocate_first_fit(move_helper(current), layout);
                proof {
                    let s = old(previous).holes();
                    let i = first_fit(s.skip(1), layout.size() as int, layout.align() as int);
                    lemma_first_fit(s.skip(1), layout.size() as int, layout.align() as int);
                    if res is Ok {
                        assert(s[i + 1] == s.skip(1)[i]);
                        assert(previous.holes() =~= s.remove(i + 1));
                    }
                }
                res
            },
            None => Err(AllocError),
        },
    }
}

/// Gives the memory `addr .. addr + size` back to the chain that starts at `hole`.
///
/// The chain is walked to the place where the freed memory belongs in address order. There it
/// becomes a hole of its own, or part of the hole before it, of the hole after it, or of both
/// where it touches them. Memory that overlaps a hole cannot be given back: the chain is then
/// left as it is.
pub fn deallocate(hole: &mut Hole, addr: usize, size: usize) -> (res: Result<
    (),
    InvalidDeallocation,
>)
    requires
        ordered(old(hole).regions()),
        within(old(hole).regions(), 0, usize::MAX as int),
        size > 0,
        addr + size <= usize::MAX,
    ensures
        res is Err <==> addr < old(hole).addr + old(hole).size || overlaps_any(
            old(hole).regions(),
            Region { addr: addr as int, size: size as int },
        ),
        res is Err ==> *final(hole) == *old(hole),
        res is Ok ==> final(hole).regions() == coalesce(
            old(hole).regions(),
            Region { addr: addr as int, size: size as int },
        ),
    decreases old(hole).regions().len(),
{
    let ghost s = hole.regions();
    let ghost r = Region { addr: addr as int, size: size as int };
    assert(s[0] == hole.region());
    let hole_end = hole.addr + hole.size;
    // The freed memory has to begin at or behind the end of this hole,
    if hole_end > addr {
        return Err(InvalidDeallocation);
    }
    let next_hole_info = match &hole.next {
        Some(next) => Some(next.info()),
        None => None,
    };
    // and it has to end at or before the start of the next hole, unless it lies behind that
    // one too.
    match next_hole_info {
        Some(next) if addr < next.addr && next.addr - addr < size => {
            assert(s[1].overlaps(r));
            return Err(InvalidDeallocation);
        },
        Some(next) => {
            assert(s[1] == next@);
            assert(s[0].end() < s[1].addr);
        },
        None => {
            assert(s.len() == 1);
        },
    }
    match next_hole_info {
        Some(next) if hole_end == addr && next.addr - addr == size => {
            // The freed memory fills the gap between this hole and the next: all three
            // become this hole.
            let mut next = hole.next.take().unwrap();
            hole.size = hole.size + size + next.size;
            hole.next = next.next.take();
            proof {
                lemma_rank_is(s, r.addr, 1);
                lemma_head_of_rest(s, r);
                assert(hole.regions() =~= coalesce(s, r));
            }
            Ok(())
        },
        _ if hole_end == addr => {
            // The freed memory follows this hole directly, and used memory follows it: this
            // hole grows.
            hole.size = hole.size + size;
            proof {
                lemma_rank_is(s, r.addr, 1);
                lemma_head_of_rest(s, r);
                assert(hole.regions() =~= coalesce(s, r));
            }
            Ok(())
        },
        Some(next) if next.addr >= addr && next.addr - addr == size => {
            // The next hole follows the freed memory directly: take it out of the chain and
            // give both back as one.
            let mut next = hole.next.take().unwrap();
            hole.next = next.next.take();
            proof {
                assert(hole.regions() =~= s.remove(1));
                lemma_coalesce_absorbs(s, r);
                lemma_remove(s, 1, 0, usize::MAX as int);
            }
            deallocate(hole, addr, size + next.size)
        },
        Some(next) if next.addr <= addr => {
            // The freed memory lies behind the next hole: go on from there.
            proof {
                assert(hole.next->0.regions() =~= s.skip(1));
                assert(addr < s[1].end() ==> s[1].overlaps(r));
                assert(s.skip(1)[0] == s[1]);
                lemma_skip_first(s, 0, usize::MAX as int);
                lemma_coalesce_skips(s, r);
            }
            let res = deallocate(move_helper(hole).next.as_mut().unwrap(), addr, size);
            proof {
                if res is Ok {
                    assert(final(hole).regions() =~= seq![s[0]] + coalesce(s.skip(1), r));
                }
            }
            res
        },
        _ => {
            // The freed memory lies between this hole and the next, or behind the last hole,
            // and touches neither: it becomes a hole of its own.
            let new_hole = Hole { addr, size, next: hole.next.take() };
            hole.next = Some(Box::new(new_hole));
            proof {
                lemma_rank_is(s, r.addr, 1);
                lemma_head_of_rest(s, r);
                assert(hole.regions() =~= coalesce(s, r));
            }
            Ok(())
        },
    }
}

/// A region that ends at or before the second region of an ordered list overlaps none of the
/// regions behind the first.
proof fn lemma_head_of_rest(s: Seq<Region>, r: Region)
    requires
        ordered(s),
        within(s, 0, usize::MAX as int),
        s.len() > 0,
        !s[0].overlaps(r),
        s.len() > 1 ==> r.end() <= s[1].addr,
    ensures
        !overlaps_any(s, r),
{
    assert forall|i: int| 0 <= i < s.len() implies !(#[trigger] s[i]).overlaps(r) by {
        if i >= 2 {
            assert(s[1].end() < s[i].addr);
        }
    }
}

/// Returns its argument.
///
/// A mutable reference that is handed to a function is moved, where a plain use of it would
/// reborrow it. A walk along the chain moves its reference through this function and can
/// then borrow the next hole from it for as long as the reference was good for.
pub fn move_helper<T>(x: T) -> (res: T)
    ensures
        res == x,
{
    x
}

} // verus!

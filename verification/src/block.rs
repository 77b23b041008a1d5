//! A heap block: one stretch of memory of fixed capacity, and the list of its free holes.

use crate::fit::{
    carve, first_fit, lemma_carve_bytes, lemma_carve_reinserts, lemma_carve_valid, lemma_first_fit,
    lemma_min_fragment_size, lemma_split, min_fragment_size, split,
};
use crate::hole::{allocate_first_fit, deallocate, AllocError, Hole, InvalidDeallocation};
use crate::layout::Layout;
use crate::region::{
    all_at_least, bytes, coalesce, lemma_coalesce_at_least, lemma_coalesce_bytes,
    lemma_coalesce_skips, lemma_coalesce_valid, lemma_remove, ordered, overlaps_any, within, Region,
};
use vstd::prelude::*;

verus! {

/// The size of the header at the start of a block: the link to the next block, one machine
/// word, and the head of the hole list, two machine words.
pub open spec fn header_size() -> int {
    3 * (vstd::layout::size_of::<usize>() as int)
}

/// A heap block.
///
/// The block stands for the addresses `base .. base + capacity`. Its header comes first;
/// the memory after the header is what the block hands out.
pub struct HeapBlock {
    /// The address of the block.
    pub base: usize,
    /// The size of the block in bytes, header included.
    pub capacity: usize,
    /// The next heap block, for whoever chains blocks.
    pub next: Option<Box<HeapBlock>>,
    /// The head of the hole list: a placeholder that stands for no memory.
    pub first: Hole,
}

/// Whether the regions begin behind `floor`, or at `floor` if that is `open`, end at or
/// before `end` and hold `least` bytes or more each, in ascending order and without touching.
spec fn in_order(s: Seq<Region>, floor: int, open: bool, end: int, least: int) -> bool {
    &&& ordered(s)
    &&& within(s, if open { floor } else { floor + 1 }, end)
    &&& all_at_least(s, least)
}

/// Checks that the holes behind `hole` are in order.
fn holes_in_order(hole: &Hole, floor: usize, strict: bool, end: usize, least: usize) -> (res: bool)
    ensures
        res == in_order(hole.holes(), floor as int, !strict, end as int, least as int),
    decreases hole.holes().len(),
{
    let ghost s = hole.holes();
    match &hole.next {
        None => true,
        Some(next) => {
            proof {
                next.lemma_regions();
                assert(s =~= next.regions());
                assert(s[0] == next.region());
                if s.len() > 1 {
                    assert(s[1] == next.holes()[0]);
                }
            }
            let begins_behind = if strict {
                next.addr > floor
            } else {
                next.addr >= floor
            };
            if !begins_behind || next.addr > end || next.size > end - next.addr || next.size
                < least {
                return false;
            }
            let rest = holes_in_order(next, next.addr + next.size, true, end, least);
            proof {
                let t = next.holes();
                let lo: int = if strict {
                    floor + 1
                } else {
                    floor as int
                };
                if rest {
                    assert forall|i: int, j: int| 0 <= i < j < s.len() implies (#[trigger] s[i]).end()
                        < (#[trigger] s[j]).addr by {
                        assert(s[j] == t[j - 1]);
                        if i > 0 {
                            assert(s[i] == t[i - 1]);
                        }
                    }
                    assert forall|i: int| 0 <= i < s.len() implies (#[trigger] s[i]).size >= 0 && lo
                        <= s[i].addr && s[i].end() <= end && s[i].size >= least by {
                        if i > 0 {
                            assert(s[i] == t[i - 1]);
                        }
                    }
                } else if in_order(s, floor as int, !strict, end as int, least as int) {
                    crate::region::lemma_skip_first(s, lo, end as int);
                    assert forall|i: int| 0 <= i < t.len() implies (#[trigger] t[i]).size >= least
                        && s[0].end() + 1 <= t[i].addr by {
                        assert(t[i] == s[i + 1]);
                        assert(s[0].end() < s[i + 1].addr);
                    }
                    assert(false);
                }
            }
            rest
        },
    }
}

impl HeapBlock {
    /// The first address that the block can hand out.
    pub open spec fn usable_start(&self) -> int {
        self.base + header_size()
    }

    /// The end of the block.
    pub open spec fn usable_end(&self) -> int {
        self.base + self.capacity
    }

    /// The free holes of the block, in list order.
    pub open spec fn holes(&self) -> Seq<Region> {
        self.first.holes()
    }

    /// The free addresses of the block.
    pub open spec fn free_bytes(&self) -> Set<int> {
        bytes(self.holes())
    }

    /// The invariant of a heap block. The head of the hole list is the placeholder at address
    /// 0. The holes lie in the memory after the header, in ascending address order, and no two
    /// of them touch. No hole is smaller than the minimal fragment, unless the block is too
    /// small to hold a minimal fragment at all.
    pub open spec fn wf(&self) -> bool {
        &&& self.first.addr == 0
        &&& self.first.size == 0
        &&& header_size() <= self.capacity
        &&& self.base + self.capacity <= usize::MAX
        &&& ordered(self.holes())
        &&& within(self.holes(), self.usable_start(), self.usable_end())
        &&& self.capacity - header_size() >= min_fragment_size() ==> all_at_least(
            self.holes(),
            min_fragment_size(),
        )
    }

    /// The size of the block header in bytes.
    pub fn header_size() -> (n: usize)
        ensures
            n == header_size(),
    {
        broadcast use vstd::layout::layout_of_primitives;

        3 * core::mem::size_of::<usize>()
    }

    /// The least size of an allocation and of a hole: two machine words.
    ///
    /// No smaller size may be allocated or freed.
    pub fn min_size() -> (n: usize)
        ensures
            n == min_fragment_size(),
            n == 2 * vstd::layout::size_of::<usize>(),
    {
        broadcast use vstd::layout::layout_of_primitives;

        2 * core::mem::size_of::<usize>()
    }

    /// Creates the heap block that stands for the `capacity` bytes at address `base`.
    ///
    /// All memory after the header is free, as one hole.
    pub fn new(base: usize, capacity: usize) -> (block: HeapBlock)
        requires
            header_size() <= capacity,
            base + capacity <= usize::MAX,
        ensures
            block.wf(),
            block.base == base,
            block.capacity == capacity,
            block.next is None,
            block.holes() == seq![
                Region { addr: base + header_size(), size: capacity - header_size() },
            ],
    {
        let header = Self::header_size();
        let hole = Hole { addr: base + header, size: capacity - header, next: None };
        let block = HeapBlock {
            base,
            capacity,
            next: None,
            first: Hole { addr: 0, size: 0, next: Some(Box::new(hole)) },
        };
        proof {
            reveal_with_fuel(crate::hole::chain, 3);
            assert(block.holes() =~= seq![
                Region { addr: base + header_size(), size: capacity - header_size() },
            ]);
        }
        block
    }

    /// Searches the hole list for the first hole that can serve `layout`, from the lowest
    /// address up, and allocates from it. The parts of the hole that the allocation leaves
    /// over stay free.
    ///
    /// Returns the address of the allocated memory, or an error if no hole can serve the
    /// request; the block is then left as it is.
    pub fn allocate_first_fit(&mut self, layout: Layout) -> (res: Result<usize, AllocError>)
        requires
            old(self).wf(),
            layout.size() >= min_fragment_size(),
        ensures
            final(self).wf(),
            final(self).base == old(self).base,
            final(self).capacity == old(self).capacity,
            final(self).next == old(self).next,
            res is Ok <==> first_fit(old(self).holes(), layout.size() as int, layout.align() as int)
                < old(self).holes().len(),
            res matches Ok(addr) ==> {
                let i = first_fit(old(self).holes(), layout.size() as int, layout.align() as int);
                let region = split(
                    old(self).holes()[i],
                    layout.size() as int,
                    layout.align() as int,
                ).region;
                &&& region == Region { addr: addr as int, size: layout.size() as int }
                &&& addr % layout.align() == 0
                &&& old(self).usable_start() <= addr
                &&& addr + layout.size() <= old(self).usable_end()
                &&& region.bytes().subset_of(old(self).free_bytes())
                &&& final(self).free_bytes() == old(self).free_bytes().difference(region.bytes())
                &&& final(self).holes() == carve(
                    old(self).holes(),
                    i,
                    layout.size() as int,
                    layout.align() as int,
                )
            },
            res is Err ==> *final(self) == *old(self),
    {
        let ghost s = self.holes();
        let ghost size = layout.size() as int;
        let ghost align = layout.align() as int;
        let ghost i = first_fit(s, size, align);
        proof {
            use_type_invariant(&layout);
            layout.lemma_valid();
            lemma_min_fragment_size();
            lemma_first_fit(s, size, align);
            if i < s.len() {
                // A block with a hole that can serve the request holds a minimal fragment.
                lemma_split(s[i], size, align);
                assert(s[i].size <= self.usable_end() - self.usable_start());
            }
        }
        match allocate_first_fit(&mut self.first, layout) {
            Ok(allocation) => {
                let ghost sp = split(s[i], size, align);
                proof {
                    lemma_split(s[i], size, align);
                    lemma_carve_reinserts(s, i, size, align);
                    lemma_carve_valid(s, i, size, align, self.usable_start(), self.usable_end());
                    lemma_carve_bytes(s, i, size, align);
                }
                let ghost s1 = self.holes();
                match allocation.front_padding {
                    Some(padding) => {
                        proof {
                            self.lemma_head(Region { addr: padding.addr as int, size: padding.size as int });
                        }
                        let res = deallocate(&mut self.first, padding.addr, padding.size);
                        assert(res is Ok);
                        proof {
                            self.first.lemma_regions();
                        }
                    },
                    None => {},
                }
                let ghost s2 = self.holes();
                assert(s2 == crate::fit::coalesce_opt(s1, sp.front));
                proof {
                    lemma_remove(s, i, self.usable_start(), self.usable_end());
                    if sp.front is Some {
                        lemma_coalesce_valid(
                            s1,
                            sp.front->0,
                            self.usable_start(),
                            self.usable_end(),
                        );
                    }
                }
                match allocation.back_padding {
                    Some(padding) => {
                        proof {
                            self.lemma_head(Region { addr: padding.addr as int, size: padding.size as int });
                        }
                        let res = deallocate(&mut self.first, padding.addr, padding.size);
                        assert(res is Ok);
                        proof {
                            self.first.lemma_regions();
                        }
                    },
                    None => {},
                }
                assert(self.holes() == carve(s, i, size, align));
                Ok(allocation.info.addr)
            },
            Err(e) => Err(e),
        }
    }

    /// Frees the allocation of `layout.size()` bytes at `addr`, which must be memory that
    /// `allocate_first_fit` handed out. Where the freed memory touches a hole, the two become
    /// one hole.
    ///
    /// Memory that overlaps a hole is free already and cannot be freed again: this is an
    /// error, and the block is left as it is.
    pub fn deallocate(&mut self, addr: usize, layout: Layout) -> (res: Result<
        (),
        InvalidDeallocation,
    >)
        requires
            old(self).wf(),
            layout.size() >= min_fragment_size(),
            old(self).usable_start() <= addr,
            addr + layout.size() <= old(self).usable_end(),
        ensures
            final(self).wf(),
            final(self).base == old(self).base,
            final(self).capacity == old(self).capacity,
            final(self).next == old(self).next,
            res is Err <==> overlaps_any(
                old(self).holes(),
                Region { addr: addr as int, size: layout.size() as int },
            ),
            res is Err ==> *final(self) == *old(self),
            res is Ok ==> final(self).holes() == coalesce(
                old(self).holes(),
                Region { addr: addr as int, size: layout.size() as int },
            ),
            res is Ok ==> final(self).free_bytes() == old(self).free_bytes().union(
                Region { addr: addr as int, size: layout.size() as int }.bytes(),
            ),
    {
        let ghost s = self.holes();
        let ghost r = Region { addr: addr as int, size: layout.size() as int };
        proof {
            lemma_min_fragment_size();
            self.lemma_head(r);
        }
        let res = deallocate(&mut self.first, addr, layout.size());
        proof {
            if res is Ok {
                self.first.lemma_regions();
                lemma_coalesce_valid(s, r, self.usable_start(), self.usable_end());
                lemma_coalesce_bytes(s, r);
                lemma_coalesce_at_least(s, r, min_fragment_size());
                assert(self.holes() == coalesce(s, r));
                assert(self.free_bytes() == bytes(s).union(r.bytes()));
            }
        }
        res
    }

    /// The placeholder at the head of the hole list takes no part when memory is given back:
    /// the freed memory finds its place among the holes.
    proof fn lemma_head(&self, r: Region)
        requires
            self.first.addr == 0,
            self.first.size == 0,
            ordered(self.holes()),
            within(self.holes(), 1, usize::MAX as int),
            r.addr > 0,
            r.size > 0,
        ensures
            ordered(self.first.regions()),
            within(self.first.regions(), 0, usize::MAX as int),
            coalesce(self.first.regions(), r) == seq![self.first.region()] + coalesce(self.holes(), r),
            overlaps_any(self.first.regions(), r) <==> overlaps_any(self.holes(), r),
    {
        let s = self.first.regions();
        let h = self.holes();
        assert(s.skip(1) =~= h);
        assert forall|i: int, j: int| 0 <= i < j < s.len() implies (#[trigger] s[i]).end() < (
        #[trigger] s[j]).addr by {
            assert(s[j] == h[j - 1]);
            if i > 0 {
                assert(s[i] == h[i - 1]);
            }
        }
        assert forall|i: int| 0 <= i < s.len() implies (#[trigger] s[i]).size >= 0 && 0 <= s[i].addr
            && s[i].end() <= usize::MAX by {
            if i > 0 {
                assert(s[i] == h[i - 1]);
            }
        }
        lemma_coalesce_skips(s, r);
    }

    /// Checks the invariant of the block.
    ///
    /// The fields of a block are open to everyone. Whoever has changed them by hand, or
    /// holds a block of unknown origin, can find out here whether the block is fit for
    /// `allocate_first_fit` and `deallocate`.
    pub fn is_well_formed(&self) -> (res: bool)
        ensures
            res == self.wf(),
    {
        let header = Self::header_size();
        if self.first.addr != 0 || self.first.size != 0 || self.capacity < header {
            return false;
        }
        let end = match self.base.checked_add(self.capacity) {
            Some(end) => end,
            None => {
                return false;
            },
        };
        let least = if self.capacity - header >= Self::min_size() {
            Self::min_size()
        } else {
            0
        };
        proof {
            lemma_min_fragment_size();
        }
        holes_in_order(&self.first, self.base + header, false, end, least)
    }

    /// Checks whether the given address lies in the block, its end included.
    pub fn contains(&self, addr: usize) -> (res: bool)
        ensures
            res == (self.base <= addr <= self.base + self.capacity),
    {
        self.base <= addr && addr - self.base <= self.capacity
    }
}

} // verus!

//! The partition of a block's memory into free holes and allocations, and its upkeep over any
//! sequence of requests.

use crate::fit::{
    carve, first_fit, lemma_carve_bytes, lemma_carve_valid, lemma_first_fit,
    lemma_min_fragment_size, lemma_release_restores, lemma_split, min_fragment_size, split,
};
use crate::region::{
    all_at_least, bytes, coalesce, covered, lemma_coalesce_at_least, lemma_coalesce_bytes,
    lemma_coalesce_valid, lemma_overlap_shares_address, ordered, overlaps_any, within, Region,
};
use vstd::prelude::*;

verus! {

/// What a client asks of a block.
pub enum Request {
    /// To allocate `size` bytes at an address aligned to `align`.
    Allocate { size: int, align: int },
    /// To take back the `size` bytes at `addr`.
    Deallocate { addr: int, size: int },
}

/// The memory of a block as its clients see it: the free holes, and the regions that have
/// been handed out and not given back.
pub struct Heap {
    pub holes: Seq<Region>,
    pub allocated: Set<Region>,
}

impl Heap {
    /// Whether a client may make the request: an allocation has to ask for a minimal fragment
    /// at least, and only what has been handed out can be given back, as it was handed out.
    pub open spec fn admits(self, req: Request) -> bool {
        match req {
            Request::Allocate { size, align } => size >= min_fragment_size() && align > 0,
            Request::Deallocate { addr, size } => self.allocated.contains(Region { addr, size }),
        }
    }

    /// The heap after the request is served: the holes change as the holes of a block do
    /// when it allocates or frees the memory. An allocation that no hole can serve changes
    /// nothing.
    pub open spec fn serve(self, req: Request) -> Heap {
        match req {
            Request::Allocate { size, align } => {
                let i = first_fit(self.holes, size, align);
                if i < self.holes.len() {
                    Heap {
                        holes: carve(self.holes, i, size, align),
                        allocated: self.allocated.insert(split(self.holes[i], size, align).region),
                    }
                } else {
                    self
                }
            },
            Request::Deallocate { addr, size } => Heap {
                holes: coalesce(self.holes, Region { addr, size }),
                allocated: self.allocated.remove(Region { addr, size }),
            },
        }
    }

    /// Whether a client may make the requests one after the other.
    pub open spec fn admits_all(self, reqs: Seq<Request>) -> bool
        decreases reqs.len(),
    {
        reqs.len() > 0 ==> self.admits(reqs[0]) && self.serve(reqs[0]).admits_all(reqs.skip(1))
    }

    /// The heap after the requests are served one after the other.
    pub open spec fn serve_all(self, reqs: Seq<Request>) -> Heap
        decreases reqs.len(),
    {
        if reqs.len() == 0 {
            self
        } else {
            self.serve(reqs[0]).serve_all(reqs.skip(1))
        }
    }

    /// Holes and allocations tile the memory `lo .. hi`. The holes are in ascending address
    /// order, no two of them touch, and none is smaller than a minimal fragment. No allocation
    /// overlaps a hole or another allocation. Every address of the memory lies in a hole or in
    /// an allocation, and neither holes nor allocations reach beyond the memory.
    pub open spec fn partitions(self, lo: int, hi: int) -> bool {
        &&& ordered(self.holes)
        &&& within(self.holes, lo, hi)
        &&& all_at_least(self.holes, min_fragment_size())
        &&& forall|r: Region| #[trigger]
            self.allocated.contains(r) ==> r.size >= min_fragment_size() && lo <= r.addr && r.end()
                <= hi && !overlaps_any(self.holes, r)
        &&& forall|r: Region, q: Region|
            #![trigger self.allocated.contains(r), self.allocated.contains(q)]
            self.allocated.contains(r) && self.allocated.contains(q) && r != q ==> !r.overlaps(q)
        &&& forall|x: int|
            lo <= x < hi ==> #[trigger] covered(self.holes, x) || self.allocated_at(x)
    }

    /// Whether address `x` lies in an allocation.
    pub open spec fn allocated_at(self, x: int) -> bool {
        exists|r: Region| #[trigger] self.allocated.contains(r) && r.contains(x)
    }
}

/// The memory `lo .. hi` as one free hole, with nothing allocated, is partitioned.
pub proof fn lemma_fresh_heap_partitions(lo: int, hi: int)
    requires
        hi - lo >= min_fragment_size(),
    ensures
        (Heap { holes: seq![Region { addr: lo, size: hi - lo }], allocated: Set::empty() }).partitions(
            lo,
            hi,
        ),
{
    lemma_min_fragment_size();
    let heap = Heap { holes: seq![Region { addr: lo, size: hi - lo }], allocated: Set::empty() };
    assert forall|x: int| lo <= x < hi implies #[trigger] covered(heap.holes, x) by {
        assert(heap.holes[0].contains(x));
    }
}

/// Serving a request that the heap admits keeps the heap partitioned. A deallocation that the
/// heap admits overlaps no hole.
pub proof fn lemma_serve_partitions(heap: Heap, req: Request, lo: int, hi: int)
    requires
        heap.partitions(lo, hi),
        heap.admits(req),
    ensures
        heap.serve(req).partitions(lo, hi),
        req matches Request::Deallocate { addr, size } ==> !overlaps_any(
            heap.holes,
            Region { addr, size },
        ),
{
    lemma_min_fragment_size();
    match req {
        Request::Allocate { size, align } => {
            lemma_allocate_partitions(heap, size, align, lo, hi);
        },
        Request::Deallocate { addr, size } => {
            lemma_deallocate_partitions(heap, Region { addr, size }, lo, hi);
        },
    }
}

/// Serving requests that the heap admits one after the other keeps the heap partitioned: it
/// is partitioned after each of the requests.
pub proof fn lemma_serve_all_partitions(heap: Heap, reqs: Seq<Request>, lo: int, hi: int)
    requires
        heap.partitions(lo, hi),
        heap.admits_all(reqs),
    ensures
        forall|k: int| 0 <= k <= reqs.len() ==> (#[trigger] heap.serve_all(reqs.take(k))).partitions(lo, hi),
        heap.serve_all(reqs).partitions(lo, hi),
    decreases reqs.len(),
{
    assert(reqs.take(reqs.len() as int) =~= reqs);
    assert forall|k: int| 0 <= k <= reqs.len() implies (#[trigger] heap.serve_all(
        reqs.take(k),
    )).partitions(lo, hi) by {
        if k > 0 {
            let rest = reqs.skip(1);
            lemma_serve_partitions(heap, reqs[0], lo, hi);
            lemma_serve_all_partitions(heap.serve(reqs[0]), rest, lo, hi);
            assert(reqs.take(k)[0] == reqs[0]);
            assert(reqs.take(k).skip(1) =~= rest.take(k - 1));
            assert(heap.serve_all(reqs.take(k)) == heap.serve(reqs[0]).serve_all(rest.take(k - 1)));
        }
    }
}

proof fn lemma_allocate_partitions(heap: Heap, size: int, align: int, lo: int, hi: int)
    requires
        heap.partitions(lo, hi),
        size >= min_fragment_size(),
        align > 0,
    ensures
        heap.serve(Request::Allocate { size, align }).partitions(lo, hi),
{
    lemma_min_fragment_size();
    let s = heap.holes;
    let i = first_fit(s, size, align);
    lemma_first_fit(s, size, align);
    if i < s.len() {
        let after = heap.serve(Request::Allocate { size, align });
        let a = split(s[i], size, align).region;
        let t = carve(s, i, size, align);
        lemma_split(s[i], size, align);
        lemma_carve_valid(s, i, size, align, lo, hi);
        lemma_carve_bytes(s, i, size, align);
        lemma_release_restores(s, i, size, align);
        // An allocation that overlaps a hole after the split overlaps the hole before it.
        assert forall|r: Region| #[trigger] after.allocated.contains(r) implies r.size
            >= min_fragment_size() && lo <= r.addr && r.end() <= hi && !overlaps_any(t, r) by {
            if r != a {
                assert(heap.allocated.contains(r));
                lemma_overlap_shares_address(s, r);
                lemma_overlap_shares_address(t, r);
                if overlaps_any(t, r) {
                    let x = choose|x: int| covered(t, x) && r.contains(x);
                    assert(bytes(t).contains(x));
                    assert(bytes(s).contains(x));
                    assert(covered(s, x) && r.contains(x));
                }
            }
        }
        assert forall|r: Region, q: Region|
            #![trigger after.allocated.contains(r), after.allocated.contains(q)]
            after.allocated.contains(r) && after.allocated.contains(q) && r != q implies !r.overlaps(
            q,
        ) by {
            if r == a {
                assert(heap.allocated.contains(q));
                assert(!overlaps_any(s, q));
                assert(!s[i].overlaps(q));
            } else if q == a {
                assert(heap.allocated.contains(r));
                assert(!overlaps_any(s, r));
                assert(!s[i].overlaps(r));
            } else {
                assert(heap.allocated.contains(r) && heap.allocated.contains(q));
            }
        }
        assert forall|x: int| lo <= x < hi implies #[trigger] covered(t, x) || after.allocated_at(
            x,
        ) by {
            if covered(s, x) {
                assert(bytes(s).contains(x));
                if !bytes(t).contains(x) {
                    assert(a.bytes().contains(x));
                    assert(after.allocated.contains(a) && a.contains(x));
                }
            } else {
                assert(heap.allocated_at(x));
                let r = choose|r: Region| #[trigger] heap.allocated.contains(r) && r.contains(x);
                assert(after.allocated.contains(r) && r.contains(x));
            }
        }
    }
}

proof fn lemma_deallocate_partitions(heap: Heap, r: Region, lo: int, hi: int)
    requires
        heap.partitions(lo, hi),
        heap.allocated.contains(r),
    ensures
        heap.serve(Request::Deallocate { addr: r.addr, size: r.size }).partitions(lo, hi),
        !overlaps_any(heap.holes, r),
{
    lemma_min_fragment_size();
    let s = heap.holes;
    let after = heap.serve(Request::Deallocate { addr: r.addr, size: r.size });
    let t = coalesce(s, r);
    assert(after.holes == t);
    lemma_coalesce_valid(s, r, lo, hi);
    lemma_coalesce_bytes(s, r);
    lemma_coalesce_at_least(s, r, min_fragment_size());
    assert forall|q: Region| #[trigger] after.allocated.contains(q) implies q.size
        >= min_fragment_size() && lo <= q.addr && q.end() <= hi && !overlaps_any(t, q) by {
        assert(heap.allocated.contains(q) && q != r);
        lemma_overlap_shares_address(s, q);
        lemma_overlap_shares_address(t, q);
        if overlaps_any(t, q) {
            let x = choose|x: int| covered(t, x) && q.contains(x);
            assert(bytes(t).contains(x));
            assert(bytes(s).contains(x) || r.bytes().contains(x));
            if r.contains(x) {
                assert(r.overlaps(q));
            } else {
                assert(covered(s, x) && q.contains(x));
            }
        }
    }
    assert forall|x: int| lo <= x < hi implies #[trigger] covered(t, x) || after.allocated_at(
        x,
    ) by {
        if covered(s, x) {
            assert(bytes(s).contains(x));
            assert(bytes(t).contains(x));
        } else {
            assert(heap.allocated_at(x));
            let q = choose|q: Region| #[trigger] heap.allocated.contains(q) && q.contains(x);
            if q == r {
                assert(r.bytes().contains(x));
                assert(bytes(t).contains(x));
            } else {
                assert(after.allocated.contains(q) && q.contains(x));
            }
        }
    }
}

} // verus!

//! The mathematical model of allocation: how a request is cut out of a free region, and which
//! free region a first-fit search takes.

use crate::layout::align_up_spec;
use crate::region::{
    all_at_least, bytes, coalesce, covered, lemma_coalesce_in_place, lemma_rank_is, lemma_remove,
    lemma_replace, lemma_replace_valid, lemma_splice, ordered, overlaps_any, replace, splice, within, Region,
};
use vstd::prelude::*;

verus! {

/// The least size of an allocation and of a free region: two machine words.
pub open spec fn min_fragment_size() -> int {
    2 * (vstd::layout::size_of::<usize>() as int)
}

/// Two machine words are 8 bytes where addresses have 32 bits and 16 bytes where they have 64.
pub proof fn lemma_min_fragment_size()
    ensures
        min_fragment_size() * 8 == 2 * usize::BITS,
        min_fragment_size() == 8 || min_fragment_size() == 16,
{
    broadcast use vstd::layout::layout_of_primitives;

}

/// A free region cut up for a request: the part that is handed out, and what is left of the
/// region before and after it.
pub struct Split {
    pub region: Region,
    pub front: Option<Region>,
    pub back: Option<Region>,
}

/// Where an allocation aligned to `align` begins in `hole`: at the start of the hole if that
/// is aligned, else at the first aligned address that leaves a minimal fragment free before it.
pub open spec fn aligned_start(hole: Region, align: int) -> int {
    if hole.addr % align == 0 {
        hole.addr
    } else {
        align_up_spec(hole.addr + min_fragment_size(), align)
    }
}

/// Whether `hole` can serve a request of `size` bytes aligned to `align`: the allocation must
/// end within the hole, and what is left after it must be nothing or a minimal fragment.
pub open spec fn fits(hole: Region, size: int, align: int) -> bool {
    let rest = hole.end() - (aligned_start(hole, align) + size);
    rest == 0 || rest >= min_fragment_size()
}

/// How `hole` is cut up for a request of `size` bytes aligned to `align`.
pub open spec fn split(hole: Region, size: int, align: int) -> Split {
    let start = aligned_start(hole, align);
    let end = start + size;
    Split {
        region: Region { addr: start, size },
        front: if start == hole.addr {
            None
        } else {
            Some(Region { addr: hole.addr, size: start - hole.addr })
        },
        back: if end == hole.end() {
            None
        } else {
            Some(Region { addr: end, size: hole.end() - end })
        },
    }
}

/// The number of leading regions that cannot serve the request: the index of the first region
/// that can, or the length of the sequence if none can.
pub open spec fn first_fit(s: Seq<Region>, size: int, align: int) -> int
    decreases s.len(),
{
    if s.len() > 0 && !fits(s[0], size, align) {
        1 + first_fit(s.skip(1), size, align)
    } else {
        0
    }
}

/// The regions that stay free of a split: the front padding, then the back padding.
pub open spec fn paddings(sp: Split) -> Seq<Region> {
    (match sp.front {
        Some(r) => seq![r],
        None => Seq::empty(),
    }) + (match sp.back {
        Some(r) => seq![r],
        None => Seq::empty(),
    })
}

/// The free list after the region at index `i` has served a request: the paddings of the split
/// stand in its place.
pub open spec fn carve(s: Seq<Region>, i: int, size: int, align: int) -> Seq<Region> {
    replace(s, i, paddings(split(s[i], size, align)))
}

/// The free list after `r` is given back, if there is an `r`.
pub open spec fn coalesce_opt(s: Seq<Region>, r: Option<Region>) -> Seq<Region> {
    match r {
        Some(r) => coalesce(s, r),
        None => s,
    }
}

/// What `first_fit` yields: no region before it can serve the request, and the region at it,
/// if there is one, can.
pub proof fn lemma_first_fit(s: Seq<Region>, size: int, align: int)
    ensures
        0 <= first_fit(s, size, align) <= s.len(),
        forall|i: int| 0 <= i < first_fit(s, size, align) ==> !fits(#[trigger] s[i], size, align),
        first_fit(s, size, align) < s.len() ==> fits(s[first_fit(s, size, align)], size, align),
    decreases s.len(),
{
    if s.len() > 0 && !fits(s[0], size, align) {
        let t = s.skip(1);
        lemma_first_fit(t, size, align);
        assert forall|i: int| 0 <= i < first_fit(s, size, align) implies !fits(
            #[trigger] s[i],
            size,
            align,
        ) by {
            if i > 0 {
                assert(s[i] == t[i - 1]);
            }
        }
        if first_fit(s, size, align) < s.len() {
            assert(s[first_fit(s, size, align)] == t[first_fit(t, size, align)]);
        }
    }
}

/// `first_fit` is the one index `k` such that no region before `k` can serve the request and
/// the region at `k`, if there is one, can.
pub proof fn lemma_first_fit_is(s: Seq<Region>, size: int, align: int, k: int)
    requires
        0 <= k <= s.len(),
        forall|i: int| 0 <= i < k ==> !fits(#[trigger] s[i], size, align),
        k < s.len() ==> fits(s[k], size, align),
    ensures
        first_fit(s, size, align) == k,
    decreases s.len(),
{
    if k > 0 {
        let t = s.skip(1);
        assert(!fits(s[0], size, align));
        assert forall|i: int| 0 <= i < k - 1 implies !fits(#[trigger] t[i], size, align) by {
            assert(t[i] == s[i + 1]);
        }
        if k - 1 < t.len() {
            assert(t[k - 1] == s[k]);
        }
        lemma_first_fit_is(t, size, align, k - 1);
    }
}

/// The parts of a split tile the hole: front padding, allocation and back padding follow one
/// another from the start of the hole to its end. The allocation is aligned, and each padding
/// holds at least a minimal fragment.
pub proof fn lemma_split(hole: Region, size: int, align: int)
    requires
        align > 0,
        size >= 0,
        hole.size >= 0,
        fits(hole, size, align),
    ensures
        ({
            let sp = split(hole, size, align);
            &&& sp.region.addr % align == 0
            &&& sp.region.size == size
            &&& hole.addr <= sp.region.addr
            &&& sp.region.end() <= hole.end()
            &&& match sp.front {
                Some(f) => f.addr == hole.addr && f.end() == sp.region.addr && f.size
                    >= min_fragment_size() && hole.addr % align != 0,
                None => sp.region.addr == hole.addr,
            }
            &&& match sp.back {
                Some(b) => b.addr == sp.region.end() && b.end() == hole.end() && b.size
                    >= min_fragment_size(),
                None => sp.region.end() == hole.end(),
            }
        }),
{
    lemma_min_fragment_size();
    crate::layout::lemma_align_up_is_least(hole.addr + min_fragment_size(), align, 0);
}

/// The regions of a carved list, one by one: those before index `i` as they were, then the
/// paddings, then those after index `i` as they were.
pub proof fn lemma_carve(s: Seq<Region>, i: int, size: int, align: int)
    requires
        0 <= i < s.len(),
    ensures
        ({
            let t = carve(s, i, size, align);
            let p = paddings(split(s[i], size, align));
            &&& t.len() == s.len() - 1 + p.len()
            &&& forall|j: int| 0 <= j < i ==> #[trigger] t[j] == s[j]
            &&& forall|j: int| i <= j < i + p.len() ==> #[trigger] t[j] == p[j - i]
            &&& forall|j: int| i + p.len() <= j < t.len() ==> #[trigger] t[j] == s[j - p.len() + 1]
        }),
{
    lemma_replace(s, i, paddings(split(s[i], size, align)));
}

/// Putting the paddings of a split back into the list from which the split region was taken
/// gives the carved list. Neither padding touches or overlaps a region that is free by then.
pub proof fn lemma_carve_reinserts(s: Seq<Region>, i: int, size: int, align: int)
    requires
        ordered(s),
        all_at_least(s, 0),
        0 <= i < s.len(),
        align > 0,
        size > 0,
        fits(s[i], size, align),
    ensures
        ({
            let sp = split(s[i], size, align);
            let with_front = coalesce_opt(s.remove(i), sp.front);
            &&& carve(s, i, size, align) == coalesce_opt(with_front, sp.back)
            &&& sp.front matches Some(f) ==> !overlaps_any(s.remove(i), f)
            &&& sp.back matches Some(b) ==> !overlaps_any(with_front, b)
            &&& ordered(with_front)
            &&& all_at_least(with_front, 0)
        }),
{
    let sp = split(s[i], size, align);
    lemma_split(s[i], size, align);
    lemma_remove(s, i, 0, 0);
    let none = Seq::<Region>::empty();
    let front: Seq<Region> = match sp.front {
        Some(f) => seq![f],
        None => none,
    };
    // the list with the front padding back in it
    match sp.front {
        Some(f) => {
            lemma_coalesce_in_place(s, i, none, f);
            assert(none.push(f) =~= front);
        },
        None => {},
    }
    assert(coalesce_opt(s.remove(i), sp.front) == replace(s, i, front));
    lemma_replace_valid(s, i, front, 0, 0);
    // the list with the back padding back in it as well
    match sp.back {
        Some(b) => {
            lemma_coalesce_in_place(s, i, front, b);
            assert(front.push(b) =~= paddings(sp));
        },
        None => {
            assert(front =~= paddings(sp));
        },
    }
}

/// Carving an allocation out of a region keeps the list ordered and in bounds, and leaves no
/// free region under the minimal fragment size if there was none before.
pub proof fn lemma_carve_valid(s: Seq<Region>, i: int, size: int, align: int, lo: int, hi: int)
    requires
        ordered(s),
        within(s, lo, hi),
        0 <= i < s.len(),
        align > 0,
        size > 0,
        fits(s[i], size, align),
    ensures
        ordered(carve(s, i, size, align)),
        within(carve(s, i, size, align), lo, hi),
        all_at_least(s, min_fragment_size()) ==> all_at_least(
            carve(s, i, size, align),
            min_fragment_size(),
        ),
{
    let t = carve(s, i, size, align);
    let p = paddings(split(s[i], size, align));
    lemma_split(s[i], size, align);
    lemma_min_fragment_size();
    assert forall|j: int| 0 <= j < p.len() implies s[i].addr <= (#[trigger] p[j]).addr && p[j].end()
        <= s[i].end() && p[j].size >= min_fragment_size() by {
    }
    lemma_replace_valid(s, i, p, lo, hi);
    lemma_carve(s, i, size, align);
    if all_at_least(s, min_fragment_size()) {
        assert forall|j: int| 0 <= j < t.len() implies (#[trigger] t[j]).size
            >= min_fragment_size() by {
            if i <= j < i + p.len() {
                assert(t[j] == p[j - i]);
            }
        }
    }
}

/// Carving an allocation out of a region takes the allocated addresses from the free ones,
/// and no others; and they were free.
pub proof fn lemma_carve_bytes(s: Seq<Region>, i: int, size: int, align: int)
    requires
        ordered(s),
        all_at_least(s, 0),
        0 <= i < s.len(),
        align > 0,
        size > 0,
        fits(s[i], size, align),
    ensures
        bytes(carve(s, i, size, align)) == bytes(s).difference(
            split(s[i], size, align).region.bytes(),
        ),
        split(s[i], size, align).region.bytes().subset_of(bytes(s)),
{
    let t = carve(s, i, size, align);
    let sp = split(s[i], size, align);
    assert forall|x: int| covered(t, x) <==> covered(s, x) && !sp.region.contains(x) by {
        lemma_carve_covered(s, i, size, align, x);
    }
    assert forall|x: int| sp.region.contains(x) implies covered(s, x) by {
        lemma_split(s[i], size, align);
        assert(s[i].contains(x));
    }
    assert(bytes(t) =~= bytes(s).difference(sp.region.bytes()));
}

/// An address is free after carving if it was free before and is not allocated.
proof fn lemma_carve_covered(s: Seq<Region>, i: int, size: int, align: int, x: int)
    requires
        ordered(s),
        all_at_least(s, 0),
        0 <= i < s.len(),
        align > 0,
        size > 0,
        fits(s[i], size, align),
    ensures
        covered(carve(s, i, size, align), x) <==> covered(s, x) && !split(
            s[i],
            size,
            align,
        ).region.contains(x),
{
    let t = carve(s, i, size, align);
    let sp = split(s[i], size, align);
    let p = paddings(sp);
    lemma_split(s[i], size, align);
    lemma_carve(s, i, size, align);
    if covered(t, x) {
        let j = choose|j: int| 0 <= j < t.len() && (#[trigger] t[j]).contains(x);
        if j < i {
            assert(s[j].contains(x));
            assert(s[j].end() < s[i].addr);
        } else if j < i + p.len() {
            assert(t[j] == p[j - i]);
            assert(s[i].contains(x));
        } else {
            assert(s[j - p.len() + 1].contains(x));
            assert(s[i].end() < s[j - p.len() + 1].addr);
        }
    }
    if covered(s, x) && !sp.region.contains(x) {
        let j = choose|j: int| 0 <= j < s.len() && (#[trigger] s[j]).contains(x);
        if j < i {
            assert(t[j].contains(x));
        } else if j > i {
            assert(t[j + p.len() - 1] == s[j]);
            assert(t[j + p.len() - 1].contains(x));
        } else if x < sp.region.addr {
            assert(p[0] == sp.front->0);
            assert(t[i] == p[0]);
            assert(t[i].contains(x));
        } else {
            assert(p[p.len() - 1] == sp.back->0);
            assert(t[i + p.len() - 1] == p[p.len() - 1]);
            assert(t[i + p.len() - 1].contains(x));
        }
    }
}

/// Giving an allocation back right away restores the free list from which it was carved.
pub proof fn lemma_release_restores(s: Seq<Region>, i: int, size: int, align: int)
    requires
        ordered(s),
        all_at_least(s, 0),
        0 <= i < s.len(),
        align > 0,
        size > 0,
        fits(s[i], size, align),
    ensures
        coalesce(carve(s, i, size, align), split(s[i], size, align).region) == s,
        !overlaps_any(carve(s, i, size, align), split(s[i], size, align).region),
{
    let t = carve(s, i, size, align);
    let sp = split(s[i], size, align);
    let p = paddings(sp);
    let r = sp.region;
    lemma_split(s[i], size, align);
    lemma_carve(s, i, size, align);
    let n: int = if sp.front is Some { 1 } else { 0 };
    let m: int = if sp.back is Some { 1 } else { 0 };
    assert(p.len() == n + m);
    if n == 1 {
        assert(t[i] == p[0]);
        assert(p[0] == sp.front->0);
    }
    if m == 1 {
        assert(t[i + n] == p[n]);
        assert(p[n] == sp.back->0);
    }
    assert forall|j: int| 0 <= j < i + n implies (#[trigger] t[j]).addr <= r.addr by {
        if j < i {
            assert(s[j].end() < s[i].addr);
        }
    }
    if i + n < t.len() && m == 0 {
        assert(t[i + n] == s[i + 1]);
        assert(s[i].end() < s[i + 1].addr);
    }
    lemma_rank_is(t, r.addr, i + n);
    if n == 0 && i > 0 {
        assert(t[i - 1] == s[i - 1]);
        assert(s[i - 1].end() < s[i].addr);
    }
    lemma_splice(t, i, i + n + m, s[i]);
    assert(coalesce(t, r) == splice(t, i, i + n + m, s[i]));
    assert(splice(t, i, i + n + m, s[i]) =~= s);
    assert forall|j: int| 0 <= j < t.len() implies !(#[trigger] t[j]).overlaps(r) by {
        if j < i {
            assert(s[j].end() < s[i].addr);
        } else if j >= i + p.len() {
            assert(s[i].end() < s[j - p.len() + 1].addr);
        }
    }
}

} // verus!

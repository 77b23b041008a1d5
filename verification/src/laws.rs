//! Laws of allocation and release: what holds of a free list over more than one request.

use crate::fit::{
    carve, first_fit, fits, lemma_carve_bytes, lemma_carve_valid, lemma_first_fit,
    lemma_min_fragment_size, lemma_release_restores, lemma_split, min_fragment_size, split,
};
use crate::region::{
    all_at_least, bytes, coalesce, covered, lemma_coalesce_at_least, lemma_coalesce_bytes,
    lemma_coalesce_commutes, lemma_coalesce_in_place, lemma_overlap_shares_address, lemma_rank_is,
    lemma_remove, lemma_replace, lemma_splice, ordered, overlaps_any, replace, splice, within,
    Region,
};
use vstd::prelude::*;

verus! {

/// The sum of the sizes of the regions: how much memory is free in all.
pub open spec fn total_size(s: Seq<Region>) -> int
    decreases s.len(),
{
    if s.len() == 0 {
        0
    } else {
        s[0].size + total_size(s.skip(1))
    }
}

/// No region is larger than all regions together.
pub proof fn lemma_total_size(s: Seq<Region>, i: int)
    requires
        all_at_least(s, 0),
        0 <= i < s.len(),
    ensures
        0 <= s[i].size <= total_size(s),
    decreases s.len(),
{
    let t = s.skip(1);
    assert forall|j: int| 0 <= j < t.len() implies (#[trigger] t[j]).size >= 0 by {
        assert(t[j] == s[j + 1]);
    }
    if i > 0 {
        lemma_total_size(t, i - 1);
        assert(t[i - 1] == s[i]);
    } else if t.len() > 0 {
        lemma_total_size(t, 0);
    } else {
        assert(total_size(t) == 0);
    }
}

/// A request for more memory than is free in all finds no hole that can serve it.
pub proof fn lemma_out_of_capacity(s: Seq<Region>, size: int, align: int)
    requires
        all_at_least(s, 0),
        align > 0,
        size > total_size(s),
    ensures
        first_fit(s, size, align) == s.len(),
{
    lemma_first_fit(s, size, align);
    let i = first_fit(s, size, align);
    if i < s.len() {
        lemma_total_size(s, i);
        lemma_min_fragment_size();
        lemma_split(s[i], size, align);
        assert(false);
    }
}

/// Where a hole does not start at an aligned address, the front padding of the split fills
/// the gap from the start of the hole to the allocation, and is free memory in its own right:
/// it can be given back to the list that the hole was taken from, and what is left of the hole
/// can be given back after it, which makes the hole whole again.
pub proof fn lemma_front_padding(s: Seq<Region>, i: int, size: int, align: int)
    requires
        ordered(s),
        all_at_least(s, 0),
        0 <= i < s.len(),
        align > 0,
        size > 0,
        fits(s[i], size, align),
        s[i].addr % align != 0,
    ensures
        ({
            let sp = split(s[i], size, align);
            let rest = Region { addr: sp.region.addr, size: s[i].end() - sp.region.addr };
            &&& sp.front matches Some(f)
            &&& f.addr == s[i].addr
            &&& f.end() == sp.region.addr
            &&& f.size >= min_fragment_size()
            &&& !overlaps_any(s.remove(i), f)
            &&& !overlaps_any(coalesce(s.remove(i), f), rest)
            &&& coalesce(coalesce(s.remove(i), f), rest) == s
        }),
{
    let sp = split(s[i], size, align);
    let f = sp.front->0;
    let rest = Region { addr: sp.region.addr, size: s[i].end() - sp.region.addr };
    lemma_split(s[i], size, align);
    lemma_min_fragment_size();
    lemma_remove(s, i, 0, 0);
    let none = Seq::<Region>::empty();
    lemma_coalesce_in_place(s, i, none, f);
    assert(none.push(f) =~= seq![f]);
    // With the front padding back in the list, what is left of the hole follows it directly.
    let t = replace(s, i, seq![f]);
    lemma_replace(s, i, seq![f]);
    assert forall|j: int| 0 <= j < i + 1 implies (#[trigger] t[j]).addr <= rest.addr by {
        if j < i {
            assert(s[j].end() < s[i].addr);
        }
    }
    if i + 1 < t.len() {
        assert(t[i + 1] == s[i + 1]);
        assert(s[i].end() < s[i + 1].addr);
    }
    lemma_rank_is(t, rest.addr, i + 1);
    lemma_splice(t, i, i + 1, s[i]);
    assert(coalesce(t, rest) == splice(t, i, i + 1, s[i]));
    assert(splice(t, i, i + 1, s[i]) =~= s);
    assert forall|j: int| 0 <= j < t.len() implies !(#[trigger] t[j]).overlaps(rest) by {
        if j < i {
            assert(s[j].end() < s[i].addr);
        } else if j > i {
            assert(s[i].end() < s[j].addr);
        }
    }
}

/// An allocation that is given back right away is handed out again for the same request: the
/// free list is as it was, and so is the first hole that fits and the way it is split.
pub proof fn lemma_reuse(s: Seq<Region>, size: int, align: int)
    requires
        ordered(s),
        all_at_least(s, 0),
        align > 0,
        size > 0,
        first_fit(s, size, align) < s.len(),
    ensures
        ({
            let i = first_fit(s, size, align);
            let a = split(s[i], size, align).region;
            let t = coalesce(carve(s, i, size, align), a);
            &&& !overlaps_any(carve(s, i, size, align), a)
            &&& t == s
            &&& first_fit(t, size, align) == i
            &&& split(t[i], size, align).region == a
        }),
{
    lemma_first_fit(s, size, align);
    lemma_release_restores(s, first_fit(s, size, align), size, align);
}

/// Memory that has been given back cannot be given back again: it overlaps the free list.
pub proof fn lemma_double_free(s: Seq<Region>, r: Region)
    requires
        ordered(s),
        all_at_least(s, 1),
        r.size >= 1,
        !overlaps_any(s, r),
    ensures
        overlaps_any(coalesce(s, r), r),
{
    lemma_coalesce_bytes(s, r);
    lemma_coalesce_at_least(s, r, 1);
    lemma_overlap_shares_address(coalesce(s, r), r);
    assert(r.contains(r.addr));
    assert(bytes(coalesce(s, r)).contains(r.addr));
    assert(covered(coalesce(s, r), r.addr));
}

/// Two allocations in a row can be given back in either order: both orders are valid, and
/// both restore the free list as it was before the two allocations.
pub proof fn lemma_release_order(s: Seq<Region>, size: int, align: int)
    requires
        ordered(s),
        all_at_least(s, min_fragment_size()),
        align > 0,
        size >= min_fragment_size(),
        first_fit(s, size, align) < s.len(),
        first_fit(carve(s, first_fit(s, size, align), size, align), size, align) < carve(
            s,
            first_fit(s, size, align),
            size,
            align,
        ).len(),
    ensures
        ({
            let i = first_fit(s, size, align);
            let a = split(s[i], size, align).region;
            let s1 = carve(s, i, size, align);
            let j = first_fit(s1, size, align);
            let b = split(s1[j], size, align).region;
            let s2 = carve(s1, j, size, align);
            &&& !a.overlaps(b)
            &&& !overlaps_any(s2, a)
            &&& !overlaps_any(coalesce(s2, a), b)
            &&& coalesce(coalesce(s2, a), b) == s
            &&& !overlaps_any(s2, b)
            &&& !overlaps_any(coalesce(s2, b), a)
            &&& coalesce(coalesce(s2, b), a) == s
        }),
{
    lemma_min_fragment_size();
    let i = first_fit(s, size, align);
    let a = split(s[i], size, align).region;
    let s1 = carve(s, i, size, align);
    let j = first_fit(s1, size, align);
    let b = split(s1[j], size, align).region;
    let s2 = carve(s1, j, size, align);
    lemma_first_fit(s, size, align);
    lemma_first_fit(s1, size, align);
    lemma_at_least_nonneg(s);
    lemma_at_least_nonneg(s1);
    lemma_ordered_carve(s, i, size, align);
    lemma_ordered_carve(s1, j, size, align);
    lemma_release_restores(s, i, size, align);
    lemma_release_restores(s1, j, size, align);
    lemma_carve_bytes(s, i, size, align);
    lemma_carve_bytes(s1, j, size, align);
    lemma_split(s[i], size, align);
    lemma_split(s1[j], size, align);
    lemma_at_least_nonneg(s2);
    lemma_at_least_one(s1);
    lemma_at_least_one(s2);
    // `a` shares no address with the list after the first allocation, and so none with `b`
    // or with the list after the second.
    lemma_overlap_shares_address(s1, a);
    lemma_overlap_shares_address(s2, a);
    if a.overlaps(b) {
        let x = if a.addr >= b.addr { a.addr } else { b.addr };
        assert(b.bytes().contains(x));
        assert(bytes(s1).contains(x));
        assert(covered(s1, x) && a.contains(x));
        assert(false);
    }
    if overlaps_any(s2, a) {
        let x = choose|x: int| covered(s2, x) && a.contains(x);
        assert(bytes(s2).contains(x));
        assert(bytes(s1).contains(x));
        assert(covered(s1, x) && a.contains(x));
        assert(false);
    }
    lemma_coalesce_commutes(s2, a, b);
}

/// Regions of at least a minimal fragment are not empty.
proof fn lemma_at_least_one(s: Seq<Region>)
    requires
        all_at_least(s, min_fragment_size()),
    ensures
        all_at_least(s, 1),
{
    lemma_min_fragment_size();
}

/// Regions of at least a minimal fragment have no negative size.
proof fn lemma_at_least_nonneg(s: Seq<Region>)
    requires
        all_at_least(s, min_fragment_size()),
    ensures
        all_at_least(s, 0),
{
    lemma_min_fragment_size();
}

/// Carving keeps a list of regions that are no smaller than a minimal fragment ordered, and
/// its regions no smaller than that.
proof fn lemma_ordered_carve(s: Seq<Region>, i: int, size: int, align: int)
    requires
        ordered(s),
        all_at_least(s, min_fragment_size()),
        0 <= i < s.len(),
        align > 0,
        size > 0,
        fits(s[i], size, align),
    ensures
        ordered(carve(s, i, size, align)),
        all_at_least(carve(s, i, size, align), min_fragment_size()),
{
    lemma_min_fragment_size();
    lemma_split(s[i], size, align);
    let lo = s[0].addr;
    let hi = s[s.len() - 1].end();
    assert(within(s, lo, hi)) by {
        assert forall|j: int| 0 <= j < s.len() implies (#[trigger] s[j]).size >= 0 && lo <= s[j].addr
            && s[j].end() <= hi by {
            if j > 0 {
                assert(s[0].end() < s[j].addr);
            }
            if j < s.len() - 1 {
                assert(s[j].end() < s[s.len() - 1].addr);
            }
        }
    }
    lemma_carve_valid(s, i, size, align, lo, hi);
}

} // verus!

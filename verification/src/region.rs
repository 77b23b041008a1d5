//! The mathematical model of a free list: a sequence of address ranges.

use vstd::prelude::*;

verus! {

/// A range of addresses, `addr <= a < addr + size`.
pub struct Region {
    pub addr: int,
    pub size: int,
}

impl Region {
    /// The first address after the range.
    pub open spec fn end(self) -> int {
        self.addr + self.size
    }

    /// Whether address `a` lies in the range.
    pub open spec fn contains(self, a: int) -> bool {
        self.addr <= a < self.end()
    }

    /// The addresses in the range.
    pub open spec fn bytes(self) -> Set<int> {
        Set::new(|a: int| self.contains(a))
    }

    /// Whether the range starts before `other` ends and ends after `other` starts.
    pub open spec fn overlaps(self, other: Region) -> bool {
        self.addr < other.end() && other.addr < self.end()
    }
}

/// The regions are listed by ascending address and no two of them touch:
/// each one ends strictly before any later one begins.
pub open spec fn ordered(s: Seq<Region>) -> bool {
    forall|i: int, j: int| 0 <= i < j < s.len() ==> (#[trigger] s[i]).end() < (#[trigger] s[j]).addr
}

/// No region has a negative size, and all of them lie in `lo .. hi`.
pub open spec fn within(s: Seq<Region>, lo: int, hi: int) -> bool {
    forall|i: int| 0 <= i < s.len() ==> (#[trigger] s[i]).size >= 0 && lo <= s[i].addr && s[i].end() <= hi
}

/// Every region holds at least `min` bytes.
pub open spec fn all_at_least(s: Seq<Region>, min: int) -> bool {
    forall|i: int| 0 <= i < s.len() ==> (#[trigger] s[i]).size >= min
}

/// Whether address `a` lies in one of the regions.
pub open spec fn covered(s: Seq<Region>, a: int) -> bool {
    exists|i: int| 0 <= i < s.len() && (#[trigger] s[i]).contains(a)
}

/// The addresses that lie in one of the regions.
pub open spec fn bytes(s: Seq<Region>) -> Set<int> {
    Set::new(|a: int| covered(s, a))
}

/// Whether `r` overlaps one of the regions.
pub open spec fn overlaps_any(s: Seq<Region>, r: Region) -> bool {
    exists|i: int| 0 <= i < s.len() && (#[trigger] s[i]).overlaps(r)
}

/// The number of leading regions that start at or before `addr`. In an ordered sequence this
/// is the number of all regions that start at or before `addr`, and so the index at which a
/// region starting at `addr` belongs.
pub open spec fn rank(s: Seq<Region>, addr: int) -> int
    decreases s.len(),
{
    if s.len() > 0 && s[0].addr <= addr {
        1 + rank(s.skip(1), addr)
    } else {
        0
    }
}

/// The sequence `s` with the regions from index `a` up to index `b` replaced by `m`.
pub open spec fn splice(s: Seq<Region>, a: int, b: int, m: Region) -> Seq<Region> {
    s.take(a) + seq![m] + s.skip(b)
}

/// The free list after region `r` is given back: `r` is put at its place in address order and
/// fused with the region that ends where it starts and with the region that starts where it
/// ends, where there are such.
pub open spec fn coalesce(s: Seq<Region>, r: Region) -> Seq<Region> {
    let k = rank(s, r.addr);
    let left = k > 0 && s[k - 1].end() == r.addr;
    let right = k < s.len() && s[k].addr == r.end();
    let start = if left { s[k - 1].addr } else { r.addr };
    let end = if right { s[k].end() } else { r.end() };
    splice(
        s,
        if left { k - 1 } else { k },
        if right { k + 1 } else { k },
        Region { addr: start, size: end - start },
    )
}

/// What `rank` yields: it splits the sequence into regions that start at or before `addr`
/// and, if any is left, one that starts after it.
pub proof fn lemma_rank(s: Seq<Region>, addr: int)
    ensures
        0 <= rank(s, addr) <= s.len(),
        forall|i: int| 0 <= i < rank(s, addr) ==> (#[trigger] s[i]).addr <= addr,
        rank(s, addr) < s.len() ==> s[rank(s, addr)].addr > addr,
    decreases s.len(),
{
    if s.len() > 0 && s[0].addr <= addr {
        let t = s.skip(1);
        lemma_rank(t, addr);
        assert forall|i: int| 0 <= i < rank(s, addr) implies (#[trigger] s[i]).addr <= addr by {
            if i > 0 {
                assert(s[i] == t[i - 1]);
            }
        }
        if rank(s, addr) < s.len() {
            assert(s[rank(s, addr)] == t[rank(t, addr)]);
        }
    }
}

/// `rank` is the one index `k` with every region before `k` starting at or before `addr` and
/// the region at `k`, if there is one, starting after it.
pub proof fn lemma_rank_is(s: Seq<Region>, addr: int, k: int)
    requires
        0 <= k <= s.len(),
        forall|i: int| 0 <= i < k ==> (#[trigger] s[i]).addr <= addr,
        k < s.len() ==> s[k].addr > addr,
    ensures
        rank(s, addr) == k,
    decreases s.len(),
{
    if k > 0 {
        let t = s.skip(1);
        assert(s[0].addr <= addr);
        assert forall|i: int| 0 <= i < k - 1 implies (#[trigger] t[i]).addr <= addr by {
            assert(t[i] == s[i + 1]);
        }
        if k - 1 < t.len() {
            assert(t[k - 1] == s[k]);
        }
        lemma_rank_is(t, addr, k - 1);
    }
}

/// Where `r` stands among ordered regions that it does not overlap: the regions before its
/// rank end at or before its start, and the regions from its rank on start at or after its end.
pub proof fn lemma_rank_separates(s: Seq<Region>, r: Region)
    requires
        ordered(s),
        all_at_least(s, 0),
        r.size > 0,
        !overlaps_any(s, r),
    ensures
        0 <= rank(s, r.addr) <= s.len(),
        forall|i: int| 0 <= i < rank(s, r.addr) ==> (#[trigger] s[i]).end() <= r.addr,
        forall|i: int| rank(s, r.addr) <= i < s.len() ==> (#[trigger] s[i]).addr >= r.end(),
{
    let k = rank(s, r.addr);
    lemma_rank(s, r.addr);
    assert forall|i: int| 0 <= i < k implies (#[trigger] s[i]).end() <= r.addr by {
        assert(!s[i].overlaps(r));
    }
    assert forall|i: int| k <= i < s.len() implies (#[trigger] s[i]).addr >= r.end() by {
        assert(!s[i].overlaps(r));
        if i > k {
            assert(s[k].end() < s[i].addr);
        }
    }
}

/// Giving back a region that overlaps no free region keeps the list ordered.
pub proof fn lemma_coalesce_ordered(s: Seq<Region>, r: Region)
    requires
        ordered(s),
        all_at_least(s, 0),
        r.size > 0,
        !overlaps_any(s, r),
    ensures
        ordered(coalesce(s, r)),
        all_at_least(coalesce(s, r), 0),
{
    let t = coalesce(s, r);
    lemma_rank_separates(s, r);
    assert forall|i: int, j: int| 0 <= i < j < t.len() implies (#[trigger] t[i]).end() < (
    #[trigger] t[j]).addr by {
    }
    assert forall|i: int| 0 <= i < t.len() implies (#[trigger] t[i]).size >= 0 by {
    }
}

/// Giving back a region that overlaps no free region keeps the list ordered and in bounds.
pub proof fn lemma_coalesce_valid(s: Seq<Region>, r: Region, lo: int, hi: int)
    requires
        ordered(s),
        within(s, lo, hi),
        r.size > 0,
        lo <= r.addr,
        r.end() <= hi,
        !overlaps_any(s, r),
    ensures
        ordered(coalesce(s, r)),
        within(coalesce(s, r), lo, hi),
{
    let t = coalesce(s, r);
    lemma_coalesce_ordered(s, r);
    lemma_rank_separates(s, r);
    assert forall|i: int| 0 <= i < t.len() implies (#[trigger] t[i]).size >= 0 && lo <= t[i].addr
        && t[i].end() <= hi by {
    }
}

/// The regions of a splice, one by one.
pub proof fn lemma_splice(s: Seq<Region>, a: int, b: int, m: Region)
    requires
        0 <= a <= b <= s.len(),
    ensures
        splice(s, a, b, m).len() == a + 1 + s.len() - b,
        forall|i: int| 0 <= i < a ==> #[trigger] splice(s, a, b, m)[i] == s[i],
        splice(s, a, b, m)[a] == m,
        forall|i: int| a < i < a + 1 + s.len() - b ==> #[trigger] splice(s, a, b, m)[i] == s[i - a - 1 + b],
{
}

/// The sequence `s` with the region at index `i` replaced by the regions `p`.
pub open spec fn replace(s: Seq<Region>, i: int, p: Seq<Region>) -> Seq<Region> {
    s.take(i) + p + s.skip(i + 1)
}

/// The regions of a replacement, one by one.
pub proof fn lemma_replace(s: Seq<Region>, i: int, p: Seq<Region>)
    requires
        0 <= i < s.len(),
    ensures
        replace(s, i, p).len() == s.len() - 1 + p.len(),
        forall|j: int| 0 <= j < i ==> #[trigger] replace(s, i, p)[j] == s[j],
        forall|j: int| i <= j < i + p.len() ==> #[trigger] replace(s, i, p)[j] == p[j - i],
        forall|j: int|
            i + p.len() <= j < s.len() - 1 + p.len() ==> #[trigger] replace(s, i, p)[j] == s[j
                - p.len() + 1],
{
}

/// Without its first region, a list is ordered and in bounds as it was with it.
pub proof fn lemma_skip_first(s: Seq<Region>, lo: int, hi: int)
    requires
        s.len() > 0,
    ensures
        ordered(s) ==> ordered(s.skip(1)),
        within(s, lo, hi) ==> within(s.skip(1), lo, hi),
{
    let t = s.skip(1);
    if ordered(s) {
        assert forall|i: int, j: int| 0 <= i < j < t.len() implies (#[trigger] t[i]).end() < (
        #[trigger] t[j]).addr by {
            assert(t[i] == s[i + 1] && t[j] == s[j + 1]);
        }
    }
    if within(s, lo, hi) {
        assert forall|i: int| 0 <= i < t.len() implies (#[trigger] t[i]).size >= 0 && lo
            <= t[i].addr && t[i].end() <= hi by {
            assert(t[i] == s[i + 1]);
        }
    }
}

/// Without one of its regions, a list is ordered and in bounds as it was with it.
pub proof fn lemma_remove(s: Seq<Region>, i: int, lo: int, hi: int)
    requires
        0 <= i < s.len(),
    ensures
        s.remove(i) == replace(s, i, Seq::empty()),
        ordered(s) ==> ordered(s.remove(i)),
        within(s, lo, hi) ==> within(s.remove(i), lo, hi),
{
    let t = s.remove(i);
    assert(t =~= replace(s, i, Seq::empty()));
    lemma_replace(s, i, Seq::empty());
    if ordered(s) {
        assert forall|j: int, k: int| 0 <= j < k < t.len() implies (#[trigger] t[j]).end() < (
        #[trigger] t[k]).addr by {
            assert(s[if j < i { j } else { j + 1 }].end() < s[if k < i { k } else { k + 1 }].addr);
        }
    }
    if within(s, lo, hi) {
        assert forall|j: int| 0 <= j < t.len() implies (#[trigger] t[j]).size >= 0 && lo
            <= t[j].addr && t[j].end() <= hi by {
            assert(t[j] == s[if j < i { j } else { j + 1 }]);
        }
    }
}

/// A region that lies between two neighbours of an ordered list and touches neither, or
/// before the first region, or behind the last, becomes a region of its own when it is given
/// back.
pub proof fn lemma_coalesce_isolated(s: Seq<Region>, k: int, r: Region)
    requires
        ordered(s),
        all_at_least(s, 0),
        0 <= k <= s.len(),
        r.size > 0,
        k > 0 ==> s[k - 1].end() < r.addr,
        k < s.len() ==> r.end() < s[k].addr,
    ensures
        coalesce(s, r) == splice(s, k, k, r),
        !overlaps_any(s, r),
{
    assert forall|j: int| 0 <= j < k implies (#[trigger] s[j]).end() < r.addr by {
        if j < k - 1 {
            assert(s[j].end() < s[k - 1].addr);
        }
    }
    assert forall|j: int| k <= j < s.len() implies r.end() < (#[trigger] s[j]).addr by {
        if j > k {
            assert(s[k].end() < s[j].addr);
        }
    }
    lemma_rank_is(s, r.addr, k);
}

/// A list stays ordered and in bounds when one of its regions is replaced by regions that
/// are ordered themselves and lie within the region they replace.
pub proof fn lemma_replace_valid(s: Seq<Region>, i: int, p: Seq<Region>, lo: int, hi: int)
    requires
        ordered(s),
        0 <= i < s.len(),
        ordered(p),
        within(p, s[i].addr, s[i].end()),
    ensures
        ordered(replace(s, i, p)),
        within(s, lo, hi) ==> within(replace(s, i, p), lo, hi),
        all_at_least(s, 0) ==> all_at_least(replace(s, i, p), 0),
{
    let t = replace(s, i, p);
    let k = i + p.len();
    lemma_replace(s, i, p);
    assert forall|j: int, l: int| 0 <= j < l < t.len() implies (#[trigger] t[j]).end() < (
    #[trigger] t[l]).addr by {
        if l < i {
            assert(s[j].end() < s[l].addr);
        } else if l < k {
            assert(t[l] == p[l - i]);
            if j < i {
                assert(s[j].end() < s[i].addr);
            } else {
                assert(t[j] == p[j - i]);
                assert(p[j - i].end() < p[l - i].addr);
            }
        } else {
            if j < i {
                assert(s[j].end() < s[l - p.len() + 1].addr);
            } else if j < k {
                assert(t[j] == p[j - i]);
                assert(s[i].end() < s[l - p.len() + 1].addr);
            } else {
                assert(s[j - p.len() + 1].end() < s[l - p.len() + 1].addr);
            }
        }
    }
    if within(s, lo, hi) {
        assert forall|j: int| 0 <= j < t.len() implies (#[trigger] t[j]).size >= 0 && lo
            <= t[j].addr && t[j].end() <= hi by {
            if i <= j < k {
                assert(t[j] == p[j - i]);
            }
        }
    }
    if all_at_least(s, 0) {
        assert forall|j: int| 0 <= j < t.len() implies (#[trigger] t[j]).size >= 0 by {
            if i <= j < k {
                assert(t[j] == p[j - i]);
            }
        }
    }
}

/// A region of an ordered list can be given back piece by piece, from its start on. Where
/// the regions `p` stand in the list for pieces of the region at index `i`, and `r` is a
/// piece of it that lies behind them and touches none of them, giving `r` back puts it
/// behind them in the list.
pub proof fn lemma_coalesce_in_place(s: Seq<Region>, i: int, p: Seq<Region>, r: Region)
    requires
        ordered(s),
        all_at_least(s, 0),
        0 <= i < s.len(),
        ordered(p),
        within(p, s[i].addr, r.addr - 1),
        s[i].addr <= r.addr,
        r.size > 0,
        r.end() <= s[i].end(),
    ensures
        coalesce(replace(s, i, p), r) == replace(s, i, p.push(r)),
        !overlaps_any(replace(s, i, p), r),
{
    let t = replace(s, i, p);
    let k = i + p.len();
    lemma_replace(s, i, p);
    lemma_replace_valid(s, i, p, 0, 0);
    if k > 0 {
        if p.len() > 0 {
            assert(t[k - 1] == p[p.len() - 1]);
        } else {
            assert(t[k - 1] == s[i - 1]);
            assert(s[i - 1].end() < s[i].addr);
        }
        assert(t[k - 1].end() < r.addr);
    }
    if k < t.len() {
        assert(t[k] == s[i + 1]);
        assert(s[i].end() < s[i + 1].addr);
    }
    lemma_coalesce_isolated(t, k, r);
    lemma_splice(t, k, k, r);
    let u = splice(t, k, k, r);
    let v = replace(s, i, p.push(r));
    lemma_replace(s, i, p.push(r));
    assert(u.len() == v.len());
    assert forall|j: int| 0 <= j < u.len() implies u[j] == v[j] by {
        if j < i {
            assert(u[j] == t[j]);
        } else if j < k {
            assert(u[j] == t[j]);
            assert(v[j] == p.push(r)[j - i]);
        } else if j == k {
            assert(v[j] == p.push(r)[j - i]);
        } else {
            assert(u[j] == t[j - 1]);
        }
    }
    assert(u =~= v);
}

/// An address is free after a region is given back if it was free before or lies in that
/// region.
proof fn lemma_coalesce_covered(s: Seq<Region>, r: Region, x: int)
    requires
        ordered(s),
        all_at_least(s, 0),
        r.size > 0,
        !overlaps_any(s, r),
    ensures
        covered(coalesce(s, r), x) <==> covered(s, x) || r.contains(x),
{
    let k = rank(s, r.addr);
    lemma_rank_separates(s, r);
    let left = k > 0 && s[k - 1].end() == r.addr;
    let right = k < s.len() && s[k].addr == r.end();
    let a = if left { k - 1 } else { k };
    let b = if right { k + 1 } else { k };
    let m = Region {
        addr: if left { s[k - 1].addr } else { r.addr },
        size: (if right { s[k].end() } else { r.end() }) - (if left { s[k - 1].addr } else { r.addr }),
    };
    assert(coalesce(s, r) == splice(s, a, b, m));
    // The fused region holds the addresses of `r` and of the regions that are fused with it.
    assert(m.contains(x) <==> r.contains(x) || (left && s[k - 1].contains(x)) || (right
        && s[k].contains(x)));
    assert forall|i: int| a <= i < b && (#[trigger] s[i]).contains(x) implies m.contains(x) by {
        assert(i == k - 1 || i == k);
    }
    if left && s[k - 1].contains(x) {
        assert(covered(s, x));
    }
    if right && s[k].contains(x) {
        assert(covered(s, x));
    }
    lemma_splice_covered(s, a, b, m, x);
}

/// What a splice covers: the new region, and what was covered before, if not by a replaced
/// region only.
proof fn lemma_splice_covered(s: Seq<Region>, a: int, b: int, m: Region, x: int)
    requires
        0 <= a <= b <= s.len(),
    ensures
        covered(splice(s, a, b, m), x) ==> covered(s, x) || m.contains(x),
        m.contains(x) ==> covered(splice(s, a, b, m), x),
        covered(s, x) ==> covered(splice(s, a, b, m), x) || exists|i: int|
            a <= i < b && (#[trigger] s[i]).contains(x),
{
    let t = splice(s, a, b, m);
    lemma_splice(s, a, b, m);
    if covered(t, x) {
        let i = choose|i: int| 0 <= i < t.len() && (#[trigger] t[i]).contains(x);
        if i < a {
            assert(s[i].contains(x));
        } else if i > a {
            assert(s[i - a - 1 + b].contains(x));
        }
    }
    if covered(s, x) {
        let i = choose|i: int| 0 <= i < s.len() && (#[trigger] s[i]).contains(x);
        if i < a {
            assert(t[i].contains(x));
        } else if i >= b {
            assert(t[i - b + a + 1] == s[i]);
            assert(t[i - b + a + 1].contains(x));
        }
    }
    if m.contains(x) {
        assert(t[a].contains(x));
    }
}

/// Giving back a region that overlaps no free region adds its addresses to the free ones,
/// and no others.
pub proof fn lemma_coalesce_bytes(s: Seq<Region>, r: Region)
    requires
        ordered(s),
        all_at_least(s, 0),
        r.size > 0,
        !overlaps_any(s, r),
    ensures
        bytes(coalesce(s, r)) == bytes(s).union(r.bytes()),
{
    let t = coalesce(s, r);
    assert forall|x: int| bytes(t).contains(x) <==> bytes(s).union(r.bytes()).contains(x) by {
        lemma_coalesce_covered(s, r, x);
    }
    assert(bytes(t) =~= bytes(s).union(r.bytes()));
}

/// A region that begins behind the end of the first region of an ordered list finds its place
/// in the list without the first region, which it neither touches nor overlaps.
pub proof fn lemma_coalesce_skips(s: Seq<Region>, r: Region)
    requires
        ordered(s),
        all_at_least(s, 0),
        s.len() >= 1,
        s[0].end() < r.addr,
        r.size > 0,
    ensures
        coalesce(s, r) == seq![s[0]] + coalesce(s.skip(1), r),
        overlaps_any(s, r) <==> overlaps_any(s.skip(1), r),
{
    let t = s.skip(1);
    assert(rank(s, r.addr) == 1 + rank(t, r.addr));
    lemma_rank(t, r.addr);
    let k = rank(t, r.addr);
    if k > 0 {
        assert(t[k - 1] == s[k]);
    }
    if k < t.len() {
        assert(t[k] == s[k + 1]);
    }
    assert(coalesce(s, r) =~= seq![s[0]] + coalesce(t, r));
    if overlaps_any(s, r) {
        let i = choose|i: int| 0 <= i < s.len() && (#[trigger] s[i]).overlaps(r);
        assert(i > 0);
        assert(t[i - 1] == s[i]);
        assert(t[i - 1].overlaps(r));
    }
    if overlaps_any(t, r) {
        let i = choose|i: int| 0 <= i < t.len() && (#[trigger] t[i]).overlaps(r);
        assert(t[i] == s[i + 1]);
        assert(s[i + 1].overlaps(r));
    }
}

/// A region that lies behind the first region of an ordered list without touching it, and
/// ends where the second begins, can be given back in two steps to the same effect: the
/// second region is taken out of the list, and the two are given back as one.
pub proof fn lemma_coalesce_absorbs(s: Seq<Region>, r: Region)
    requires
        ordered(s),
        all_at_least(s, 0),
        s.len() >= 2,
        s[0].end() < r.addr,
        r.size > 0,
        r.end() == s[1].addr,
    ensures
        coalesce(s.remove(1), Region { addr: r.addr, size: r.size + s[1].size }) == coalesce(s, r),
        !overlaps_any(s, r),
        !overlaps_any(s.remove(1), Region { addr: r.addr, size: r.size + s[1].size }),
{
    let t = s.remove(1);
    let q = Region { addr: r.addr, size: r.size + s[1].size };
    lemma_rank_is(s, r.addr, 1);
    assert(t[0] == s[0]);
    if t.len() > 1 {
        assert(t[1] == s[2]);
        assert(s[1].end() < s[2].addr);
    }
    lemma_rank_is(t, q.addr, 1);
    assert(coalesce(t, q) =~= coalesce(s, r));
    assert forall|i: int| 0 <= i < s.len() implies !(#[trigger] s[i]).overlaps(r) by {
        if i >= 2 {
            assert(s[1].end() < s[i].addr);
        }
    }
    assert forall|i: int| 0 <= i < t.len() implies !(#[trigger] t[i]).overlaps(q) by {
        if i >= 1 {
            assert(t[i] == s[i + 1]);
            assert(s[1].end() < s[i + 1].addr);
        }
    }
}

/// Giving back a region of at least `min` bytes leaves no free region under `min` bytes.
pub proof fn lemma_coalesce_at_least(s: Seq<Region>, r: Region, min: int)
    requires
        all_at_least(s, min),
        min >= 0,
        r.size >= min,
    ensures
        all_at_least(coalesce(s, r), min),
{
    lemma_rank(s, r.addr);
}

/// An ordered list of non-empty regions is determined by the addresses it covers.
pub proof fn lemma_bytes_determine_regions(s: Seq<Region>, t: Seq<Region>)
    requires
        ordered(s),
        ordered(t),
        all_at_least(s, 1),
        all_at_least(t, 1),
        bytes(s) == bytes(t),
    ensures
        s == t,
    decreases s.len(),
{
    if s.len() == 0 {
        if t.len() > 0 {
            assert(t[0].contains(t[0].addr));
            assert(bytes(t).contains(t[0].addr));
            assert(covered(s, t[0].addr));
        }
        assert(s =~= t);
    } else {
        assert(s[0].contains(s[0].addr));
        assert(bytes(s).contains(s[0].addr));
        assert(covered(t, s[0].addr));
        assert(t.len() > 0);
        lemma_first_region(s, t);
        lemma_first_region(t, s);
        assert(s[0] == t[0]);
        let s1 = s.skip(1);
        let t1 = t.skip(1);
        assert forall|x: int| covered(s1, x) <==> covered(t1, x) by {
            lemma_skip_covered(s, x);
            lemma_skip_covered(t, x);
            assert(bytes(s).contains(x) <==> covered(s, x));
            assert(bytes(t).contains(x) <==> covered(t, x));
        }
        assert(bytes(s1) =~= bytes(t1));
        assert(ordered(s1)) by {
            assert forall|i: int, j: int| 0 <= i < j < s1.len() implies (#[trigger] s1[i]).end() < (
            #[trigger] s1[j]).addr by {
                assert(s1[i] == s[i + 1] && s1[j] == s[j + 1]);
            }
        }
        assert(ordered(t1)) by {
            assert forall|i: int, j: int| 0 <= i < j < t1.len() implies (#[trigger] t1[i]).end() < (
            #[trigger] t1[j]).addr by {
                assert(t1[i] == t[i + 1] && t1[j] == t[j + 1]);
            }
        }
        assert(all_at_least(s1, 1)) by {
            assert forall|i: int| 0 <= i < s1.len() implies (#[trigger] s1[i]).size >= 1 by {
                assert(s1[i] == s[i + 1]);
            }
        }
        assert(all_at_least(t1, 1)) by {
            assert forall|i: int| 0 <= i < t1.len() implies (#[trigger] t1[i]).size >= 1 by {
                assert(t1[i] == t[i + 1]);
            }
        }
        lemma_bytes_determine_regions(s1, t1);
        assert(s =~= t) by {
            assert forall|i: int| 0 <= i < s.len() implies s[i] == t[i] by {
                if i > 0 {
                    assert(s1[i - 1] == s[i]);
                    assert(t1[i - 1] == t[i]);
                }
            }
            assert(s.len() == s1.len() + 1);
            assert(t.len() == t1.len() + 1);
        }
    }
}

/// Without its first region, an ordered list covers what it covered before, less that region.
proof fn lemma_skip_covered(s: Seq<Region>, x: int)
    requires
        ordered(s),
        all_at_least(s, 1),
        s.len() > 0,
    ensures
        covered(s.skip(1), x) <==> covered(s, x) && !s[0].contains(x),
{
    let s1 = s.skip(1);
    if covered(s1, x) {
        let i = choose|i: int| 0 <= i < s1.len() && (#[trigger] s1[i]).contains(x);
        assert(s1[i] == s[i + 1]);
        assert(s[i + 1].contains(x));
        assert(s[0].end() < s[i + 1].addr);
    }
    if covered(s, x) && !s[0].contains(x) {
        let i = choose|i: int| 0 <= i < s.len() && (#[trigger] s[i]).contains(x);
        assert(s1[i - 1] == s[i]);
        assert(s1[i - 1].contains(x));
    }
}

/// Of two ordered lists that cover the same addresses, the first region of one neither
/// starts before nor ends after the first region of the other.
proof fn lemma_first_region(s: Seq<Region>, t: Seq<Region>)
    requires
        ordered(s),
        ordered(t),
        all_at_least(s, 1),
        all_at_least(t, 1),
        bytes(s) == bytes(t),
        s.len() > 0,
        t.len() > 0,
    ensures
        t[0].addr <= s[0].addr,
        t[0].end() <= s[0].end(),
{
    assert(s[0].contains(s[0].addr));
    assert(bytes(s).contains(s[0].addr));
    assert(covered(t, s[0].addr));
    let i = choose|i: int| 0 <= i < t.len() && (#[trigger] t[i]).contains(s[0].addr);
    if i > 0 {
        assert(t[0].end() < t[i].addr);
    }
    assert(t[0].addr <= s[0].addr);
    // The last address of t[0] is covered by s, and the address after it is not covered by t.
    let last = t[0].end() - 1;
    assert(t[0].contains(last));
    assert(bytes(t).contains(last));
    assert(covered(s, last));
    let j = choose|j: int| 0 <= j < s.len() && (#[trigger] s[j]).contains(last);
    if t[0].end() > s[0].end() {
        // Then s[0].end() lies in t[0] (it is at or after t[0].addr because s[0].addr is),
        // so s covers it, but no region of s holds it.
        let gap = s[0].end();
        assert(t[0].contains(gap));
        assert(bytes(t).contains(gap));
        assert(covered(s, gap));
        let m = choose|m: int| 0 <= m < s.len() && (#[trigger] s[m]).contains(gap);
        if m > 0 {
            assert(s[0].end() < s[m].addr);
        }
        assert(false);
    }
}

/// A non-empty region overlaps a list of non-empty regions exactly if it shares an address
/// with it.
pub proof fn lemma_overlap_shares_address(s: Seq<Region>, r: Region)
    requires
        all_at_least(s, 1),
        r.size >= 1,
    ensures
        overlaps_any(s, r) <==> exists|x: int| covered(s, x) && r.contains(x),
{
    if overlaps_any(s, r) {
        let i = choose|i: int| 0 <= i < s.len() && (#[trigger] s[i]).overlaps(r);
        let x = if s[i].addr >= r.addr { s[i].addr } else { r.addr };
        assert(s[i].contains(x));
        assert(covered(s, x) && r.contains(x));
    }
    if exists|x: int| covered(s, x) && r.contains(x) {
        let x = choose|x: int| covered(s, x) && r.contains(x);
        let i = choose|i: int| 0 <= i < s.len() && (#[trigger] s[i]).contains(x);
        assert(s[i].overlaps(r));
    }
}

/// The order in which two regions are given back does not matter: either way the same free
/// list results, and the second return is as valid as the first.
pub proof fn lemma_coalesce_commutes(s: Seq<Region>, a: Region, b: Region)
    requires
        ordered(s),
        all_at_least(s, 1),
        a.size >= 1,
        b.size >= 1,
        !overlaps_any(s, a),
        !overlaps_any(s, b),
        !a.overlaps(b),
    ensures
        !overlaps_any(coalesce(s, a), b),
        !overlaps_any(coalesce(s, b), a),
        coalesce(coalesce(s, a), b) == coalesce(coalesce(s, b), a),
{
    lemma_coalesce_then(s, a, b);
    lemma_coalesce_then(s, b, a);
    let ab = coalesce(coalesce(s, a), b);
    let ba = coalesce(coalesce(s, b), a);
    assert(bytes(ab) =~= bytes(ba));
    lemma_bytes_determine_regions(ab, ba);
}

/// After `a` is given back, `b` can be given back as well, and the free addresses are then
/// those that were free before and those of `a` and `b`.
proof fn lemma_coalesce_then(s: Seq<Region>, a: Region, b: Region)
    requires
        ordered(s),
        all_at_least(s, 1),
        a.size >= 1,
        b.size >= 1,
        !overlaps_any(s, a),
        !overlaps_any(s, b),
        !a.overlaps(b),
    ensures
        !overlaps_any(coalesce(s, a), b),
        ordered(coalesce(coalesce(s, a), b)),
        all_at_least(coalesce(coalesce(s, a), b), 1),
        bytes(coalesce(coalesce(s, a), b)) == bytes(s).union(a.bytes()).union(b.bytes()),
{
    let sa = coalesce(s, a);
    lemma_coalesce_ordered(s, a);
    lemma_coalesce_bytes(s, a);
    lemma_coalesce_at_least(s, a, 1);
    lemma_overlap_shares_address(s, b);
    lemma_overlap_shares_address(sa, b);
    if overlaps_any(sa, b) {
        let x = choose|x: int| covered(sa, x) && b.contains(x);
        assert(bytes(sa).contains(x));
        assert(bytes(s).contains(x) || a.bytes().contains(x));
        assert(covered(s, x) || a.contains(x));
        assert(false);
    }
    lemma_coalesce_ordered(sa, b);
    lemma_coalesce_bytes(sa, b);
    lemma_coalesce_at_least(sa, b, 1);
}

} // verus!

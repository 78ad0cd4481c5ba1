//! The mathematical model of a list of regions.
//!
//! A list of regions stands for a map from addresses to flags, its
//! [`contents`]. The regions of a list are [`ordered`]: none is empty, none
//! reaches past the top of the address space, and each starts at or after the
//! end of the one before. A list is [`merged`] if no two neighbours could be
//! written as one region. Among the ordered and merged lists there is exactly
//! one with given contents.
use crate::addr;
use crate::addr::PhysAddr;
use crate::flags::MemblockFlags;
use crate::region::MemblockRegion;
use vstd::prelude::*;
use vstd::set_lib::*;

verus! {

/// The region is not empty and ends at or below the top of the address space.
pub open spec fn valid<T: PhysAddr>(r: MemblockRegion<T>) -> bool {
    &&& r.size().addr() > 0
    &&& r.base().addr() + r.size().addr() <= T::MAX.addr()
}

/// The region holds the address `a`.
pub open spec fn holds<T: PhysAddr>(r: MemblockRegion<T>, a: int) -> bool {
    r.lo() <= a < r.hi()
}

/// The regions are valid, sorted and do not overlap.
pub open spec fn ordered<T: PhysAddr>(s: Seq<MemblockRegion<T>>) -> bool {
    &&& forall|i: int| 0 <= i < s.len() ==> valid(#[trigger] s[i])
    &&& forall|i: int, j: int| 0 <= i < j < s.len() ==> (#[trigger] s[i]).hi() <= (#[trigger] s[j]).lo()
}

/// The regions at `i` and `i + 1` touch and have the same flags.
pub open spec fn joinable<T: PhysAddr>(s: Seq<MemblockRegion<T>>, i: int) -> bool {
    &&& s[i].hi() == s[i + 1].lo()
    &&& s[i].flags() == s[i + 1].flags()
}

/// No two neighbours could be written as one region.
pub open spec fn merged<T: PhysAddr>(s: Seq<MemblockRegion<T>>) -> bool {
    forall|i: int| 0 <= i < s.len() - 1 ==> !#[trigger] joinable(s, i)
}

/// Neighbours that could be written as one region meet at `x` or at `y`.
pub open spec fn joints_at<T: PhysAddr>(s: Seq<MemblockRegion<T>>, x: int, y: int) -> bool {
    forall|i: int|
        0 <= i < s.len() - 1 && #[trigger] joinable(s, i) ==> s[i + 1].lo() == x || s[i + 1].lo()
            == y
}

/// The sum of the sizes of the regions.
pub open spec fn total<T: PhysAddr>(s: Seq<MemblockRegion<T>>) -> nat
    decreases s.len(),
{
    if s.len() == 0 {
        0
    } else {
        total(s.drop_last()) + s.last().size().addr()
    }
}

/// Some region holds the address `a`.
pub open spec fn covers<T: PhysAddr>(s: Seq<MemblockRegion<T>>, a: int) -> bool {
    exists|i: int| 0 <= i < s.len() && holds(#[trigger] s[i], a)
}

/// The index of a region that holds the address `a`.
pub open spec fn index_at<T: PhysAddr>(s: Seq<MemblockRegion<T>>, a: int) -> int {
    choose|i: int| 0 <= i < s.len() && holds(#[trigger] s[i], a)
}

/// The addresses that the regions hold, each with the flags of its region.
pub open spec fn contents<T: PhysAddr>(s: Seq<MemblockRegion<T>>) -> Map<int, MemblockFlags> {
    Map::new(|a: int| covers(s, a), |a: int| s[index_at(s, a)].flags())
}

/// The contents after `[lo, hi)` is added with `flags`: what was there stays,
/// and every other address of the range gets `flags`.
pub open spec fn added(
    m: Map<int, MemblockFlags>,
    lo: int,
    hi: int,
    flags: MemblockFlags,
) -> Map<int, MemblockFlags> {
    Map::new(
        |a: int| m.contains_key(a) || lo <= a < hi,
        |a: int|
            if m.contains_key(a) {
                m[a]
            } else {
                flags
            },
    )
}

/// The contents after `[lo, hi)` is removed.
pub open spec fn removed(m: Map<int, MemblockFlags>, lo: int, hi: int) -> Map<int, MemblockFlags> {
    Map::new(|a: int| m.contains_key(a) && !(lo <= a < hi), |a: int| m[a])
}

/// The flags `f` with the bits of `flag` set or cleared.
pub open spec fn changed(f: MemblockFlags, flag: MemblockFlags, set: bool) -> MemblockFlags {
    if set {
        f.with(flag)
    } else {
        f.without(flag)
    }
}

/// The contents after `flag` is set or cleared on what lies in `[lo, hi)`.
pub open spec fn flagged(
    m: Map<int, MemblockFlags>,
    lo: int,
    hi: int,
    flag: MemblockFlags,
    set: bool,
) -> Map<int, MemblockFlags> {
    Map::new(
        |a: int| m.contains_key(a),
        |a: int|
            if lo <= a < hi {
                changed(m[a], flag, set)
            } else {
                m[a]
            },
    )
}

/// Where the `g`-th gap of the list starts: the end of the region before it,
/// or zero for the first gap.
pub open spec fn gap_lo<T: PhysAddr>(s: Seq<MemblockRegion<T>>, g: int) -> int {
    if g <= 0 {
        0
    } else {
        s[g - 1].hi()
    }
}

/// Where the `g`-th gap of the list ends: the start of the region after it,
/// or the top of the address space for the last gap.
pub open spec fn gap_hi<T: PhysAddr>(s: Seq<MemblockRegion<T>>, g: int) -> int {
    if g >= s.len() {
        T::MAX.addr() as int
    } else {
        s[g].lo()
    }
}

/// The `g`-th gap of the list has an address in common with `[lo, hi)`.
pub open spec fn gap_meets<T: PhysAddr>(
    s: Seq<MemblockRegion<T>>,
    g: int,
    lo: int,
    hi: int,
) -> bool {
    &&& lo < gap_hi(s, g)
    &&& gap_lo(s, g) < hi
    &&& gap_lo(s, g) < gap_hi(s, g)
    &&& lo < hi
}

/// How many of the first `n` gaps of the list meet `[lo, hi)`. Adding the
/// range needs one new region for each gap that it meets.
pub open spec fn gaps_met<T: PhysAddr>(
    s: Seq<MemblockRegion<T>>,
    lo: int,
    hi: int,
    n: int,
) -> nat
    decreases n,
{
    if n <= 0 {
        0
    } else {
        gaps_met(s, lo, hi, n - 1) + (if gap_meets(s, n - 1, lo, hi) {
            1nat
        } else {
            0nat
        })
    }
}

/// How many regions have to be inserted to add `[lo, hi)` to the list.
pub open spec fn pieces_needed<T: PhysAddr>(
    s: Seq<MemblockRegion<T>>,
    lo: int,
    hi: int,
) -> nat {
    gaps_met(s, lo, hi, s.len() as int + 1)
}

/// A region reaches across the address `x`, so that it has to be split for a
/// region to start there.
pub open spec fn splits_at<T: PhysAddr>(s: Seq<MemblockRegion<T>>, x: int) -> bool {
    exists|i: int| 0 <= i < s.len() && (#[trigger] s[i]).lo() < x < s[i].hi()
}

/// How many regions splitting takes until `[lo, hi)` starts and ends between
/// regions.
pub open spec fn splits_needed<T: PhysAddr>(
    s: Seq<MemblockRegion<T>>,
    lo: int,
    hi: int,
) -> nat {
    (if splits_at(s, lo) {
        1nat
    } else {
        0nat
    }) + (if splits_at(s, hi) {
        1nat
    } else {
        0nat
    })
}

/// The gap before region `g` as far as it lies in `[lo, hi]`: where it starts,
/// moved into that range.
pub open spec fn clamped_gap_lo<T: PhysAddr>(
    s: Seq<MemblockRegion<T>>,
    g: int,
    lo: int,
    hi: int,
) -> int {
    if gap_lo(s, g) <= lo {
        lo
    } else if gap_lo(s, g) <= hi {
        gap_lo(s, g)
    } else {
        hi
    }
}

pub proof fn lemma_gaps_met_monotonic<T: PhysAddr>(
    s: Seq<MemblockRegion<T>>,
    lo: int,
    hi: int,
    m: int,
    n: int,
)
    requires
        m <= n,
    ensures
        gaps_met(s, lo, hi, m) <= gaps_met(s, lo, hi, n),
        gaps_met(s, lo, hi, n) <= gaps_met(s, lo, hi, m) + (n - m),
    decreases n - m,
{
    if m < n {
        lemma_gaps_met_monotonic(s, lo, hi, m, n - 1);
    }
}

/// No gap after one that reaches `hi` meets `[lo, hi)`.
pub proof fn lemma_gaps_beyond<T: PhysAddr>(
    s: Seq<MemblockRegion<T>>,
    lo: int,
    hi: int,
    g: int,
    n: int,
)
    requires
        ordered(s),
        0 <= g < n <= s.len() + 1,
        hi <= gap_hi(s, g),
    ensures
        gaps_met(s, lo, hi, n) == gaps_met(s, lo, hi, g + 1),
    decreases n,
{
    if n > g + 1 {
        lemma_gaps_beyond(s, lo, hi, g, n - 1);
        assert(valid(s[g]));
        assert(valid(s[n - 2]));
        assert(g < n - 2 ==> s[g].hi() <= s[n - 2].lo());
        assert(gap_lo(s, n - 1) >= hi);
    }
}

/// An empty range meets no gap.
pub proof fn lemma_no_gaps_met<T: PhysAddr>(
    s: Seq<MemblockRegion<T>>,
    lo: int,
    hi: int,
    n: int,
)
    requires
        hi <= lo,
    ensures
        gaps_met(s, lo, hi, n) == 0,
    decreases n,
{
    if n > 0 {
        lemma_no_gaps_met(s, lo, hi, n - 1);
    }
}

/// Adding a range in two parts is adding it at once.
pub proof fn lemma_added_twice(
    m: Map<int, MemblockFlags>,
    lo: int,
    mid: int,
    hi: int,
    flags: MemblockFlags,
)
    requires
        lo <= mid <= hi,
    ensures
        added(added(m, lo, mid, flags), mid, hi, flags) == added(m, lo, hi, flags),
{
    assert(added(added(m, lo, mid, flags), mid, hi, flags) =~= added(m, lo, hi, flags));
}

/// Adding what one region holds anyway changes nothing.
pub proof fn lemma_added_over<T: PhysAddr>(
    s: Seq<MemblockRegion<T>>,
    k: int,
    lo: int,
    mid: int,
    hi: int,
    flags: MemblockFlags,
)
    requires
        ordered(s),
        0 <= k < s.len(),
        lo <= mid <= hi,
        mid < hi ==> s[k].lo() <= mid,
        hi <= s[k].hi() || hi == mid,
    ensures
        added(contents(s), lo, mid, flags) == added(contents(s), lo, hi, flags),
{
    assert forall|a: int| mid <= a < hi implies contents(s).dom().contains(a) by {
        lemma_holds(s, k, a);
    }
    assert(added(contents(s), lo, mid, flags) =~= added(contents(s), lo, hi, flags));
}

/// In an ordered list, the region that holds an address is the only one.
pub proof fn lemma_holds<T: PhysAddr>(s: Seq<MemblockRegion<T>>, i: int, a: int)
    requires
        ordered(s),
        0 <= i < s.len(),
        holds(s[i], a),
    ensures
        covers(s, a),
        index_at(s, a) == i,
        contents(s).contains_key(a),
        contents(s)[a] == s[i].flags(),
{
    let j = index_at(s, a);
    if j < i {
        assert(s[j].hi() <= s[i].lo());
    } else if i < j {
        assert(s[i].hi() <= s[j].lo());
    }
}

/// The bounds of a valid region.
pub proof fn lemma_valid<T: PhysAddr>(r: MemblockRegion<T>)
    requires
        valid(r),
    ensures
        0 <= r.lo() < r.hi() <= T::MAX.addr(),
        r.hi() == r.lo() + r.size().addr(),
{
}

pub proof fn lemma_total_insert<T: PhysAddr>(
    s: Seq<MemblockRegion<T>>,
    pos: int,
    r: MemblockRegion<T>,
)
    requires
        0 <= pos <= s.len(),
    ensures
        total(s.insert(pos, r)) == total(s) + r.size().addr(),
    decreases s.len(),
{
    let t = s.insert(pos, r);
    if pos == s.len() {
        assert(t.drop_last() =~= s);
    } else {
        assert(t.drop_last() =~= s.drop_last().insert(pos, r));
        assert(t.last() == s.last());
        lemma_total_insert(s.drop_last(), pos, r);
    }
}

pub proof fn lemma_total_remove<T: PhysAddr>(s: Seq<MemblockRegion<T>>, pos: int)
    requires
        0 <= pos < s.len(),
    ensures
        total(s.remove(pos)) == total(s) - s[pos].size().addr(),
{
    assert(s.remove(pos).insert(pos, s[pos]) =~= s);
    lemma_total_insert(s.remove(pos), pos, s[pos]);
}

pub proof fn lemma_total_update<T: PhysAddr>(
    s: Seq<MemblockRegion<T>>,
    pos: int,
    r: MemblockRegion<T>,
)
    requires
        0 <= pos < s.len(),
    ensures
        total(s.update(pos, r)) == total(s) - s[pos].size().addr() + r.size().addr(),
{
    assert(s.update(pos, r) =~= s.remove(pos).insert(pos, r));
    lemma_total_remove(s, pos);
    lemma_total_insert(s.remove(pos), pos, r);
}

/// Regions that do not overlap are no larger together than the space that
/// they lie in.
pub proof fn lemma_total_bound<T: PhysAddr>(s: Seq<MemblockRegion<T>>)
    requires
        ordered(s),
    ensures
        total(s) <= gap_lo(s, s.len() as int),
        total(s) <= T::MAX.addr(),
    decreases s.len(),
{
    if s.len() > 0 {
        let t = s.drop_last();
        assert(ordered(t));
        lemma_total_bound(t);
        assert(valid(s.last()));
        if t.len() > 0 {
            assert(t[t.len() - 1].hi() <= s.last().lo());
        }
    }
}

proof fn lemma_insert_ordered<T: PhysAddr>(
    s: Seq<MemblockRegion<T>>,
    pos: int,
    r: MemblockRegion<T>,
)
    requires
        ordered(s),
        valid(r),
        0 <= pos <= s.len(),
        pos > 0 ==> s[pos - 1].hi() <= r.lo(),
        pos < s.len() ==> r.hi() <= s[pos].lo(),
    ensures
        ordered(s.insert(pos, r)),
{
    let t = s.insert(pos, r);
    assert forall|i: int| 0 <= i < t.len() implies valid(#[trigger] t[i]) by {
        if i < pos {
            assert(t[i] == s[i]);
        } else if i > pos {
            assert(t[i] == s[i - 1]);
        }
    }
    assert forall|i: int, j: int| 0 <= i < j < t.len() implies (#[trigger] t[i]).hi() <= (
    #[trigger] t[j]).lo() by {
        if i < pos && pos < j {
            assert(t[i] == s[i] && t[j] == s[j - 1]);
        } else if i < pos && j < pos {
            assert(t[i] == s[i] && t[j] == s[j]);
        } else if i > pos {
            assert(t[i] == s[i - 1] && t[j] == s[j - 1]);
        } else if i < pos {
            assert(t[i] == s[i] && t[j] == r);
            lemma_valid(s[pos - 1]);
            assert(i < pos - 1 ==> s[i].hi() <= s[pos - 1].lo());
        } else {
            assert(t[i] == r && t[j] == s[j - 1]);
            lemma_valid(s[pos]);
            assert(pos < j - 1 ==> s[pos].hi() <= s[j - 1].lo());
        }
    }
}

proof fn lemma_insert_holds<T: PhysAddr>(
    s: Seq<MemblockRegion<T>>,
    pos: int,
    r: MemblockRegion<T>,
    a: int,
)
    requires
        ordered(s),
        ordered(s.insert(pos, r)),
        0 <= pos <= s.len(),
    ensures
        contents(s.insert(pos, r)).contains_key(a) <==> (contents(s).contains_key(a) || holds(r, a)),
        contents(s).contains_key(a) ==> contents(s.insert(pos, r))[a] == contents(s)[a],
        holds(r, a) ==> contents(s.insert(pos, r))[a] == r.flags(),
{
    let t = s.insert(pos, r);
    if covers(s, a) {
        let i = index_at(s, a);
        let j = if i < pos { i } else { i + 1 };
        assert(t[j] == s[i]);
        lemma_holds(t, j, a);
    }
    if holds(r, a) {
        assert(t[pos] == r);
        lemma_holds(t, pos, a);
    }
    if covers(t, a) {
        let j = index_at(t, a);
        if j < pos {
            assert(t[j] == s[j]);
        } else if j > pos {
            assert(t[j] == s[j - 1]);
        }
    }
}

/// One region may be inserted where it fits between its neighbours.
pub proof fn lemma_insert<T: PhysAddr>(
    s: Seq<MemblockRegion<T>>,
    pos: int,
    r: MemblockRegion<T>,
)
    requires
        ordered(s),
        valid(r),
        0 <= pos <= s.len(),
        pos > 0 ==> s[pos - 1].hi() <= r.lo(),
        pos < s.len() ==> r.hi() <= s[pos].lo(),
    ensures
        ordered(s.insert(pos, r)),
        contents(s.insert(pos, r)) == added(contents(s), r.lo(), r.hi(), r.flags()),
        total(s.insert(pos, r)) == total(s) + r.size().addr(),
{
    let t = s.insert(pos, r);
    lemma_total_insert(s, pos, r);
    lemma_insert_ordered(s, pos, r);
    let m = added(contents(s), r.lo(), r.hi(), r.flags());
    assert forall|a: int| #[trigger] contents(t).dom().contains(a) <==> m.dom().contains(a) by {
        lemma_insert_holds(s, pos, r, a);
    }
    assert forall|a: int| m.dom().contains(a) implies #[trigger] contents(t)[a] == m[a] by {
        lemma_insert_holds(s, pos, r, a);
    }
    assert(contents(t) =~= m);
}

/// Taking one region out takes its addresses out.
pub proof fn lemma_remove<T: PhysAddr>(s: Seq<MemblockRegion<T>>, pos: int)
    requires
        ordered(s),
        0 <= pos < s.len(),
    ensures
        ordered(s.remove(pos)),
        contents(s.remove(pos)) == removed(contents(s), s[pos].lo(), s[pos].hi()),
        total(s.remove(pos)) == total(s) - s[pos].size().addr(),
{
    let u = s.remove(pos);
    let r = s[pos];
    lemma_total_remove(s, pos);
    assert(ordered(u)) by {
        assert forall|i: int| 0 <= i < u.len() implies valid(#[trigger] u[i]) by {
            assert(u[i] == s[if i < pos { i } else { i + 1 }]);
        }
        assert forall|i: int, j: int| 0 <= i < j < u.len() implies (#[trigger] u[i]).hi() <= (
        #[trigger] u[j]).lo() by {
            assert(u[i] == s[if i < pos { i } else { i + 1 }]);
            assert(u[j] == s[if j < pos { j } else { j + 1 }]);
        }
    }
    assert(u.insert(pos, r) =~= s);
    assert(pos < u.len() ==> u[pos] == s[pos + 1]);
    lemma_insert(u, pos, r);
    assert forall|a: int| r.lo() <= a < r.hi() implies !covers(u, a) by {
        if covers(u, a) {
            let i = index_at(u, a);
            let j = if i < pos { i } else { i + 1 };
            assert(u[i] == s[j]);
            lemma_holds(s, j, a);
            lemma_holds(s, pos, a);
        }
    }
    assert(contents(u) =~= removed(contents(s), r.lo(), r.hi()));
}

/// The list without the regions from `i` to `j`.
pub open spec fn cut<T: PhysAddr>(
    s: Seq<MemblockRegion<T>>,
    i: int,
    j: int,
) -> Seq<MemblockRegion<T>> {
    s.subrange(0, i) + s.subrange(j, s.len() as int)
}

/// Taking out the regions that make up what lies in `[lo, hi)` takes that
/// range out, and leaves a merged list if only joints at its ends were left.
pub proof fn lemma_cut<T: PhysAddr>(
    s: Seq<MemblockRegion<T>>,
    i: int,
    j: int,
    lo: int,
    hi: int,
)
    requires
        ordered(s),
        0 <= i <= j <= s.len(),
        lo < hi,
        joints_at(s, lo, hi),
        forall|k: int| i <= k < j ==> lo <= (#[trigger] s[k]).lo() && s[k].hi() <= hi,
        forall|k: int|
            0 <= k < s.len() && !(i <= k < j) ==> (#[trigger] s[k]).hi() <= lo || hi <= s[k].lo(),
        ordered(cut(s, i, j)),
    ensures
        merged(cut(s, i, j)),
        contents(cut(s, i, j)) == removed(contents(s), lo, hi),
{
    let t = cut(s, i, j);
    assert forall|k: int| 0 <= k < t.len() implies #[trigger] t[k] == s[if k < i {
        k
    } else {
        k + (j - i)
    }] by {}
    assert forall|k: int| 0 <= k < t.len() - 1 implies !#[trigger] joinable(t, k) by {
        if joinable(t, k) {
            let k0 = if k < i { k } else { k + (j - i) };
            let k1 = if k + 1 < i { k + 1 } else { k + 1 + (j - i) };
            assert(t[k] == s[k0] && t[k + 1] == s[k1]);
            assert(valid(s[k0]) && valid(s[k1]));
            if k1 == k0 + 1 {
                assert(joinable(s, k0));
            } else {
                assert(valid(s[k0 + 1]));
                assert(s[k0].hi() <= s[k0 + 1].lo());
                assert(k0 + 1 < k1 ==> s[k0 + 1].hi() <= s[k1].lo());
            }
        }
    }
    let m = removed(contents(s), lo, hi);
    assert forall|a: int| #[trigger] contents(t).dom().contains(a) <==> m.dom().contains(a) by {
        if covers(t, a) {
            let k = index_at(t, a);
            lemma_holds(s, if k < i { k } else { k + (j - i) }, a);
        }
        if m.dom().contains(a) {
            let k = index_at(s, a);
            assert(holds(s[k], a));
            assert(!(i <= k < j));
            let k1 = if k < i { k } else { k - (j - i) };
            assert(t[k1] == s[k]);
            assert(holds(t[k1], a));
        }
    }
    assert forall|a: int| m.dom().contains(a) implies #[trigger] contents(t)[a] == m[a] by {
        assert(contents(t).dom().contains(a));
        let k = index_at(t, a);
        lemma_holds(t, k, a);
        lemma_holds(s, if k < i { k } else { k + (j - i) }, a);
    }
    assert(contents(t) =~= m);
}

/// Changing flags alone keeps a list ordered, and what it holds.
pub proof fn lemma_reflag<T: PhysAddr>(s: Seq<MemblockRegion<T>>, t: Seq<MemblockRegion<T>>)
    requires
        ordered(s),
        s.len() == t.len(),
        forall|k: int|
            0 <= k < s.len() ==> (#[trigger] t[k]).base() == s[k].base() && t[k].size()
                == s[k].size(),
    ensures
        ordered(t),
        total(t) == total(s),
        forall|a: int| #[trigger] covers(t, a) <==> covers(s, a),
        forall|a: int| covers(s, a) ==> #[trigger] index_at(t, a) == index_at(s, a),
    decreases s.len(),
{
    assert forall|i: int| 0 <= i < t.len() implies valid(#[trigger] t[i]) by {
        assert(valid(s[i]));
    }
    assert forall|i: int, j: int| 0 <= i < j < t.len() implies (#[trigger] t[i]).hi() <= (
    #[trigger] t[j]).lo() by {
        assert(s[i].hi() <= s[j].lo());
    }
    if s.len() > 0 {
        assert(ordered(s.drop_last()));
        assert(t.last() == t[t.len() - 1]);
        lemma_reflag(s.drop_last(), t.drop_last());
    }
    assert forall|a: int| #[trigger] covers(t, a) <==> covers(s, a) by {
        if covers(t, a) {
            assert(holds(s[index_at(t, a)], a));
        }
        if covers(s, a) {
            assert(holds(t[index_at(s, a)], a));
        }
    }
    assert forall|a: int| covers(s, a) implies #[trigger] index_at(t, a) == index_at(s, a) by {
        let k = index_at(s, a);
        assert(holds(s[k], a));
        lemma_holds(t, k, a);
    }
}

/// Changing the flags of the regions that make up what lies in `[lo, hi)`
/// changes them on that range.
pub proof fn lemma_flag_range<T: PhysAddr>(
    s: Seq<MemblockRegion<T>>,
    t: Seq<MemblockRegion<T>>,
    i: int,
    j: int,
    lo: int,
    hi: int,
    flag: MemblockFlags,
    set: bool,
)
    requires
        ordered(s),
        s.len() == t.len(),
        0 <= i <= j <= s.len(),
        forall|k: int| i <= k < j ==> lo <= (#[trigger] s[k]).lo() && s[k].hi() <= hi,
        forall|k: int|
            0 <= k < s.len() && !(i <= k < j) && lo < hi ==> (#[trigger] s[k]).hi() <= lo || hi
                <= s[k].lo(),
        forall|k: int|
            0 <= k < s.len() ==> (#[trigger] t[k]).base() == s[k].base() && t[k].size()
                == s[k].size() && t[k].flags() == (if i <= k < j {
                changed(s[k].flags(), flag, set)
            } else {
                s[k].flags()
            }),
    ensures
        ordered(t),
        total(t) == total(s),
        contents(t) == flagged(contents(s), lo, hi, flag, set),
{
    lemma_reflag(s, t);
    let m = flagged(contents(s), lo, hi, flag, set);
    assert forall|a: int| m.dom().contains(a) implies #[trigger] contents(t)[a] == m[a] by {
        assert(covers(s, a));
        let k = index_at(s, a);
        assert(holds(s[k], a));
        assert(index_at(t, a) == k);
        lemma_holds(t, k, a);
        assert(valid(s[k]));
    }
    assert(contents(t) =~= m);
}

/// A region may be written as two that touch, and two that touch as one.
pub proof fn lemma_split<T: PhysAddr>(
    s: Seq<MemblockRegion<T>>,
    pos: int,
    left: MemblockRegion<T>,
    right: MemblockRegion<T>,
)
    requires
        ordered(s),
        0 <= pos < s.len(),
        valid(left),
        valid(right),
        left.lo() == s[pos].lo(),
        left.hi() == right.lo(),
        right.hi() == s[pos].hi(),
        left.flags() == s[pos].flags(),
        right.flags() == s[pos].flags(),
    ensures
        ordered(s.update(pos, right).insert(pos, left)),
        contents(s.update(pos, right).insert(pos, left)) == contents(s),
        total(s.update(pos, right).insert(pos, left)) == total(s),
{
    let u = s.remove(pos);
    let v = s.update(pos, right);
    let f = s[pos].flags();
    lemma_remove(s, pos);
    assert(u.insert(pos, right) =~= v);
    assert(pos > 0 ==> u[pos - 1] == s[pos - 1] && s[pos - 1].hi() <= s[pos].lo());
    assert(pos < u.len() ==> u[pos] == s[pos + 1] && s[pos].hi() <= s[pos + 1].lo());
    lemma_insert(u, pos, right);
    lemma_insert(v, pos, left);
    assert forall|a: int| s[pos].lo() <= a < s[pos].hi() implies contents(s).contains_key(a)
        && contents(s)[a] == f by {
        lemma_holds(s, pos, a);
    }
    assert(added(added(contents(u), right.lo(), right.hi(), f), left.lo(), left.hi(), f)
        =~= contents(s));
}

/// Splitting a region leaves no region reaching across an address that none
/// reached across before.
pub proof fn lemma_split_narrows<T: PhysAddr>(
    s: Seq<MemblockRegion<T>>,
    pos: int,
    left: MemblockRegion<T>,
    right: MemblockRegion<T>,
    x: int,
)
    requires
        0 <= pos < s.len(),
        s[pos].lo() <= left.lo(),
        left.hi() <= s[pos].hi(),
        s[pos].lo() <= right.lo(),
        right.hi() <= s[pos].hi(),
        splits_at(s.update(pos, right).insert(pos, left), x),
    ensures
        splits_at(s, x),
{
    let t = s.update(pos, right).insert(pos, left);
    let k = choose|k: int| 0 <= k < t.len() && (#[trigger] t[k]).lo() < x < t[k].hi();
    let j = if k <= pos {
        k
    } else {
        k - 1
    };
    assert(s[j].lo() < x < s[j].hi());
}

/// Splitting a region makes one more pair of neighbours that could be joined.
pub proof fn lemma_split_joints<T: PhysAddr>(
    s: Seq<MemblockRegion<T>>,
    pos: int,
    left: MemblockRegion<T>,
    right: MemblockRegion<T>,
    x: int,
    y: int,
)
    requires
        joints_at(s, x, y),
        0 <= pos < s.len(),
        left.lo() == s[pos].lo(),
        right.hi() == s[pos].hi(),
        left.flags() == s[pos].flags(),
        right.flags() == s[pos].flags(),
        right.lo() == x || right.lo() == y,
    ensures
        joints_at(s.update(pos, right).insert(pos, left), x, y),
{
    let t = s.update(pos, right).insert(pos, left);
    assert forall|i: int| 0 <= i < t.len() - 1 && #[trigger] joinable(t, i) implies t[i + 1].lo()
        == x || t[i + 1].lo() == y by {
        if i < pos {
            assert(t[i] == s[i]);
            assert(i + 1 < pos ==> t[i + 1] == s[i + 1]);
            assert(joinable(s, i));
        } else if i > pos {
            assert(t[i + 1] == s[i]);
            assert(i - 1 > pos ==> t[i] == s[i - 1]);
            assert(joinable(s, i - 1));
        }
    }
}

/// Two neighbours that touch and have the same flags may be written as one
/// region.
#[verifier::spinoff_prover]
pub proof fn lemma_join<T: PhysAddr>(
    s: Seq<MemblockRegion<T>>,
    pos: int,
    whole: MemblockRegion<T>,
)
    requires
        ordered(s),
        0 <= pos < s.len() - 1,
        joinable(s, pos),
        valid(whole),
        whole.lo() == s[pos].lo(),
        whole.hi() == s[pos + 1].hi(),
        whole.flags() == s[pos].flags(),
    ensures
        ordered(s.remove(pos + 1).update(pos, whole)),
        contents(s.remove(pos + 1).update(pos, whole)) == contents(s),
        total(s.remove(pos + 1).update(pos, whole)) == total(s),
{
    let t = s.remove(pos + 1).update(pos, whole);
    assert(ordered(t)) by {
        let v = s.remove(pos + 1);
        let u = v.remove(pos);
        lemma_remove(s, pos + 1);
        lemma_remove(v, pos);
        assert(pos > 0 ==> u[pos - 1] == s[pos - 1] && s[pos - 1].hi() <= s[pos].lo());
        assert(pos < u.len() ==> u[pos] == s[pos + 2] && s[pos + 1].hi() <= s[pos + 2].lo());
        lemma_insert_ordered(u, pos, whole);
        assert(u.insert(pos, whole) =~= t);
    }
    assert(t.update(pos, s[pos + 1]).insert(pos, s[pos]) =~= s);
    lemma_split(t, pos, s[pos], s[pos + 1]);
}

/// Of the ordered and merged lists, only one has given contents.
pub proof fn lemma_unique<T: PhysAddr>(s: Seq<MemblockRegion<T>>, t: Seq<MemblockRegion<T>>)
    requires
        ordered(s),
        merged(s),
        ordered(t),
        merged(t),
        contents(s) == contents(t),
    ensures
        s == t,
    decreases s.len(),
{
    if s.len() == 0 {
        if t.len() > 0 {
            assert(valid(t[0]));
            lemma_holds(t, 0, t[0].lo());
            assert(covers(s, t[0].lo()));
        }
        assert(s =~= t);
    } else if t.len() == 0 {
        assert(valid(s[0]));
        lemma_holds(s, 0, s[0].lo());
        assert(covers(t, s[0].lo()));
    } else {
        lemma_first_lo(s, t);
        lemma_first_lo(t, s);
        assert(valid(s[0]) && valid(t[0]));
        lemma_holds(s, 0, s[0].lo());
        lemma_holds(t, 0, t[0].lo());
        assert(s[0].flags() == t[0].flags());
        lemma_first_hi(s, t);
        lemma_first_hi(t, s);
        s[0].base().lemma_value();
        t[0].base().lemma_value();
        s[0].size().lemma_value();
        t[0].size().lemma_value();
        s[0].lemma_determined(t[0]);
        let s1 = s.remove(0);
        let t1 = t.remove(0);
        lemma_remove(s, 0);
        lemma_remove(t, 0);
        assert forall|i: int| 0 <= i < s1.len() - 1 implies !#[trigger] joinable(s1, i) by {
            assert(s1[i] == s[i + 1] && s1[i + 1] == s[i + 2]);
            assert(!joinable(s, i + 1));
        }
        assert forall|i: int| 0 <= i < t1.len() - 1 implies !#[trigger] joinable(t1, i) by {
            assert(t1[i] == t[i + 1] && t1[i + 1] == t[i + 2]);
            assert(!joinable(t, i + 1));
        }
        lemma_unique(s1, t1);
        assert(s =~= s1.insert(0, s[0]));
        assert(t =~= t1.insert(0, t[0]));
    }
}

/// The first region of a list starts at the least address.
proof fn lemma_first_lo<T: PhysAddr>(s: Seq<MemblockRegion<T>>, t: Seq<MemblockRegion<T>>)
    requires
        ordered(s),
        ordered(t),
        contents(s) == contents(t),
        s.len() > 0,
        t.len() > 0,
    ensures
        s[0].lo() <= t[0].lo(),
{
    let a = t[0].lo();
    assert(valid(t[0]));
    lemma_holds(t, 0, a);
    assert(covers(s, a));
    let i = index_at(s, a);
    assert(valid(s[0]));
    assert(i > 0 ==> s[0].hi() <= s[i].lo());
}

/// In a merged list the first region reaches as far as its flags do.
proof fn lemma_first_hi<T: PhysAddr>(s: Seq<MemblockRegion<T>>, t: Seq<MemblockRegion<T>>)
    requires
        ordered(s),
        merged(s),
        ordered(t),
        contents(s) == contents(t),
        s.len() > 0,
        t.len() > 0,
        s[0].lo() == t[0].lo(),
        s[0].flags() == t[0].flags(),
    ensures
        t[0].hi() <= s[0].hi(),
{
    if s[0].hi() < t[0].hi() {
        let a = s[0].hi();
        assert(valid(s[0]));
        lemma_holds(t, 0, a);
        assert(covers(s, a));
        let i = index_at(s, a);
        lemma_holds(s, i, a);
        assert(i > 0);
        assert(valid(s[1]));
        assert(s[0].hi() <= s[1].lo());
        assert(i > 1 ==> s[1].hi() <= s[i].lo());
        assert(i == 1);
        assert(joinable(s, 0));
    }
}

/// The sizes of the regions sum up to the number of addresses that they hold.
pub proof fn lemma_total_counts<T: PhysAddr>(s: Seq<MemblockRegion<T>>)
    requires
        ordered(s),
    ensures
        contents(s).dom().finite(),
        contents(s).dom().len() == total(s),
    decreases s.len(),
{
    if s.len() == 0 {
        assert(contents(s).dom() =~= Set::<int>::empty());
    } else {
        let n = s.len() - 1;
        let t = s.drop_last();
        let r = s.last();
        assert(t =~= s.remove(n));
        lemma_remove(s, n);
        lemma_valid(r);
        lemma_total_counts(t);
        let mine = set_int_range(r.lo(), r.hi());
        lemma_int_range(r.lo(), r.hi());
        assert forall|a: int| #[trigger] contents(s).dom().contains(a) <==> contents(
            t,
        ).dom().contains(a) || mine.contains(a) by {
            if mine.contains(a) {
                lemma_holds(s, n, a);
            }
        }
        assert(contents(s).dom() =~= contents(t).dom() + mine);
        assert(contents(t).dom().disjoint(mine));
        lemma_set_disjoint_lens(contents(t).dom(), mine);
    }
}

/// A range that the regions hold meets no gap.
pub proof fn lemma_held_range<T: PhysAddr>(
    s: Seq<MemblockRegion<T>>,
    lo: int,
    hi: int,
    n: int,
)
    requires
        ordered(s),
        0 <= n <= s.len() + 1,
        0 <= lo,
        hi <= T::MAX.addr(),
        forall|a: int| lo <= a < hi ==> #[trigger] covers(s, a),
    ensures
        gaps_met(s, lo, hi, n) == 0,
    decreases n,
{
    if n > 0 {
        lemma_held_range(s, lo, hi, n - 1);
        let g = n - 1;
        if gap_meets(s, g, lo, hi) {
            let a = if gap_lo(s, g) < lo { lo } else { gap_lo(s, g) };
            assert(covers(s, a));
            let k = index_at(s, a);
            assert(holds(s[k], a));
            if k < g {
                assert(valid(s[g - 1]));
                assert(k < g - 1 ==> s[k].hi() <= s[g - 1].lo());
            } else {
                assert(valid(s[g]));
                assert(k > g ==> s[g].hi() <= s[k].lo());
            }
        }
    }
}

/// The addresses at which a region starts.
pub open spec fn starts<T: PhysAddr>(s: Seq<MemblockRegion<T>>) -> Set<int> {
    Set::new(|p: int| exists|i: int| 0 <= i < s.len() && (#[trigger] s[i]).lo() == p)
}

/// The addresses at which a region starts once regions are split so that
/// `[lo, hi)` starts and ends between regions.
pub open spec fn starts_split<T: PhysAddr>(
    s: Seq<MemblockRegion<T>>,
    lo: int,
    hi: int,
) -> Set<int> {
    Set::new(
        |p: int| starts(s).contains(p) || ((p == lo || p == hi) && splits_at(s, p)),
    )
}

/// There are as many regions as addresses at which one starts.
pub proof fn lemma_starts_count<T: PhysAddr>(s: Seq<MemblockRegion<T>>)
    requires
        ordered(s),
    ensures
        starts(s).finite(),
        starts(s).len() == s.len(),
    decreases s.len(),
{
    if s.len() == 0 {
        assert(starts(s) =~= Set::<int>::empty());
    } else {
        let t = s.drop_last();
        let p = s.last().lo();
        lemma_starts_count(t);
        assert forall|q: int| #[trigger] starts(s).contains(q) <==> starts(t).insert(p).contains(
            q,
        ) by {
            if starts(t).contains(q) {
                let i = choose|i: int| 0 <= i < t.len() && (#[trigger] t[i]).lo() == q;
                assert(s[i].lo() == q);
            }
            if starts(s).contains(q) {
                let i = choose|i: int| 0 <= i < s.len() && (#[trigger] s[i]).lo() == q;
                assert(i < t.len() ==> t[i].lo() == q);
            }
            assert(s[s.len() - 1].lo() == p);
        }
        assert(starts(s) =~= starts(t).insert(p));
        assert(!starts(t).contains(p)) by {
            if starts(t).contains(p) {
                let i = choose|i: int| 0 <= i < t.len() && (#[trigger] t[i]).lo() == p;
                assert(valid(s[i]));
                assert(s[i].hi() <= s[s.len() - 1].lo());
            }
        }
    }
}

/// A held address is one at which a region starts or across which one
/// reaches. In the second case its region holds the address before it too.
pub proof fn lemma_start_or_split<T: PhysAddr>(s: Seq<MemblockRegion<T>>, p: int)
    requires
        ordered(s),
    ensures
        contents(s).contains_key(p) <==> starts(s).contains(p) || splits_at(s, p),
        splits_at(s, p) ==> {
            &&& !starts(s).contains(p)
            &&& contents(s).contains_key(p - 1)
            &&& contents(s)[p - 1] == contents(s)[p]
        },
{
    if covers(s, p) {
        let i = index_at(s, p);
        assert(s[i].lo() == p || s[i].lo() < p < s[i].hi());
    }
    if starts(s).contains(p) {
        let i = choose|i: int| 0 <= i < s.len() && (#[trigger] s[i]).lo() == p;
        assert(valid(s[i]));
        lemma_holds(s, i, p);
        if splits_at(s, p) {
            let k = choose|k: int| 0 <= k < s.len() && (#[trigger] s[k]).lo() < p < s[k].hi();
            lemma_holds(s, k, p);
        }
    }
    if splits_at(s, p) {
        let k = choose|k: int| 0 <= k < s.len() && (#[trigger] s[k]).lo() < p < s[k].hi();
        lemma_holds(s, k, p);
        lemma_holds(s, k, p - 1);
    }
}

/// In a merged list a region starts where the address before is not held or
/// has other flags.
pub proof fn lemma_merged_start<T: PhysAddr>(s: Seq<MemblockRegion<T>>, p: int)
    requires
        ordered(s),
        merged(s),
        starts(s).contains(p),
        contents(s).contains_key(p - 1),
    ensures
        contents(s)[p - 1] != contents(s)[p],
{
    let i = choose|i: int| 0 <= i < s.len() && (#[trigger] s[i]).lo() == p;
    assert(valid(s[i]));
    lemma_holds(s, i, p);
    let k = index_at(s, p - 1);
    lemma_holds(s, k, p - 1);
    assert(valid(s[k]));
    assert(k > i ==> s[i].hi() <= s[k].lo());
    assert(k < i ==> s[k].hi() <= s[i].lo());
    assert(k < i);
    if k + 1 < i {
        assert(valid(s[k + 1]));
        assert(s[k].hi() <= s[k + 1].lo());
        assert(s[k + 1].hi() <= s[i].lo());
    }
    assert(!joinable(s, k));
}

/// There are as many addresses at which a region starts after splitting as
/// there are regions and splits.
pub proof fn lemma_starts_split_count<T: PhysAddr>(
    s: Seq<MemblockRegion<T>>,
    lo: int,
    hi: int,
)
    requires
        ordered(s),
        lo != hi,
    ensures
        starts_split(s, lo, hi).finite(),
        starts_split(s, lo, hi).len() == s.len() + splits_needed(s, lo, hi),
{
    lemma_starts_count(s);
    lemma_start_or_split(s, lo);
    lemma_start_or_split(s, hi);
    let a = if splits_at(s, lo) {
        starts(s).insert(lo)
    } else {
        starts(s)
    };
    let b = if splits_at(s, hi) {
        a.insert(hi)
    } else {
        a
    };
    assert(starts_split(s, lo, hi) =~= b);
}

/// A range that no region touches takes no splitting.
pub proof fn lemma_untouched_splits<T: PhysAddr>(s: Seq<MemblockRegion<T>>, lo: int, hi: int)
    requires
        ordered(s),
        lo < hi,
        forall|a: int| lo <= a < hi ==> !#[trigger] contents(s).contains_key(a),
    ensures
        splits_needed(s, lo, hi) == 0,
{
    lemma_start_or_split(s, lo);
    lemma_start_or_split(s, hi);
    assert(!contents(s).contains_key(lo));
    assert(!contents(s).contains_key(hi - 1));
}

} // verus!

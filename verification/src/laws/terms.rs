//! The terms of the laws on calls.
//!
//! What a call does is stated over the numbers that its arguments and results
//! stand for and over the regions that [`MemblockType::list`] holds, each by
//! its base, its size and the bits of its flags.
//!
//! [`MemblockType::list`]: crate::memblock::MemblockType::list
use crate::addr;
use crate::addr::PhysAddr;
use crate::flags::MemblockFlags;
use crate::free;
use crate::layout;
use crate::memblock::MemblockType;
use crate::region::MemblockRegion;
use vstd::prelude::*;

verus! {

broadcast use {addr::group_addresses, MemblockFlags::lemma_view};

/// Where the range of `size` bytes at `base` ends: after `size` bytes, or at
/// the top of the address space.
pub open spec fn end_of_range<T: PhysAddr>(base: T, size: T) -> int {
    if base.addr() + size.addr() < T::MAX.addr() {
        (base.addr() + size.addr()) as int
    } else {
        T::MAX.addr() as int
    }
}

/// The region holds the address `a`.
pub open spec fn in_region<T: PhysAddr>(r: MemblockRegion<T>, a: int) -> bool {
    r.base().addr() <= a < r.base().addr() + r.size().addr()
}

/// Some region holds the address `a`.
pub open spec fn held<T: PhysAddr>(s: Seq<MemblockRegion<T>>, a: int) -> bool {
    exists|i: int| 0 <= i < s.len() && in_region(#[trigger] s[i], a)
}

/// Some region whose flags have exactly the bits `bits` holds the address `a`.
pub open spec fn held_with<T: PhysAddr>(s: Seq<MemblockRegion<T>>, a: int, bits: u8) -> bool {
    exists|i: int|
        0 <= i < s.len() && in_region(#[trigger] s[i], a) && s[i].flags()@ == bits
}

/// Some region starts before the address `x` and ends after it.
pub open spec fn crossed<T: PhysAddr>(s: Seq<MemblockRegion<T>>, x: int) -> bool {
    exists|i: int|
        0 <= i < s.len() && (#[trigger] s[i]).base().addr() < x < s[i].base().addr()
            + s[i].size().addr()
}

/// The regions are not empty, end below the top of the address space, are
/// sorted by base, do not overlap, and touch only where their flags differ.
pub open spec fn tidy<T: PhysAddr>(s: Seq<MemblockRegion<T>>) -> bool {
    &&& forall|i: int|
        0 <= i < s.len() ==> 0 < (#[trigger] s[i]).size().addr() && s[i].base().addr()
            + s[i].size().addr() <= T::MAX.addr()
    &&& forall|i: int, j: int|
        0 <= i < j < s.len() ==> (#[trigger] s[i]).base().addr() + s[i].size().addr() <= (
        #[trigger] s[j]).base().addr()
    &&& forall|i: int, j: int|
        0 <= i < s.len() && j == i + 1 && j < s.len() && (#[trigger] s[i]).base().addr()
            + s[i].size().addr() == (#[trigger] s[j]).base().addr() ==> s[i].flags()@
            != s[j].flags()@
}

/// The addresses of `[lo, hi)` at which a run of addresses that are not held
/// starts.
pub open spec fn run_starts<T: PhysAddr>(
    s: Seq<MemblockRegion<T>>,
    lo: int,
    hi: int,
) -> Set<int> {
    Set::new(|a: int| lo <= a < hi && !held(s, a) && (a == lo || held(s, a - 1)))
}

/// What a collection holds, in these terms.
pub proof fn lemma_terms<T: PhysAddr, const N: usize>(t: MemblockType<T, N>)
    requires
        t.wf(),
    ensures
        t.list().len() <= N,
        tidy(t.list()),
        forall|a: int| #[trigger] held(t.list(), a) <==> t@.contains_key(a),
        forall|a: int, bits: u8| #[trigger]
            held_with(t.list(), a, bits) <==> t@.contains_key(a) && t@[a]@ == bits,
        forall|x: int| #[trigger] crossed(t.list(), x) <==> layout::splits_at(t.list(), x),
        forall|a: int| #[trigger] t@.contains_key(a) ==> 0 <= a < T::MAX.addr(),
{
    let s = t.list();
    t.lemma_wf();
    assert forall|i: int| 0 <= i < s.len() implies #[trigger] s[i].hi() == s[i].base().addr()
        + s[i].size().addr() && layout::valid(s[i]) by {
        assert(layout::valid(s[i]));
    }
    assert(tidy(s)) by {
        assert forall|i: int, j: int|
            0 <= i < s.len() && j == i + 1 && j < s.len() && (#[trigger] s[i]).base().addr()
                + s[i].size().addr() == (#[trigger] s[j]).base().addr() implies s[i].flags()@
            != s[j].flags()@ by {
            assert(s[i].hi() == s[i].base().addr() + s[i].size().addr());
            assert(!layout::joinable(s, i));
            if s[i].flags()@ == s[j].flags()@ {
                s[i].flags().lemma_view();
                s[j].flags().lemma_view();
            }
        }
        assert forall|i: int, j: int| 0 <= i < j < s.len() implies (
        #[trigger] s[i]).base().addr() + s[i].size().addr() <= (
        #[trigger] s[j]).base().addr() by {
            assert(s[i].hi() <= s[j].lo());
            assert(s[i].hi() == s[i].base().addr() + s[i].size().addr());
        }
    }
    assert forall|a: int| #[trigger] held(s, a) <==> t@.contains_key(a) by {
        if held(s, a) {
            let i = choose|i: int| 0 <= i < s.len() && in_region(#[trigger] s[i], a);
            assert(s[i].hi() == s[i].base().addr() + s[i].size().addr());
            layout::lemma_holds(s, i, a);
        }
        if t@.contains_key(a) {
            let i = layout::index_at(s, a);
            assert(layout::holds(s[i], a));
            assert(in_region(s[i], a));
        }
    }
    assert forall|a: int, bits: u8| #[trigger]
        held_with(s, a, bits) <==> t@.contains_key(a) && t@[a]@ == bits by {
        if held_with(s, a, bits) {
            let i = choose|i: int|
                0 <= i < s.len() && in_region(#[trigger] s[i], a) && s[i].flags()@ == bits;
            assert(s[i].hi() == s[i].base().addr() + s[i].size().addr());
            layout::lemma_holds(s, i, a);
        }
        if t@.contains_key(a) && t@[a]@ == bits {
            let i = layout::index_at(s, a);
            assert(layout::holds(s[i], a));
            assert(in_region(s[i], a));
        }
    }
    assert forall|x: int| #[trigger] crossed(s, x) <==> layout::splits_at(s, x) by {
        if crossed(s, x) {
            let i = choose|i: int|
                0 <= i < s.len() && (#[trigger] s[i]).base().addr() < x < s[i].base().addr()
                    + s[i].size().addr();
            assert(s[i].lo() < x < s[i].hi());
        }
        if layout::splits_at(s, x) {
            let i = choose|i: int| 0 <= i < s.len() && (#[trigger] s[i]).lo() < x < s[i].hi();
            assert(s[i].base().addr() < x < s[i].base().addr() + s[i].size().addr());
        }
    }
    assert forall|a: int| #[trigger] t@.contains_key(a) implies 0 <= a < T::MAX.addr() by {
        let i = layout::index_at(s, a);
        assert(layout::holds(s[i], a));
        assert(layout::valid(s[i]));
    }
}

/// The addresses at which `[lo, hi)` enters the first `n` gaps.
spec fn gap_entries<T: PhysAddr>(
    s: Seq<MemblockRegion<T>>,
    lo: int,
    hi: int,
    n: int,
) -> Set<int> {
    Set::new(
        |a: int|
            exists|g: int|
                0 <= g < n && #[trigger] layout::gap_meets(s, g, lo, hi) && a == gap_entry(
                    s,
                    g,
                    lo,
                ),
    )
}

/// The first address at or after `lo` that is in the gap or past it.
spec fn gap_entry<T: PhysAddr>(s: Seq<MemblockRegion<T>>, g: int, lo: int) -> int {
    if layout::gap_lo(s, g) < lo {
        lo
    } else {
        layout::gap_lo(s, g)
    }
}

proof fn lemma_gap_entries_count<T: PhysAddr>(
    s: Seq<MemblockRegion<T>>,
    lo: int,
    hi: int,
    n: int,
)
    requires
        layout::ordered(s),
        0 <= n <= s.len() + 1,
    ensures
        gap_entries(s, lo, hi, n).finite(),
        gap_entries(s, lo, hi, n).len() == layout::gaps_met(s, lo, hi, n),
    decreases n,
{
    if n == 0 {
        assert(gap_entries(s, lo, hi, n) =~= Set::<int>::empty());
    } else {
        lemma_gap_entries_count(s, lo, hi, n - 1);
        let fewer = gap_entries(s, lo, hi, n - 1);
        let all = gap_entries(s, lo, hi, n);
        if layout::gap_meets(s, n - 1, lo, hi) {
            let p = gap_entry(s, n - 1, lo);
            assert(all =~= fewer.insert(p)) by {
                assert forall|a: int| #[trigger] all.contains(a) <==> fewer.insert(p).contains(
                    a,
                ) by {}
            }
            if fewer.contains(p) {
                let g = choose|g: int|
                    0 <= g < n - 1 && #[trigger] layout::gap_meets(s, g, lo, hi) && p
                        == gap_entry(s, g, lo);
                free::lemma_gap_order(s, g, n - 1);
            }
        } else {
            assert(all =~= fewer) by {
                assert forall|a: int| #[trigger] all.contains(a) <==> fewer.contains(a) by {}
            }
        }
    }
}

/// A range takes one new region for each run of addresses in it that are not
/// held.
pub proof fn lemma_runs<T: PhysAddr, const N: usize>(
    t: MemblockType<T, N>,
    lo: int,
    hi: int,
)
    requires
        t.wf(),
        0 <= lo,
        hi <= T::MAX.addr(),
    ensures
        run_starts(t.list(), lo, hi).finite(),
        run_starts(t.list(), lo, hi).len() == layout::pieces_needed(t.list(), lo, hi),
{
    let s = t.list();
    let n = s.len() as int + 1;
    lemma_terms(t);
    t.lemma_wf();
    lemma_gap_entries_count(s, lo, hi, n);
    let entries = gap_entries(s, lo, hi, n);
    assert forall|a: int| #[trigger] run_starts(s, lo, hi).contains(a) <==> entries.contains(
        a,
    ) by {
        if run_starts(s, lo, hi).contains(a) {
            assert(!t@.contains_key(a));
            free::lemma_region_or_gap(s, a);
            let g = choose|g: int| 0 <= g <= s.len() && #[trigger] free::in_gap(s, g, a);
            if a > lo && layout::gap_lo(s, g) < a {
                assert(t@.contains_key(a - 1));
                free::lemma_region_or_gap(s, a - 1);
                assert(free::in_gap(s, g, a - 1));
            }
            assert(layout::gap_meets(s, g, lo, hi));
        }
        if entries.contains(a) {
            let g = choose|g: int|
                0 <= g < n && #[trigger] layout::gap_meets(s, g, lo, hi) && a == gap_entry(
                    s,
                    g,
                    lo,
                );
            assert(free::in_gap(s, g, a));
            free::lemma_region_or_gap(s, a);
            assert(!t@.contains_key(a));
            if a != lo {
                assert(g > 0);
                assert(layout::valid(s[g - 1]));
                layout::lemma_holds(s, g - 1, a - 1);
                assert(t@.contains_key(a - 1));
            }
        }
    }
    assert(run_starts(s, lo, hi) =~= entries);
}

} // verus!

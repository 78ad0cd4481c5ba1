//! What the calls that do not change regions return.
use crate::addr;
use crate::addr::PhysAddr;
use crate::iter::pfn;
use crate::laws;
use crate::laws::terms;
use crate::layout;
use crate::memblock::Memblock;
use crate::memblock::MemblockType;
use crate::region::MemblockRegion;
use vstd::prelude::*;

verus! {

broadcast use addr::group_addresses;

/// The addresses that are held.
pub open spec fn all_held<T: PhysAddr>(s: Seq<MemblockRegion<T>>) -> Set<int> {
    Set::new(|a: int| terms::held(s, a))
}

proof fn lemma_total<T: PhysAddr, const N: usize>(t: MemblockType<T, N>)
    requires
        t.wf(),
    ensures
        all_held(t.list()).finite(),
        all_held(t.list()).len() == layout::total(t.list()),
{
    terms::lemma_terms(t);
    laws::law_total_size_counts_addresses(t);
    assert(all_held(t.list()) =~= t@.dom());
}

/// What the queries of a collection return.
pub proof fn law_of_type_queries<T: PhysAddr, const N: usize>(
    t: &MemblockType<T, N>,
    n: usize,
    b: bool,
    s: &[MemblockRegion<T>],
    total: T,
)
    requires
        t.wf(),
    ensures
        terms::tidy(t.list()),
        call_ensures(MemblockType::<T, N>::count, (t,), n) ==> n == t.list().len(),
        call_ensures(MemblockType::<T, N>::is_empty, (t,), b) ==> (b <==> forall|a: int|
            !#[trigger] terms::held(t.list(), a)),
        call_ensures(MemblockType::<T, N>::capacity, (t,), n) ==> n == N,
        call_ensures(MemblockType::<T, N>::regions, (t,), s) ==> s@ == t.list(),
        call_ensures(MemblockType::<T, N>::total_size, (t,), total) ==> total.addr()
            == all_held(t.list()).len(),
{
    terms::lemma_terms(*t);
    lemma_total(*t);
    if call_ensures(MemblockType::<T, N>::is_empty, (t,), b) {
        if t.list().len() > 0 {
            let r = t.list()[0];
            assert(terms::in_region(r, r.base().addr() as int));
            assert(terms::held(t.list(), r.base().addr() as int));
        }
    }
}

/// What [`MemblockType::search`] returns.
pub proof fn law_of_search<T: PhysAddr, const N: usize>(
    t: &MemblockType<T, N>,
    address: T,
    r: Option<usize>,
)
    requires
        t.wf(),
        call_ensures(MemblockType::<T, N>::search, (t, address), r),
    ensures
        r is Some <==> terms::held(t.list(), address.addr() as int),
        r matches Some(i) ==> i < t.list().len() && terms::in_region(
            t.list()[i as int],
            address.addr() as int,
        ),
{
    terms::lemma_terms(*t);
    t.lemma_wf();
    if let Some(i) = r {
        assert(layout::valid(t.list()[i as int]));
        assert(terms::in_region(t.list()[i as int], address.addr() as int));
    }
}

/// What [`MemblockType::overlaps_region`] returns.
pub proof fn law_of_overlaps_region<T: PhysAddr, const N: usize>(
    t: &MemblockType<T, N>,
    base: T,
    size: T,
    r: bool,
)
    requires
        t.wf(),
        call_ensures(MemblockType::<T, N>::overlaps_region, (t, base, size), r),
    ensures
        r <==> exists|a: int|
            base.addr() <= a < terms::end_of_range(base, size) && #[trigger] terms::held(
                t.list(),
                a,
            ),
{
    terms::lemma_terms(*t);
    if r {
        let a = choose|a: int|
            base.addr() <= a < addr::range_end(base, size) && #[trigger] t@.contains_key(a);
        assert(terms::held(t.list(), a));
    }
    if exists|a: int|
        base.addr() <= a < terms::end_of_range(base, size) && #[trigger] terms::held(
            t.list(),
            a,
        ) {
        let a = choose|a: int|
            base.addr() <= a < terms::end_of_range(base, size) && #[trigger] terms::held(
                t.list(),
                a,
            );
        assert(t@.contains_key(a));
    }
}

/// What the queries on single addresses and on sizes return.
pub proof fn law_of_address_queries<T: PhysAddr, const N: usize>(
    mb: &Memblock<T, N>,
    address: T,
    b: bool,
    size: T,
)
    requires
        mb.wf(),
    ensures
        call_ensures(Memblock::<T, N>::is_memory, (mb, address), b) ==> b == terms::held(
            mb.memory().list(),
            address.addr() as int,
        ),
        call_ensures(Memblock::<T, N>::is_reserved, (mb, address), b) ==> b == terms::held(
            mb.reserved().list(),
            address.addr() as int,
        ),
        call_ensures(Memblock::<T, N>::region_size, (mb, address), size) ==> {
            &&& !terms::held(mb.memory().list(), address.addr() as int) ==> size.addr() == 0
            &&& forall|i: int|
                0 <= i < mb.memory().list().len() && terms::in_region(
                    #[trigger] mb.memory().list()[i],
                    address.addr() as int,
                ) ==> size == mb.memory().list()[i].size()
        },
        call_ensures(Memblock::<T, N>::phys_mem_size, (mb,), size) ==> size.addr() == all_held(
            mb.memory().list(),
        ).len(),
        call_ensures(Memblock::<T, N>::reserved_size, (mb,), size) ==> size.addr() == all_held(
            mb.reserved().list(),
        ).len(),
{
    let s = mb.memory().list();
    let a = address.addr() as int;
    terms::lemma_terms(*mb.memory());
    terms::lemma_terms(*mb.reserved());
    lemma_total(*mb.memory());
    lemma_total(*mb.reserved());
    mb.memory().lemma_wf();
    if call_ensures(Memblock::<T, N>::region_size, (mb, address), size) {
        assert forall|i: int| 0 <= i < s.len() && terms::in_region(#[trigger] s[i], a) implies size
            == s[i].size() by {
            assert(layout::valid(s[i]));
            layout::lemma_holds(s, i, a);
        }
    }
}

/// What the queries on the bounds of `memory` return.
pub proof fn law_of_memory_bounds<T: PhysAddr, const N: usize>(
    mb: &Memblock<T, N>,
    r: Option<T>,
)
    requires
        mb.wf(),
    ensures
        call_ensures(Memblock::<T, N>::memory_base, (mb,), r) ==> {
            &&& r is None <==> mb.memory().list().len() == 0
            &&& r matches Some(p) ==> terms::held(mb.memory().list(), p.addr() as int)
                && forall|a: int| #[trigger]
                terms::held(mb.memory().list(), a) ==> p.addr() <= a
        },
        call_ensures(Memblock::<T, N>::memory_end, (mb,), r) ==> {
            &&& r is None <==> mb.memory().list().len() == 0
            &&& r matches Some(p) ==> terms::held(mb.memory().list(), p.addr() - 1)
                && forall|a: int| #[trigger] terms::held(mb.memory().list(), a) ==> a < p.addr()
        },
{
    let s = mb.memory().list();
    terms::lemma_terms(*mb.memory());
    mb.memory().lemma_wf();
    if s.len() > 0 {
        let first = s[0];
        let last = s[s.len() - 1];
        assert(layout::valid(first) && layout::valid(last));
        assert(terms::in_region(first, first.base().addr() as int));
        assert(terms::in_region(last, last.base().addr() + last.size().addr() - 1));
        crate::free::lemma_end_of(last);
        assert forall|a: int| #[trigger] terms::held(s, a) implies first.base().addr() <= a
            < last.base().addr() + last.size().addr() by {
            let i = choose|i: int| 0 <= i < s.len() && terms::in_region(#[trigger] s[i], a);
            assert(0 < i ==> s[0].base().addr() + s[0].size().addr() <= s[i].base().addr());
            assert(i < s.len() - 1 ==> s[i].base().addr() + s[i].size().addr()
                <= last.base().addr());
        }
    }
}

/// What the queries on ranges return.
pub proof fn law_of_range_queries<T: PhysAddr, const N: usize>(
    mb: &Memblock<T, N>,
    base: T,
    size: T,
    r: bool,
)
    requires
        mb.wf(),
    ensures
        call_ensures(Memblock::<T, N>::is_region_memory, (mb, base, size), r) ==> (r
            <==> exists|i: int|
            0 <= i < mb.memory().list().len() && terms::in_region(
                #[trigger] mb.memory().list()[i],
                base.addr() as int,
            ) && terms::end_of_range(base, size) <= mb.memory().list()[i].base().addr()
                + mb.memory().list()[i].size().addr()),
        call_ensures(Memblock::<T, N>::is_region_reserved, (mb, base, size), r) ==> (r
            <==> exists|a: int|
            base.addr() <= a < terms::end_of_range(base, size) && #[trigger] terms::held(
                mb.reserved().list(),
                a,
            )),
{
    let s = mb.memory().list();
    let t = mb.reserved();
    terms::lemma_terms(*mb.memory());
    terms::lemma_terms(*t);
    mb.memory().lemma_wf();
    assert forall|i: int| 0 <= i < s.len() implies #[trigger] s[i].hi() == s[i].base().addr()
        + s[i].size().addr() by {
        assert(layout::valid(s[i]));
    }
    if call_ensures(Memblock::<T, N>::is_region_memory, (mb, base, size), r) {
        if r {
            let i = choose|i: int|
                0 <= i < s.len() && layout::holds(#[trigger] s[i], base.addr() as int)
                    && addr::range_end(base, size) <= s[i].hi();
            assert(terms::in_region(s[i], base.addr() as int));
        }
        if exists|i: int|
            0 <= i < s.len() && terms::in_region(#[trigger] s[i], base.addr() as int)
                && terms::end_of_range(base, size) <= s[i].base().addr() + s[i].size().addr() {
            let i = choose|i: int|
                0 <= i < s.len() && terms::in_region(#[trigger] s[i], base.addr() as int)
                    && terms::end_of_range(base, size) <= s[i].base().addr() + s[i].size().addr();
            assert(s[i].hi() == s[i].base().addr() + s[i].size().addr());
            assert(layout::holds(s[i], base.addr() as int));
        }
    }
    if call_ensures(Memblock::<T, N>::is_region_reserved, (mb, base, size), r) {
        if r {
            let a = choose|a: int|
                base.addr() <= a < addr::range_end(base, size) && #[trigger] t@.contains_key(a);
            assert(terms::held(t.list(), a));
        }
        if exists|a: int|
            base.addr() <= a < terms::end_of_range(base, size) && #[trigger] terms::held(
                t.list(),
                a,
            ) {
            let a = choose|a: int|
                base.addr() <= a < terms::end_of_range(base, size) && #[trigger] terms::held(
                    t.list(),
                    a,
                );
            assert(t@.contains_key(a));
        }
    }
}

/// A new allocator has no regions, allocates top-down and has no limit.
pub proof fn law_of_new<T: PhysAddr, const N: usize>(mb: Memblock<T, N>)
    requires
        call_ensures(Memblock::<T, N>::new, (), mb) || call_ensures(
            <Memblock<T, N> as Default>::default,
            (),
            mb,
        ),
    ensures
        mb.wf(),
        mb.memory().list().len() == 0,
        mb.reserved().list().len() == 0,
        !mb.bottom_up(),
        mb.current_limit().addr() == T::MAX.addr(),
{
}

/// What the policy functions do.
pub proof fn law_of_policy<T: PhysAddr, const N: usize>(
    mb: &mut Memblock<T, N>,
    b: bool,
    limit: T,
    u: (),
)
    requires
        old(mb).wf(),
    ensures
        call_ensures(Memblock::<T, N>::set_bottom_up, (mb, b), u) ==> {
            &&& final(mb).wf()
            &&& final(mb).bottom_up() == b
            &&& final(mb).current_limit() == old(mb).current_limit()
            &&& final(mb).memory().list() == old(mb).memory().list()
            &&& final(mb).reserved().list() == old(mb).reserved().list()
        },
        call_ensures(Memblock::<T, N>::set_current_limit, (mb, limit), u) ==> {
            &&& final(mb).wf()
            &&& final(mb).bottom_up() == old(mb).bottom_up()
            &&& final(mb).current_limit() == limit
            &&& final(mb).memory().list() == old(mb).memory().list()
            &&& final(mb).reserved().list() == old(mb).reserved().list()
        },
{
}

/// What the getters return.
pub proof fn law_of_getters<T: PhysAddr, const N: usize>(
    mb: &Memblock<T, N>,
    b: bool,
    limit: T,
    t: &MemblockType<T, N>,
)
    ensures
        call_ensures(Memblock::<T, N>::bottom_up, (mb,), b) ==> b == mb.bottom_up(),
        call_ensures(Memblock::<T, N>::current_limit, (mb,), limit) ==> limit
            == mb.current_limit(),
        call_ensures(Memblock::<T, N>::memory, (mb,), t) ==> t == mb.memory(),
        call_ensures(Memblock::<T, N>::reserved, (mb,), t) ==> t == mb.reserved(),
{
}

/// Collections are equal exactly if they hold the same regions, and allocators
/// if their collections and their policies are.
pub proof fn law_of_equality<T: PhysAddr, const N: usize>(
    t: &MemblockType<T, N>,
    u: &MemblockType<T, N>,
    mb: &Memblock<T, N>,
    other: &Memblock<T, N>,
    r: bool,
)
    requires
        t.wf(),
        u.wf(),
        mb.wf(),
        other.wf(),
    ensures
        call_ensures(<MemblockType<T, N> as PartialEq>::eq, (t, u), r) ==> (r <==> t.list()
            == u.list()),
        call_ensures(<Memblock<T, N> as PartialEq>::eq, (mb, other), r) ==> (r <==> {
            &&& mb.memory().list() == other.memory().list()
            &&& mb.reserved().list() == other.reserved().list()
            &&& mb.bottom_up() == other.bottom_up()
            &&& mb.current_limit() == other.current_limit()
        }),
{
    t.lemma_equality(*u);
    mb.memory().lemma_equality(*other.memory());
    mb.reserved().lemma_equality(*other.reserved());
}

/// A clone is the same.
pub proof fn law_of_clone<T: PhysAddr, const N: usize>(
    t: &MemblockType<T, N>,
    u: MemblockType<T, N>,
    mb: &Memblock<T, N>,
    other: Memblock<T, N>,
)
    ensures
        call_ensures(<MemblockType<T, N> as Clone>::clone, (t,), u) ==> u == *t,
        call_ensures(<Memblock<T, N> as Clone>::clone, (mb,), other) ==> other == *mb,
{
}

/// The region holds the whole pages from `x` to `y`, at least one, and no
/// others: `x` is the first that starts in it, and `y` the first that does not
/// end in it.
pub open spec fn whole_pages_of<T: PhysAddr>(
    m: MemblockRegion<T>,
    page_size: int,
    x: int,
    y: int,
) -> bool {
    &&& 0 <= x < y
    &&& (x - 1) * page_size < m.base().addr() <= x * page_size
    &&& y * page_size <= m.base().addr() + m.size().addr() < (y + 1) * page_size
}

/// The list holds the whole pages of each region that has any, in ascending
/// order, and nothing else.
pub open spec fn lists_page_ranges<T: PhysAddr>(
    ranges: Seq<(T, T)>,
    mem: Seq<MemblockRegion<T>>,
    page_size: int,
) -> bool {
    &&& forall|i: int|
        0 <= i < ranges.len() ==> exists|k: int|
            0 <= k < mem.len() && whole_pages_of(
                #[trigger] mem[k],
                page_size,
                (#[trigger] ranges[i]).0.addr() as int,
                ranges[i].1.addr() as int,
            )
    &&& forall|k: int, x: int, y: int|
        0 <= k < mem.len() && #[trigger] whole_pages_of(mem[k], page_size, x, y) ==> exists|i: int|
            0 <= i < ranges.len() && (#[trigger] ranges[i]).0.addr() == x && ranges[i].1.addr()
                == y
    &&& forall|i: int, j: int|
        0 <= i < j < ranges.len() ==> (#[trigger] ranges[i]).1.addr() <= (
        #[trigger] ranges[j]).0.addr()
}

proof fn lemma_page_source<T: PhysAddr>(
    s: Seq<MemblockRegion<T>>,
    page_size: T,
    from: int,
    i: int,
) -> (k: int)
    requires
        0 <= i < pfn::page_ranges(s, page_size, from, s.len() as int).len(),
    ensures
        from <= k < s.len(),
        pfn::page_ranges(s, page_size, from, s.len() as int)[i] == pfn::pages_of(
            s[k],
            page_size,
        ),
        pfn::pages_of(s[k], page_size).0.addr() < pfn::pages_of(s[k], page_size).1.addr(),
    decreases s.len() - from,
{
    let first = pfn::whole_pages(s[from], page_size);
    if i < first.len() {
        from
    } else {
        lemma_page_source(s, page_size, from + 1, i - first.len())
    }
}

proof fn lemma_pages_listed<T: PhysAddr>(
    s: Seq<MemblockRegion<T>>,
    page_size: T,
    from: int,
    k: int,
) -> (i: int)
    requires
        from <= k < s.len(),
        pfn::pages_of(s[k], page_size).0.addr() < pfn::pages_of(s[k], page_size).1.addr(),
    ensures
        0 <= i < pfn::page_ranges(s, page_size, from, s.len() as int).len(),
        pfn::page_ranges(s, page_size, from, s.len() as int)[i] == pfn::pages_of(
            s[k],
            page_size,
        ),
    decreases s.len() - from,
{
    if k == from {
        0
    } else {
        pfn::whole_pages(s[from], page_size).len() + lemma_pages_listed(
            s,
            page_size,
            from + 1,
            k,
        )
    }
}

proof fn lemma_whole_pages<T: PhysAddr>(m: MemblockRegion<T>, page_size: T, x: int, y: int)
    requires
        layout::valid(m),
        page_size.addr() != 0,
    ensures
        whole_pages_of(m, page_size.addr() as int, x, y) <==> x < y && pfn::pages_of(
            m,
            page_size,
        ).0.addr() == x && pfn::pages_of(m, page_size).1.addr() == y,
{
    let d = page_size.addr() as int;
    let lo = m.base().addr() as int;
    let hi = (m.base().addr() + m.size().addr()) as int;
    let first = (lo + d - 1) / d;
    let last = hi / d;
    laws::lemma_pages_of(m, page_size);
    laws::lemma_quotient(lo + d - 1, d);
    laws::lemma_quotient(hi, d);
    assert((x - 1) * d < lo <= x * d <==> x == first) by (nonlinear_arith)
        requires
            first * d <= lo + d - 1 < first * d + d,
            d >= 1,
    ;
    assert(y * d <= hi < (y + 1) * d <==> y == last) by (nonlinear_arith)
        requires
            last * d <= hi < last * d + d,
            d >= 1,
    ;
}

/// What [`Memblock::mem_pfn_ranges`] has to yield.
pub proof fn law_of_mem_pfn_ranges<T: PhysAddr, const N: usize>(
    mb: &Memblock<T, N>,
    page_size: T,
    it: pfn::Iter<'_, T, N>,
)
    requires
        mb.wf(),
        page_size.addr() != 0,
        call_ensures(Memblock::<T, N>::mem_pfn_ranges, (mb, page_size), it),
    ensures
        lists_page_ranges(it.left(), mb.memory().list(), page_size.addr() as int),
{
    let s = mb.memory().list();
    let ranges = it.left();
    let d = page_size.addr() as int;
    mb.memory().lemma_wf();
    laws::law_page_ranges_ascend(*mb, page_size);
    assert forall|i: int| 0 <= i < ranges.len() implies exists|k: int|
        0 <= k < s.len() && whole_pages_of(
            #[trigger] s[k],
            d,
            (#[trigger] ranges[i]).0.addr() as int,
            ranges[i].1.addr() as int,
        ) by {
        let k = lemma_page_source(s, page_size, 0, i);
        assert(layout::valid(s[k]));
        lemma_whole_pages(s[k], page_size, ranges[i].0.addr() as int, ranges[i].1.addr() as int);
        assert(whole_pages_of(
            s[k],
            d,
            ranges[i].0.addr() as int,
            ranges[i].1.addr() as int,
        ));
    }
    assert forall|k: int, x: int, y: int|
        0 <= k < s.len() && #[trigger] whole_pages_of(s[k], d, x, y) implies exists|i: int|
        0 <= i < ranges.len() && (#[trigger] ranges[i]).0.addr() == x && ranges[i].1.addr()
            == y by {
        assert(layout::valid(s[k]));
        lemma_whole_pages(s[k], page_size, x, y);
        let i = lemma_pages_listed(s, page_size, 0, k);
        assert(ranges[i].0.addr() == x);
    }
}

/// The page iterator yields what is left, from the front and from the back,
/// until nothing is left.
pub proof fn law_of_page_iteration<T: PhysAddr, const N: usize>(
    it: &mut pfn::Iter<'_, T, N>,
    r: Option<(T, T)>,
)
    ensures
        call_ensures(<pfn::Iter<'_, T, N> as Iterator>::next, (it,), r) ==> {
            if old(it).left().len() == 0 {
                r is None && final(it).left().len() == 0
            } else {
                r == Some(old(it).left()[0]) && old(it).left() == seq![r->0] + final(it).left()
            }
        },
        call_ensures(<pfn::Iter<'_, T, N> as DoubleEndedIterator>::next_back, (it,), r) ==> {
            if old(it).left().len() == 0 {
                r is None && final(it).left().len() == 0
            } else {
                r == Some(old(it).left()[old(it).left().len() - 1]) && old(it).left()
                    == final(it).left() + seq![r->0]
            }
        },
{
    if call_ensures(<pfn::Iter<'_, T, N> as Iterator>::next, (it,), r) {
        if old(it).left().len() > 0 {
            assert(old(it).left() =~= seq![r->0] + final(it).left());
        }
    }
    if call_ensures(<pfn::Iter<'_, T, N> as DoubleEndedIterator>::next_back, (it,), r) {
        if old(it).left().len() > 0 {
            assert(old(it).left() =~= final(it).left() + seq![r->0]);
        }
    }
}

/// The queries take every argument but a page size of zero.
pub proof fn law_of_accepted_queries<T: PhysAddr, const N: usize>(
    t: &MemblockType<T, N>,
    mb: &Memblock<T, N>,
    base: T,
    size: T,
)
    requires
        t.wf(),
        mb.wf(),
    ensures
        call_requires(MemblockType::<T, N>::count, (t,)),
        call_requires(MemblockType::<T, N>::is_empty, (t,)),
        call_requires(MemblockType::<T, N>::capacity, (t,)),
        call_requires(MemblockType::<T, N>::regions, (t,)),
        call_requires(MemblockType::<T, N>::total_size, (t,)),
        call_requires(MemblockType::<T, N>::search, (t, base)),
        call_requires(MemblockType::<T, N>::overlaps_region, (t, base, size)),
        call_requires(Memblock::<T, N>::is_memory, (mb, base)),
        call_requires(Memblock::<T, N>::is_reserved, (mb, base)),
        call_requires(Memblock::<T, N>::region_size, (mb, base)),
        call_requires(Memblock::<T, N>::is_region_memory, (mb, base, size)),
        call_requires(Memblock::<T, N>::is_region_reserved, (mb, base, size)),
        call_requires(Memblock::<T, N>::memory_base, (mb,)),
        call_requires(Memblock::<T, N>::memory_end, (mb,)),
        call_requires(Memblock::<T, N>::phys_mem_size, (mb,)),
        call_requires(Memblock::<T, N>::reserved_size, (mb,)),
        size.addr() != 0 ==> call_requires(Memblock::<T, N>::mem_pfn_ranges, (mb, size)),
{
}

} // verus!

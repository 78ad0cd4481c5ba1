//! What the calls that look for free memory, and that allocate it, do.
use crate::addr;
use crate::addr::PhysAddr;
use crate::error::Error;
use crate::flags::MemblockFlags;
use crate::free;
use crate::iter::range;
use crate::laws;
use crate::laws::changes;
use crate::laws::terms;
use crate::layout;
use crate::memblock::Memblock;
use crate::region::MemblockRegion;
use vstd::arithmetic::power2::*;
use vstd::prelude::*;

verus! {

broadcast use {addr::group_addresses, MemblockFlags::lemma_of_bits};

/// A request with the bits `wanted` admits memory whose flags have the bits
/// `f`; without a request all memory is admitted.
///
/// `NOMAP` and `DRIVER_MANAGED` memory is admitted if asked for, whatever else
/// is. `MIRROR` and `KHO_SCRATCH` memory is admitted if asked for, and then no
/// other is. The other attributes do not matter.
pub open spec fn admits(f: u8, wanted: Option<u8>) -> bool {
    match wanted {
        None => true,
        Some(w) => {
            &&& f & 0x4 == 0 || w & 0x4 != 0
            &&& f & 0x8 == 0 || w & 0x8 != 0
            &&& f & 0x2 == w & 0x2
            &&& f & 0x40 == w & 0x40
        },
    }
}

/// The bits that a request asks for.
pub open spec fn wanted_bits(filter: Option<MemblockFlags>) -> Option<u8> {
    match filter {
        None => None,
        Some(flags) => Some(flags@),
    }
}

/// Which flags a filter leaves out depends on four attributes alone, each by
/// itself; without a filter nothing is left out.
pub proof fn law_filter_by_bits(f: MemblockFlags, filter: Option<MemblockFlags>)
    ensures
        free::considered(f, filter) <==> admits(f@, wanted_bits(filter)),
{
    if let Some(w) = filter {
        let a = f@;
        let b = w@;
        assert((a & 0x4 == 0x4) <==> (a & 0x4 != 0)) by (bit_vector);
        assert((b & 0x4 == 0x4) <==> (b & 0x4 != 0)) by (bit_vector);
        assert((a & 0x8 == 0x8) <==> (a & 0x8 != 0)) by (bit_vector);
        assert((b & 0x8 == 0x8) <==> (b & 0x8 != 0)) by (bit_vector);
        assert(((a & 0x2 == 0x2) == (b & 0x2 == 0x2)) <==> (a & 0x2 == b & 0x2)) by (bit_vector);
        assert(((a & 0x40 == 0x40) == (b & 0x40 == 0x40)) <==> (a & 0x40 == b & 0x40))
            by (bit_vector);
    }
}

/// Asking for one more attribute that is left out by default leaves out no
/// memory that was considered before.
pub proof fn law_asking_for_more_admits_more(f: MemblockFlags, w: MemblockFlags, more: u8)
    requires
        more == 0x4 || more == 0x8,
        free::considered(f, Some(w)),
    ensures
        free::considered(f, Some(MemblockFlags::of_bits(w@ | more))),
{
    law_filter_by_bits(f, Some(w));
    law_filter_by_bits(f, Some(MemblockFlags::of_bits(w@ | more)));
    let a = f@;
    let b = w@;
    assert({
        &&& b & 0x4 != 0 ==> (b | more) & 0x4 != 0
        &&& b & 0x8 != 0 ==> (b | more) & 0x8 != 0
        &&& (b | more) & 0x2 == b & 0x2
        &&& (b | more) & 0x40 == b & 0x40
    }) by (bit_vector)
        requires
            more == 0x4 || more == 0x8,
    ;
}

/// The `n` bytes at `b` lie in one region of `memory` that the request admits,
/// and none of them is reserved.
pub open spec fn block_is_free<T: PhysAddr, const N: usize>(
    mb: Memblock<T, N>,
    wanted: Option<u8>,
    b: int,
    n: int,
) -> bool {
    &&& exists|k: int|
        0 <= k < mb.memory().list().len() && admits(
            (#[trigger] mb.memory().list()[k]).flags()@,
            wanted,
        ) && mb.memory().list()[k].base().addr() <= b && b + n
            <= mb.memory().list()[k].base().addr() + mb.memory().list()[k].size().addr()
    &&& forall|a: int| b <= a < b + n ==> !#[trigger] terms::held(mb.reserved().list(), a)
}

/// `[x, y)` is a free part of the region `m` that cannot be made longer.
pub open spec fn longest_free_part<T: PhysAddr>(
    m: MemblockRegion<T>,
    res: Seq<MemblockRegion<T>>,
    x: int,
    y: int,
) -> bool {
    let lo = m.base().addr() as int;
    let hi = m.base().addr() + m.size().addr();
    &&& lo <= x < y <= hi
    &&& forall|a: int| x <= a < y ==> !#[trigger] terms::held(res, a)
    &&& x == lo || terms::held(res, x - 1)
    &&& y == hi || terms::held(res, y)
}

/// `[x, y)` is a free part of a region of `memory` that the request admits,
/// and cannot be made longer.
pub open spec fn is_free_range<T: PhysAddr>(
    mem: Seq<MemblockRegion<T>>,
    res: Seq<MemblockRegion<T>>,
    wanted: Option<u8>,
    x: int,
    y: int,
) -> bool {
    exists|k: int|
        0 <= k < mem.len() && admits((#[trigger] mem[k]).flags()@, wanted) && longest_free_part(
            mem[k],
            res,
            x,
            y,
        )
}

/// The list holds each longest free part of the admitted regions once, in
/// ascending order, and nothing else.
pub open spec fn lists_free_ranges<T: PhysAddr>(
    ranges: Seq<(T, T)>,
    mem: Seq<MemblockRegion<T>>,
    res: Seq<MemblockRegion<T>>,
    wanted: Option<u8>,
) -> bool {
    &&& forall|i: int|
        0 <= i < ranges.len() ==> is_free_range(
            mem,
            res,
            wanted,
            (#[trigger] ranges[i]).0.addr() as int,
            ranges[i].1.addr() as int,
        )
    &&& forall|x: int, y: int| #[trigger]
        is_free_range(mem, res, wanted, x, y) ==> exists|i: int|
            0 <= i < ranges.len() && (#[trigger] ranges[i]).0.addr() == x && ranges[i].1.addr()
                == y
    &&& forall|i: int, j: int|
        0 <= i < j < ranges.len() ==> (#[trigger] ranges[i]).1.addr() <= (
        #[trigger] ranges[j]).0.addr()
}

proof fn lemma_held_is_covered<T: PhysAddr>(s: Seq<MemblockRegion<T>>, a: int)
    requires
        layout::ordered(s),
    ensures
        terms::held(s, a) <==> layout::covers(s, a),
{
    if terms::held(s, a) {
        let i = choose|i: int| 0 <= i < s.len() && terms::in_region(#[trigger] s[i], a);
        assert(layout::valid(s[i]));
        assert(layout::holds(s[i], a));
    }
    if layout::covers(s, a) {
        let i = layout::index_at(s, a);
        assert(layout::valid(s[i]));
        assert(terms::in_region(s[i], a));
    }
}

proof fn lemma_listed_is_free<T: PhysAddr>(
    mem: Seq<MemblockRegion<T>>,
    res: Seq<MemblockRegion<T>>,
    filter: Option<MemblockFlags>,
    i: int,
)
    requires
        layout::ordered(mem),
        layout::ordered(res),
        0 <= i < free::free_ranges(mem, res, filter).len(),
    ensures
        is_free_range(
            mem,
            res,
            wanted_bits(filter),
            free::free_ranges(mem, res, filter)[i].0.addr() as int,
            free::free_ranges(mem, res, filter)[i].1.addr() as int,
        ),
{
    let ranges = free::free_ranges(mem, res, filter);
    let (k, g) = free::lemma_free_range_source(mem, res, filter, i);
    let x = ranges[i].0.addr() as int;
    let y = ranges[i].1.addr() as int;
    let m = mem[k];
    free::lemma_free_ranges_ascend(mem, res, filter);
    free::lemma_bounds(res, g);
    free::lemma_end_of(m);
    assert(layout::valid(m));
    law_filter_by_bits(m.flags(), filter);
    assert forall|a: int| x <= a < y implies !#[trigger] terms::held(res, a) by {
        assert(free::in_gap(res, g, a));
        free::lemma_region_or_gap(res, a);
        lemma_held_is_covered(res, a);
    }
    if x != m.lo() {
        assert(g > 0);
        assert(layout::valid(res[g - 1]));
        assert(terms::in_region(res[g - 1], x - 1));
    }
    if y != m.hi() {
        assert(g < res.len());
        assert(layout::valid(res[g]));
        assert(terms::in_region(res[g], y));
    }
    assert(longest_free_part(m, res, x, y));
}

proof fn lemma_free_is_listed<T: PhysAddr>(
    mem: Seq<MemblockRegion<T>>,
    res: Seq<MemblockRegion<T>>,
    filter: Option<MemblockFlags>,
    x: int,
    y: int,
) -> (i: int)
    requires
        layout::ordered(mem),
        layout::ordered(res),
        is_free_range(mem, res, wanted_bits(filter), x, y),
    ensures
        0 <= i < free::free_ranges(mem, res, filter).len(),
        free::free_ranges(mem, res, filter)[i].0.addr() == x,
        free::free_ranges(mem, res, filter)[i].1.addr() == y,
{
    let k = choose|k: int|
        0 <= k < mem.len() && admits((#[trigger] mem[k]).flags()@, wanted_bits(filter))
            && longest_free_part(mem[k], res, x, y);
    let m = mem[k];
    assert(layout::valid(m));
    law_filter_by_bits(m.flags(), filter);
    assert forall|a: int| x <= a < y implies !#[trigger] layout::covers(res, a) by {
        assert(!terms::held(res, a));
        lemma_held_is_covered(res, a);
    }
    let g = free::lemma_untouched_range(res, x, y);
    free::lemma_bounds(res, g);
    free::lemma_end_of(m);
    if x != m.lo() {
        lemma_held_is_covered(res, x - 1);
        free::lemma_region_or_gap(res, x - 1);
        assert(!free::in_gap(res, g, x - 1));
    }
    if y != m.hi() {
        lemma_held_is_covered(res, y);
        free::lemma_region_or_gap(res, y);
        assert(!free::in_gap(res, g, y));
    }
    free::lemma_piece_is_free(mem, res, filter, k, g)
}

/// The free ranges are the longest free parts of the regions that the filter
/// does not leave out.
pub proof fn lemma_free_ranges_listed<T: PhysAddr>(
    mem: Seq<MemblockRegion<T>>,
    res: Seq<MemblockRegion<T>>,
    filter: Option<MemblockFlags>,
)
    requires
        layout::ordered(mem),
        layout::ordered(res),
    ensures
        lists_free_ranges(free::free_ranges(mem, res, filter), mem, res, wanted_bits(filter)),
{
    let ranges = free::free_ranges(mem, res, filter);
    free::lemma_free_ranges_ascend(mem, res, filter);
    assert forall|i: int| 0 <= i < ranges.len() implies is_free_range(
        mem,
        res,
        wanted_bits(filter),
        (#[trigger] ranges[i]).0.addr() as int,
        ranges[i].1.addr() as int,
    ) by {
        lemma_listed_is_free(mem, res, filter, i);
    }
    assert forall|x: int, y: int| #[trigger]
        is_free_range(mem, res, wanted_bits(filter), x, y) implies exists|i: int|
        0 <= i < ranges.len() && (#[trigger] ranges[i]).0.addr() == x && ranges[i].1.addr()
            == y by {
        let i = lemma_free_is_listed(mem, res, filter, x, y);
        assert(ranges[i].0.addr() == x);
    }
}

/// What [`Memblock::free_mem_ranges`] has to yield.
pub proof fn law_of_free_mem_ranges<T: PhysAddr, const N: usize>(
    mb: &Memblock<T, N>,
    flags: MemblockFlags,
    it: range::Iter<'_, T, N>,
)
    requires
        mb.wf(),
        call_ensures(Memblock::<T, N>::free_mem_ranges, (mb, flags), it),
    ensures
        lists_free_ranges(
            it.left(),
            mb.memory().list(),
            mb.reserved().list(),
            Some(flags@),
        ),
{
    mb.memory().lemma_wf();
    mb.reserved().lemma_wf();
    lemma_free_ranges_listed(mb.memory().list(), mb.reserved().list(), Some(flags));
}

/// What [`Memblock::mem_ranges`] has to yield: the regions of `memory` that
/// the request admits, one by one, reserved or not.
pub proof fn law_of_mem_ranges<T: PhysAddr, const N: usize>(
    mb: &Memblock<T, N>,
    flags: MemblockFlags,
    it: range::Iter<'_, T, N>,
)
    requires
        mb.wf(),
        call_ensures(Memblock::<T, N>::mem_ranges, (mb, flags), it),
    ensures
        lists_free_ranges(it.left(), mb.memory().list(), seq![], Some(flags@)),
{
    mb.memory().lemma_wf();
    lemma_free_ranges_listed(mb.memory().list(), seq![], Some(flags));
}

/// The range iterator yields what is left, from the front and from the back,
/// until nothing is left.
pub proof fn law_of_range_iteration<T: PhysAddr, const N: usize>(
    it: &mut range::Iter<'_, T, N>,
    r: Option<(T, T)>,
)
    ensures
        call_ensures(<range::Iter<'_, T, N> as Iterator>::next, (it,), r) ==> {
            if old(it).left().len() == 0 {
                r is None && final(it).left().len() == 0
            } else {
                r == Some(old(it).left()[0]) && old(it).left() == seq![r->0] + final(it).left()
            }
        },
        call_ensures(<range::Iter<'_, T, N> as DoubleEndedIterator>::next_back, (it,), r) ==> {
            if old(it).left().len() == 0 {
                r is None && final(it).left().len() == 0
            } else {
                r == Some(old(it).left()[old(it).left().len() - 1]) && old(it).left()
                    == final(it).left() + seq![r->0]
            }
        },
{
    if call_ensures(<range::Iter<'_, T, N> as Iterator>::next, (it,), r) {
        if old(it).left().len() > 0 {
            assert(old(it).left() =~= seq![r->0] + final(it).left());
        }
    }
    if call_ensures(<range::Iter<'_, T, N> as DoubleEndedIterator>::next_back, (it,), r) {
        if old(it).left().len() > 0 {
            assert(old(it).left() =~= final(it).left() + seq![r->0]);
        }
    }
}

/// `x` moved into `[start, end]`.
pub open spec fn moved_into(x: int, start: int, end: int) -> int {
    if end < x || end < start {
        end
    } else if x < start {
        start
    } else {
        x
    }
}

/// A search for `size` bytes aligned to `align` in `[start, end]` may return
/// the block at `b`.
///
/// It has to be aligned. If it has bytes, it has to lie in `[start, end]` and
/// to be free. A block of no bytes has to lie in or next to a free range, as
/// far as that lies in `[start, end]`; upwards it must not lie after it.
pub open spec fn may_return<T: PhysAddr, const N: usize>(
    mb: Memblock<T, N>,
    wanted: Option<u8>,
    size: T,
    align: T,
    start: T,
    end: int,
    b: int,
) -> bool {
    &&& 0 <= b
    &&& b % (align.addr() as int) == 0
    &&& if size.addr() > 0 {
        &&& start.addr() <= b
        &&& b + size.addr() <= end
        &&& block_is_free(mb, wanted, b, size.addr() as int)
    } else {
        exists|x: int, y: int| #[trigger]
            is_free_range(mb.memory().list(), mb.reserved().list(), wanted, x, y) && moved_into(
                x,
                start.addr() as int,
                end,
            ) <= b <= moved_into(y, start.addr() as int, end) && (mb.bottom_up() ==> b
                < moved_into(y, start.addr() as int, end))
    }
}

/// The search returned `r`: the block that comes first in the direction of the
/// search, or `None` if there is none.
pub open spec fn found_first<T: PhysAddr, const N: usize>(
    mb: Memblock<T, N>,
    wanted: Option<u8>,
    size: T,
    align: T,
    start: T,
    end: int,
    r: Option<(T, T)>,
) -> bool {
    match r {
        Some((p, q)) => {
            &&& q.addr() == p.addr() + size.addr()
            &&& may_return(mb, wanted, size, align, start, end, p.addr() as int)
            &&& forall|b: int| #[trigger]
                may_return(mb, wanted, size, align, start, end, b) ==> if mb.bottom_up() {
                    p.addr() <= b
                } else {
                    b <= p.addr()
                }
        },
        None => forall|b: int| !#[trigger] may_return(mb, wanted, size, align, start, end, b),
    }
}

/// A block is free in these terms exactly if it is over the filter.
proof fn lemma_block_is_free<T: PhysAddr, const N: usize>(
    mb: Memblock<T, N>,
    filter: Option<MemblockFlags>,
    b: nat,
    n: nat,
)
    requires
        mb.wf(),
    ensures
        laws::is_free_block(mb, filter, b, n) <==> block_is_free(
            mb,
            wanted_bits(filter),
            b as int,
            n as int,
        ),
{
    let wanted = wanted_bits(filter);
    let mem = mb.memory().list();
    let res = mb.reserved().list();
    mb.memory().lemma_wf();
    terms::lemma_terms(*mb.reserved());
    if laws::is_free_block(mb, filter, b, n) {
        let k = choose|k: int|
            0 <= k < mem.len() && free::considered((#[trigger] mem[k]).flags(), filter)
                && mem[k].lo() <= b && b + n <= mem[k].hi();
        law_filter_by_bits(mem[k].flags(), filter);
        assert(layout::valid(mem[k]));
        assert(admits(mem[k].flags()@, wanted));
        assert(block_is_free(mb, wanted, b as int, n as int));
    }
    if block_is_free(mb, wanted, b as int, n as int) {
        let k = choose|k: int|
            0 <= k < mem.len() && admits((#[trigger] mem[k]).flags()@, wanted)
                && mem[k].base().addr() <= b && b + n <= mem[k].base().addr()
                + mem[k].size().addr();
        law_filter_by_bits(mem[k].flags(), filter);
        assert(layout::valid(mem[k]));
        assert(free::considered(mem[k].flags(), filter));
        assert forall|a: int| b <= a < b + n implies !#[trigger] mb.reserved()@.contains_key(
            a,
        ) by {
            assert(!terms::held(res, a));
        }
        assert(laws::is_free_block(mb, filter, b, n));
    }
}

/// What a search for no bytes may return, in these terms.
proof fn lemma_empty_candidates<T: PhysAddr, const N: usize>(
    mb: Memblock<T, N>,
    filter: Option<MemblockFlags>,
    size: T,
    align: T,
    start: T,
    end: T,
    b: nat,
)
    requires
        mb.wf(),
        size.addr() == 0,
    ensures
        mb.search_for(size, align, start, end).candidate(mb.free_ranges(filter), b)
            <==> may_return(
            mb,
            wanted_bits(filter),
            size,
            align,
            start,
            end.addr() as int,
            b as int,
        ),
{
    let search = mb.search_for(size, align, start, end);
    let ranges = mb.free_ranges(filter);
    let wanted = wanted_bits(filter);
    let mem = mb.memory().list();
    let res = mb.reserved().list();
    let s0 = start.addr() as int;
    let e0 = end.addr() as int;
    mb.memory().lemma_wf();
    mb.reserved().lemma_wf();
    if search.candidate(ranges, b) {
        let i = choose|i: int| 0 <= i < ranges.len() && search.fits(#[trigger] ranges[i], b);
        lemma_listed_is_free(mem, res, filter, i);
        assert(is_free_range(
            mem,
            res,
            wanted,
            ranges[i].0.addr() as int,
            ranges[i].1.addr() as int,
        ));
    }
    if may_return(mb, wanted, size, align, start, e0, b as int) {
        let (x, y) = choose|x: int, y: int| #[trigger]
            is_free_range(mem, res, wanted, x, y) && moved_into(x, s0, e0) <= b <= moved_into(
                y,
                s0,
                e0,
            ) && (mb.bottom_up() ==> b < moved_into(y, s0, e0));
        let i = lemma_free_is_listed(mem, res, filter, x, y);
        assert(search.fits(ranges[i], b));
    }
}

/// What a search may return, in these terms.
proof fn lemma_candidates<T: PhysAddr, const N: usize>(
    mb: Memblock<T, N>,
    filter: Option<MemblockFlags>,
    size: T,
    align: T,
    start: T,
    end: T,
    b: nat,
)
    requires
        mb.wf(),
    ensures
        mb.search_for(size, align, start, end).candidate(mb.free_ranges(filter), b)
            <==> may_return(
            mb,
            wanted_bits(filter),
            size,
            align,
            start,
            end.addr() as int,
            b as int,
        ),
{
    if size.addr() > 0 {
        laws::law_search_considers_every_free_block(mb, filter, size, align, start, end, b);
        lemma_block_is_free(mb, filter, b, size.addr());
    } else {
        lemma_empty_candidates(mb, filter, size, align, start, end, b);
    }
}

proof fn lemma_found<T: PhysAddr, const N: usize>(
    mb: Memblock<T, N>,
    filter: Option<MemblockFlags>,
    size: T,
    align: T,
    start: T,
    end: T,
    r: Option<(T, T)>,
)
    requires
        mb.wf(),
        mb.search_for(size, align, start, end).finds(mb.free_ranges(filter), r),
    ensures
        found_first(mb, wanted_bits(filter), size, align, start, end.addr() as int, r),
{
    let search = mb.search_for(size, align, start, end);
    let ranges = mb.free_ranges(filter);
    let wanted = wanted_bits(filter);
    let e0 = end.addr() as int;
    assert forall|b: int| #[trigger]
        may_return(mb, wanted, size, align, start, e0, b) implies 0 <= b && search.candidate(
        ranges,
        b as nat,
    ) by {
        lemma_candidates(mb, filter, size, align, start, end, b as nat);
    }
    if let Some((p, q)) = r {
        lemma_candidates(mb, filter, size, align, start, end, p.addr());
    }
}

/// What [`Memblock::find_in_range_node`] returns.
pub proof fn law_of_find_in_range_node<T: PhysAddr, const N: usize>(
    mb: &Memblock<T, N>,
    size: T,
    align: T,
    start: T,
    end: T,
    flags: MemblockFlags,
    r: Option<(T, T)>,
)
    requires
        mb.wf(),
        call_ensures(
            Memblock::<T, N>::find_in_range_node,
            (mb, size, align, start, end, flags),
            r,
        ),
    ensures
        found_first(*mb, Some(flags@), size, align, start, end.addr() as int, r),
{
    lemma_found(*mb, Some(flags), size, align, start, end, r);
}

/// What [`Memblock::find_in_range`] returns: no region is left out, whatever
/// its flags.
pub proof fn law_of_find_in_range<T: PhysAddr, const N: usize>(
    mb: &Memblock<T, N>,
    start: T,
    end: T,
    size: T,
    align: T,
    r: Option<(T, T)>,
)
    requires
        mb.wf(),
        call_ensures(Memblock::<T, N>::find_in_range, (mb, start, end, size, align), r),
    ensures
        found_first(*mb, None, size, align, start, end.addr() as int, r),
{
    lemma_found(*mb, None, size, align, start, end, r);
}

/// An unfiltered search looks at exactly the addresses that `memory` holds and
/// `reserved` does not, whatever their flags.
pub proof fn law_unfiltered_ranges_leave_out_nothing<T: PhysAddr, const N: usize>(
    mb: Memblock<T, N>,
    a: int,
)
    requires
        mb.wf(),
    ensures
        free::in_ranges(mb.free_ranges(None), a) <==> terms::held(mb.memory().list(), a)
            && !terms::held(mb.reserved().list(), a),
{
    laws::law_free_ranges_are_memory_less_reserved(mb, None, a);
    terms::lemma_terms(*mb.memory());
    terms::lemma_terms(*mb.reserved());
    if mb.memory()@.contains_key(a) {
        law_filter_by_bits(mb.memory()@[a], None);
    }
}

/// The lesser of two numbers.
pub open spec fn lesser_of(a: int, b: int) -> int {
    if a < b {
        a
    } else {
        b
    }
}

/// An allocation returned `r` and made `after` of `before`.
///
/// No bytes cannot be allocated. Otherwise the block that comes first in the
/// direction of the search, in `[start, end]` and below the limit, is reserved
/// for kernel use and returned. It fails for want of memory exactly if there
/// is no such block, and for want of room exactly if there is one and every
/// slot is used; then nothing changes.
pub open spec fn allocated<T: PhysAddr, const N: usize>(
    before: Memblock<T, N>,
    after: Memblock<T, N>,
    wanted: u8,
    size: T,
    align: T,
    start: T,
    end: int,
    r: Result<T, Error>,
) -> bool {
    let limit = lesser_of(end, before.current_limit().addr() as int);
    let some = exists|b: int| #[trigger]
        may_return(before, Some(wanted), size, align, start, limit, b);
    let s = before.reserved().list();
    let u = after.reserved().list();
    &&& changes::only_reserved_changed(before, after)
    &&& terms::tidy(u)
    &&& u.len() <= N
    &&& r is Ok <==> size.addr() > 0 && some && s.len() < N
    &&& r == Err::<T, Error>(Error::OutOfMemory) <==> size.addr() == 0 || !some
    &&& r == Err::<T, Error>(Error::OverCapacity) <==> size.addr() > 0 && some && s.len() == N
    &&& r is Err ==> u == s
    &&& r matches Ok(p) ==> {
        &&& may_return(before, Some(wanted), size, align, start, limit, p.addr() as int)
        &&& forall|b: int| #[trigger]
            may_return(before, Some(wanted), size, align, start, limit, b) ==> {
                if before.bottom_up() {
                    p.addr() <= b
                } else {
                    b <= p.addr()
                }
            }
        &&& forall|a: int, f: u8| #[trigger]
            terms::held_with(u, a, f) <==> terms::held_with(s, a, f) || (p.addr() <= a
                < p.addr() + size.addr() && f == 0x20)
    }
}

proof fn lemma_allocated<T: PhysAddr, const N: usize>(
    before: Memblock<T, N>,
    after: Memblock<T, N>,
    flags: MemblockFlags,
    size: T,
    align: T,
    start: T,
    end: T,
    r: Result<T, Error>,
)
    requires
        before.wf(),
        before.allocates(size, align, start, end, flags, r, after),
    ensures
        allocated(before, after, flags@, size, align, start, end.addr() as int, r),
{
    let limit = before.limited(end);
    let l = lesser_of(end.addr() as int, before.current_limit().addr() as int);
    let search = before.search_for(size, align, start, limit);
    let ranges = before.free_ranges(Some(flags));
    terms::lemma_terms(*before.reserved());
    terms::lemma_terms(*after.reserved());
    assert(limit.addr() == l);
    assert forall|b: int| #[trigger]
        may_return(before, Some(flags@), size, align, start, l, b) implies 0 <= b
        && search.candidate(ranges, b as nat) by {
        lemma_candidates(before, Some(flags), size, align, start, limit, b as nat);
    }
    assert forall|b: nat| #[trigger] search.candidate(ranges, b) implies may_return(
        before,
        Some(flags@),
        size,
        align,
        start,
        l,
        b as int,
    ) by {
        lemma_candidates(before, Some(flags), size, align, start, limit, b);
    }
    match r {
        Ok(p) => {
            let q = T::at(p.addr() + size.addr());
            assert(search.finds(ranges, Some((p, q))));
            assert(search.candidate(ranges, p.addr()));
            let s = before.reserved().list();
            let u = after.reserved().list();
            assert forall|a: int| p.addr() <= a < p.addr() + size.addr() implies !terms::held(
                s,
                a,
            ) by {
                assert(may_return(
                    before,
                    Some(flags@),
                    size,
                    align,
                    start,
                    l,
                    p.addr() as int,
                ));
            }
            assert forall|a: int, f: u8| #[trigger]
                terms::held_with(u, a, f) <==> terms::held_with(s, a, f) || (p.addr() <= a
                    < p.addr() + size.addr() && f == 0x20) by {
                assert(p.addr() <= a < p.addr() + size.addr() ==> !terms::held(s, a));
            }
        },
        Err(e) => {
            if size.addr() > 0 && !search.finds(ranges, None) {
                let b = choose|b: nat| #[trigger] search.candidate(ranges, b);
                assert(may_return(before, Some(flags@), size, align, start, l, b as int));
            }
        },
    }
}

/// What [`Memblock::phys_alloc_range`] does.
pub proof fn law_of_phys_alloc_range<T: PhysAddr, const N: usize>(
    mb: &mut Memblock<T, N>,
    size: T,
    align: T,
    start: T,
    end: T,
    flags: MemblockFlags,
    r: Result<T, Error>,
)
    requires
        old(mb).wf(),
        call_ensures(
            Memblock::<T, N>::phys_alloc_range,
            (mb, size, align, start, end, flags),
            r,
        ),
    ensures
        final(mb).wf(),
        allocated(
            *old(mb),
            *final(mb),
            flags@,
            size,
            align,
            start,
            end.addr() as int,
            r,
        ),
{
    lemma_allocated(*old(mb), *final(mb), flags, size, align, start, end, r);
}

/// What [`Memblock::phys_alloc`] does: the same, in the whole address space.
pub proof fn law_of_phys_alloc<T: PhysAddr, const N: usize>(
    mb: &mut Memblock<T, N>,
    size: T,
    align: T,
    flags: MemblockFlags,
    r: Result<T, Error>,
)
    requires
        old(mb).wf(),
        call_ensures(Memblock::<T, N>::phys_alloc, (mb, size, align, flags), r),
    ensures
        final(mb).wf(),
        allocated(
            *old(mb),
            *final(mb),
            flags@,
            size,
            align,
            T::ZERO,
            T::MAX.addr() as int,
            r,
        ),
{
    lemma_allocated(*old(mb), *final(mb), flags, size, align, T::ZERO, T::MAX, r);
}

/// Searches take every size, every range and every power of two as alignment;
/// an allocation of no bytes takes any alignment.
pub proof fn law_of_accepted_searches<T: PhysAddr, const N: usize>(
    mb: &Memblock<T, N>,
    m: &mut Memblock<T, N>,
    size: T,
    align: T,
    start: T,
    end: T,
    flags: MemblockFlags,
)
    requires
        mb.wf(),
        old(m).wf(),
        size.addr() == 0 || is_pow2(align.addr() as int),
    ensures
        call_requires(Memblock::<T, N>::free_mem_ranges, (mb, flags)),
        call_requires(Memblock::<T, N>::mem_ranges, (mb, flags)),
        is_pow2(align.addr() as int) ==> call_requires(
            Memblock::<T, N>::find_in_range_node,
            (mb, size, align, start, end, flags),
        ),
        is_pow2(align.addr() as int) ==> call_requires(
            Memblock::<T, N>::find_in_range,
            (mb, start, end, size, align),
        ),
        call_requires(
            Memblock::<T, N>::phys_alloc_range,
            (m, size, align, start, end, flags),
        ),
        call_requires(Memblock::<T, N>::phys_alloc, (m, size, align, flags)),
{
}

} // verus!

//! What holds of the library as a whole.
//!
//! Each proof function states one law over the contracts of the executable
//! functions, for every state that they can leave behind. The modules below
//! state of each function what a call of it does, over the numbers that stand
//! for its arguments and results and the regions by their bases, sizes and
//! bits.
pub mod changes;
pub mod numbers;
pub mod queries;
pub mod search;
pub mod terms;

use crate::addr;
use crate::addr::PhysAddr;
use crate::error::Error;
use crate::flags::MemblockFlags;
use crate::free;
use crate::free::Search;
use crate::iter::pfn;
use crate::layout;
use crate::memblock::Memblock;
use crate::memblock::MemblockType;
use crate::region::MemblockRegion;
use vstd::prelude::*;

verus! {

broadcast use addr::group_addresses;

/// The recorded total size is the number of addresses that are held.
pub proof fn law_total_size_counts_addresses<T: PhysAddr, const N: usize>(t: MemblockType<T, N>)
    requires
        t.wf(),
    ensures
        t@.dom().finite(),
        t@.dom().len() == layout::total(t.list()),
{
    t.lemma_wf();
    layout::lemma_total_counts(t.list());
}

/// The regions are determined by the addresses that they hold and the flags
/// of these: there is one way to write them down.
pub proof fn law_contents_determine_regions<T: PhysAddr, const N: usize>(
    t: MemblockType<T, N>,
    u: MemblockType<T, N>,
)
    requires
        t.wf(),
        u.wf(),
        t@ == u@,
    ensures
        t.list() == u.list(),
{
    t.lemma_equality(u);
}

/// Regions keep sorted by base, do not overlap, and touch only where their
/// flags differ.
pub proof fn law_regions_sorted_disjoint_merged<T: PhysAddr, const N: usize>(
    t: MemblockType<T, N>,
    i: int,
    j: int,
)
    requires
        t.wf(),
        0 <= i < j < t.list().len(),
    ensures
        t.list()[i].lo() < t.list()[i].hi(),
        t.list()[i].hi() <= t.list()[j].lo(),
        t.list()[j].hi() <= T::MAX.addr(),
        j == i + 1 && t.list()[i].hi() == t.list()[j].lo() ==> t.list()[i].flags()
            != t.list()[j].flags(),
{
    t.lemma_wf();
    assert(layout::valid(t.list()[i]));
    assert(layout::valid(t.list()[j]));
    if j == i + 1 {
        assert(!layout::joinable(t.list(), i));
    }
}

/// An address lies in at most one region.
pub proof fn law_one_region_per_address<T: PhysAddr, const N: usize>(
    t: MemblockType<T, N>,
    i: int,
    j: int,
    a: int,
)
    requires
        t.wf(),
        0 <= i < t.list().len(),
        0 <= j < t.list().len(),
        layout::holds(t.list()[i], a),
        layout::holds(t.list()[j], a),
    ensures
        i == j,
        t@.contains_key(a),
        t@[a] == t.list()[i].flags(),
{
    t.lemma_wf();
    layout::lemma_holds(t.list(), i, a);
    layout::lemma_holds(t.list(), j, a);
}

/// The regions fit the array.
pub proof fn law_regions_fit_the_array<T: PhysAddr, const N: usize>(t: MemblockType<T, N>)
    requires
        t.wf(),
    ensures
        t.list().len() <= N,
{
    t.lemma_wf();
}

/// Adding a range leaves what is held untouched and gives its flags to the
/// rest of the range alone.
pub proof fn law_add_fills_gaps_only<T: PhysAddr, const N: usize>(
    t: MemblockType<T, N>,
    base: T,
    size: T,
    flags: MemblockFlags,
    after: MemblockType<T, N>,
    a: int,
)
    requires
        t.wf(),
        t.adds(base, size, flags, Ok(()), after),
    ensures
        t@.contains_key(a) ==> after@.contains_key(a) && after@[a] == t@[a],
        !t@.contains_key(a) ==> {
            &&& after@.contains_key(a) <==> base.addr() <= a < addr::range_end(base, size)
            &&& after@.contains_key(a) ==> after@[a] == flags
        },
{
}

/// Ranges that are added with the same flags give the same regions, whichever
/// is added first.
pub proof fn law_add_order_does_not_matter<T: PhysAddr, const N: usize>(
    t: MemblockType<T, N>,
    base: T,
    size: T,
    base2: T,
    size2: T,
    flags: MemblockFlags,
    first: MemblockType<T, N>,
    first_then_second: MemblockType<T, N>,
    second: MemblockType<T, N>,
    second_then_first: MemblockType<T, N>,
)
    requires
        t.wf(),
        t.adds(base, size, flags, Ok(()), first),
        first.adds(base2, size2, flags, Ok(()), first_then_second),
        t.adds(base2, size2, flags, Ok(()), second),
        second.adds(base, size, flags, Ok(()), second_then_first),
    ensures
        first_then_second.list() == second_then_first.list(),
{
    assert(first_then_second@ =~= second_then_first@);
    first_then_second.lemma_equality(second_then_first);
}

/// Removing a range takes all of it and nothing else, and changes no flags.
pub proof fn law_remove_takes_the_range_only<T: PhysAddr, const N: usize>(
    t: MemblockType<T, N>,
    base: T,
    size: T,
    after: MemblockType<T, N>,
    a: int,
)
    requires
        t.wf(),
        t.removes(base, size, Ok(()), after),
    ensures
        after@.contains_key(a) <==> t@.contains_key(a) && !(base.addr() <= a < addr::range_end(
            base,
            size,
        )),
        after@.contains_key(a) ==> after@[a] == t@[a],
{
}

/// Setting and clearing flags does not change the total size.
pub proof fn law_flags_keep_total_size<T: PhysAddr, const N: usize>(
    t: MemblockType<T, N>,
    base: T,
    size: T,
    flag: MemblockFlags,
    set: bool,
    r: Result<(), Error>,
    after: MemblockType<T, N>,
)
    requires
        t.wf(),
        t.sets_flag(base, size, flag, set, r, after),
    ensures
        layout::total(after.list()) == layout::total(t.list()),
{
    law_total_size_counts_addresses(t);
    law_total_size_counts_addresses(after);
    assert(after@.dom() =~= t@.dom());
}

/// An operation that fails does so for want of room or of memory: the error
/// that stands for a violated invariant is never returned.
pub proof fn law_no_internal_error<T: PhysAddr, const N: usize>(
    t: MemblockType<T, N>,
    mb: Memblock<T, N>,
    base: T,
    size: T,
    align: T,
    end: T,
    flags: MemblockFlags,
    set: bool,
    r: Result<(), Error>,
    after: MemblockType<T, N>,
    p: Result<T, Error>,
    mb_after: Memblock<T, N>,
)
    ensures
        t.adds(base, size, flags, r, after) ==> r != Err::<(), Error>(Error::InternalError),
        t.removes(base, size, r, after) ==> r != Err::<(), Error>(Error::InternalError),
        t.sets_flag(base, size, flags, set, r, after) ==> r != Err::<(), Error>(
            Error::InternalError,
        ),
        mb.allocates(size, align, base, end, flags, p, mb_after) ==> p != Err::<T, Error>(
            Error::InternalError,
        ),
{
}

/// Adding a range whose addresses are all held already succeeds, however full
/// the array is, and changes no region.
pub proof fn law_add_of_held_range_is_noop<T: PhysAddr, const N: usize>(
    t: MemblockType<T, N>,
    base: T,
    size: T,
    flags: MemblockFlags,
    r: Result<(), Error>,
    after: MemblockType<T, N>,
)
    requires
        t.wf(),
        forall|a: int|
            base.addr() <= a < addr::range_end(base, size) ==> #[trigger] t@.contains_key(a),
        t.adds(base, size, flags, r, after),
    ensures
        r is Ok,
        after.list() == t.list(),
{
    let lo = base.addr() as int;
    let hi = addr::range_end(base, size) as int;
    t.lemma_wf();
    assert forall|a: int| lo <= a < hi implies #[trigger] layout::covers(t.list(), a) by {
        assert(t@.contains_key(a));
    }
    layout::lemma_held_range(t.list(), lo, hi, t.list().len() as int + 1);
    assert(layout::added(t@, lo, hi, flags) =~= t@);
    after.lemma_equality(t);
}

/// Adding a range a second time succeeds and changes no region, whatever
/// flags it is added with.
pub proof fn law_add_twice_is_add_once<T: PhysAddr, const N: usize>(
    t: MemblockType<T, N>,
    base: T,
    size: T,
    flags: MemblockFlags,
    once: MemblockType<T, N>,
    flags2: MemblockFlags,
    r: Result<(), Error>,
    twice: MemblockType<T, N>,
)
    requires
        t.wf(),
        t.adds(base, size, flags, Ok(()), once),
        once.adds(base, size, flags2, r, twice),
    ensures
        r is Ok,
        twice.list() == once.list(),
{
    assert forall|a: int|
        base.addr() <= a < addr::range_end(base, size) implies #[trigger] once@.contains_key(
        a,
    ) by {}
    law_add_of_held_range_is_noop(once, base, size, flags2, r, twice);
}

/// Adding a range that does not touch what is held needs a free slot and no
/// more, and the total size grows by that of the range.
pub proof fn law_add_of_absent_range_needs_one_slot<T: PhysAddr, const N: usize>(
    t: MemblockType<T, N>,
    base: T,
    size: T,
    flags: MemblockFlags,
    r: Result<(), Error>,
    after: MemblockType<T, N>,
)
    requires
        t.wf(),
        base.addr() < addr::range_end(base, size),
        forall|a: int|
            base.addr() <= a < addr::range_end(base, size) ==> !#[trigger] t@.contains_key(a),
        t.adds(base, size, flags, r, after),
    ensures
        r is Ok <==> t.list().len() < N,
        r is Ok ==> layout::total(after.list()) == layout::total(t.list()) + addr::range_end(
            base,
            size,
        ) - base.addr(),
{
    let lo = base.addr() as int;
    let hi = addr::range_end(base, size) as int;
    t.lemma_wf();
    assert forall|a: int| lo <= a < hi implies !#[trigger] layout::covers(t.list(), a) by {
        assert(!t@.contains_key(a));
    }
    free::lemma_untouched_pieces(t.list(), lo, hi);
    if r is Ok {
        lemma_total_grows(t, after, lo, hi, flags);
    }
}

/// The total size grows by the length of an absent range that is added.
proof fn lemma_total_grows<T: PhysAddr, const N: usize>(
    t: MemblockType<T, N>,
    after: MemblockType<T, N>,
    lo: int,
    hi: int,
    flags: MemblockFlags,
)
    requires
        t.wf(),
        after.wf(),
        lo <= hi,
        after@ == layout::added(t@, lo, hi, flags),
        forall|a: int| lo <= a < hi ==> !#[trigger] t@.contains_key(a),
    ensures
        layout::total(after.list()) == layout::total(t.list()) + hi - lo,
{
    let block = vstd::set_lib::set_int_range(lo, hi);
    vstd::set_lib::lemma_int_range(lo, hi);
    law_total_size_counts_addresses(t);
    law_total_size_counts_addresses(after);
    assert(after@.dom() =~= t@.dom().union(block));
    assert(t@.dom().disjoint(block)) by {
        assert forall|a: int| t@.dom().contains(a) implies !block.contains(a) by {
            assert(t@.contains_key(a));
        }
    }
    vstd::set_lib::lemma_set_disjoint_lens(t@.dom(), block);
}

/// Removing a range that is not present succeeds, however full the array is,
/// and changes no region.
pub proof fn law_remove_of_absent_range_is_noop<T: PhysAddr, const N: usize>(
    t: MemblockType<T, N>,
    base: T,
    size: T,
    r: Result<(), Error>,
    after: MemblockType<T, N>,
)
    requires
        t.wf(),
        forall|a: int|
            base.addr() <= a < addr::range_end(base, size) ==> !#[trigger] t@.contains_key(a),
        t.removes(base, size, r, after),
    ensures
        r is Ok,
        after.list() == t.list(),
{
    let lo = base.addr() as int;
    let hi = addr::range_end(base, size) as int;
    t.lemma_wf();
    if lo < hi {
        assert forall|a: int| lo <= a < hi implies !#[trigger] layout::contents(
            t.list(),
        ).contains_key(a) by {
            assert(!t@.contains_key(a));
        }
        layout::lemma_untouched_splits(t.list(), lo, hi);
    }
    assert(layout::removed(t@, lo, hi) =~= t@);
    after.lemma_equality(t);
}

/// Adding a range that is not present makes at most one region more.
pub proof fn law_add_of_absent_range_adds_one_region_at_most<T: PhysAddr, const N: usize>(
    t: MemblockType<T, N>,
    base: T,
    size: T,
    flags: MemblockFlags,
    r: Result<(), Error>,
    after: MemblockType<T, N>,
)
    requires
        t.wf(),
        forall|a: int|
            base.addr() <= a < addr::range_end(base, size) ==> !#[trigger] t@.contains_key(a),
        t.adds(base, size, flags, r, after),
    ensures
        after.list().len() <= t.list().len() + 1,
{
    let lo = base.addr() as int;
    let hi = addr::range_end(base, size) as int;
    if r is Ok {
        if lo < hi {
            lemma_regions_and_splits(t, lo, hi, flags, after);
        } else {
            assert(layout::added(t@, lo, hi, flags) =~= t@);
            after.lemma_equality(t);
        }
    }
}

/// Where an absent range was added, there are at most as many regions and
/// splits at its ends as there were regions before, and one more.
proof fn lemma_regions_and_splits<T: PhysAddr, const N: usize>(
    t: MemblockType<T, N>,
    lo: int,
    hi: int,
    flags: MemblockFlags,
    after: MemblockType<T, N>,
)
    requires
        t.wf(),
        after.wf(),
        lo < hi,
        forall|a: int| lo <= a < hi ==> !#[trigger] t@.contains_key(a),
        after@ == layout::added(t@, lo, hi, flags),
    ensures
        after.list().len() + layout::splits_needed(after.list(), lo, hi) <= t.list().len() + 1,
{
    let s = t.list();
    let u = after.list();
    let old_starts = layout::starts(s).insert(lo);
    let new_starts = layout::starts_split(u, lo, hi);
    t.lemma_wf();
    after.lemma_wf();
    layout::lemma_starts_count(s);
    layout::lemma_starts_split_count(u, lo, hi);
    assert forall|p: int| new_starts.contains(p) implies old_starts.contains(p) by {
        layout::lemma_start_or_split(u, p);
        layout::lemma_start_or_split(s, p);
        assert(after@.contains_key(p));
        if p != lo {
            if layout::starts(u).contains(p) {
                if after@.contains_key(p - 1) {
                    layout::lemma_merged_start(u, p);
                }
            } else {
                assert(p == hi && !t@.contains_key(hi - 1));
            }
        }
    }
    vstd::set_lib::lemma_len_subset(new_starts, old_starts);
}

/// Removing what was added to a free part of the address space succeeds, and
/// gives back the regions that were there before.
pub proof fn law_remove_undoes_add<T: PhysAddr, const N: usize>(
    t: MemblockType<T, N>,
    base: T,
    size: T,
    flags: MemblockFlags,
    with: MemblockType<T, N>,
    r: Result<(), Error>,
    after: MemblockType<T, N>,
)
    requires
        t.wf(),
        forall|a: int|
            base.addr() <= a < addr::range_end(base, size) ==> !#[trigger] t@.contains_key(a),
        t.adds(base, size, flags, Ok(()), with),
        with.removes(base, size, r, after),
    ensures
        r is Ok,
        after.list() == t.list(),
{
    let lo = base.addr() as int;
    let hi = addr::range_end(base, size) as int;
    if lo < hi {
        law_add_of_absent_range_needs_one_slot(t, base, size, flags, Ok(()), with);
        lemma_regions_and_splits(t, lo, hi, flags, with);
    }
    assert(layout::removed(layout::added(t@, lo, hi, flags), lo, hi) =~= t@);
    after.lemma_equality(t);
}

/// Setting a flag on a range sets it on what the range holds, changes no
/// other attribute there, and nothing elsewhere.
pub proof fn law_mark_sets_the_flag<T: PhysAddr, const N: usize>(
    t: MemblockType<T, N>,
    base: T,
    size: T,
    flag: MemblockFlags,
    after: MemblockType<T, N>,
    a: int,
)
    requires
        t.wf(),
        t.sets_flag(base, size, flag, true, Ok(()), after),
    ensures
        after@.contains_key(a) <==> t@.contains_key(a),
        t@.contains_key(a) && base.addr() <= a < addr::range_end(base, size) ==> {
            &&& after@[a].contains(flag)
            &&& forall|other: MemblockFlags|
                flag@ & other@ == 0 ==> after@[a].contains(other) == #[trigger] t@[a].contains(
                    other,
                )
        },
        t@.contains_key(a) && !(base.addr() <= a < addr::range_end(base, size)) ==> after@[a]
            == t@[a],
{
    broadcast use MemblockFlags::lemma_of_bits;

    if t@.contains_key(a) && base.addr() <= a < addr::range_end(base, size) {
        let f = t@[a]@;
        let x = flag@;
        assert((f | x) & x == x) by (bit_vector);
        assert forall|other: MemblockFlags| flag@ & other@ == 0 implies after@[a].contains(other)
            == #[trigger] t@[a].contains(other) by {
            let y = other@;
            assert((f | x) & y == f & y) by (bit_vector)
                requires
                    x & y == 0,
            ;
        }
    }
}

/// Clearing a flag on a range clears it on what the range holds, changes no
/// other named attribute there, and nothing elsewhere.
pub proof fn law_clear_clears_the_flag<T: PhysAddr, const N: usize>(
    t: MemblockType<T, N>,
    base: T,
    size: T,
    flag: MemblockFlags,
    after: MemblockType<T, N>,
    a: int,
)
    requires
        t.wf(),
        flag@ & 0x7f != 0,
        t.sets_flag(base, size, flag, false, Ok(()), after),
    ensures
        after@.contains_key(a) <==> t@.contains_key(a),
        t@.contains_key(a) && base.addr() <= a < addr::range_end(base, size) ==> {
            &&& !after@[a].contains(flag)
            &&& forall|other: MemblockFlags|
                flag@ & other@ == 0 && other@ & 0x7f == other@ ==> after@[a].contains(other)
                    == #[trigger] t@[a].contains(other)
        },
        t@.contains_key(a) && !(base.addr() <= a < addr::range_end(base, size)) ==> after@[a]
            == t@[a],
{
    broadcast use MemblockFlags::lemma_of_bits;

    if t@.contains_key(a) && base.addr() <= a < addr::range_end(base, size) {
        let f = t@[a]@;
        let x = flag@;
        assert((f & (!x & 0x7f)) & x != x) by (bit_vector)
            requires
                x & 0x7f != 0,
        ;
        assert forall|other: MemblockFlags|
            flag@ & other@ == 0 && other@ & 0x7f == other@ implies after@[a].contains(other)
            == #[trigger] t@[a].contains(other) by {
            let y = other@;
            assert((f & (!x & 0x7f)) & y == f & y) by (bit_vector)
                requires
                    x & y == 0,
                    y & 0x7f == y,
            ;
        }
    }
}

/// Setting or clearing a flag on a range makes at most as many regions more as
/// are split at its ends.
pub proof fn law_flags_add_regions_only_by_splitting<T: PhysAddr, const N: usize>(
    t: MemblockType<T, N>,
    base: T,
    size: T,
    flag: MemblockFlags,
    set: bool,
    r: Result<(), Error>,
    after: MemblockType<T, N>,
)
    requires
        t.wf(),
        t.sets_flag(base, size, flag, set, r, after),
    ensures
        after.list().len() <= t.list().len() + layout::splits_needed(
            t.list(),
            base.addr() as int,
            addr::range_end(base, size) as int,
        ),
{
    let lo = base.addr() as int;
    let hi = addr::range_end(base, size) as int;
    if r is Ok {
        if lo < hi {
            let s = t.list();
            let u = after.list();
            let old_starts = layout::starts_split(s, lo, hi);
            t.lemma_wf();
            after.lemma_wf();
            layout::lemma_starts_split_count(s, lo, hi);
            layout::lemma_starts_count(u);
            assert forall|p: int| layout::starts(u).contains(p) implies old_starts.contains(p) by {
                layout::lemma_start_or_split(u, p);
                layout::lemma_start_or_split(s, p);
                assert(after@.contains_key(p) && t@.contains_key(p));
                if p != lo && p != hi {
                    if t@.contains_key(p - 1) {
                        layout::lemma_merged_start(u, p);
                    }
                }
            }
            vstd::set_lib::lemma_len_subset(layout::starts(u), old_starts);
        } else {
            assert(after@ =~= t@);
            after.lemma_equality(t);
        }
    }
}

/// Clearing a flag succeeds as long as two slots are free, and gives back the
/// regions that were there before it was set, if none of them in the range had
/// it, nor a bit that names no attribute.
pub proof fn law_clear_undoes_mark<T: PhysAddr, const N: usize>(
    t: MemblockType<T, N>,
    base: T,
    size: T,
    flag: MemblockFlags,
    marked: MemblockType<T, N>,
    r: Result<(), Error>,
    after: MemblockType<T, N>,
)
    requires
        t.wf(),
        forall|a: int|
            base.addr() <= a < addr::range_end(base, size) && #[trigger] t@.contains_key(a)
                ==> t@[a]@ & flag@ == 0 && t@[a]@ & 0x7f == t@[a]@,
        t.sets_flag(base, size, flag, true, Ok(()), marked),
        base.addr() < addr::range_end(base, size) ==> marked.list().len() + 2 <= N,
        marked.sets_flag(base, size, flag, false, r, after),
    ensures
        r is Ok,
        after.list() == t.list(),
{
    broadcast use {MemblockFlags::lemma_of_bits, MemblockFlags::lemma_view};

    let lo = base.addr() as int;
    let hi = addr::range_end(base, size) as int;
    assert forall|a: int| t@.contains_key(a) implies #[trigger] after@[a] == t@[a] by {
        if lo <= a < hi {
            let f = t@[a]@;
            let x = flag@;
            assert((f | x) & (!x & 0x7f) == f) by (bit_vector)
                requires
                    f & x == 0,
                    f & 0x7f == f,
            ;
        }
    }
    assert(after@ =~= t@);
    after.lemma_equality(t);
}

/// The free ranges hold exactly the addresses that belong to `memory` and not
/// to `reserved`, less those whose flags the filter leaves out.
pub proof fn law_free_ranges_are_memory_less_reserved<T: PhysAddr, const N: usize>(
    mb: Memblock<T, N>,
    filter: Option<MemblockFlags>,
    a: int,
)
    requires
        mb.wf(),
    ensures
        free::in_ranges(mb.free_ranges(filter), a) <==> {
            &&& mb.memory()@.contains_key(a)
            &&& free::considered(mb.memory()@[a], filter)
            &&& !mb.reserved()@.contains_key(a)
        },
{
    mb.memory().lemma_wf();
    mb.reserved().lemma_wf();
    free::lemma_free_ranges_hold(mb.memory().list(), mb.reserved().list(), filter, a);
}

/// No free range is empty, and each starts at or after the end of the one
/// before.
pub proof fn law_free_ranges_ascend<T: PhysAddr, const N: usize>(
    mb: Memblock<T, N>,
    filter: Option<MemblockFlags>,
)
    requires
        mb.wf(),
    ensures
        free::ascending(mb.free_ranges(filter)),
{
    mb.memory().lemma_wf();
    mb.reserved().lemma_wf();
    free::lemma_free_ranges_ascend(mb.memory().list(), mb.reserved().list(), filter);
}

/// Where nothing is reserved and the filter leaves nothing out, the free
/// ranges are the regions of `memory`.
pub proof fn law_without_reservations_regions_are_free<T: PhysAddr, const N: usize>(
    mb: Memblock<T, N>,
    filter: Option<MemblockFlags>,
    i: int,
)
    requires
        mb.wf(),
        mb.reserved().list().len() == 0,
        forall|k: int|
            0 <= k < mb.memory().list().len() ==> free::considered(
                (#[trigger] mb.memory().list()[k]).flags(),
                filter,
            ),
    ensures
        mb.free_ranges(filter).len() == mb.memory().list().len(),
        0 <= i < mb.memory().list().len() ==> {
            &&& mb.free_ranges(filter)[i].0 == mb.memory().list()[i].base()
            &&& mb.free_ranges(filter)[i].1.addr() == mb.memory().list()[i].hi()
        },
{
    mb.memory().lemma_wf();
    lemma_rows_without_reservations(
        mb.memory().list(),
        mb.reserved().list(),
        filter,
        0,
        i,
    );
}

proof fn lemma_rows_without_reservations<T: PhysAddr>(
    mem: Seq<MemblockRegion<T>>,
    res: Seq<MemblockRegion<T>>,
    filter: Option<MemblockFlags>,
    m0: int,
    i: int,
)
    requires
        layout::ordered(mem),
        res.len() == 0,
        0 <= m0 <= mem.len(),
        forall|k: int|
            0 <= k < mem.len() ==> free::considered((#[trigger] mem[k]).flags(), filter),
    ensures
        free::grid(mem, res, filter, m0, mem.len() as int, 0, 1).len() == mem.len() - m0,
        m0 <= i < mem.len() ==> {
            let p = free::grid(mem, res, filter, m0, mem.len() as int, 0, 1)[i - m0];
            p.0 == mem[i].base() && p.1.addr() == mem[i].hi()
        },
    decreases mem.len() - m0,
{
    if m0 < mem.len() {
        let m = mem[m0];
        assert(layout::valid(m));
        lemma_rows_without_reservations(mem, res, filter, m0 + 1, i);
        reveal_with_fuel(free::row, 2);
        free::lemma_bounds(res, 0);
        free::lemma_end_of(m);
        assert(free::row(m, res, 0, 1) =~= free::clip(m, res, 0));
        assert(free::clip(m, res, 0).len() == 1);
    }
}

/// The memory ranges hold exactly the addresses that belong to `memory`, less
/// those whose flags the filter leaves out, reserved or not. They ascend, and
/// each is one region.
pub proof fn law_memory_ranges_are_considered_regions<T: PhysAddr, const N: usize>(
    mb: Memblock<T, N>,
    flags: MemblockFlags,
    a: int,
    i: int,
)
    requires
        mb.wf(),
    ensures
        ({
            let ranges = free::free_ranges(mb.memory().list(), seq![], Some(flags));
            &&& free::in_ranges(ranges, a) <==> mb.memory()@.contains_key(a) && free::considered(
                mb.memory()@[a],
                Some(flags),
            )
            &&& free::ascending(ranges)
            &&& 0 <= i < ranges.len() ==> exists|k: int|
                0 <= k < mb.memory().list().len() && ranges[i].0 == (
                #[trigger] mb.memory().list()[k]).base() && ranges[i].1.addr()
                    == mb.memory().list()[k].hi()
        }),
{
    let mem = mb.memory().list();
    let res: Seq<MemblockRegion<T>> = seq![];
    let ranges = free::free_ranges(mem, res, Some(flags));
    mb.memory().lemma_wf();
    free::lemma_free_ranges_hold(mem, res, Some(flags), a);
    free::lemma_free_ranges_ascend(mem, res, Some(flags));
    if 0 <= i < ranges.len() {
        let (k, g) = free::lemma_free_range_source(mem, res, Some(flags), i);
        free::lemma_bounds(res, g);
        free::lemma_end_of(mem[k]);
        assert(layout::valid(mem[k]));
        assert(ranges[i].0 == mem[k].base() && ranges[i].1.addr() == mem[k].hi());
    }
}

/// The `size` bytes at `b` lie in one region of `memory` that the filter
/// considers, and touch no region of `reserved`.
pub open spec fn is_free_block<T: PhysAddr, const N: usize>(
    mb: Memblock<T, N>,
    filter: Option<MemblockFlags>,
    b: nat,
    size: nat,
) -> bool {
    &&& exists|k: int|
        0 <= k < mb.memory().list().len() && free::considered(
            (#[trigger] mb.memory().list()[k]).flags(),
            filter,
        ) && mb.memory().list()[k].lo() <= b && b + size <= mb.memory().list()[k].hi()
    &&& forall|a: int| b <= a < b + size ==> !#[trigger] mb.reserved()@.contains_key(a)
}

/// A search for at least one byte may return exactly the aligned blocks in
/// `[start, end]` that lie in one considered region of `memory` and touch no
/// region of `reserved`.
pub proof fn law_search_considers_every_free_block<T: PhysAddr, const N: usize>(
    mb: Memblock<T, N>,
    filter: Option<MemblockFlags>,
    size: T,
    align: T,
    start: T,
    end: T,
    b: nat,
)
    requires
        mb.wf(),
        size.addr() > 0,
    ensures
        mb.search_for(size, align, start, end).candidate(mb.free_ranges(filter), b) <==> {
            &&& b % align.addr() == 0
            &&& start.addr() <= b
            &&& b + size.addr() <= end.addr()
            &&& is_free_block(mb, filter, b, size.addr())
        },
{
    let search = mb.search_for(size, align, start, end);
    let ranges = mb.free_ranges(filter);
    let mem = mb.memory().list();
    let res = mb.reserved().list();
    let lo = b as int;
    let hi = (b + size.addr()) as int;
    mb.memory().lemma_wf();
    mb.reserved().lemma_wf();
    if search.candidate(ranges, b) {
        search.lemma_candidate(ranges, b);
        let i = choose|i: int|
            0 <= i < ranges.len() && (#[trigger] ranges[i]).0.addr() <= b && b + size.addr()
                <= ranges[i].1.addr();
        let source = free::lemma_free_range_source(mem, res, filter, i);
        let m = mem[source.0];
        free::lemma_end_of(m);
        assert(m.lo() <= lo && hi <= m.hi());
        assert forall|a: int| lo <= a < hi implies !#[trigger] mb.reserved()@.contains_key(a) by {
            assert(free::in_ranges(ranges, a));
            free::lemma_free_ranges_hold(mem, res, filter, a);
        }
    }
    if b % align.addr() == 0 && start.addr() <= b && hi <= end.addr() && is_free_block(
        mb,
        filter,
        b,
        size.addr(),
    ) {
        let k = choose|k: int|
            0 <= k < mem.len() && free::considered((#[trigger] mem[k]).flags(), filter)
                && mem[k].lo() <= lo && hi <= mem[k].hi();
        assert forall|a: int| lo <= a < hi implies !#[trigger] layout::covers(res, a) by {
            assert(!mb.reserved()@.contains_key(a));
        }
        assert(layout::valid(mem[k]));
        let g = free::lemma_untouched_range(res, lo, hi);
        free::lemma_bounds(res, g);
        free::lemma_end_of(mem[k]);
        let i = free::lemma_piece_is_free(mem, res, filter, k, g);
        assert(search.fits(ranges[i], b));
    }
}

/// A search has one outcome.
pub proof fn law_search_is_determined<T: PhysAddr, const N: usize>(
    mb: Memblock<T, N>,
    filter: Option<MemblockFlags>,
    size: T,
    align: T,
    start: T,
    end: T,
    r: Option<(T, T)>,
    s: Option<(T, T)>,
)
    requires
        mb.search_for(size, align, start, end).finds(mb.free_ranges(filter), r),
        mb.search_for(size, align, start, end).finds(mb.free_ranges(filter), s),
    ensures
        r == s,
{
    lemma_finds_one(mb.search_for(size, align, start, end), mb.free_ranges(filter), r, s);
}

proof fn lemma_finds_one<T: PhysAddr>(
    search: Search<T>,
    ranges: Seq<(T, T)>,
    r: Option<(T, T)>,
    s: Option<(T, T)>,
)
    requires
        search.finds(ranges, r),
        search.finds(ranges, s),
    ensures
        r == s,
{
    if let Some((b, e)) = r {
        assert(search.candidate(ranges, b.addr()));
        if let Some((c, f)) = s {
            assert(search.candidate(ranges, c.addr()));
            b.lemma_value();
            c.lemma_value();
            e.lemma_value();
            f.lemma_value();
        }
    } else if let Some((c, f)) = s {
        assert(search.candidate(ranges, c.addr()));
    }
}

/// A block of at least one byte that a search finds can be reserved as long
/// as there is a free slot, and is then no longer free.
pub proof fn law_found_block_can_be_reserved<T: PhysAddr, const N: usize>(
    mb: Memblock<T, N>,
    filter: Option<MemblockFlags>,
    size: T,
    align: T,
    start: T,
    end: T,
    base: T,
    found_end: T,
    r: Result<(), Error>,
    after: MemblockType<T, N>,
    a: int,
)
    requires
        mb.wf(),
        size.addr() > 0,
        mb.search_for(size, align, start, end).finds(
            mb.free_ranges(filter),
            Some((base, found_end)),
        ),
        mb.reserved().adds(base, size, MemblockFlags::NONE(), r, after),
    ensures
        base.addr() + size.addr() == found_end.addr(),
        r is Ok <==> mb.reserved().list().len() < N,
        base.addr() <= a < found_end.addr() ==> !mb.reserved()@.contains_key(a),
        r is Ok && base.addr() <= a < found_end.addr() ==> after@.contains_key(a),
{
    law_search_considers_every_free_block(mb, filter, size, align, start, end, base.addr());
    law_add_of_absent_range_needs_one_slot(
        *mb.reserved(),
        base,
        size,
        MemblockFlags::NONE(),
        r,
        after,
    );
}

/// The greatest limit is none, and every limit holds for an explicit end too.
pub proof fn law_limit_caps_every_end<T: PhysAddr, const N: usize>(mb: Memblock<T, N>, end: T)
    ensures
        mb.current_limit() == T::MAX ==> mb.limited(end) == end,
        mb.limited(end).addr() <= end.addr(),
        mb.limited(end).addr() <= mb.current_limit().addr(),
        mb.limited(end) == end || mb.limited(end) == mb.current_limit(),
{
}

/// An allocated block is aligned, lies in `[start, end]` and below the limit,
/// lies in one considered region of `memory`, and was not reserved. After the
/// allocation all of it is reserved for kernel use, and nothing else has
/// changed.
pub proof fn law_allocation_reserves_a_free_block<T: PhysAddr, const N: usize>(
    mb: Memblock<T, N>,
    size: T,
    align: T,
    start: T,
    end: T,
    flags: MemblockFlags,
    base: T,
    after: Memblock<T, N>,
)
    requires
        mb.wf(),
        mb.allocates(size, align, start, end, flags, Ok(base), after),
    ensures
        base.addr() % align.addr() == 0,
        start.addr() <= base.addr(),
        base.addr() + size.addr() <= end.addr(),
        base.addr() + size.addr() <= mb.current_limit().addr(),
        is_free_block(mb, Some(flags), base.addr(), size.addr()),
        forall|a: int|
            base.addr() <= a < base.addr() + size.addr() ==> #[trigger] after.reserved()@.contains_key(
                a,
            ) && after.reserved()@[a] == MemblockFlags::RSRV_KERN(),
        forall|a: int|
            !(base.addr() <= a < base.addr() + size.addr()) ==> {
                &&& #[trigger] after.reserved()@.contains_key(a) <==> mb.reserved()@.contains_key(a)
                &&& mb.reserved()@.contains_key(a) ==> after.reserved()@[a] == mb.reserved()@[a]
            },
        mb.same_but_reserved(after),
        layout::total(after.reserved().list()) == layout::total(mb.reserved().list())
            + size.addr(),
{
    let limit = mb.limited(end);
    law_search_considers_every_free_block(
        mb,
        Some(flags),
        size,
        align,
        start,
        limit,
        base.addr(),
    );
    let lo = base.addr() as int;
    let hi = (base.addr() + size.addr()) as int;
    assert forall|a: int| lo <= a < hi implies #[trigger] after.reserved()@.contains_key(a)
        && after.reserved()@[a] == MemblockFlags::RSRV_KERN() by {
        assert(!mb.reserved()@.contains_key(a));
    }
    lemma_total_grows(
        *mb.reserved(),
        *after.reserved(),
        lo,
        hi,
        MemblockFlags::RSRV_KERN(),
    );
}

/// Top-down an allocation takes the highest free block, bottom-up the lowest.
pub proof fn law_allocation_follows_the_direction<T: PhysAddr, const N: usize>(
    mb: Memblock<T, N>,
    size: T,
    align: T,
    start: T,
    end: T,
    flags: MemblockFlags,
    base: T,
    after: Memblock<T, N>,
    b: nat,
)
    requires
        mb.wf(),
        mb.allocates(size, align, start, end, flags, Ok(base), after),
        b % align.addr() == 0,
        start.addr() <= b,
        b + size.addr() <= end.addr(),
        b + size.addr() <= mb.current_limit().addr(),
        is_free_block(mb, Some(flags), b, size.addr()),
    ensures
        mb.bottom_up() ==> base.addr() <= b,
        !mb.bottom_up() ==> b <= base.addr(),
{
    law_search_considers_every_free_block(
        mb,
        Some(flags),
        size,
        align,
        start,
        mb.limited(end),
        b,
    );
}

/// An allocation of at least one byte fails for want of memory exactly where
/// no aligned free block lies in `[start, end]` and below the limit.
pub proof fn law_out_of_memory_means_no_free_block<T: PhysAddr, const N: usize>(
    mb: Memblock<T, N>,
    size: T,
    align: T,
    start: T,
    end: T,
    flags: MemblockFlags,
    r: Result<T, Error>,
    after: Memblock<T, N>,
)
    requires
        mb.wf(),
        size.addr() > 0,
        mb.allocates(size, align, start, end, flags, r, after),
    ensures
        r == Err::<T, Error>(Error::OutOfMemory) <==> forall|b: nat|
            !{
                &&& b % align.addr() == 0
                &&& start.addr() <= b
                &&& b + size.addr() <= end.addr()
                &&& b + size.addr() <= mb.current_limit().addr()
                &&& #[trigger] is_free_block(mb, Some(flags), b, size.addr())
            },
{
    let search = mb.search_for(size, align, start, mb.limited(end));
    let ranges = mb.free_ranges(Some(flags));
    assert forall|b: nat| #[trigger]
        search.candidate(ranges, b) <==> {
            &&& b % align.addr() == 0
            &&& start.addr() <= b
            &&& b + size.addr() <= end.addr()
            &&& b + size.addr() <= mb.current_limit().addr()
            &&& is_free_block(mb, Some(flags), b, size.addr())
        } by {
        law_search_considers_every_free_block(
            mb,
            Some(flags),
            size,
            align,
            start,
            mb.limited(end),
            b,
        );
    }
    if r is Ok {
        let base = r->Ok_0;
        assert(search.candidate(ranges, base.addr()));
        assert(is_free_block(mb, Some(flags), base.addr(), size.addr()));
    }
    if r == Err::<T, Error>(Error::OutOfMemory) {
        assert forall|b: nat|
            !{
                &&& b % align.addr() == 0
                &&& start.addr() <= b
                &&& b + size.addr() <= end.addr()
                &&& b + size.addr() <= mb.current_limit().addr()
                &&& #[trigger] is_free_block(mb, Some(flags), b, size.addr())
            } by {
            assert(!search.candidate(ranges, b));
        }
    }
    if r == Err::<T, Error>(Error::OverCapacity) {
        assert(!search.finds(ranges, None));
        let b = choose|b: nat| #[trigger] search.candidate(ranges, b);
        assert(is_free_block(mb, Some(flags), b, size.addr()));
    }
}

/// An allocation has one outcome, so that two functions that allocate by the
/// same rule do the same.
pub proof fn law_allocation_is_determined<T: PhysAddr, const N: usize>(
    mb: Memblock<T, N>,
    size: T,
    align: T,
    start: T,
    end: T,
    flags: MemblockFlags,
    r: Result<T, Error>,
    after: Memblock<T, N>,
    s: Result<T, Error>,
    after2: Memblock<T, N>,
)
    requires
        mb.wf(),
        mb.allocates(size, align, start, end, flags, r, after),
        mb.allocates(size, align, start, end, flags, s, after2),
    ensures
        r == s,
        after.memory() == after2.memory(),
        after.reserved().list() == after2.reserved().list(),
        after.same_policy(after2),
{
    let search = mb.search_for(size, align, start, mb.limited(end));
    let ranges = mb.free_ranges(Some(flags));
    match r {
        Ok(b) => {
            assert(search.candidate(ranges, b.addr()));
            match s {
                Ok(c) => {
                    lemma_finds_one(
                        search,
                        ranges,
                        Some((b, T::at(b.addr() + size.addr()))),
                        Some((c, T::at(c.addr() + size.addr()))),
                    );
                },
                Err(e) => {
                    mb.reserved().lemma_wf();
                },
            }
        },
        Err(e) => {
            if let Ok(c) = s {
                assert(search.candidate(ranges, c.addr()));
            }
        },
    }
    after.reserved().lemma_equality(*after2.reserved());
}

/// Two allocations, one after the other, give blocks that do not overlap.
pub proof fn law_allocations_are_disjoint<T: PhysAddr, const N: usize>(
    mb: Memblock<T, N>,
    size: T,
    align: T,
    start: T,
    end: T,
    flags: MemblockFlags,
    base: T,
    mid: Memblock<T, N>,
    size2: T,
    align2: T,
    start2: T,
    end2: T,
    flags2: MemblockFlags,
    base2: T,
    after: Memblock<T, N>,
)
    requires
        mb.wf(),
        mb.allocates(size, align, start, end, flags, Ok(base), mid),
        mid.allocates(size2, align2, start2, end2, flags2, Ok(base2), after),
    ensures
        base.addr() + size.addr() <= base2.addr() || base2.addr() + size2.addr() <= base.addr(),
{
    law_allocation_reserves_a_free_block(mb, size, align, start, end, flags, base, mid);
    law_allocation_reserves_a_free_block(mid, size2, align2, start2, end2, flags2, base2, after);
    if base2.addr() < base.addr() + size.addr() && base.addr() < base2.addr() + size2.addr() {
        let a = if base.addr() < base2.addr() {
            base2.addr() as int
        } else {
            base.addr() as int
        };
        assert(mid.reserved()@.contains_key(a));
    }
}

/// Freeing an allocated block succeeds, and gives back the regions that were
/// reserved before the allocation.
pub proof fn law_free_undoes_allocation<T: PhysAddr, const N: usize>(
    mb: Memblock<T, N>,
    size: T,
    align: T,
    start: T,
    end: T,
    flags: MemblockFlags,
    base: T,
    mid: Memblock<T, N>,
    r: Result<(), Error>,
    after: MemblockType<T, N>,
)
    requires
        mb.wf(),
        mb.allocates(size, align, start, end, flags, Ok(base), mid),
        mid.reserved().removes(base, size, r, after),
    ensures
        r is Ok,
        after.list() == mb.reserved().list(),
{
    law_allocation_reserves_a_free_block(mb, size, align, start, end, flags, base, mid);
    lemma_regions_and_splits(
        *mb.reserved(),
        base.addr() as int,
        (base.addr() + size.addr()) as int,
        MemblockFlags::RSRV_KERN(),
        *mid.reserved(),
    );
    assert(after@ =~= mb.reserved()@) by {
        assert forall|a: int| after@.contains_key(a) == #[trigger] mb.reserved()@.contains_key(
            a,
        ) by {}
    }
    after.lemma_equality(*mb.reserved());
}

/// A range that counts as one memory region holds memory throughout.
pub proof fn law_region_memory_is_all_memory<T: PhysAddr, const N: usize>(
    mb: Memblock<T, N>,
    base: T,
    size: T,
    i: int,
    a: int,
)
    requires
        mb.wf(),
        0 <= i < mb.memory().list().len(),
        layout::holds(mb.memory().list()[i], base.addr() as int),
        addr::range_end(base, size) <= mb.memory().list()[i].hi(),
        base.addr() <= a < addr::range_end(base, size),
    ensures
        mb.memory()@.contains_key(a),
        mb.memory()@[a] == mb.memory().list()[i].flags(),
{
    mb.memory().lemma_wf();
    layout::lemma_holds(mb.memory().list(), i, a);
}

/// Whether two ranges overlap does not depend on their order.
pub proof fn law_overlap_is_symmetric<T: PhysAddr>(base1: T, size1: T, base2: T, size2: T)
    ensures
        addr::overlap(base1, size1, base2, size2) == addr::overlap(base2, size2, base1, size1),
{
    if addr::overlap(base1, size1, base2, size2) {
        let a = choose|a: int| #[trigger]
            addr::in_range(base1, size1, a) && addr::in_range(base2, size2, a);
        assert(addr::in_range(base2, size2, a));
    }
    if addr::overlap(base2, size2, base1, size1) {
        let a = choose|a: int| #[trigger]
            addr::in_range(base2, size2, a) && addr::in_range(base1, size1, a);
        assert(addr::in_range(base1, size1, a));
    }
}

/// Two ranges overlap exactly if they have an address in common, that is, if
/// neither is empty and each starts before the other one ends.
pub proof fn law_overlap_means_common_address<T: PhysAddr>(
    base1: T,
    size1: T,
    base2: T,
    size2: T,
)
    ensures
        addr::overlap(base1, size1, base2, size2) <==> exists|a: int| #[trigger]
            addr::in_range(base1, size1, a) && addr::in_range(base2, size2, a),
        addr::overlap(base1, size1, base2, size2) <==> {
            &&& base1.addr() < addr::range_end(base1, size1)
            &&& base2.addr() < addr::range_end(base2, size2)
            &&& base1.addr() < addr::range_end(base2, size2)
            &&& base2.addr() < addr::range_end(base1, size1)
        },
{
    assert(addr::in_range(base1, size1, base1.addr() as int) <==> base1.addr()
        < addr::range_end(base1, size1));
    assert(addr::in_range(base1, size1, base2.addr() as int) <==> base1.addr() <= base2.addr()
        < addr::range_end(base1, size1));
}

/// A range of no bytes overlaps no other.
pub proof fn law_empty_range_overlaps_nothing<T: PhysAddr>(base1: T, base2: T, size2: T)
    ensures
        !addr::overlap(base1, T::ZERO, base2, size2),
{
    assert forall|a: int| !#[trigger] addr::in_range(base1, T::ZERO, a) by {}
}

/// Aligning an address gives the nearest multiple of the alignment on either
/// side, and leaves a multiple as it is.
pub proof fn law_alignment_is_nearest_multiple(address: nat, alignment: nat, b: nat)
    requires
        alignment > 0,
        b % alignment == 0,
    ensures
        addr::round_up(address, alignment) % alignment == 0,
        addr::round_down(address, alignment) % alignment == 0,
        addr::round_down(address, alignment) <= address <= addr::round_up(address, alignment),
        address <= b ==> addr::round_up(address, alignment) <= b,
        b <= address ==> b <= addr::round_down(address, alignment),
        addr::round_up(b, alignment) == b,
        addr::round_down(b, alignment) == b,
{
    addr::lemma_nearest_multiple(address, alignment, b);
    addr::lemma_nearest_multiple(b, alignment, b);
}

/// The page that starts at the address of page `pfn` is page `pfn`, counted
/// upwards or downwards.
pub proof fn law_page_number_of_page_start(pfn: nat, page_size: nat)
    requires
        page_size > 0,
    ensures
        (pfn * page_size) / page_size == pfn,
        addr::page_up(pfn * page_size, page_size) == pfn,
{
    vstd::arithmetic::div_mod::lemma_div_multiples_vanish(pfn as int, page_size as int);
    vstd::arithmetic::mul::lemma_mul_is_commutative(pfn as int, page_size as int);
    vstd::arithmetic::div_mod::lemma_fundamental_div_mod_converse(
        pfn * page_size + page_size - 1,
        page_size as int,
        pfn as int,
        page_size - 1,
    );
}

/// Page numbers count whole pages: `pfn_down` that of the page that holds the
/// address, `pfn_up` that of the first page that starts at or after it.
pub proof fn law_page_numbers_enclose_address(address: nat, page_size: nat)
    requires
        page_size > 0,
    ensures
        (address / page_size) * page_size <= address,
        address < (address / page_size + 1) * page_size,
        address <= addr::page_up(address, page_size) * page_size,
        addr::page_up(address, page_size) * page_size < address + page_size,
{
    lemma_quotient(address as int, page_size as int);
    lemma_quotient(address + page_size - 1, page_size as int);
}

proof fn lemma_quotient(x: int, d: int)
    requires
        x >= 0,
        d > 0,
    ensures
        x / d >= 0,
        (x / d) * d <= x < (x / d) * d + d,
        (x / d + 1) * d == (x / d) * d + d,
{
    vstd::arithmetic::div_mod::lemma_fundamental_div_mod(x, d);
    vstd::arithmetic::div_mod::lemma_mod_bound(x, d);
    vstd::arithmetic::div_mod::lemma_div_pos_is_pos(x, d);
    vstd::arithmetic::mul::lemma_mul_is_commutative(x / d, d);
    vstd::arithmetic::mul::lemma_mul_is_distributive_add_other_way(d, x / d, 1);
}

/// The page ranges hold exactly the pages that lie in one region as a whole.
pub proof fn law_page_ranges_hold_whole_pages<T: PhysAddr, const N: usize>(
    mb: Memblock<T, N>,
    page_size: T,
    p: nat,
)
    requires
        mb.wf(),
        page_size.addr() != 0,
    ensures
        free::in_ranges(pfn::page_ranges(
            mb.memory().list(),
            page_size,
            0,
            mb.memory().list().len() as int,
        ), p as int)
            <==> exists|k: int|
            0 <= k < mb.memory().list().len() && holds_page(
                #[trigger] mb.memory().list()[k],
                page_size,
                p,
            ),
{
    mb.memory().lemma_wf();
    lemma_page_ranges(mb.memory().list(), page_size, 0, p);
}

/// No page range is empty, and each starts at or after the end of the one
/// before.
pub proof fn law_page_ranges_ascend<T: PhysAddr, const N: usize>(
    mb: Memblock<T, N>,
    page_size: T,
)
    requires
        mb.wf(),
        page_size.addr() != 0,
    ensures
        free::ascending(pfn::page_ranges(
            mb.memory().list(),
            page_size,
            0,
            mb.memory().list().len() as int,
        )),
{
    mb.memory().lemma_wf();
    lemma_page_ranges_ascend(mb.memory().list(), page_size, 0);
}

proof fn lemma_page_ranges_ascend<T: PhysAddr>(s: Seq<MemblockRegion<T>>, page_size: T, i: int)
    requires
        layout::ordered(s),
        page_size.addr() != 0,
        0 <= i <= s.len(),
    ensures
        free::ascending(pfn::page_ranges(s, page_size, i, s.len() as int)),
        i < s.len() ==> free::ranges_within(
            pfn::page_ranges(s, page_size, i, s.len() as int),
            pfn::pages_of(s[i], page_size).0.addr() as int,
            T::MAX.addr() as int,
        ),
    decreases s.len() - i,
{
    if i < s.len() {
        let d = page_size.addr() as int;
        let pages = pfn::pages_of(s[i], page_size);
        let rest = pfn::page_ranges(s, page_size, i + 1, s.len() as int);
        assert(layout::valid(s[i]));
        lemma_pages_of(s[i], page_size);
        lemma_page_ranges_ascend(s, page_size, i + 1);
        if i + 1 < s.len() {
            let next = s[i + 1];
            assert(layout::valid(next));
            assert(s[i].hi() <= next.lo());
            lemma_pages_of(next, page_size);
            vstd::arithmetic::div_mod::lemma_div_is_ordered(s[i].hi(), next.lo() + d - 1, d);
            vstd::arithmetic::div_mod::lemma_div_is_ordered(s[i].lo() + d - 1, next.lo() + d - 1, d);
        }
        let first = if pages.0.addr() < pages.1.addr() {
            seq![pages]
        } else {
            seq![]
        };
        let lo = pages.0.addr() as int;
        let mid = if i + 1 < s.len() {
            pfn::pages_of(s[i + 1], page_size).0.addr() as int
        } else {
            T::MAX.addr() as int
        };
        free::lemma_ascending_concat(first, rest, lo, mid, T::MAX.addr() as int);
        assert(first + rest =~= pfn::page_ranges(s, page_size, i, s.len() as int));
    }
}

/// Page `p` lies in the region as a whole.
pub open spec fn holds_page<T: PhysAddr>(r: MemblockRegion<T>, page_size: T, p: nat) -> bool {
    r.lo() <= p * page_size.addr() && (p + 1) * page_size.addr() <= r.hi()
}

/// The numbers that the bounds of the page range of a region stand for.
proof fn lemma_pages_of<T: PhysAddr>(r: MemblockRegion<T>, page_size: T)
    requires
        layout::valid(r),
        page_size.addr() != 0,
    ensures
        pfn::pages_of(r, page_size).0.addr() == (r.lo() + page_size.addr() - 1)
            / page_size.addr() as int,
        pfn::pages_of(r, page_size).1.addr() == r.hi() / page_size.addr() as int,
{
    let d = page_size.addr() as int;
    let lo = r.base().addr() as int;
    let hi = addr::range_end(r.base(), r.size()) as int;
    let first = (lo + d - 1) / d;
    let last = hi / d;
    lemma_quotient(lo + d - 1, d);
    lemma_quotient(hi, d);
    assert(first <= T::MAX.addr() && last <= T::MAX.addr()) by {
        vstd::arithmetic::div_mod::lemma_div_is_ordered_by_denominator(hi, 1, d);
        vstd::arithmetic::div_mod::lemma_div_basics(hi);
        assert(first <= lo + 1) by (nonlinear_arith)
            requires
                first * d < lo + d,
                d >= 1,
                lo >= 0,
        ;
    }
    T::lemma_at(first as nat);
    T::lemma_at(last as nat);
}

proof fn lemma_page_in_region<T: PhysAddr>(r: MemblockRegion<T>, page_size: T, p: nat)
    requires
        layout::valid(r),
        page_size.addr() != 0,
    ensures
        pfn::pages_of(r, page_size).0.addr() <= p < pfn::pages_of(r, page_size).1.addr()
            <==> holds_page(r, page_size, p),
{
    let d = page_size.addr() as int;
    let lo = r.lo();
    let hi = r.hi();
    let first = (lo + d - 1) / d;
    let last = hi / d;
    lemma_pages_of(r, page_size);
    lemma_quotient(lo + d - 1, d);
    lemma_quotient(hi, d);
    assert(first <= p <==> lo <= p * d) by (nonlinear_arith)
        requires
            first * d < lo + d,
            lo <= first * d,
            d >= 1,
    ;
    assert(p < last <==> (p + 1) * d <= hi) by (nonlinear_arith)
        requires
            last * d <= hi,
            hi < last * d + d,
            d >= 1,
    ;
}

proof fn lemma_page_ranges<T: PhysAddr>(
    s: Seq<MemblockRegion<T>>,
    page_size: T,
    i: int,
    p: nat,
)
    requires
        layout::ordered(s),
        page_size.addr() != 0,
        0 <= i <= s.len(),
    ensures
        free::in_ranges(pfn::page_ranges(s, page_size, i, s.len() as int), p as int) <==> exists|k: int|
            i <= k < s.len() && holds_page(#[trigger] s[k], page_size, p),
    decreases s.len() - i,
{
    if i < s.len() {
        let rest = pfn::page_ranges(s, page_size, i + 1, s.len() as int);
        let pages = pfn::pages_of(s[i], page_size);
        assert(layout::valid(s[i]));
        lemma_page_in_region(s[i], page_size, p);
        lemma_page_ranges(s, page_size, i + 1, p);
        if pages.0.addr() < pages.1.addr() {
            free::lemma_in_ranges_concat(seq![pages], rest, p as int);
            assert(seq![pages][0] == pages);
        }
        if holds_page(s[i], page_size, p) {
            assert(seq![pages][0].0.addr() <= p < seq![pages][0].1.addr());
        }
    }
}

} // verus!

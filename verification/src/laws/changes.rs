//! What the calls that change regions do.
use crate::addr;
use crate::addr::PhysAddr;
use crate::error::Error;
use crate::flags::MemblockFlags;
use crate::laws::terms;
use crate::layout;
use crate::memblock::Memblock;
use crate::memblock::MemblockType;
use crate::region::MemblockRegion;
use vstd::prelude::*;

verus! {

broadcast use {addr::group_addresses, MemblockFlags::lemma_of_bits};

/// The regions `s` became `u`, in an array of `slots` slots, as the range of
/// `size` bytes at `base` was added with the flags whose bits are `bits`, and
/// `r` was returned.
///
/// The call succeeds exactly if there is a free slot for each run of addresses
/// in the range that are not held. Then these are held with the given flags,
/// and every other address is held as before. Otherwise nothing changes.
pub open spec fn range_added<T: PhysAddr>(
    s: Seq<MemblockRegion<T>>,
    u: Seq<MemblockRegion<T>>,
    slots: int,
    base: T,
    size: T,
    bits: u8,
    r: Result<(), Error>,
) -> bool {
    let lo = base.addr() as int;
    let hi = terms::end_of_range(base, size);
    &&& terms::tidy(u)
    &&& u.len() <= slots
    &&& r is Ok <==> terms::run_starts(s, lo, hi).len() <= slots - s.len()
    &&& r is Err ==> r == Err::<(), Error>(Error::OverCapacity) && u == s
    &&& r is Ok ==> forall|a: int, f: u8| #[trigger]
        terms::held_with(u, a, f) <==> terms::held_with(s, a, f) || (lo <= a < hi && f == bits
            && !terms::held(s, a))
}

/// The regions `s` became `u`, in an array of `slots` slots, as the range of
/// `size` bytes at `base` was removed, and `r` was returned.
///
/// The call succeeds exactly if there is a free slot for each end of the range
/// that lies inside a region, or if the range is empty. Then no address of the
/// range is held, and every other address is held as before. Otherwise nothing
/// changes.
pub open spec fn range_removed<T: PhysAddr>(
    s: Seq<MemblockRegion<T>>,
    u: Seq<MemblockRegion<T>>,
    slots: int,
    base: T,
    size: T,
    r: Result<(), Error>,
) -> bool {
    let lo = base.addr() as int;
    let hi = terms::end_of_range(base, size);
    let at_lo: int = if terms::crossed(s, lo) {
        1
    } else {
        0
    };
    let at_hi: int = if terms::crossed(s, hi) {
        1
    } else {
        0
    };
    &&& terms::tidy(u)
    &&& u.len() <= slots
    &&& r is Ok <==> lo >= hi || s.len() + at_lo + at_hi <= slots
    &&& r is Err ==> r == Err::<(), Error>(Error::OverCapacity) && u == s
    &&& r is Ok ==> forall|a: int, f: u8| #[trigger]
        terms::held_with(u, a, f) <==> terms::held_with(s, a, f) && !(lo <= a < hi)
}

/// The regions `s` became `u`, in an array of `slots` slots, as the bits `bit`
/// were set or cleared on the range of `size` bytes at `base`, and `r` was
/// returned.
///
/// The call succeeds exactly if two slots are free, or if the range is empty.
/// Then the same addresses are held as before, those of the range with the
/// bits set, or with them and the bit that names no attribute cleared, and the
/// others with the same flags. Otherwise nothing changes.
pub open spec fn range_flagged<T: PhysAddr>(
    s: Seq<MemblockRegion<T>>,
    u: Seq<MemblockRegion<T>>,
    slots: int,
    base: T,
    size: T,
    bit: u8,
    set: bool,
    r: Result<(), Error>,
) -> bool {
    let lo = base.addr() as int;
    let hi = terms::end_of_range(base, size);
    &&& terms::tidy(u)
    &&& u.len() <= slots
    &&& r is Ok <==> lo >= hi || s.len() + 2 <= slots
    &&& r is Err ==> r == Err::<(), Error>(Error::OverCapacity) && u == s
    &&& r is Ok ==> forall|a: int| #[trigger] terms::held(u, a) <==> terms::held(s, a)
    &&& r is Ok ==> forall|a: int, f: u8| #[trigger]
        terms::held_with(s, a, f) ==> terms::held_with(
            u,
            a,
            if !(lo <= a < hi) {
                f
            } else if set {
                f | bit
            } else {
                f & !bit & 0x7f
            },
        )
}

/// At most the regions of `memory` differ.
pub open spec fn only_memory_changed<T: PhysAddr, const N: usize>(
    before: Memblock<T, N>,
    after: Memblock<T, N>,
) -> bool {
    &&& after.reserved().list() == before.reserved().list()
    &&& after.bottom_up() == before.bottom_up()
    &&& after.current_limit() == before.current_limit()
}

/// At most the regions of `reserved` differ.
pub open spec fn only_reserved_changed<T: PhysAddr, const N: usize>(
    before: Memblock<T, N>,
    after: Memblock<T, N>,
) -> bool {
    &&& after.memory().list() == before.memory().list()
    &&& after.bottom_up() == before.bottom_up()
    &&& after.current_limit() == before.current_limit()
}

proof fn lemma_added<T: PhysAddr, const N: usize>(
    t: MemblockType<T, N>,
    base: T,
    size: T,
    flags: MemblockFlags,
    r: Result<(), Error>,
    after: MemblockType<T, N>,
)
    requires
        t.wf(),
        t.adds(base, size, flags, r, after),
    ensures
        range_added(t.list(), after.list(), N as int, base, size, flags@, r),
{
    terms::lemma_terms(t);
    terms::lemma_terms(after);
    terms::lemma_runs(t, base.addr() as int, terms::end_of_range(base, size));
}

proof fn lemma_removed<T: PhysAddr, const N: usize>(
    t: MemblockType<T, N>,
    base: T,
    size: T,
    r: Result<(), Error>,
    after: MemblockType<T, N>,
)
    requires
        t.wf(),
        t.removes(base, size, r, after),
    ensures
        range_removed(t.list(), after.list(), N as int, base, size, r),
{
    terms::lemma_terms(t);
    terms::lemma_terms(after);
}

proof fn lemma_flagged<T: PhysAddr, const N: usize>(
    t: MemblockType<T, N>,
    base: T,
    size: T,
    flag: MemblockFlags,
    set: bool,
    r: Result<(), Error>,
    after: MemblockType<T, N>,
)
    requires
        t.wf(),
        t.sets_flag(base, size, flag, set, r, after),
    ensures
        range_flagged(t.list(), after.list(), N as int, base, size, flag@, set, r),
{
    let lo = base.addr() as int;
    let hi = terms::end_of_range(base, size);
    terms::lemma_terms(t);
    terms::lemma_terms(after);
    if r is Ok {
        assert forall|a: int, f: u8| #[trigger]
            terms::held_with(t.list(), a, f) implies terms::held_with(
            after.list(),
            a,
            if !(lo <= a < hi) {
                f
            } else if set {
                f | flag@
            } else {
                f & !flag@ & 0x7f
            },
        ) by {
            let x = flag@;
            assert(f & (!x & 0x7f) == f & !x & 0x7f) by (bit_vector);
            assert(after@.contains_key(a));
        }
    }
}

/// What [`MemblockType::add`] does.
pub proof fn law_of_type_add<T: PhysAddr, const N: usize>(
    t: &mut MemblockType<T, N>,
    base: T,
    size: T,
    flags: MemblockFlags,
    r: Result<(), Error>,
)
    requires
        old(t).wf(),
        call_ensures(MemblockType::<T, N>::add, (t, base, size, flags), r),
    ensures
        final(t).wf(),
        range_added(old(t).list(), final(t).list(), N as int, base, size, flags@, r),
{
    lemma_added(*old(t), base, size, flags, r, *final(t));
}

/// What [`MemblockType::remove`] does.
pub proof fn law_of_type_remove<T: PhysAddr, const N: usize>(
    t: &mut MemblockType<T, N>,
    base: T,
    size: T,
    r: Result<(), Error>,
)
    requires
        old(t).wf(),
        call_ensures(MemblockType::<T, N>::remove, (t, base, size), r),
    ensures
        final(t).wf(),
        range_removed(old(t).list(), final(t).list(), N as int, base, size, r),
{
    lemma_removed(*old(t), base, size, r, *final(t));
}

/// What [`Memblock::add`] does.
pub proof fn law_of_add<T: PhysAddr, const N: usize>(
    mb: &mut Memblock<T, N>,
    base: T,
    size: T,
    flags: MemblockFlags,
    r: Result<(), Error>,
)
    requires
        old(mb).wf(),
        call_ensures(Memblock::<T, N>::add, (mb, base, size, flags), r),
    ensures
        final(mb).wf(),
        range_added(
            old(mb).memory().list(),
            final(mb).memory().list(),
            N as int,
            base,
            size,
            flags@,
            r,
        ),
        only_memory_changed(*old(mb), *final(mb)),
{
    lemma_added(*old(mb).memory(), base, size, flags, r, *final(mb).memory());
}

/// What [`Memblock::reserve`] does.
pub proof fn law_of_reserve<T: PhysAddr, const N: usize>(
    mb: &mut Memblock<T, N>,
    base: T,
    size: T,
    r: Result<(), Error>,
)
    requires
        old(mb).wf(),
        call_ensures(Memblock::<T, N>::reserve, (mb, base, size), r),
    ensures
        final(mb).wf(),
        range_added(
            old(mb).reserved().list(),
            final(mb).reserved().list(),
            N as int,
            base,
            size,
            0x0,
            r,
        ),
        only_reserved_changed(*old(mb), *final(mb)),
{
    let flags = MemblockFlags::NONE();
    lemma_added(*old(mb).reserved(), base, size, flags, r, *final(mb).reserved());
}

/// What [`Memblock::reserve_kern`] does.
pub proof fn law_of_reserve_kern<T: PhysAddr, const N: usize>(
    mb: &mut Memblock<T, N>,
    base: T,
    size: T,
    r: Result<(), Error>,
)
    requires
        old(mb).wf(),
        call_ensures(Memblock::<T, N>::reserve_kern, (mb, base, size), r),
    ensures
        final(mb).wf(),
        range_added(
            old(mb).reserved().list(),
            final(mb).reserved().list(),
            N as int,
            base,
            size,
            0x20,
            r,
        ),
        only_reserved_changed(*old(mb), *final(mb)),
{
    let flags = MemblockFlags::RSRV_KERN();
    lemma_added(*old(mb).reserved(), base, size, flags, r, *final(mb).reserved());
}

/// What [`Memblock::remove`] does.
pub proof fn law_of_remove<T: PhysAddr, const N: usize>(
    mb: &mut Memblock<T, N>,
    base: T,
    size: T,
    r: Result<(), Error>,
)
    requires
        old(mb).wf(),
        call_ensures(Memblock::<T, N>::remove, (mb, base, size), r),
    ensures
        final(mb).wf(),
        range_removed(
            old(mb).memory().list(),
            final(mb).memory().list(),
            N as int,
            base,
            size,
            r,
        ),
        only_memory_changed(*old(mb), *final(mb)),
{
    lemma_removed(*old(mb).memory(), base, size, r, *final(mb).memory());
}

/// What [`Memblock::phys_free`] does.
pub proof fn law_of_phys_free<T: PhysAddr, const N: usize>(
    mb: &mut Memblock<T, N>,
    base: T,
    size: T,
    r: Result<(), Error>,
)
    requires
        old(mb).wf(),
        call_ensures(Memblock::<T, N>::phys_free, (mb, base, size), r),
    ensures
        final(mb).wf(),
        range_removed(
            old(mb).reserved().list(),
            final(mb).reserved().list(),
            N as int,
            base,
            size,
            r,
        ),
        only_reserved_changed(*old(mb), *final(mb)),
{
    lemma_removed(*old(mb).reserved(), base, size, r, *final(mb).reserved());
}

/// Removing any range succeeds as long as two slots are free, also one that is
/// partly held or spans several regions.
pub proof fn law_remove_succeeds_with_two_free_slots<T: PhysAddr, const N: usize>(
    t: &mut MemblockType<T, N>,
    base: T,
    size: T,
    r: Result<(), Error>,
)
    requires
        old(t).wf(),
        old(t).list().len() + 2 <= N,
        call_ensures(MemblockType::<T, N>::remove, (t, base, size), r),
    ensures
        r is Ok,
{
    law_of_type_remove(t, base, size, r);
}

/// Removing a range whose ends lie inside no region succeeds, however full the
/// array is.
pub proof fn law_remove_between_regions_succeeds<T: PhysAddr, const N: usize>(
    t: &mut MemblockType<T, N>,
    base: T,
    size: T,
    r: Result<(), Error>,
)
    requires
        old(t).wf(),
        forall|i: int|
            0 <= i < old(t).list().len() ==> {
                &&& !((#[trigger] old(t).list()[i]).base().addr() < base.addr()
                    < old(t).list()[i].base().addr() + old(t).list()[i].size().addr())
                &&& !(old(t).list()[i].base().addr() < terms::end_of_range(base, size)
                    < old(t).list()[i].base().addr() + old(t).list()[i].size().addr())
            },
        call_ensures(MemblockType::<T, N>::remove, (t, base, size), r),
    ensures
        r is Ok,
{
    law_of_type_remove(t, base, size, r);
    old(t).lemma_wf();
    let s = old(t).list();
    assert(!terms::crossed(s, base.addr() as int));
    assert(!terms::crossed(s, terms::end_of_range(base, size)));
}

/// Adding any range succeeds as long as there are as many free slots as
/// regions, and one more.
pub proof fn law_add_succeeds_in_half_empty_array<T: PhysAddr, const N: usize>(
    t: &mut MemblockType<T, N>,
    base: T,
    size: T,
    flags: MemblockFlags,
    r: Result<(), Error>,
)
    requires
        old(t).wf(),
        2 * old(t).list().len() + 1 <= N,
        call_ensures(MemblockType::<T, N>::add, (t, base, size, flags), r),
    ensures
        r is Ok,
{
    let s = old(t).list();
    let lo = base.addr() as int;
    let hi = addr::range_end(base, size) as int;
    layout::lemma_gaps_met_monotonic(s, lo, hi, 0, s.len() as int + 1);
}

/// What the functions that mark and clear attributes of `memory` do.
pub proof fn law_of_memory_flags<T: PhysAddr, const N: usize>(
    mb: &mut Memblock<T, N>,
    base: T,
    size: T,
    bit: u8,
    set: bool,
    r: Result<(), Error>,
)
    requires
        old(mb).wf(),
        ({
            ||| bit == 0x1 && set && call_ensures(
                Memblock::<T, N>::mark_hotplug,
                (mb, base, size),
                r,
            )
            ||| bit == 0x1 && !set && call_ensures(
                Memblock::<T, N>::clear_hotplug,
                (mb, base, size),
                r,
            )
            ||| bit == 0x2 && set && call_ensures(
                Memblock::<T, N>::mark_mirror,
                (mb, base, size),
                r,
            )
            ||| bit == 0x2 && !set && call_ensures(
                Memblock::<T, N>::clear_mirror,
                (mb, base, size),
                r,
            )
            ||| bit == 0x4 && set && call_ensures(
                Memblock::<T, N>::mark_nomap,
                (mb, base, size),
                r,
            )
            ||| bit == 0x4 && !set && call_ensures(
                Memblock::<T, N>::clear_nomap,
                (mb, base, size),
                r,
            )
            ||| bit == 0x40 && set && call_ensures(
                Memblock::<T, N>::mark_kho_scratch,
                (mb, base, size),
                r,
            )
            ||| bit == 0x40 && !set && call_ensures(
                Memblock::<T, N>::clear_kho_scratch,
                (mb, base, size),
                r,
            )
        }),
    ensures
        final(mb).wf(),
        range_flagged(
            old(mb).memory().list(),
            final(mb).memory().list(),
            N as int,
            base,
            size,
            bit,
            set,
            r,
        ),
        only_memory_changed(*old(mb), *final(mb)),
{
    let flag = MemblockFlags::of_bits(bit);
    lemma_flagged(*old(mb).memory(), base, size, flag, set, r, *final(mb).memory());
}

/// What the functions that mark and clear attributes of `reserved` do.
pub proof fn law_of_reserved_flags<T: PhysAddr, const N: usize>(
    mb: &mut Memblock<T, N>,
    base: T,
    size: T,
    bit: u8,
    set: bool,
    r: Result<(), Error>,
)
    requires
        old(mb).wf(),
        ({
            ||| bit == 0x10 && set && call_ensures(
                Memblock::<T, N>::reserved_mark_noinit,
                (mb, base, size),
                r,
            )
            ||| bit == 0x10 && !set && call_ensures(
                Memblock::<T, N>::reserved_clear_noinit,
                (mb, base, size),
                r,
            )
            ||| bit == 0x20 && set && call_ensures(
                Memblock::<T, N>::reserved_mark_kern,
                (mb, base, size),
                r,
            )
            ||| bit == 0x20 && !set && call_ensures(
                Memblock::<T, N>::reserved_clear_kern,
                (mb, base, size),
                r,
            )
        }),
    ensures
        final(mb).wf(),
        range_flagged(
            old(mb).reserved().list(),
            final(mb).reserved().list(),
            N as int,
            base,
            size,
            bit,
            set,
            r,
        ),
        only_reserved_changed(*old(mb), *final(mb)),
{
    let flag = MemblockFlags::of_bits(bit);
    lemma_flagged(*old(mb).reserved(), base, size, flag, set, r, *final(mb).reserved());
}

/// Setting a flag on any range succeeds as long as two slots are free.
pub proof fn law_marking_succeeds_with_two_free_slots<T: PhysAddr, const N: usize>(
    t: MemblockType<T, N>,
    base: T,
    size: T,
    flag: MemblockFlags,
    r: Result<(), Error>,
    after: MemblockType<T, N>,
)
    requires
        t.wf(),
        t.list().len() + 2 <= N,
        t.sets_flag(base, size, flag, true, r, after),
    ensures
        r is Ok,
{
    lemma_flagged(t, base, size, flag, true, r, after);
}

/// Clearing a flag on any range succeeds as long as two slots are free.
pub proof fn law_clearing_succeeds_with_two_free_slots<T: PhysAddr, const N: usize>(
    t: MemblockType<T, N>,
    base: T,
    size: T,
    flag: MemblockFlags,
    r: Result<(), Error>,
    after: MemblockType<T, N>,
)
    requires
        t.wf(),
        t.list().len() + 2 <= N,
        t.sets_flag(base, size, flag, false, r, after),
    ensures
        r is Ok,
{
    lemma_flagged(t, base, size, flag, false, r, after);
}

/// The functions that change regions take every range.
pub proof fn law_of_accepted_changes<T: PhysAddr, const N: usize>(
    t: &mut MemblockType<T, N>,
    mb: &mut Memblock<T, N>,
    base: T,
    size: T,
    flags: MemblockFlags,
)
    requires
        old(t).wf(),
        old(mb).wf(),
    ensures
        call_requires(MemblockType::<T, N>::add, (t, base, size, flags)),
        call_requires(MemblockType::<T, N>::remove, (t, base, size)),
        call_requires(Memblock::<T, N>::add, (mb, base, size, flags)),
        call_requires(Memblock::<T, N>::mark_hotplug, (mb, base, size)),
        call_requires(Memblock::<T, N>::clear_hotplug, (mb, base, size)),
        call_requires(Memblock::<T, N>::mark_mirror, (mb, base, size)),
        call_requires(Memblock::<T, N>::clear_mirror, (mb, base, size)),
        call_requires(Memblock::<T, N>::mark_nomap, (mb, base, size)),
        call_requires(Memblock::<T, N>::clear_nomap, (mb, base, size)),
        call_requires(Memblock::<T, N>::mark_kho_scratch, (mb, base, size)),
        call_requires(Memblock::<T, N>::clear_kho_scratch, (mb, base, size)),
        call_requires(Memblock::<T, N>::reserved_mark_noinit, (mb, base, size)),
        call_requires(Memblock::<T, N>::reserved_clear_noinit, (mb, base, size)),
        call_requires(Memblock::<T, N>::reserved_mark_kern, (mb, base, size)),
        call_requires(Memblock::<T, N>::reserved_clear_kern, (mb, base, size)),
        call_requires(Memblock::<T, N>::reserve, (mb, base, size)),
        call_requires(Memblock::<T, N>::reserve_kern, (mb, base, size)),
        call_requires(Memblock::<T, N>::remove, (mb, base, size)),
        call_requires(Memblock::<T, N>::phys_free, (mb, base, size)),
{
}

} // verus!

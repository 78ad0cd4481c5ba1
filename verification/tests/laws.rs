use the_memblock::addr::addrs_overlap;
use the_memblock::addr::align_down;
use the_memblock::addr::align_up;
use the_memblock::addr::is_power_of_two;
use the_memblock::addr::pfn_down;
use the_memblock::addr::pfn_to_phys;
use the_memblock::addr::pfn_up;
use the_memblock::addr::saturating_add;
use the_memblock::error::Error;
use the_memblock::flags::MemblockFlags;
use the_memblock::memblock::Memblock;
use the_memblock::memblock::MemblockType;
use the_memblock::region::MemblockRegion;

fn none() -> MemblockFlags {
    MemblockFlags::NONE()
}

fn dump<const N: usize>(t: &MemblockType<u64, N>) -> Vec<(u64, u64, u8)> {
    let mut out = Vec::new();
    for r in t.regions() {
        out.push((r.base(), r.end(), r.flags().bits()));
    }
    out
}

fn free<const N: usize>(mb: &Memblock<u64, N>, flags: MemblockFlags) -> Vec<(u64, u64)> {
    let mut out = Vec::new();
    for r in mb.free_mem_ranges(flags) {
        out.push(r);
    }
    out
}

#[test]
fn usage_from_the_readme() {
    let mut mb = Memblock::<u64, 16>::new();
    mb.add(0x8000_0000, 0x4000_0000, none()).unwrap();
    mb.reserve_kern(0x8000_0000, 0x20_0000).unwrap();
    let base = mb.phys_alloc(0x1000, 0x1000, none()).unwrap();
    assert_eq!(base, 0xBFFF_F000);
}

#[test]
fn new_is_empty() {
    let mb = Memblock::<u64, 4>::new();
    assert!(mb.memory().is_empty());
    assert!(mb.reserved().is_empty());
    assert_eq!(mb.memory().count(), 0);
    assert_eq!(mb.memory().capacity(), 4);
    assert_eq!(mb.memory_base(), None);
    assert_eq!(mb.memory_end(), None);
    assert_eq!(mb.phys_mem_size(), 0);
    assert_eq!(mb.reserved_size(), 0);
    assert!(!mb.bottom_up());
    assert_eq!(mb.current_limit(), u64::MAX);
    assert_eq!(mb, Memblock::<u64, 4>::default());
    assert!(mb.free_mem_ranges(none()).next().is_none());
    assert!(mb.mem_pfn_ranges(0x1000).next().is_none());
}

#[test]
fn regions_keep_sorted_disjoint_and_merged() {
    let mut mb = Memblock::<u64, 8>::new();
    mb.add(0x300, 0x100, none()).unwrap();
    mb.add(0x100, 0x100, none()).unwrap();
    mb.add(0x500, 0x100, MemblockFlags::HOTPLUG()).unwrap();
    mb.add(0x180, 0x400, none()).unwrap();
    assert_eq!(
        dump(mb.memory()),
        vec![(0x100, 0x500, 0), (0x500, 0x600, 1)]
    );
    assert_eq!(mb.phys_mem_size(), 0x500);
}

#[test]
fn add_of_held_range_is_noop_on_full_array() {
    let mut mb = Memblock::<u64, 2>::new();
    mb.add(0x100, 0x100, none()).unwrap();
    mb.add(0x200, 0x100, MemblockFlags::NOMAP()).unwrap();
    let before = dump(mb.memory());
    mb.add(0x180, 0x100, MemblockFlags::HOTPLUG()).unwrap();
    mb.add(0x5000, 0, none()).unwrap();
    assert_eq!(dump(mb.memory()), before);
}

#[test]
fn add_twice_is_add_once() {
    let mut mb = Memblock::<u64, 8>::new();
    mb.add(0x200, 0x100, none()).unwrap();
    mb.add(0x100, 0x400, MemblockFlags::NOMAP()).unwrap();
    let once = dump(mb.memory());
    assert_eq!(
        once,
        vec![(0x100, 0x200, 4), (0x200, 0x300, 0), (0x300, 0x500, 4)]
    );
    mb.add(0x100, 0x400, MemblockFlags::NOMAP()).unwrap();
    assert_eq!(dump(mb.memory()), once);
}

#[test]
fn add_order_does_not_matter() {
    let mut one = Memblock::<u64, 8>::new();
    one.add(0x100, 0x100, none()).unwrap();
    one.add(0x180, 0x200, none()).unwrap();
    one.add(0x600, 0x100, none()).unwrap();
    let mut two = Memblock::<u64, 8>::new();
    two.add(0x600, 0x100, none()).unwrap();
    two.add(0x180, 0x200, none()).unwrap();
    two.add(0x100, 0x100, none()).unwrap();
    assert_eq!(one, two);
    assert_eq!(
        dump(one.memory()),
        vec![(0x100, 0x380, 0), (0x600, 0x700, 0)]
    );
}

#[test]
fn add_needs_one_slot_for_each_gap() {
    let mut mb = Memblock::<u64, 4>::new();
    mb.add(0x100, 0x100, none()).unwrap();
    mb.add(0x300, 0x100, none()).unwrap();
    let before = mb.clone();
    // Three gaps, two slots.
    assert_eq!(mb.add(0x0, 0x600, none()), Err(Error::OverCapacity));
    assert_eq!(mb, before);
    // Two gaps, two slots.
    mb.add(0x100, 0x600, none()).unwrap();
    assert_eq!(dump(mb.memory()), vec![(0x100, 0x700, 0)]);
}

#[test]
fn capacity_of_zero_holds_nothing() {
    let mut mb = Memblock::<u64, 0>::new();
    assert_eq!(mb.add(0x100, 0x100, none()), Err(Error::OverCapacity));
    mb.add(0x100, 0, none()).unwrap();
    mb.remove(0x100, 0x100).unwrap();
    assert_eq!(mb.mark_nomap(0x100, 0x100), Err(Error::OverCapacity));
    mb.mark_nomap(0x100, 0).unwrap();
    assert_eq!(mb.phys_alloc(1, 1, none()), Err(Error::OutOfMemory));
    assert!(mb.memory().is_empty());
}

#[test]
fn remove_undoes_add() {
    let mut mb = Memblock::<u64, 8>::new();
    mb.add(0x100, 0x100, none()).unwrap();
    mb.add(0x300, 0x100, none()).unwrap();
    let before = mb.clone();
    mb.add(0x200, 0x100, none()).unwrap();
    assert_eq!(mb.memory().count(), 1);
    mb.remove(0x200, 0x100).unwrap();
    assert_eq!(mb, before);
}

#[test]
fn remove_of_absent_range_is_noop_on_full_array() {
    let mut mb = Memblock::<usize, 2>::new();
    mb.add(0x1000, 0x100, MemblockFlags::NONE()).unwrap();
    assert_eq!(mb.remove(0x0, 0x100), Ok(()));
    assert_eq!(mb.memory().regions(), [MemblockRegion::new(0x1000, 0x100)]);
    mb.add(0x3000, 0x100, MemblockFlags::NONE()).unwrap();
    let before = mb.clone();
    assert_eq!(mb.remove(0x1100, 0x1f00), Ok(()));
    assert_eq!(mb, before);
}

#[test]
fn remove_needs_one_slot_for_each_split() {
    let mut mb = Memblock::<u64, 2>::new();
    mb.add(0x100, 0x100, none()).unwrap();
    mb.add(0x300, 0x100, none()).unwrap();
    let before = mb.clone();
    // A split at the base, at the end, and at both.
    assert_eq!(mb.remove(0x180, 0x80), Err(Error::OverCapacity));
    assert_eq!(mb.remove(0x200, 0x180), Err(Error::OverCapacity));
    assert_eq!(mb.remove(0x120, 0x10), Err(Error::OverCapacity));
    assert_eq!(mb, before);
    // Whole regions take no split.
    mb.remove(0x100, 0x100).unwrap();
    assert_eq!(dump(mb.memory()), vec![(0x300, 0x400, 0)]);
    // One slot is left, for one split.
    assert_eq!(mb.remove(0x320, 0x10), Err(Error::OverCapacity));
    mb.remove(0x380, 0x1000).unwrap();
    assert_eq!(dump(mb.memory()), vec![(0x300, 0x380, 0)]);

    let mut mb = Memblock::<u64, 3>::new();
    mb.add(0x100, 0x300, none()).unwrap();
    mb.remove(0x200, 0x100).unwrap();
    assert_eq!(
        dump(mb.memory()),
        vec![(0x100, 0x200, 0), (0x300, 0x400, 0)]
    );
    assert_eq!(mb.phys_mem_size(), 0x200);
}

#[test]
fn undoing_never_runs_out_of_room() {
    // The second of two slots takes the block, and freeing it gives it back.
    let mut mb = Memblock::<usize, 2>::new();
    mb.add(0x1000, 0x1000, MemblockFlags::NONE()).unwrap();
    mb.reserve(0x1000, 0x100).unwrap();
    let before = mb.clone();
    let p = mb.phys_alloc(0x100, 0x100, MemblockFlags::NONE()).unwrap();
    assert_eq!(mb.reserved().count(), 2);
    assert_eq!(mb.phys_free(p, 0x100), Ok(()));
    assert_eq!(mb, before);

    // A range that joins two regions takes both splits to remove.
    let mut mb = Memblock::<u64, 3>::new();
    mb.add(0x100, 0x100, none()).unwrap();
    mb.add(0x300, 0x100, none()).unwrap();
    let before = mb.clone();
    mb.add(0x200, 0x100, none()).unwrap();
    assert_eq!(mb.memory().count(), 1);
    mb.remove(0x200, 0x100).unwrap();
    assert_eq!(mb, before);
}

#[test]
fn flags_take_two_free_slots() {
    let mut mb = Memblock::<u64, 2>::new();
    mb.add(0x100, 0x100, none()).unwrap();
    mb.reserve(0x100, 0x100).unwrap();
    let before = mb.clone();
    // Even where nothing is split, or nothing is there.
    assert_eq!(mb.mark_nomap(0x100, 0x100), Err(Error::OverCapacity));
    assert_eq!(mb.clear_nomap(0x900, 0x100), Err(Error::OverCapacity));
    assert_eq!(mb.mark_hotplug(0x100, 0x100), Err(Error::OverCapacity));
    assert_eq!(mb.clear_hotplug(0x100, 0x100), Err(Error::OverCapacity));
    assert_eq!(mb.mark_mirror(0x100, 0x100), Err(Error::OverCapacity));
    assert_eq!(mb.clear_mirror(0x100, 0x100), Err(Error::OverCapacity));
    assert_eq!(mb.mark_kho_scratch(0x100, 0x100), Err(Error::OverCapacity));
    assert_eq!(mb.clear_kho_scratch(0x100, 0x100), Err(Error::OverCapacity));
    assert_eq!(mb.reserved_mark_noinit(0x100, 0x100), Err(Error::OverCapacity));
    assert_eq!(mb.reserved_clear_noinit(0x100, 0x100), Err(Error::OverCapacity));
    assert_eq!(mb.reserved_mark_kern(0x100, 0x100), Err(Error::OverCapacity));
    assert_eq!(mb.reserved_clear_kern(0x100, 0x100), Err(Error::OverCapacity));
    // An empty range takes none.
    mb.mark_nomap(0x100, 0).unwrap();
    mb.clear_nomap(u64::MAX, 0x100).unwrap();
    assert_eq!(mb, before);

    // Two slots are enough to mark, and are then used up.
    let mut mb = Memblock::<u64, 3>::new();
    mb.add(0x100, 0x300, none()).unwrap();
    mb.mark_nomap(0x200, 0x100).unwrap();
    assert_eq!(
        dump(mb.memory()),
        vec![(0x100, 0x200, 0), (0x200, 0x300, 4), (0x300, 0x400, 0)]
    );
    assert_eq!(mb.clear_nomap(0x200, 0x100), Err(Error::OverCapacity));
}

#[test]
fn remove_everything() {
    let mut mb = Memblock::<u64, 8>::new();
    mb.add(0x100, 0x100, none()).unwrap();
    mb.add(0x200, 0x100, MemblockFlags::NOMAP()).unwrap();
    mb.add(0x400, 0x100, none()).unwrap();
    mb.remove(0, u64::MAX).unwrap();
    assert!(mb.memory().is_empty());
    assert_eq!(mb.phys_mem_size(), 0);
    assert_eq!(mb, Memblock::<u64, 8>::new());
}

#[test]
fn marking_sets_the_flag_on_the_range_only() {
    let mut mb = Memblock::<u64, 8>::new();
    mb.add(0x100, 0x300, MemblockFlags::HOTPLUG()).unwrap();
    mb.mark_mirror(0x200, 0x80).unwrap();
    assert_eq!(
        dump(mb.memory()),
        vec![(0x100, 0x200, 1), (0x200, 0x280, 3), (0x280, 0x400, 1)]
    );
    assert_eq!(mb.phys_mem_size(), 0x300);
    mb.mark_mirror(0x0, 0x1000).unwrap();
    assert_eq!(dump(mb.memory()), vec![(0x100, 0x400, 3)]);
}

#[test]
fn clear_undoes_mark() {
    let mut mb = Memblock::<u64, 8>::new();
    mb.add(0x100, 0x300, none()).unwrap();
    let before = mb.clone();
    mb.mark_hotplug(0x180, 0x40).unwrap();
    assert_eq!(mb.memory().count(), 3);
    mb.clear_hotplug(0x180, 0x40).unwrap();
    assert_eq!(mb, before);
    mb.mark_kho_scratch(0x180, 0x40).unwrap();
    assert_eq!(mb.memory().regions()[1].flags(), MemblockFlags::KHO_SCRATCH());
    mb.clear_kho_scratch(0x180, 0x40).unwrap();
    mb.mark_mirror(0x180, 0x40).unwrap();
    assert_eq!(mb.memory().regions()[1].flags(), MemblockFlags::MIRROR());
    mb.clear_mirror(0x180, 0x40).unwrap();
    assert_eq!(mb, before);

    mb.reserve(0x100, 0x100).unwrap();
    let before = mb.clone();
    mb.reserved_mark_noinit(0x120, 0x20).unwrap();
    assert_eq!(
        dump(mb.reserved()),
        vec![(0x100, 0x120, 0), (0x120, 0x140, 0x10), (0x140, 0x200, 0)]
    );
    mb.reserved_clear_noinit(0x120, 0x20).unwrap();
    assert_eq!(mb, before);
    mb.reserved_mark_kern(0x120, 0x20).unwrap();
    assert_eq!(mb.reserved().regions()[1].flags(), MemblockFlags::RSRV_KERN());
    mb.reserved_clear_kern(0x120, 0x20).unwrap();
    assert_eq!(mb, before);
}

#[test]
fn clearing_drops_bits_that_name_no_attribute() {
    let mut mb = Memblock::<u64, 8>::new();
    mb.add(0x100, 0x100, MemblockFlags::from_bits_retain(0x85)).unwrap();
    mb.clear_nomap(0x100, 0x100).unwrap();
    assert_eq!(dump(mb.memory()), vec![(0x100, 0x200, 0x1)]);
}

#[test]
fn free_ranges_between_touching_reservations() {
    // The reserved regions touch without being merged: the gap between them
    // is empty, and the free range after them has to come out nevertheless.
    let mut mb = Memblock::<u64, 8>::new();
    mb.add(0x1000, 0x1000, none()).unwrap();
    mb.reserve(0x1200, 0x100).unwrap();
    mb.reserve_kern(0x1300, 0x100).unwrap();
    assert_eq!(mb.reserved().count(), 2);
    assert_eq!(
        free(&mb, none()),
        vec![(0x1000, 0x1200), (0x1400, 0x2000)]
    );
    let mut it = mb.free_mem_ranges(none()).rev();
    assert_eq!(it.next(), Some((0x1400, 0x2000)));
    assert_eq!(it.next(), Some((0x1000, 0x1200)));
    assert_eq!(it.next(), None);
    let mut it = mb.free_mem_ranges(none());
    assert_eq!(it.next(), Some((0x1000, 0x1200)));
    assert_eq!(it.next_back(), Some((0x1400, 0x2000)));
    assert_eq!(it.next(), None);
    assert_eq!(it.next_back(), None);
}

#[test]
fn free_ranges_with_touching_reservations_at_the_base() {
    let mut mb = Memblock::<u64, 8>::new();
    mb.add(0x1000, 0x1000, none()).unwrap();
    mb.reserve(0x1000, 0x100).unwrap();
    mb.reserve_kern(0x1100, 0x100).unwrap();
    assert_eq!(free(&mb, none()), vec![(0x1200, 0x2000)]);
    mb.set_bottom_up(true);
    assert_eq!(mb.phys_alloc(0x10, 0x10, none()), Ok(0x1200));
}

#[test]
fn free_ranges_across_regions_and_reservations() {
    let mut mb = Memblock::<u64, 8>::new();
    mb.add(0x1000, 0x1000, none()).unwrap();
    mb.add(0x3000, 0x1000, MemblockFlags::HOTPLUG()).unwrap();
    mb.add(0x4000, 0x1000, none()).unwrap();
    mb.reserve(0x1800, 0x2000).unwrap();
    mb.reserve(0x4800, 0x100).unwrap();
    let want = vec![
        (0x1000, 0x1800),
        (0x3800, 0x4000),
        (0x4000, 0x4800),
        (0x4900, 0x5000),
    ];
    assert_eq!(free(&mb, none()), want);
    let mut back = Vec::new();
    for r in mb.free_mem_ranges(none()).rev() {
        back.push(r);
    }
    back.reverse();
    assert_eq!(back, want);
    // Whatever end each range is taken from, each comes once.
    for pattern in 0..16u32 {
        let mut it = mb.free_mem_ranges(none());
        let mut front = Vec::new();
        let mut back = Vec::new();
        for k in 0..4 {
            if (pattern >> k) & 1 == 0 {
                front.push(it.next().unwrap());
            } else {
                back.push(it.next_back().unwrap());
            }
        }
        assert_eq!(it.next(), None);
        assert_eq!(it.next_back(), None);
        back.reverse();
        front.extend(back);
        assert_eq!(front, want);
    }
}

#[test]
fn filters_by_attribute() {
    let mut mb = Memblock::<u64, 8>::new();
    mb.add(0x1000, 0x100, none()).unwrap();
    mb.add(0x2000, 0x100, MemblockFlags::NOMAP()).unwrap();
    mb.add(0x3000, 0x100, MemblockFlags::DRIVER_MANAGED()).unwrap();
    mb.add(0x4000, 0x100, MemblockFlags::MIRROR()).unwrap();
    mb.add(0x5000, 0x100, MemblockFlags::KHO_SCRATCH()).unwrap();
    mb.add(0x6000, 0x100, MemblockFlags::HOTPLUG()).unwrap();
    assert_eq!(free(&mb, none()), vec![(0x1000, 0x1100), (0x6000, 0x6100)]);
    assert_eq!(
        free(&mb, MemblockFlags::NOMAP()),
        vec![(0x1000, 0x1100), (0x2000, 0x2100), (0x6000, 0x6100)]
    );
    assert_eq!(
        free(&mb, MemblockFlags::DRIVER_MANAGED()),
        vec![(0x1000, 0x1100), (0x3000, 0x3100), (0x6000, 0x6100)]
    );
    assert_eq!(free(&mb, MemblockFlags::MIRROR()), vec![(0x4000, 0x4100)]);
    assert_eq!(free(&mb, MemblockFlags::KHO_SCRATCH()), vec![(0x5000, 0x5100)]);
    assert_eq!(
        free(&mb, MemblockFlags::MIRROR() | MemblockFlags::KHO_SCRATCH()),
        vec![]
    );
    assert_eq!(
        mb.phys_alloc(0x10, 0x10, MemblockFlags::MIRROR()),
        Ok(0x40f0)
    );
}

#[test]
fn find_in_range_does_not_filter() {
    let mut mb = Memblock::<u64, 8>::new();
    mb.add(0x1000, 0x1000, MemblockFlags::NOMAP()).unwrap();
    assert_eq!(mb.find_in_range_node(0x100, 0x100, 0, u64::MAX, none()), None);
    assert_eq!(mb.find_in_range(0, u64::MAX, 0x100, 0x100), Some((0x1f00, 0x2000)));
    mb.mark_mirror(0x1000, 0x1000).unwrap();
    mb.set_bottom_up(true);
    assert_eq!(mb.find_in_range(0, u64::MAX, 0x100, 0x100), Some((0x1000, 0x1100)));
    // Nothing was reserved.
    assert!(mb.reserved().is_empty());
}

#[test]
fn found_block_can_be_reserved() {
    let mut mb = Memblock::<u64, 8>::new();
    mb.add(0x1000, 0x1000, none()).unwrap();
    let (base, end) = mb.find_in_range(0x1000, 0x1400, 0x100, 0x100).unwrap();
    assert_eq!((base, end), (0x1300, 0x1400));
    mb.reserve(base, end - base).unwrap();
    assert_eq!(mb.find_in_range(0x1000, 0x1400, 0x100, 0x100), Some((0x1200, 0x1300)));
}

#[test]
fn search_for_no_bytes() {
    let mut mb = Memblock::<u64, 8>::new();
    mb.add(0x1000, 0x1000, none()).unwrap();
    assert_eq!(mb.find_in_range(0, u64::MAX, 0, 0x100), Some((0x2000, 0x2000)));
    mb.set_bottom_up(true);
    assert_eq!(mb.find_in_range(0, u64::MAX, 0, 0x100), Some((0x1000, 0x1000)));
    assert_eq!(mb.find_in_range(0x1f01, u64::MAX, 0, 0x100), None);
    assert_eq!(mb.phys_alloc(0, 0x100, none()), Err(Error::OutOfMemory));
}

#[test]
fn zero_size_fails_whatever_the_alignment() {
    let mut mb = Memblock::<u64, 8>::new();
    mb.add(0x1000, 0x1000, none()).unwrap();
    assert_eq!(mb.phys_alloc(0, 3, none()), Err(Error::OutOfMemory));
    assert_eq!(
        mb.phys_alloc_range(0, 0, 0, u64::MAX, none()),
        Err(Error::OutOfMemory)
    );
}

#[test]
fn search_bounds_in_the_wrong_order_find_nothing() {
    let mut mb = Memblock::<u64, 8>::new();
    mb.add(0x1000, 0x1000, none()).unwrap();
    assert_eq!(mb.find_in_range(0x1800, 0x1400, 0x10, 0x10), None);
    mb.set_bottom_up(true);
    assert_eq!(mb.find_in_range(0x1800, 0x1400, 0x10, 0x10), None);
}

#[test]
fn block_does_not_straddle_regions() {
    // Two regions touch but differ in their flags.
    let mut mb = Memblock::<u64, 8>::new();
    mb.add(0x1000, 0x80, none()).unwrap();
    mb.add(0x1080, 0x80, MemblockFlags::HOTPLUG()).unwrap();
    assert_eq!(mb.phys_alloc(0x100, 0x10, none()), Err(Error::OutOfMemory));
    assert_eq!(mb.phys_alloc(0x80, 0x10, none()), Ok(0x1080));
}

#[test]
fn allocation_reserves_for_kernel_use() {
    let mut mb = Memblock::<u64, 8>::new();
    mb.add(0x1000, 0x1000, none()).unwrap();
    mb.reserve(0x1f80, 0x80).unwrap();
    let p = mb.phys_alloc(0x80, 0x100, none()).unwrap();
    assert_eq!(p, 0x1f00);
    // The neighbour has other flags, so the two are not merged.
    assert_eq!(
        dump(mb.reserved()),
        vec![(0x1f00, 0x1f80, 0x20), (0x1f80, 0x2000, 0)]
    );
    assert_eq!(mb.reserved_size(), 0x100);
    assert_eq!(mb.phys_mem_size(), 0x1000);
    assert!(mb.is_reserved(0x1f00));
    assert!(!mb.is_reserved(0x1eff));
}

#[test]
fn allocations_are_disjoint_until_memory_runs_out() {
    let mut mb = Memblock::<u64, 8>::new();
    mb.add(0x1000, 0x400, none()).unwrap();
    assert_eq!(mb.phys_alloc(0x100, 0x100, none()), Ok(0x1300));
    assert_eq!(mb.phys_alloc(0x100, 0x100, none()), Ok(0x1200));
    mb.set_bottom_up(true);
    assert_eq!(mb.phys_alloc(0x100, 0x100, none()), Ok(0x1000));
    assert_eq!(mb.phys_alloc(0x100, 0x100, none()), Ok(0x1100));
    assert_eq!(mb.phys_alloc(1, 1, none()), Err(Error::OutOfMemory));
    assert_eq!(dump(mb.reserved()), vec![(0x1000, 0x1400, 0x20)]);
}

#[test]
fn allocation_with_full_array_is_over_capacity() {
    let mut mb = Memblock::<u64, 2>::new();
    mb.add(0x1000, 0x1000, none()).unwrap();
    mb.reserve(0x1100, 0x10).unwrap();
    mb.reserve(0x1200, 0x10).unwrap();
    let before = mb.clone();
    // Even where the block would be merged with a reserved neighbour.
    assert_eq!(mb.phys_alloc(0x100, 0x100, none()), Err(Error::OverCapacity));
    assert_eq!(
        mb.phys_alloc_range(0xf0, 0x10, 0x1110, 0x1200, none()),
        Err(Error::OverCapacity)
    );
    assert_eq!(mb.phys_alloc(0x1001, 1, none()), Err(Error::OutOfMemory));
    assert_eq!(mb, before);
}

#[test]
fn free_undoes_allocation() {
    let mut mb = Memblock::<u64, 8>::new();
    mb.add(0x1000, 0x1000, none()).unwrap();
    mb.reserve_kern(0x1f00, 0x100).unwrap();
    let before = mb.clone();
    let p = mb.phys_alloc(0x100, 0x100, none()).unwrap();
    assert_eq!(p, 0x1e00);
    assert_eq!(mb.reserved().count(), 1);
    mb.phys_free(p, 0x100).unwrap();
    assert_eq!(mb, before);
}

#[test]
fn phys_alloc_is_phys_alloc_range_over_everything() {
    let mut one = Memblock::<u64, 8>::new();
    one.add(0x1000, 0x1000, none()).unwrap();
    one.set_current_limit(0x1800);
    let mut two = one.clone();
    assert_eq!(
        one.phys_alloc(0x100, 0x100, none()),
        two.phys_alloc_range(0x100, 0x100, 0, u64::MAX, none())
    );
    assert_eq!(one, two);
    assert_eq!(dump(one.reserved()), vec![(0x1700, 0x1800, 0x20)]);
    // The limit holds for an explicit end too, and a lower end below it.
    assert_eq!(
        one.phys_alloc_range(0x100, 0x100, 0, 0x1f00, none()),
        Ok(0x1600)
    );
    assert_eq!(
        one.phys_alloc_range(0x100, 0x100, 0, 0x1400, none()),
        Ok(0x1300)
    );
}

#[test]
fn equality_ignores_unused_slots() {
    let mut one = Memblock::<u64, 4>::new();
    one.add(0x100, 0x100, none()).unwrap();
    one.add(0x300, 0x100, none()).unwrap();
    one.remove(0x300, 0x100).unwrap();
    let mut two = Memblock::<u64, 4>::new();
    two.add(0x100, 0x100, none()).unwrap();
    assert_eq!(one, two);
    two.set_bottom_up(true);
    assert_ne!(one, two);
    one.set_bottom_up(true);
    one.set_current_limit(0x1000);
    assert_ne!(one, two);
    two.set_current_limit(0x1000);
    assert_eq!(one, two);
    two.mark_nomap(0x100, 0x100).unwrap();
    assert_ne!(one.memory(), two.memory());
    assert_eq!(one.reserved(), two.reserved());
}

#[test]
fn region_queries() {
    let mut mb = Memblock::<u64, 8>::new();
    mb.add(0x100, 0x100, none()).unwrap();
    mb.add(0x200, 0x100, MemblockFlags::NOMAP()).unwrap();
    mb.reserve(0x180, 0x10).unwrap();
    assert_eq!(mb.memory().search(0xff), None);
    assert_eq!(mb.memory().search(0x100), Some(0));
    assert_eq!(mb.memory().search(0x1ff), Some(0));
    assert_eq!(mb.memory().search(0x200), Some(1));
    assert_eq!(mb.memory().search(0x300), None);
    assert_eq!(mb.region_size(0x250), 0x100);
    assert_eq!(mb.region_size(0x300), 0);
    assert!(mb.is_memory(0x100) && !mb.is_memory(0xff) && !mb.is_memory(0x300));
    // Two regions that touch are not one.
    assert!(mb.is_region_memory(0x100, 0x100));
    assert!(!mb.is_region_memory(0x100, 0x101));
    assert!(mb.is_region_memory(0x1ff, 0));
    assert!(!mb.is_region_memory(0x300, 0));
    assert!(mb.is_region_reserved(0x170, 0x11));
    assert!(!mb.is_region_reserved(0x170, 0x10));
    assert!(!mb.is_region_reserved(0x185, 0));
    assert!(mb.is_region_reserved(0, u64::MAX));
    assert!(mb.memory().overlaps_region(0x2ff, 0x1000));
    assert!(!mb.memory().overlaps_region(0x300, u64::MAX));
    assert_eq!(mb.memory().total_size(), 0x200);
    assert_eq!(mb.memory_base(), Some(0x100));
    assert_eq!(mb.memory_end(), Some(0x300));
}

#[test]
fn region_values() {
    let r = MemblockRegion::with_flags(0x100u64, 0x80, MemblockFlags::NOMAP());
    assert_eq!(r.base(), 0x100);
    assert_eq!(r.size(), 0x80);
    assert_eq!(r.end(), 0x180);
    assert_eq!(r.flags(), MemblockFlags::NOMAP());
    assert_ne!(r, MemblockRegion::new(0x100u64, 0x80));
    assert_eq!(
        MemblockRegion::new(0x100u64, 0x80),
        MemblockRegion::with_flags(0x100u64, 0x80, none())
    );
    assert_eq!(MemblockRegion::<u64>::EMPTY(), MemblockRegion::new(0, 0));
    assert_eq!(MemblockRegion::new(u64::MAX - 1, 5).end(), u64::MAX);
}

#[test]
fn page_ranges_hold_whole_pages() {
    let mut mb = Memblock::<u64, 8>::new();
    mb.add(0x0fff, 0x2002, none()).unwrap();
    mb.add(0x4001, 0x1ffe, none()).unwrap();
    mb.add(0x8000, 0x1000, MemblockFlags::NOMAP()).unwrap();
    let mut it = mb.mem_pfn_ranges(0x1000);
    assert_eq!(it.next(), Some((1, 3)));
    assert_eq!(it.next(), Some((8, 9)));
    assert_eq!(it.next(), None);
    assert_eq!(it.next(), None);
    // A page need not be a power of two long.
    let mut it = mb.mem_pfn_ranges(3);
    assert_eq!(it.next(), Some((0x555, 0x1000)));
}

#[test]
fn page_ranges_are_double_ended() {
    let mut mb = Memblock::<usize, 8>::new();
    mb.add(0x1000, 0x1000, MemblockFlags::NONE()).unwrap();
    mb.add(0x2800, 0x800, MemblockFlags::NONE()).unwrap();
    mb.add(0x4000, 0x2000, MemblockFlags::NONE()).unwrap();
    mb.add(0x6800, 0x800, MemblockFlags::NONE()).unwrap();
    let mut it = mb.mem_pfn_ranges(0x1000);
    assert_eq!(it.next_back(), Some((4, 6)));
    assert_eq!(it.next(), Some((1, 2)));
    assert_eq!(it.next(), None);
    assert_eq!(it.next_back(), None);
    let mut it = mb.mem_pfn_ranges(0x1000).rev();
    assert_eq!(it.next(), Some((4, 6)));
    assert_eq!(it.next(), Some((1, 2)));
    assert_eq!(it.next(), None);
    let mut it = mb.mem_pfn_ranges(0x800);
    assert_eq!(it.next_back(), Some((13, 14)));
    assert_eq!(it.next_back(), Some((8, 12)));
    assert_eq!(it.next_back(), Some((5, 6)));
    assert_eq!(it.next_back(), Some((2, 4)));
    assert_eq!(it.next_back(), None);
}

#[test]
fn memory_ranges_are_considered_regions() {
    let mut mb = Memblock::<u64, 8>::new();
    mb.add(0x1000, 0x100, none()).unwrap();
    mb.add(0x2000, 0x100, MemblockFlags::NOMAP()).unwrap();
    mb.add(0x3000, 0x100, MemblockFlags::HOTPLUG()).unwrap();
    // What is reserved does not matter.
    mb.reserve(0x1080, 0x2000).unwrap();
    let mut it = mb.mem_ranges(none());
    assert_eq!(it.next(), Some((0x1000, 0x1100)));
    assert_eq!(it.next(), Some((0x3000, 0x3100)));
    assert_eq!(it.next(), None);
    let mut it = mb.mem_ranges(MemblockFlags::NOMAP()).rev();
    assert_eq!(it.next(), Some((0x3000, 0x3100)));
    assert_eq!(it.next(), Some((0x2000, 0x2100)));
    assert_eq!(it.next(), Some((0x1000, 0x1100)));
    assert_eq!(it.next(), None);
}

#[test]
fn page_numbers_of_page_starts() {
    for p in 0..200u64 {
        assert_eq!(pfn_down(pfn_to_phys(p, 0x1000), 0x1000), p);
        assert_eq!(pfn_up(pfn_to_phys(p, 0x1000), 0x1000), p);
        assert_eq!(pfn_up(pfn_to_phys(p, 7) + 1, 7), p + 1);
        assert_eq!(pfn_down(pfn_to_phys(p, 7) + 6, 7), p);
    }
    assert_eq!(pfn_to_phys(0xffu8, 2), 0xff);
    assert_eq!(pfn_to_phys(0x7fu8, 2), 0xfe);
    assert_eq!(pfn_up(0xffu8, 1), 0xff);
    assert_eq!(pfn_up(0xffu8, 2), 0x80);
}

#[test]
fn alignment_is_nearest_multiple() {
    for shift in 0..8 {
        let alignment = 1u8 << shift;
        for x in 0..=u8::MAX {
            let down = align_down(x, alignment);
            let up = align_up(x, alignment);
            assert_eq!(down, x / alignment * alignment);
            let next = (x as u16 + alignment as u16 - 1) / alignment as u16 * alignment as u16;
            assert_eq!(up as u16, next.min(0xff));
            assert_eq!(align_down(down, alignment), down);
        }
    }
    for x in 0..=u8::MAX {
        assert_eq!(is_power_of_two(x), x.is_power_of_two());
    }
}

#[test]
fn sums_saturate() {
    for x in 0..=u8::MAX {
        for y in 0..=u8::MAX {
            assert_eq!(saturating_add(x, y), x.saturating_add(y));
        }
    }
}

#[test]
fn overlap_is_symmetric_and_means_a_common_address() {
    let bounds = [0u8, 1, 2, 5, 100, 250, 254, 255];
    for b1 in bounds {
        for s1 in bounds {
            for b2 in bounds {
                for s2 in bounds {
                    let r = addrs_overlap(b1, s1, b2, s2);
                    assert_eq!(r, addrs_overlap(b2, s2, b1, s1));
                    let e1 = b1.saturating_add(s1);
                    let e2 = b2.saturating_add(s2);
                    assert_eq!(r, b1.max(b2) < e1.min(e2));
                }
            }
        }
    }
    // A range of no bytes overlaps nothing, wherever it lies.
    assert!(!addrs_overlap(0x150usize, 0x0, 0x100, 0x100));
    assert!(!addrs_overlap(0x100usize, 0x100, 0x150, 0x0));
    assert!(!addrs_overlap(0x150usize, 0x0, 0x150, 0x0));
}

#[test]
fn every_width_of_address() {
    let mut mb = Memblock::<u8, 4>::new();
    mb.add(0x80, 0xff, MemblockFlags::NONE()).unwrap();
    assert_eq!(mb.memory_end(), Some(0xff));
    assert_eq!(mb.phys_mem_size(), 0x7f);
    assert_eq!(mb.phys_alloc(0x10, 0x10, MemblockFlags::NONE()), Ok(0xe0));
    let mut mb = Memblock::<u16, 4>::new();
    mb.add(0xff00, 0x100, MemblockFlags::NONE()).unwrap();
    assert_eq!(mb.phys_alloc(0x10, 0x10, MemblockFlags::NONE()), Ok(0xffe0));
    let mut mb = Memblock::<u32, 4>::new();
    mb.add(0x8000_0000, u32::MAX, MemblockFlags::NONE()).unwrap();
    assert_eq!(mb.phys_mem_size(), 0x7fff_ffff);
    assert_eq!(
        mb.phys_alloc(0x1000, 0x8000_0000, MemblockFlags::NONE()),
        Ok(0x8000_0000)
    );
    let mut mb = Memblock::<u128, 4>::new();
    mb.add(1 << 100, 1 << 90, MemblockFlags::NONE()).unwrap();
    assert_eq!(
        mb.phys_alloc(1 << 80, 1 << 80, MemblockFlags::NONE()),
        Ok((1u128 << 100) + (1 << 90) - (1 << 80))
    );
}

#[test]
fn without_reservations_regions_are_free() {
    let mut mb = Memblock::<u64, 8>::new();
    mb.add(0x1000, 0x100, none()).unwrap();
    mb.add(0x1100, 0x100, MemblockFlags::HOTPLUG()).unwrap();
    mb.add(0x3000, u64::MAX, none()).unwrap();
    assert_eq!(
        free(&mb, none()),
        vec![(0x1000, 0x1100), (0x1100, 0x1200), (0x3000, u64::MAX)]
    );
}

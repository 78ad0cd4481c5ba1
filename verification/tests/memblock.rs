use the_memblock::addr::addrs_overlap;
use the_memblock::error::Error;
use the_memblock::flags::MemblockFlags;
use the_memblock::memblock::Memblock;
use the_memblock::region::MemblockRegion;

fn dump(mb: &Memblock<usize, 8>) -> [(usize, usize, u8); 8] {
    let mut out = [(0usize, 0usize, 0u8); 8];
    for (i, r) in mb.memory().regions().iter().enumerate() {
        out[i] = (r.base(), r.size(), r.flags().bits());
    }
    out
}

#[test]
fn add_merges_adjacent_same_flags() {
    let mut mb = Memblock::<usize, 8>::new();
    mb.add(0x100, 0x100, MemblockFlags::NONE()).unwrap();
    mb.add(0x200, 0x100, MemblockFlags::NONE()).unwrap();
    assert_eq!(&dump(&mb)[..1], &[(0x100, 0x200, 0)]);
}

#[test]
fn add_does_not_merge_different_flags() {
    let mut mb = Memblock::<usize, 8>::new();
    mb.add(0x0, 0x100, MemblockFlags::NONE()).unwrap();
    mb.add(0x100, 0x100, MemblockFlags::NOMAP()).unwrap();
    assert_eq!(
        &dump(&mb)[..2],
        &[(0x0, 0x100, 0), (0x100, 0x100, MemblockFlags::NOMAP().bits())]
    );
}

#[test]
fn add_gap_before_existing() {
    let mut mb = Memblock::<usize, 8>::new();
    mb.add(0x100, 0x100, MemblockFlags::NONE()).unwrap();
    mb.add(0x50, 0x50, MemblockFlags::NONE()).unwrap();
    assert_eq!(&dump(&mb)[..2], &[(0x50, 0x50, 0), (0x100, 0x100, 0)]);
}

#[test]
fn add_wraps_existing_region() {
    let mut mb = Memblock::<usize, 8>::new();
    mb.add(0x100, 0x100, MemblockFlags::NOMAP()).unwrap();
    mb.add(0x0, 0x300, MemblockFlags::NONE()).unwrap();
    assert_eq!(
        &dump(&mb)[..3],
        &[
            (0x0, 0x100, 0),
            (0x100, 0x100, MemblockFlags::NOMAP().bits()),
            (0x200, 0x100, 0)
        ]
    );
}

#[test]
fn remove_middle_split() {
    let mut mb = Memblock::<usize, 8>::new();
    mb.add(0x0, 0x1000, MemblockFlags::NONE()).unwrap();
    mb.remove(0x400, 0x200).unwrap();
    assert_eq!(&dump(&mb)[..2], &[(0x0, 0x400, 0), (0x600, 0xa00, 0)]);
}

#[test]
fn remove_across_regions() {
    let mut mb = Memblock::<usize, 8>::new();
    mb.add(0x0, 0x100, MemblockFlags::NONE()).unwrap();
    mb.add(0x200, 0x100, MemblockFlags::NONE()).unwrap();
    mb.remove(0x50, 0x200).unwrap();
    assert_eq!(&dump(&mb)[..2], &[(0x0, 0x50, 0), (0x250, 0xb0, 0)]);
}

#[test]
fn remove_absent_is_noop() {
    let mut mb = Memblock::<usize, 8>::new();
    mb.add(0x1000, 0x100, MemblockFlags::NONE()).unwrap();
    mb.remove(0x0, 0x100).unwrap();
    assert_eq!(&dump(&mb)[..1], &[(0x1000, 0x100, 0)]);
}

#[test]
fn alloc_reserves() {
    let mut mb = Memblock::<usize, 8>::new();
    mb.add(0x1000, 0x1000, MemblockFlags::NONE()).unwrap();
    let p = mb.phys_alloc(0x100, 0x100, MemblockFlags::NONE()).unwrap();
    assert_eq!(p, 0x1f00);
    assert_eq!(mb.memory_base(), Some(0x1000));
    assert_eq!(mb.reserved().count(), 1);
}

#[test]
fn alloc_free_roundtrip() {
    let mut mb = Memblock::<usize, 8>::new();
    mb.add(0x1000, 0x1000, MemblockFlags::NONE()).unwrap();
    let p = mb.phys_alloc(0x100, 0x100, MemblockFlags::NONE()).unwrap();
    assert_eq!(p, 0x1f00);
    mb.phys_free(p, 0x100).unwrap();
    assert!(mb.reserved().is_empty());
    assert_eq!(mb.reserved_size(), 0);
}

#[test]
fn alloc_zero_size_fails() {
    let mut mb = Memblock::<usize, 8>::new();
    mb.add(0x1000, 0x100, MemblockFlags::NONE()).unwrap();
    assert!(matches!(
        mb.phys_alloc(0, 0x100, MemblockFlags::NONE()),
        Err(Error::OutOfMemory)
    ));
}

#[test]
fn phys_alloc_range_top_down() {
    let mut mb = Memblock::<usize, 8>::new();
    mb.add(0x1000, 0x1000, MemblockFlags::NONE()).unwrap();
    let p = mb
        .phys_alloc_range(0x100, 0x100, 0, usize::MAX, MemblockFlags::NONE())
        .unwrap();
    assert_eq!(p, 0x1f00);
}

#[test]
fn phys_alloc_range_respects_bounds() {
    let mut mb = Memblock::<usize, 8>::new();
    mb.add(0x1000, 0x1000, MemblockFlags::NONE()).unwrap();
    let p = mb
        .phys_alloc_range(0x100, 0x100, 0, 0x1500, MemblockFlags::NONE())
        .unwrap();
    assert_eq!(p, 0x1400);
}

#[test]
fn phys_alloc_range_follows_bottom_up() {
    let mut mb = Memblock::<usize, 8>::new();
    mb.add(0x1000, 0x1000, MemblockFlags::NONE()).unwrap();
    mb.set_bottom_up(true);
    let p = mb
        .phys_alloc_range(0x100, 0x100, 0, usize::MAX, MemblockFlags::NONE())
        .unwrap();
    assert_eq!(p, 0x1000);
}

#[test]
fn phys_alloc_range_respects_current_limit() {
    let mut mb = Memblock::<usize, 8>::new();
    mb.add(0x1000, 0x1000, MemblockFlags::NONE()).unwrap();
    mb.set_current_limit(0x1500);
    let p = mb
        .phys_alloc_range(0x100, 0x100, 0, usize::MAX, MemblockFlags::NONE())
        .unwrap();
    assert_eq!(p, 0x1400);
}

#[test]
fn alloc_skips_nomap_by_default() {
    let mut mb = Memblock::<usize, 8>::new();
    mb.add(0x1000, 0x1000, MemblockFlags::NOMAP()).unwrap();
    mb.add(0x2000, 0x1000, MemblockFlags::NONE()).unwrap();
    let p = mb
        .phys_alloc_range(0x100, 0x100, 0, usize::MAX, MemblockFlags::NONE())
        .unwrap();
    assert_eq!(p, 0x2f00);
}

#[test]
fn alloc_from_nomap_when_requested() {
    let mut mb = Memblock::<usize, 8>::new();
    mb.add(0x1000, 0x1000, MemblockFlags::NOMAP()).unwrap();
    let p = mb
        .phys_alloc_range(0x100, 0x100, 0, usize::MAX, MemblockFlags::NOMAP())
        .unwrap();
    assert_eq!(p, 0x1f00);
    assert!(matches!(
        mb.phys_alloc_range(0x100, 0x100, 0, usize::MAX, MemblockFlags::NONE()),
        Err(Error::OutOfMemory)
    ));
}

#[test]
fn alloc_out_of_memory() {
    let mut mb = Memblock::<usize, 8>::new();
    mb.add(0x1000, 0x100, MemblockFlags::NONE()).unwrap();
    assert!(matches!(
        mb.phys_alloc_range(0x1000, 0x100, 0, usize::MAX, MemblockFlags::NONE()),
        Err(Error::OutOfMemory)
    ));
}

#[test]
fn free_mem_ranges_rev_order() {
    let mut mb = Memblock::<usize, 8>::new();
    mb.add(0x1000, 0x100, MemblockFlags::NONE()).unwrap();
    mb.add(0x2000, 0x100, MemblockFlags::NONE()).unwrap();
    let mut it = mb.free_mem_ranges(MemblockFlags::NONE()).rev();
    let a = it.next().unwrap();
    let b = it.next().unwrap();
    assert_eq!((a.0, a.1), (0x2000, 0x2100));
    assert_eq!((b.0, b.1), (0x1000, 0x1100));
    assert!(it.next().is_none());
}

#[test]
fn free_mem_ranges_is_double_ended() {
    let mut mb = Memblock::<usize, 8>::new();
    mb.add(0x1000, 0x1000, MemblockFlags::NONE()).unwrap();
    mb.reserve(0x1800, 0x100).unwrap();

    // Interleaved consumption from both ends must partition the pieces.
    let mut it = mb.free_mem_ranges(MemblockFlags::NONE());
    assert_eq!(it.next(), Some((0x1000, 0x1800)));
    assert_eq!(it.next_back(), Some((0x1900, 0x2000)));
    assert_eq!(it.next(), None);
    assert_eq!(it.next_back(), None);

    // rev() yields everything, descending.
    let mut it_fwd = mb.free_mem_ranges(MemblockFlags::NONE());
    let f0 = it_fwd.next().unwrap();
    let f1 = it_fwd.next().unwrap();
    assert!(it_fwd.next().is_none());

    let mut it_rev = mb.free_mem_ranges(MemblockFlags::NONE()).rev();
    assert_eq!(it_rev.next(), Some(f1));
    assert_eq!(it_rev.next(), Some(f0));
    assert!(it_rev.next().is_none());
}

#[test]
fn free_mem_ranges_both_ends_meet_inside_one_region() {
    let mut mb = Memblock::<usize, 8>::new();
    mb.add(0x0, 0x3000, MemblockFlags::NONE()).unwrap();
    mb.reserve(0x100, 0x100).unwrap();
    mb.reserve(0x500, 0x100).unwrap();
    // Free pieces: [0x0,0x100), [0x200,0x500), [0x600,0x3000).

    // Purely from the back.
    let mut it = mb.free_mem_ranges(MemblockFlags::NONE());
    assert_eq!(it.next_back(), Some((0x600, 0x3000)));
    assert_eq!(it.next_back(), Some((0x200, 0x500)));
    assert_eq!(it.next_back(), Some((0x0, 0x100)));
    assert_eq!(it.next_back(), None);

    // Alternating ends must not duplicate or skip anything.
    let mut it = mb.free_mem_ranges(MemblockFlags::NONE());
    assert_eq!(it.next(), Some((0x0, 0x100)));
    assert_eq!(it.next_back(), Some((0x600, 0x3000)));
    assert_eq!(it.next(), Some((0x200, 0x500)));
    assert_eq!(it.next(), None);
    assert_eq!(it.next_back(), None);
}

#[test]
fn queries() {
    let mut mb = Memblock::<usize, 8>::new();
    mb.add(0x1000, 0x100, MemblockFlags::NONE()).unwrap();
    mb.add(0x2000, 0x200, MemblockFlags::NONE()).unwrap();
    mb.reserve(0x1050, 0x20).unwrap();

    assert_eq!(mb.phys_mem_size(), 0x300);
    assert_eq!(mb.reserved_size(), 0x20);
    assert_eq!(mb.memory_base(), Some(0x1000));
    assert_eq!(mb.memory_end(), Some(0x2200));
    assert_eq!(mb.region_size(0x1000), 0x100);
    assert_eq!(mb.region_size(0x2100), 0x200);
    assert_eq!(mb.region_size(0x500), 0);

    assert!(mb.is_memory(0x1050));
    assert!(!mb.is_memory(0x500));
    assert!(mb.is_reserved(0x1060));
    assert!(!mb.is_reserved(0x1000));
    assert!(mb.is_region_memory(0x1000, 0x100));
    assert!(!mb.is_region_memory(0x1000, 0x101));
    assert!(mb.is_region_reserved(0x1050, 0x20));
    // Kernel semantics: intersects, not fully contained.
    assert!(mb.is_region_reserved(0x1040, 0x20));
    assert!(mb.is_region_reserved(0x1060, 0x20));
    assert!(!mb.is_region_reserved(0x1070, 0x20));
    assert!(mb.memory().overlaps_region(0x1000, 0x100));
    assert!(!mb.memory().overlaps_region(0x1300, 0x100));
    assert!(addrs_overlap(0x0usize, 0x100, 0x80, 0x100));
    assert!(!addrs_overlap(0x0usize, 0x100, 0x100, 0x100));
}

#[test]
fn find_in_range_matches_kernel_names() {
    let mut mb = Memblock::<usize, 8>::new();
    mb.add(0x1000, 0x1000, MemblockFlags::NONE()).unwrap();

    let (base, end) = mb.find_in_range(0, usize::MAX, 0x100, 0x100).unwrap();
    assert_eq!((base, end), (0x1f00, 0x2000));

    mb.set_bottom_up(true);
    let (base, _) = mb
        .find_in_range_node(0x100, 0x100, 0, usize::MAX, MemblockFlags::NOMAP())
        .unwrap();
    assert_eq!(base, 0x1000);

    // find_in_range_node does not reserve; the caller does.
    assert!(mb.reserved().is_empty());
}

#[test]
fn reserve_kern_sets_flag() {
    let mut mb = Memblock::<usize, 8>::new();
    mb.add(0x1000, 0x100, MemblockFlags::NONE()).unwrap();
    mb.reserve_kern(0x1000, 0x40).unwrap();
    assert!(
        mb.reserved().regions()[0]
            .flags()
            .contains(MemblockFlags::RSRV_KERN())
    );
}

#[test]
fn mark_and_clear_nomap() {
    let mut mb = Memblock::<usize, 8>::new();
    mb.add(0x0, 0x100, MemblockFlags::NONE()).unwrap();
    mb.mark_nomap(0x40, 0x80).unwrap();
    assert_eq!(
        &dump(&mb)[..3],
        &[
            (0x0, 0x40, 0),
            (0x40, 0x80, MemblockFlags::NOMAP().bits()),
            (0xc0, 0x40, 0)
        ]
    );
    mb.clear_nomap(0x40, 0x80).unwrap();
    assert_eq!(&dump(&mb)[..1], &[(0x0, 0x100, 0)]);
}

#[test]
fn mark_flags_preserved_across_remove() {
    let mut mb = Memblock::<usize, 8>::new();
    mb.add(0x0, 0x100, MemblockFlags::NONE()).unwrap();
    mb.mark_nomap(0x40, 0x80).unwrap();
    mb.remove(0x20, 0x10).unwrap();
    assert_eq!(
        &dump(&mb)[..4],
        &[
            (0x0, 0x20, 0),
            (0x30, 0x10, 0),
            (0x40, 0x80, MemblockFlags::NOMAP().bits()),
            (0xc0, 0x40, 0)
        ]
    );
}

#[test]
fn total_size_after_add_remove() {
    let mut mb = Memblock::<usize, 8>::new();
    mb.add(0x1000, 0x1000, MemblockFlags::NONE()).unwrap();
    assert_eq!(mb.phys_mem_size(), 0x1000);
    mb.remove(0x1400, 0x200).unwrap();
    assert_eq!(mb.phys_mem_size(), 0xe00);
}

#[test]
fn mem_pfn_ranges_basic() {
    let mut mb = Memblock::<usize, 8>::new();
    mb.add(0x1000, 0x1000, MemblockFlags::NONE()).unwrap();
    mb.add(0x4000, 0x2000, MemblockFlags::NONE()).unwrap();
    let mut it = mb.mem_pfn_ranges(0x1000);
    assert_eq!(it.next(), Some((1, 2)));
    assert_eq!(it.next(), Some((4, 6)));
    assert_eq!(it.next(), None);
}

#[test]
fn mem_pfn_ranges_skips_partial_pages() {
    let mut mb = Memblock::<usize, 8>::new();
    mb.add(0x800, 0x2000, MemblockFlags::NONE()).unwrap();
    mb.add(0x4000, 0x800, MemblockFlags::NONE()).unwrap();
    let mut it = mb.mem_pfn_ranges(0x1000);
    assert_eq!(it.next(), Some((1, 2)));
    assert_eq!(it.next(), None);
}

#[test]
fn free_mem_ranges_subtracts_reserved() {
    let mut mb = Memblock::<usize, 8>::new();
    mb.add(0x1000, 0x1000, MemblockFlags::NONE()).unwrap();
    mb.add(0x4000, 0x1000, MemblockFlags::NONE()).unwrap();
    mb.reserve(0x1800, 0x100).unwrap();

    let mut free = mb.free_mem_ranges(MemblockFlags::NONE());
    let a = free.next().unwrap();
    let b = free.next().unwrap();
    let c = free.next().unwrap();
    assert_eq!((a.0, a.1), (0x1000, 0x1800));
    assert_eq!((b.0, b.1), (0x1900, 0x2000));
    assert_eq!((c.0, c.1), (0x4000, 0x5000));
    assert!(free.next().is_none());
}

#[test]
fn alloc_follows_bottom_up() {
    let mut mb = Memblock::<usize, 8>::new();
    mb.add(0x1000, 0x1000, MemblockFlags::NONE()).unwrap();
    mb.set_bottom_up(true);
    assert!(mb.bottom_up());
    let p = mb.phys_alloc(0x100, 0x100, MemblockFlags::NONE()).unwrap();
    assert_eq!(p, 0x1000);
}

#[test]
fn alloc_respects_current_limit() {
    let mut mb = Memblock::<usize, 8>::new();
    mb.add(0x1000, 0x1000, MemblockFlags::NONE()).unwrap();
    mb.set_current_limit(0x1500);
    assert_eq!(mb.current_limit(), 0x1500);
    let p = mb.phys_alloc(0x100, 0x100, MemblockFlags::NONE()).unwrap();
    assert_eq!(p, 0x1400);
}

#[test]
fn add_full_array_no_new_regions_is_noop() {
    let mut mb = Memblock::<usize, 2>::new();
    mb.add(0x1000, 0x100, MemblockFlags::NONE()).unwrap();
    mb.add(0x2000, 0x100, MemblockFlags::NONE()).unwrap();
    mb.add(0x1040, 0x10, MemblockFlags::NONE()).unwrap();
    assert_eq!(mb.memory().count(), 2);
    assert_eq!(mb.memory().regions()[0].size(), 0x100);
}

#[test]
fn add_full_array_adjacent_extends_last_region() {
    let mut mb = Memblock::<usize, 2>::new();
    mb.add(0x1000, 0x100, MemblockFlags::NONE()).unwrap();
    mb.add(0x2000, 0x100, MemblockFlags::NONE()).unwrap();
    // A fully occupied array cannot provide the transient slot the
    // two-pass insertion needs before merging, mirroring the kernel
    // running out of room in memblock_double_array.
    assert!(matches!(
        mb.add(0x2100, 0x100, MemblockFlags::NONE()),
        Err(Error::OverCapacity)
    ));

    let mut mb = Memblock::<usize, 3>::new();
    mb.add(0x1000, 0x100, MemblockFlags::NONE()).unwrap();
    mb.add(0x2000, 0x100, MemblockFlags::NONE()).unwrap();
    mb.add(0x2100, 0x100, MemblockFlags::NONE()).unwrap();
    assert_eq!(mb.memory().count(), 2);
    assert_eq!(mb.memory().regions()[1], MemblockRegion::new(0x2000, 0x200));
    assert_eq!(mb.phys_mem_size(), 0x300);
}

#[test]
fn add_full_array_needing_new_region_fails() {
    let mut mb = Memblock::<usize, 2>::new();
    mb.add(0x1000, 0x100, MemblockFlags::NONE()).unwrap();
    mb.add(0x2000, 0x100, MemblockFlags::NONE()).unwrap();
    assert!(matches!(
        mb.add(0x3000, 0x100, MemblockFlags::NONE()),
        Err(Error::OverCapacity)
    ));
}

#[test]
fn add_caps_size_at_address_space_end() {
    let mut mb = Memblock::<usize, 8>::new();
    let top = usize::MAX - 0xf;
    mb.add(top, 0x100, MemblockFlags::NONE()).unwrap();
    assert_eq!(
        mb.memory().regions()[0],
        MemblockRegion::with_flags(top, 0xf, MemblockFlags::NONE())
    );
    assert_eq!(mb.memory().regions()[0].end(), usize::MAX);
    assert_eq!(mb.phys_mem_size(), 0xf);
}

#[test]
fn remove_caps_size_at_address_space_end() {
    let mut mb = Memblock::<usize, 8>::new();
    let top = usize::MAX - 0xff;
    mb.add(top, 0x100, MemblockFlags::NONE()).unwrap();
    mb.remove(usize::MAX - 0xf, 0x100).unwrap();
    assert_eq!(mb.memory().regions()[0].size(), 0xf0);
}

#[test]
fn is_region_memory_handles_max_range() {
    let mut mb = Memblock::<usize, 8>::new();
    let top = usize::MAX - 0xff;
    mb.add(top, 0x100, MemblockFlags::NONE()).unwrap();
    assert!(mb.is_region_memory(top, 0x100));
    assert!(!mb.is_region_memory(top - 0x10, 0x101));
}

#[test]
fn alloc_near_max_bottom_up() {
    let mut mb = Memblock::<usize, 8>::new();
    let top = usize::MAX - 0x1ff;
    mb.add(top, 0x200, MemblockFlags::NONE()).unwrap();
    mb.set_bottom_up(true);
    let p = mb.phys_alloc(0x80, 0x100, MemblockFlags::NONE()).unwrap();
    assert_eq!(p, top);
}

#[test]
fn alloc_top_down_near_max() {
    let mut mb = Memblock::<usize, 8>::new();
    let top = usize::MAX - 0xff;
    mb.add(top, 0x100, MemblockFlags::NONE()).unwrap();
    let p = mb.phys_alloc(0x40, 0x40, MemblockFlags::NONE()).unwrap();
    assert_eq!(p, usize::MAX - 0x7f);
}

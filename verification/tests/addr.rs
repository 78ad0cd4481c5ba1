use the_memblock::addr::addrs_overlap;
use the_memblock::addr::align_down;
use the_memblock::addr::align_up;
use the_memblock::addr::cap_size;
use the_memblock::addr::pfn_down;
use the_memblock::addr::pfn_to_phys;
use the_memblock::addr::pfn_up;

#[test]
fn addrs_overlap_basic() {
    assert!(addrs_overlap(0x0usize, 0x100, 0x80, 0x100));
    assert!(!addrs_overlap(0x0usize, 0x100, 0x100, 0x100));
    assert!(!addrs_overlap(0x100usize, 0x0, 0x100, 0x100));
}

#[test]
fn addrs_overlap_near_max() {
    let top = usize::MAX - 0xf;
    assert!(addrs_overlap(top, 0x10, top - 0x10, 0x20));
    assert!(!addrs_overlap(top, 0x10, 0x0, 0x100));
}

#[test]
fn cap_size_clamps_at_address_space_end() {
    assert_eq!(cap_size(0x1000usize, 0x100), 0x100);
    assert_eq!(cap_size(usize::MAX - 0xf, 0x100), 0xf);
    assert_eq!(cap_size(usize::MAX, 0x100), 0x0);
}

#[test]
fn align_up_basic() {
    assert_eq!(align_up(0x0usize, 0x1000), 0x0);
    assert_eq!(align_up(0x1usize, 0x1000), 0x1000);
    assert_eq!(align_up(0x1000usize, 0x1000), 0x1000);
    assert_eq!(align_up(0x1001usize, 0x1000), 0x2000);
    assert_eq!(align_up(0x1234usize, 1), 0x1234);
}

#[test]
fn align_down_basic() {
    assert_eq!(align_down(0x0usize, 0x1000), 0x0);
    assert_eq!(align_down(0xfffusize, 0x1000), 0x0);
    assert_eq!(align_down(0x1000usize, 0x1000), 0x1000);
    assert_eq!(align_down(0x1fffusize, 0x1000), 0x1000);
    assert_eq!(align_down(0x1234usize, 1), 0x1234);
}

#[test]
fn align_helpers_near_max() {
    let aligned = usize::MAX & !0xff;
    assert_eq!(align_down(usize::MAX, 0x100), aligned);
    assert_eq!(align_up(aligned, 0x100), aligned);
    // The next multiple does not fit; saturate instead of wrapping.
    assert_eq!(align_up(aligned + 1, 0x100), usize::MAX);
}

#[test]
fn pfn_helpers() {
    assert_eq!(pfn_up(0x0usize, 0x1000), 0);
    assert_eq!(pfn_up(0x1usize, 0x1000), 1);
    assert_eq!(pfn_up(0x1000usize, 0x1000), 1);
    assert_eq!(pfn_down(0xfffusize, 0x1000), 0);
    assert_eq!(pfn_down(0x1000usize, 0x1000), 1);
    assert_eq!(pfn_to_phys(2usize, 0x1000), 0x2000);
    assert_eq!(pfn_to_phys(0usize, 0x1000), 0);
}

#[test]
fn pfn_helpers_at_address_space_end() {
    let max = usize::MAX;
    assert_eq!(pfn_up(max, 0x1000), max / 0x1000 + 1);
    assert_eq!(pfn_down(max, 0x1000), max / 0x1000);
    assert_eq!(pfn_to_phys(max / 0x1000 + 1, 0x1000), usize::MAX);
}

//! What the calls on addresses, regions and flags return.
use crate::addr;
use crate::addr::PhysAddr;
use crate::flags::MemblockFlags;
use crate::laws;
use crate::laws::terms;
use crate::region::MemblockRegion;
use vstd::arithmetic::power2::*;
use vstd::prelude::*;

verus! {

broadcast use {
    addr::group_addresses,
    MemblockFlags::lemma_of_bits,
    MemblockFlags::lemma_view,
};

/// What the sums and comparisons return.
pub proof fn law_of_sums<T: PhysAddr>(a: T, b: T, r: T)
    ensures
        call_ensures(addr::saturating_add::<T>, (a, b), r) ==> r.addr() == (if a.addr()
            + b.addr() < T::MAX.addr() {
            a.addr() + b.addr()
        } else {
            T::MAX.addr()
        }),
        call_ensures(addr::cap_size::<T>, (a, b), r) ==> r.addr() == (if a.addr() + b.addr()
            < T::MAX.addr() {
            b.addr() as int
        } else {
            T::MAX.addr() - a.addr()
        }),
        call_ensures(addr::lesser::<T>, (a, b), r) ==> r.addr() == (if a.addr() < b.addr() {
            a.addr()
        } else {
            b.addr()
        }),
        call_ensures(addr::greater::<T>, (a, b), r) ==> r.addr() == (if a.addr() < b.addr() {
            b.addr()
        } else {
            a.addr()
        }),
{
}

/// Two ranges overlap exactly if they have an address in common.
pub proof fn law_of_addrs_overlap<T: PhysAddr>(base1: T, size1: T, base2: T, size2: T, r: bool)
    requires
        call_ensures(addr::addrs_overlap::<T>, (base1, size1, base2, size2), r),
    ensures
        r <==> {
            &&& base1.addr() < terms::end_of_range(base1, size1)
            &&& base2.addr() < terms::end_of_range(base2, size2)
            &&& base1.addr() < terms::end_of_range(base2, size2)
            &&& base2.addr() < terms::end_of_range(base1, size1)
        },
{
    laws::law_overlap_means_common_address(base1, size1, base2, size2);
}

/// A number is accepted exactly if it is a power of two.
pub proof fn law_of_is_power_of_two<T: PhysAddr>(v: T, r: bool)
    requires
        call_ensures(addr::is_power_of_two::<T>, (v,), r),
    ensures
        r <==> exists|e: nat| #[trigger] pow2(e) == v.addr(),
{
    is_pow2_equiv(v.addr() as int);
    if r {
        let e = choose|e: nat| vstd::arithmetic::power::pow(2, e) == v.addr() as int;
        lemma_pow2(e);
        assert(pow2(e) == v.addr());
    }
    if exists|e: nat| #[trigger] pow2(e) == v.addr() {
        let e = choose|e: nat| #[trigger] pow2(e) == v.addr();
        lemma_pow2(e);
        assert(vstd::arithmetic::power::pow(2, e) == v.addr() as int);
    }
}

/// Aligning upwards gives the first multiple at or after the address, or the
/// greatest address if there is none; aligning downwards the last at or before
/// it.
pub proof fn law_of_alignment<T: PhysAddr>(a: T, alignment: T, r: T, m: int)
    requires
        is_pow2(alignment.addr() as int),
    ensures
        call_ensures(addr::align_up::<T>, (a, alignment), r) ==> {
            &&& a.addr() <= r.addr()
            &&& r.addr() % alignment.addr() == 0 || r == T::MAX
            &&& a.addr() <= m <= T::MAX.addr() && m % (alignment.addr() as int) == 0 ==> r.addr()
                <= m && r.addr() % alignment.addr() == 0
        },
        call_ensures(addr::align_down::<T>, (a, alignment), r) ==> {
            &&& r.addr() <= a.addr()
            &&& r.addr() % alignment.addr() == 0
            &&& 0 <= m <= a.addr() && m % (alignment.addr() as int) == 0 ==> m <= r.addr()
        },
{
    r.lemma_value();
    T::MAX.lemma_value();
    assert(alignment.addr() > 0) by {
        reveal(is_pow2);
    }
    addr::lemma_nearest_multiple(a.addr(), alignment.addr(), 0);
    if 0 <= m && m % (alignment.addr() as int) == 0 {
        addr::lemma_nearest_multiple(a.addr(), alignment.addr(), m as nat);
    }
}

/// Page numbers count whole pages, upwards or downwards, and page addresses
/// are multiples of the page size, up to the greatest address.
pub proof fn law_of_page_numbers<T: PhysAddr>(a: T, page_size: T, r: T)
    requires
        page_size.addr() != 0,
    ensures
        call_ensures(addr::pfn_up::<T>, (a, page_size), r) ==> (r.addr() - 1) * page_size.addr()
            < a.addr() <= r.addr() * page_size.addr(),
        call_ensures(addr::pfn_down::<T>, (a, page_size), r) ==> r.addr() * page_size.addr()
            <= a.addr() < (r.addr() + 1) * page_size.addr(),
        call_ensures(addr::pfn_to_phys::<T>, (a, page_size), r) ==> r.addr() == (if a.addr()
            * page_size.addr() < T::MAX.addr() {
            a.addr() * page_size.addr()
        } else {
            T::MAX.addr()
        }),
{
    let d = page_size.addr() as int;
    let x = a.addr() as int;
    laws::lemma_quotient(x, d);
    laws::lemma_quotient(x + d - 1, d);
    let q = (x + d - 1) / d;
    assert((q - 1) * d == q * d - d) by (nonlinear_arith);
}

/// What the functions on a region return.
pub proof fn law_of_regions<T: PhysAddr>(
    base: T,
    size: T,
    flags: MemblockFlags,
    m: MemblockRegion<T>,
    r: T,
    f: MemblockFlags,
)
    ensures
        call_ensures(MemblockRegion::<T>::new, (base, size), m) ==> m.base() == base && m.size()
            == size && m.flags()@ == 0x0,
        call_ensures(MemblockRegion::<T>::with_flags, (base, size, flags), m) ==> m.base()
            == base && m.size() == size && m.flags() == flags,
        call_ensures(MemblockRegion::<T>::EMPTY, (), m) ==> m.base().addr() == 0
            && m.size().addr() == 0 && m.flags()@ == 0x0,
        call_ensures(MemblockRegion::<T>::base, (m,), r) ==> r == m.base(),
        call_ensures(MemblockRegion::<T>::size, (m,), r) ==> r == m.size(),
        call_ensures(MemblockRegion::<T>::end, (m,), r) ==> r.addr() == terms::end_of_range(
            m.base(),
            m.size(),
        ),
        call_ensures(MemblockRegion::<T>::flags, (m,), f) ==> f == m.flags(),
{
}

/// The bits of the named flags.
pub proof fn law_of_named_flags(f: MemblockFlags)
    ensures
        call_ensures(MemblockFlags::NONE, (), f) ==> f@ == 0x0,
        call_ensures(MemblockFlags::empty, (), f) ==> f@ == 0x0,
        call_ensures(MemblockFlags::HOTPLUG, (), f) ==> f@ == 0x1,
        call_ensures(MemblockFlags::MIRROR, (), f) ==> f@ == 0x2,
        call_ensures(MemblockFlags::NOMAP, (), f) ==> f@ == 0x4,
        call_ensures(MemblockFlags::DRIVER_MANAGED, (), f) ==> f@ == 0x8,
        call_ensures(MemblockFlags::RSRV_NOINIT, (), f) ==> f@ == 0x10,
        call_ensures(MemblockFlags::RSRV_KERN, (), f) ==> f@ == 0x20,
        call_ensures(MemblockFlags::KHO_SCRATCH, (), f) ==> f@ == 0x40,
        call_ensures(MemblockFlags::all, (), f) ==> f@ == 0x7f,
{
}

/// What the functions between flags and bits return.
pub proof fn law_of_bits(f: MemblockFlags, bits: u8, r: Option<MemblockFlags>)
    ensures
        call_ensures(MemblockFlags::bits, (f,), bits) ==> bits == f@,
        call_ensures(MemblockFlags::from_bits_retain, (bits,), f) ==> f@ == bits,
        call_ensures(MemblockFlags::from_bits_truncate, (bits,), f) ==> f@ == bits & 0x7f,
        call_ensures(MemblockFlags::from_bits, (bits,), r) ==> {
            &&& r is Some <==> bits < 0x80
            &&& r matches Some(g) ==> g@ == bits
        },
{
    assert(bits & 0x7f == bits <==> bits < 0x80) by (bit_vector);
}

/// What the tests on flags return.
pub proof fn law_of_flag_tests(f: MemblockFlags, g: MemblockFlags, b: bool)
    ensures
        call_ensures(MemblockFlags::is_empty, (f,), b) ==> b == (f@ == 0x0),
        call_ensures(MemblockFlags::is_all, (f,), b) ==> b == (f@ & 0x7f == 0x7f),
        call_ensures(MemblockFlags::contains, (f, g), b) ==> b == (g@ & !f@ == 0x0),
        call_ensures(MemblockFlags::intersects, (f, g), b) ==> b == (f@ & g@ != 0x0),
{
    let x = f@;
    let y = g@;
    assert((x & y == y) <==> (y & !x == 0x0)) by (bit_vector);
}

/// What the combinations of flags return.
pub proof fn law_of_flag_combinations(f: MemblockFlags, g: MemblockFlags, r: MemblockFlags)
    ensures
        call_ensures(MemblockFlags::union, (f, g), r) ==> r@ == f@ | g@,
        call_ensures(MemblockFlags::intersection, (f, g), r) ==> r@ == f@ & g@,
        call_ensures(MemblockFlags::difference, (f, g), r) ==> r@ == f@ & !g@,
        call_ensures(MemblockFlags::symmetric_difference, (f, g), r) ==> r@ == f@ ^ g@,
        call_ensures(MemblockFlags::complement, (f,), r) ==> r@ == !f@ & 0x7f,
{
}

/// What the functions that change flags do.
pub proof fn law_of_flag_changes(f: &mut MemblockFlags, g: MemblockFlags, value: bool, u: ())
    ensures
        call_ensures(MemblockFlags::insert, (f, g), u) ==> final(f)@ == old(f)@ | g@,
        call_ensures(MemblockFlags::remove, (f, g), u) ==> final(f)@ == old(f)@ & !g@,
        call_ensures(MemblockFlags::toggle, (f, g), u) ==> final(f)@ == old(f)@ ^ g@,
        call_ensures(MemblockFlags::set, (f, g, value), u) ==> final(f)@ == (if value {
            old(f)@ | g@
        } else {
            old(f)@ & !g@
        }),
{
}

/// Regions are equal exactly if their bases, sizes and flags are, and a clone
/// is the same.
pub proof fn law_of_region_equality<T: PhysAddr>(
    m: &MemblockRegion<T>,
    n: &MemblockRegion<T>,
    r: bool,
    c: MemblockRegion<T>,
)
    ensures
        call_ensures(<MemblockRegion<T> as PartialEq>::eq, (m, n), r) ==> (r <==> {
            &&& m.base().addr() == n.base().addr()
            &&& m.size().addr() == n.size().addr()
            &&& m.flags()@ == n.flags()@
        }),
        call_ensures(<MemblockRegion<T> as Clone>::clone, (m,), c) ==> c == *m,
{
    m.base().lemma_value();
    n.base().lemma_value();
    m.size().lemma_value();
    n.size().lemma_value();
    m.flags().lemma_view();
    n.flags().lemma_view();
    if m.base() == n.base() && m.size() == n.size() && m.flags() == n.flags() {
        m.lemma_determined(*n);
    }
}

/// An unsigned integer stands for itself, and addresses reach from zero to the
/// greatest value of their type.
pub proof fn law_of_widths(a: u8, b: u16, c: u32, d: u64, e: u128, f: usize)
    ensures
        a.addr() == a,
        b.addr() == b,
        c.addr() == c,
        d.addr() == d,
        e.addr() == e,
        f.addr() == f,
        <u8 as PhysAddr>::MAX == 0xff,
        <u16 as PhysAddr>::MAX == 0xffff,
        <u32 as PhysAddr>::MAX == 0xffff_ffff,
        <u64 as PhysAddr>::MAX == 0xffff_ffff_ffff_ffff,
        <u128 as PhysAddr>::MAX == 0xffff_ffff_ffff_ffff_ffff_ffff_ffff_ffff,
        <usize as PhysAddr>::MAX == usize::MAX,
        <u8 as PhysAddr>::ZERO == 0 && <u8 as PhysAddr>::ONE == 1,
        <u16 as PhysAddr>::ZERO == 0 && <u16 as PhysAddr>::ONE == 1,
        <u32 as PhysAddr>::ZERO == 0 && <u32 as PhysAddr>::ONE == 1,
        <u64 as PhysAddr>::ZERO == 0 && <u64 as PhysAddr>::ONE == 1,
        <u128 as PhysAddr>::ZERO == 0 && <u128 as PhysAddr>::ONE == 1,
        <usize as PhysAddr>::ZERO == 0 && <usize as PhysAddr>::ONE == 1,
{
    <u8 as PhysAddr>::lemma_constants();
    <u16 as PhysAddr>::lemma_constants();
    <u32 as PhysAddr>::lemma_constants();
    <u64 as PhysAddr>::lemma_constants();
    <u128 as PhysAddr>::lemma_constants();
    <usize as PhysAddr>::lemma_constants();
}

/// The functions on addresses take every argument but an alignment that is no
/// power of two and a page size of zero.
pub proof fn law_of_accepted_addresses<T: PhysAddr>(a: T, b: T, c: T, d: T)
    ensures
        call_requires(addr::addrs_overlap::<T>, (a, b, c, d)),
        call_requires(addr::saturating_add::<T>, (a, b)),
        call_requires(addr::cap_size::<T>, (a, b)),
        call_requires(addr::is_power_of_two::<T>, (a,)),
        is_pow2(b.addr() as int) ==> call_requires(addr::align_up::<T>, (a, b)),
        is_pow2(b.addr() as int) ==> call_requires(addr::align_down::<T>, (a, b)),
        b.addr() != 0 ==> call_requires(addr::pfn_up::<T>, (a, b)),
        b.addr() != 0 ==> call_requires(addr::pfn_down::<T>, (a, b)),
        b.addr() != 0 ==> call_requires(addr::pfn_to_phys::<T>, (a, b)),
{
}

} // verus!

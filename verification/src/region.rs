//! A single contiguous physical memory range.
use crate::addr;
use crate::addr::saturating_add;
use crate::addr::PhysAddr;
use crate::flags::MemblockFlags;
use vstd::prelude::*;

verus! {

/// A contiguous range of physical memory `[base, base + size)`.
///
/// Regions are never allowed to overlap within a [`MemblockType`] and are
/// kept sorted by `base`.
///
/// [`MemblockType`]: crate::memblock::MemblockType
#[derive(Copy, Debug)]
pub struct MemblockRegion<T: PhysAddr> {
    base: T,
    size: T,
    flags: MemblockFlags,
}

impl<T: PhysAddr> MemblockRegion<T> {
    pub closed spec fn spec_base(self) -> T {
        self.base
    }

    pub closed spec fn spec_size(self) -> T {
        self.size
    }

    pub closed spec fn spec_flags(self) -> MemblockFlags {
        self.flags
    }

    /// The number of the first address of the region.
    pub open spec fn lo(self) -> int {
        self.base().addr() as int
    }

    /// The number after the last address of the region, clamped to the top
    /// of the address space.
    pub open spec fn hi(self) -> int {
        addr::range_end(self.base(), self.size()) as int
    }

    /// A region is determined by its base, its size and its flags.
    pub proof fn lemma_determined(self, other: Self)
        requires
            self.base() == other.base(),
            self.size() == other.size(),
            self.flags() == other.flags(),
        ensures
            self == other,
    {
    }

    /// An empty region used to fill unused array slots.
    #[allow(non_snake_case)]
    pub fn EMPTY() -> (r: Self)
        ensures
            r.base() == T::ZERO,
            r.size() == T::ZERO,
            r.flags() == MemblockFlags::NONE(),
    {
        MemblockRegion { base: T::ZERO, size: T::ZERO, flags: MemblockFlags::NONE() }
    }

    /// Creates a region with no special flags.
    pub fn new(base: T, size: T) -> (r: Self)
        ensures
            r.base() == base,
            r.size() == size,
            r.flags() == MemblockFlags::NONE(),
    {
        MemblockRegion { base, size, flags: MemblockFlags::NONE() }
    }

    /// Creates a region with the given flags.
    pub fn with_flags(base: T, size: T, flags: MemblockFlags) -> (r: Self)
        ensures
            r.base() == base,
            r.size() == size,
            r.flags() == flags,
    {
        MemblockRegion { base, size, flags }
    }

    /// Returns the start address of the region.
    #[verifier::when_used_as_spec(spec_base)]
    pub fn base(self) -> (r: T)
        ensures
            r == self.base(),
    {
        self.base
    }

    /// Returns the size of the region.
    #[verifier::when_used_as_spec(spec_size)]
    pub fn size(self) -> (r: T)
        ensures
            r == self.size(),
    {
        self.size
    }

    /// Returns the exclusive end address (`base + size`) of the region.
    ///
    /// Saturates to [`PhysAddr::MAX`] instead of wrapping around for regions
    /// touching the top of the address space.
    pub fn end(self) -> (r: T)
        ensures
            r.addr() == self.hi(),
    {
        saturating_add(self.base, self.size)
    }

    /// Returns the attributes of the region.
    #[verifier::when_used_as_spec(spec_flags)]
    pub fn flags(self) -> (r: MemblockFlags)
        ensures
            r == self.flags(),
    {
        self.flags
    }
}

impl<T: PhysAddr> Clone for MemblockRegion<T> {
    fn clone(&self) -> (r: Self)
        ensures
            r == *self,
    {
        *self
    }
}

impl<T: PhysAddr> PartialEq for MemblockRegion<T> {
    fn eq(&self, other: &Self) -> (r: bool) {
        broadcast use addr::group_addresses;

        proof {
            addr::equality_of_addresses(self.base, other.base);
            addr::equality_of_addresses(self.size, other.size);
        }
        self.base == other.base && self.size == other.size && self.flags == other.flags
    }
}

impl<T: PhysAddr> vstd::std_specs::cmp::PartialEqSpecImpl for MemblockRegion<T> {
    open spec fn obeys_eq_spec() -> bool {
        true
    }

    open spec fn eq_spec(&self, other: &Self) -> bool {
        *self == *other
    }
}

impl<T: PhysAddr> Eq for MemblockRegion<T> {
}

} // verus!

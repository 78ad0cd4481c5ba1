//! The regions of a memblock type as page frame number ranges.
use crate::addr;
use crate::addr::pfn_down;
use crate::addr::pfn_up;
use crate::addr::PhysAddr;
use crate::memblock::MemblockType;
use crate::region::MemblockRegion;
use vstd::prelude::*;
use vstd::std_specs::iter::*;

verus! {

broadcast use addr::group_addresses;

/// The numbers of the first page that starts in the region and of the page in
/// which it ends, so that the pages from the first to the second, exclusive,
/// lie in the region.
pub open spec fn pages_of<T: PhysAddr>(r: MemblockRegion<T>, page_size: T) -> (T, T) {
    (
        T::at(addr::page_up(r.base().addr(), page_size.addr())),
        T::at(addr::range_end(r.base(), r.size()) / page_size.addr()),
    )
}

/// The page range of a region, unless it is empty.
pub open spec fn whole_pages<T: PhysAddr>(r: MemblockRegion<T>, page_size: T) -> Seq<(T, T)> {
    let p = pages_of(r, page_size);
    if p.0.addr() < p.1.addr() {
        seq![p]
    } else {
        seq![]
    }
}

/// The page ranges of the regions from index `i` to `j`, less the empty ones.
pub open spec fn page_ranges<T: PhysAddr>(
    s: Seq<MemblockRegion<T>>,
    page_size: T,
    i: int,
    j: int,
) -> Seq<(T, T)>
    decreases j - i,
{
    if i >= j {
        seq![]
    } else {
        whole_pages(s[i], page_size) + page_ranges(s, page_size, i + 1, j)
    }
}

/// The page ranges end with those of the last region.
proof fn lemma_page_ranges_last<T: PhysAddr>(
    s: Seq<MemblockRegion<T>>,
    page_size: T,
    i: int,
    j: int,
)
    requires
        i < j,
    ensures
        page_ranges(s, page_size, i, j) == page_ranges(s, page_size, i, j - 1) + whole_pages(
            s[j - 1],
            page_size,
        ),
    decreases j - i,
{
    reveal_with_fuel(page_ranges, 2);
    if i + 1 < j {
        lemma_page_ranges_last(s, page_size, i + 1, j);
    }
    assert(page_ranges(s, page_size, i, j) =~= page_ranges(s, page_size, i, j - 1) + whole_pages(
        s[j - 1],
        page_size,
    ));
}

/// Iterator over `memory` regions converted to page frame number (PFN)
/// ranges, sorted ascending.
///
/// For each `memory` region it yields `[start_pfn, end_pfn)` where
/// `start_pfn = ceil(base / page_size)` and
/// `end_pfn = floor(end / page_size)`. Regions that contain no full page are
/// skipped.
///
/// This is a [`DoubleEndedIterator`]: it can be iterated from both ends, and
/// `.rev()` yields the page ranges in descending order.
pub struct Iter<'a, T: PhysAddr, const N: usize> {
    /// Index of the next region for forward iteration.
    lo: usize,
    /// Index after the next region for backward iteration.
    hi: usize,
    page_size: T,
    mem: &'a MemblockType<T, N>,
}

impl<'a, T: PhysAddr, const N: usize> Iter<'a, T, N> {
    /// The page ranges that neither end has yielded yet.
    pub closed spec fn left(self) -> Seq<(T, T)> {
        page_ranges(self.mem.list(), self.page_size, self.lo as int, self.hi as int)
    }

    #[verifier::type_invariant]
    spec fn cursors_in_bounds(self) -> bool {
        &&& self.mem.wf()
        &&& self.page_size.addr() != 0
        &&& self.lo <= self.hi <= self.mem.list().len()
    }

    pub(crate) fn new(mem: &'a MemblockType<T, N>, page_size: T) -> (r: Self)
        requires
            mem.wf(),
            page_size.addr() != 0,
        ensures
            r.left() == page_ranges(mem.list(), page_size, 0, mem.list().len() as int),
    {
        Iter { lo: 0, hi: mem.count(), page_size, mem }
    }
}

/// Returns the numbers of the first page that starts in the region and of the
/// page in which it ends.
fn page_bounds<T: PhysAddr>(r: MemblockRegion<T>, page_size: T) -> (p: (T, T))
    requires
        page_size.addr() != 0,
    ensures
        p == pages_of(r, page_size),
{
    let end = r.end();
    let start_pfn = pfn_up(r.base(), page_size);
    let end_pfn = pfn_down(end, page_size);
    proof {
        start_pfn.lemma_value();
        end_pfn.lemma_value();
    }
    (start_pfn, end_pfn)
}

impl<'a, T: PhysAddr, const N: usize> Iterator for Iter<'a, T, N> {
    type Item = (T, T);

    /// Yields the first range that is left.
    fn next(&mut self) -> (ret: Option<(T, T)>)
        ensures
            old(self).left().len() == 0 ==> ret is None && final(self).left() == old(self).left(),
            old(self).left().len() > 0 ==> {
                &&& ret == Some(old(self).left()[0])
                &&& final(self).left() == old(self).left().drop_first()
            },
    {
        proof {
            use_type_invariant(&*self);
        }
        let mem = self.mem.regions();
        let page_size = self.page_size;
        let hi = self.hi;
        let mut lo = self.lo;
        while lo < hi
            invariant
                *self == *old(self),
                mem@ == self.mem.list(),
                page_size == self.page_size,
                page_size.addr() != 0,
                hi == self.hi,
                lo <= hi <= mem@.len(),
                self.left() == page_ranges(mem@, page_size, lo as int, hi as int),
            decreases hi - lo,
        {
            let (start_pfn, end_pfn) = page_bounds(mem[lo], page_size);
            lo += 1;
            proof {
                use_type_invariant(&*self);
            }
            if start_pfn < end_pfn {
                self.lo = lo;
                assert(self.left() =~= old(self).left().drop_first());
                return Some((start_pfn, end_pfn));
            }
            assert(self.left() =~= page_ranges(mem@, page_size, lo as int, hi as int));
        }
        self.lo = lo;
        None
    }
}

impl<'a, T: PhysAddr, const N: usize> IteratorSpecImpl for Iter<'a, T, N> {
    open spec fn obeys_prophetic_iter_laws(&self) -> bool {
        true
    }

    open spec fn remaining(&self) -> Seq<(T, T)> {
        self.left()
    }

    open spec fn will_return_none(&self) -> bool {
        true
    }

    open spec fn decrease(&self) -> Option<nat> {
        Some(self.left().len())
    }

    open spec fn initial_value_relation(&self, init: &Self) -> bool {
        self.left() == init.left()
    }

    open spec fn peek(&self, index: int) -> Option<(T, T)> {
        if 0 <= index < self.left().len() {
            Some(self.left()[index])
        } else {
            None
        }
    }
}

impl<'a, T: PhysAddr, const N: usize> DoubleEndedIterator for Iter<'a, T, N> {
    /// Yields the last range that is left.
    fn next_back(&mut self) -> (ret: Option<(T, T)>)
        ensures
            old(self).left().len() == 0 ==> ret is None && final(self).left() == old(self).left(),
            old(self).left().len() > 0 ==> {
                &&& ret == Some(old(self).left().last())
                &&& final(self).left() == old(self).left().drop_last()
            },
    {
        proof {
            use_type_invariant(&*self);
        }
        let mem = self.mem.regions();
        let page_size = self.page_size;
        let lo = self.lo;
        let mut hi = self.hi;
        while lo < hi
            invariant
                *self == *old(self),
                mem@ == self.mem.list(),
                page_size == self.page_size,
                page_size.addr() != 0,
                lo == self.lo,
                lo <= hi <= mem@.len(),
                self.left() == page_ranges(mem@, page_size, lo as int, hi as int),
            decreases hi - lo,
        {
            proof {
                lemma_page_ranges_last(mem@, page_size, lo as int, hi as int);
            }
            hi -= 1;
            let (start_pfn, end_pfn) = page_bounds(mem[hi], page_size);
            proof {
                use_type_invariant(&*self);
            }
            if start_pfn < end_pfn {
                self.hi = hi;
                assert(self.left() =~= old(self).left().drop_last());
                return Some((start_pfn, end_pfn));
            }
            assert(self.left() =~= page_ranges(mem@, page_size, lo as int, hi as int));
        }
        self.hi = hi;
        None
    }
}

impl<'a, T: PhysAddr, const N: usize> DoubleEndedIteratorSpecImpl for Iter<'a, T, N> {
    open spec fn peek_back(&self, index: int) -> Option<(T, T)> {
        if 0 <= index < self.left().len() {
            Some(self.left()[self.left().len() - 1 - index])
        } else {
            None
        }
    }
}

} // verus!

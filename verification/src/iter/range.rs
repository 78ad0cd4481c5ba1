//! The ranges of one memblock type that another leaves free.
use crate::addr;
use crate::addr::greater;
use crate::addr::lesser;
use crate::addr::PhysAddr;
use crate::flags::MemblockFlags;
use crate::free;
use crate::layout;
use crate::memblock::should_skip_region;
use crate::memblock::MemblockType;
use crate::region::MemblockRegion;
use vstd::prelude::*;
use vstd::std_specs::iter::*;

verus! {

broadcast use addr::group_addresses;

/// Iterator over regions of `type_a` not covered by `type_b`, sorted
/// ascending.
///
/// If `type_b` is `None`, all regions of `type_a` are yielded. Regions whose
/// attributes the filter excludes are skipped, e.g. `NOMAP` regions are
/// skipped unless the filter contains [`MemblockFlags::NOMAP`]; without a
/// filter no region is skipped.
///
/// This is a [`DoubleEndedIterator`]: it can be iterated from both ends, and
/// `.rev()` yields the free ranges in descending order.
pub struct Iter<'a, T: PhysAddr, const N: usize> {
    filter: Option<MemblockFlags>,
    type_a: &'a MemblockType<T, N>,
    type_b: Option<&'a MemblockType<T, N>>,
    /// Index of the next `type_a` region for forward iteration.
    m_lo: usize,
    /// Index after the next `type_a` region for backward iteration.
    m_hi: usize,
    /// Gap cursor for forward iteration. Gap `i` of `type_b` lies between its
    /// regions `i - 1` and `i`; the first gap starts at `PhysAddr::ZERO` and
    /// the last one ends at `PhysAddr::MAX`.
    r_lo: usize,
    /// Gap cursor for backward iteration.
    r_hi: usize,
}

impl<'a, T: PhysAddr, const N: usize> Iter<'a, T, N> {
    /// The regions that are iterated.
    pub closed spec fn mem(self) -> Seq<MemblockRegion<T>> {
        self.type_a.list()
    }

    /// The regions that are left out.
    pub closed spec fn res(self) -> Seq<MemblockRegion<T>> {
        match self.type_b {
            Some(t) => t.list(),
            None => seq![],
        }
    }

    /// The ranges that neither end has yielded yet.
    pub closed spec fn left(self) -> Seq<(T, T)> {
        free::grid(
            self.mem(),
            self.res(),
            self.filter,
            self.m_lo as int,
            self.m_hi as int,
            self.r_lo as int,
            self.r_hi + 1,
        )
    }

    #[verifier::type_invariant]
    spec fn cursors_in_bounds(self) -> bool {
        &&& self.type_a.wf()
        &&& self.type_b matches Some(t) ==> t.wf()
        &&& self.m_lo <= self.m_hi <= self.mem().len()
        &&& self.r_lo <= self.res().len()
        &&& self.r_hi <= self.res().len()
    }

    pub(crate) fn new(
        type_a: &'a MemblockType<T, N>,
        type_b: Option<&'a MemblockType<T, N>>,
        filter: Option<MemblockFlags>,
    ) -> (r: Self)
        requires
            type_a.wf(),
            type_b matches Some(t) ==> t.wf(),
        ensures
            r.left() == free::free_ranges(
                type_a.list(),
                match type_b {
                    Some(t) => t.list(),
                    None => seq![],
                },
                filter,
            ),
    {
        let r_hi = match type_b {
            Some(t) => t.count(),
            None => 0,
        };
        Iter { filter, type_a, type_b, m_lo: 0, m_hi: type_a.count(), r_lo: 0, r_hi }
    }

    /// Returns the bounds of the `g`-th gap of `type_b`.
    fn gap(&self, g: usize) -> (r: (T, T))
        requires
            g <= self.res().len(),
        ensures
            r.0 == free::gap_start(self.res(), g as int),
            r.1 == free::gap_end(self.res(), g as int),
    {
        proof {
            use_type_invariant(self);
        }
        match self.type_b {
            Some(t) => {
                let res = t.regions();
                let start = if g == 0 {
                    T::ZERO
                } else {
                    let end = res[g - 1].end();
                    proof {
                        end.lemma_value();
                    }
                    end
                };
                let end = if g < res.len() {
                    res[g].base()
                } else {
                    T::MAX
                };
                (start, end)
            },
            None => (T::ZERO, T::MAX),
        }
    }
}

impl<'a, T: PhysAddr, const N: usize> Iterator for Iter<'a, T, N> {
    type Item = (T, T);

    /// Yields the first range that is left.
    fn next(&mut self) -> (ret: Option<(T, T)>)
        ensures
            old(self).left().len() == 0 ==> ret is None && final(self).left() == old(self).left(),
            old(self).left().len() > 0 ==> {
                &&& ret == Some(old(self).left()[0])
                &&& final(self).left() == old(self).left().drop_first()
            },
    {
        proof {
            use_type_invariant(&*self);
            self.type_a.lemma_wf();
            if let Some(t) = self.type_b {
                t.lemma_wf();
            }
        }
        let ghost mem_seq = self.mem();
        let ghost res_seq = self.res();
        let mem = self.type_a.regions();
        let filter = self.filter;
        let m_hi = self.m_hi;
        let r_hi = self.r_hi;
        let mut m_lo = self.m_lo;
        let mut r_lo = self.r_lo;
        while m_lo < m_hi && r_lo <= r_hi
            invariant
                *self == *old(self),
                mem@ == mem_seq,
                self.mem() == mem_seq,
                self.res() == res_seq,
                layout::ordered(mem_seq),
                layout::ordered(res_seq),
                m_lo <= m_hi <= mem_seq.len(),
                m_hi == self.m_hi,
                r_hi == self.r_hi,
                r_lo <= res_seq.len() <= N,
                r_hi <= res_seq.len(),
                filter == self.filter,
                self.left() == free::grid(
                    mem_seq,
                    res_seq,
                    filter,
                    m_lo as int,
                    m_hi as int,
                    r_lo as int,
                    r_hi + 1,
                ),
            decreases (m_hi - m_lo) + (r_hi + 1 - r_lo),
        {
            let m = mem[m_lo];
            let m_base = m.base();
            let m_end = m.end();
            let (r_base, r_end) = self.gap(r_lo);
            proof {
                use_type_invariant(&*self);
                m_end.lemma_value();
                free::lemma_bounds(res_seq, r_lo as int);
            }
            let skip = match filter {
                Some(flags) => should_skip_region(m, flags),
                None => false,
            };
            if skip || r_base >= m_end {
                proof {
                    free::lemma_front_skip(
                        mem_seq,
                        res_seq,
                        filter,
                        m_lo as int,
                        m_hi as int,
                        r_lo as int,
                        r_hi + 1,
                    );
                }
                m_lo += 1;
                continue;
            }
            let base = greater(m_base, r_base);
            let end = lesser(m_end, r_end);
            // Whichever of the region and the gap ends first is done with.
            if m_end <= r_end {
                proof {
                    free::lemma_front_region(
                        mem_seq,
                        res_seq,
                        filter,
                        m_lo as int,
                        m_hi as int,
                        r_lo as int,
                        r_hi + 1,
                    );
                }
                m_lo += 1;
            } else {
                proof {
                    free::lemma_front_gap(
                        mem_seq,
                        res_seq,
                        filter,
                        m_lo as int,
                        m_hi as int,
                        r_lo as int,
                        r_hi + 1,
                    );
                }
                r_lo += 1;
            }
            if end > base {
                self.m_lo = m_lo;
                self.r_lo = r_lo;
                assert(self.left() =~= old(self).left().drop_first());
                return Some((base, end));
            }
        }
        proof {
            if m_lo < m_hi {
                free::lemma_grid_no_gaps(
                    mem_seq,
                    res_seq,
                    filter,
                    m_lo as int,
                    m_hi as int,
                    r_lo as int,
                    r_hi + 1,
                );
            }
        }
        self.m_lo = m_lo;
        self.r_lo = r_lo;
        None
    }
}

impl<'a, T: PhysAddr, const N: usize> IteratorSpecImpl for Iter<'a, T, N> {
    open spec fn obeys_prophetic_iter_laws(&self) -> bool {
        true
    }

    open spec fn remaining(&self) -> Seq<(T, T)> {
        self.left()
    }

    open spec fn will_return_none(&self) -> bool {
        true
    }

    open spec fn decrease(&self) -> Option<nat> {
        Some(self.left().len())
    }

    open spec fn initial_value_relation(&self, init: &Self) -> bool {
        self.left() == init.left()
    }

    open spec fn peek(&self, index: int) -> Option<(T, T)> {
        if 0 <= index < self.left().len() {
            Some(self.left()[index])
        } else {
            None
        }
    }
}

impl<'a, T: PhysAddr, const N: usize> DoubleEndedIterator for Iter<'a, T, N> {
    /// Yields the last range that is left.
    fn next_back(&mut self) -> (ret: Option<(T, T)>)
        ensures
            old(self).left().len() == 0 ==> ret is None && final(self).left() == old(self).left(),
            old(self).left().len() > 0 ==> {
                &&& ret == Some(old(self).left().last())
                &&& final(self).left() == old(self).left().drop_last()
            },
    {
        proof {
            use_type_invariant(&*self);
            self.type_a.lemma_wf();
            if let Some(t) = self.type_b {
                t.lemma_wf();
            }
        }
        let ghost mem_seq = self.mem();
        let ghost res_seq = self.res();
        let mem = self.type_a.regions();
        let filter = self.filter;
        let m_lo = self.m_lo;
        let r_lo = self.r_lo;
        let mut m_hi = self.m_hi;
        let mut r_hi = self.r_hi;
        while m_lo < m_hi && r_lo <= r_hi
            invariant
                *self == *old(self),
                mem@ == mem_seq,
                self.mem() == mem_seq,
                self.res() == res_seq,
                layout::ordered(mem_seq),
                layout::ordered(res_seq),
                m_lo <= m_hi <= mem_seq.len(),
                m_lo == self.m_lo,
                r_lo == self.r_lo,
                r_lo <= res_seq.len(),
                r_hi <= res_seq.len(),
                filter == self.filter,
                self.left() == free::grid(
                    mem_seq,
                    res_seq,
                    filter,
                    m_lo as int,
                    m_hi as int,
                    r_lo as int,
                    r_hi + 1,
                ),
            decreases (m_hi - m_lo) + (r_hi + 1 - r_lo),
        {
            let m = mem[m_hi - 1];
            let m_base = m.base();
            let m_end = m.end();
            let (r_base, r_end) = self.gap(r_hi);
            proof {
                use_type_invariant(&*self);
                m_end.lemma_value();
                free::lemma_bounds(res_seq, r_hi as int);
            }
            let skip = match filter {
                Some(flags) => should_skip_region(m, flags),
                None => false,
            };
            if skip || r_end <= m_base {
                proof {
                    free::lemma_back_skip(
                        mem_seq,
                        res_seq,
                        filter,
                        m_lo as int,
                        m_hi as int,
                        r_lo as int,
                        r_hi + 1,
                    );
                }
                m_hi -= 1;
                continue;
            }
            let base = greater(m_base, r_base);
            let end = lesser(m_end, r_end);
            // Whichever of the region and the gap starts last is done with.
            if m_base >= r_base {
                proof {
                    free::lemma_back_region(
                        mem_seq,
                        res_seq,
                        filter,
                        m_lo as int,
                        m_hi as int,
                        r_lo as int,
                        r_hi + 1,
                    );
                }
                m_hi -= 1;
            } else {
                proof {
                    free::lemma_back_gap(
                        mem_seq,
                        res_seq,
                        filter,
                        m_lo as int,
                        m_hi as int,
                        r_lo as int,
                        r_hi + 1,
                    );
                }
                r_hi -= 1;
            }
            if end > base {
                self.m_hi = m_hi;
                self.r_hi = r_hi;
                assert(self.left() =~= old(self).left().drop_last());
                return Some((base, end));
            }
        }
        proof {
            if m_lo < m_hi {
                free::lemma_grid_no_gaps(
                    mem_seq,
                    res_seq,
                    filter,
                    m_lo as int,
                    m_hi as int,
                    r_lo as int,
                    r_hi + 1,
                );
            }
        }
        self.m_hi = m_hi;
        self.r_hi = r_hi;
        None
    }
}

impl<'a, T: PhysAddr, const N: usize> DoubleEndedIteratorSpecImpl for Iter<'a, T, N> {
    open spec fn peek_back(&self, index: int) -> Option<(T, T)> {
        if 0 <= index < self.left().len() {
            Some(self.left()[self.left().len() - 1 - index])
        } else {
            None
        }
    }
}

} // verus!

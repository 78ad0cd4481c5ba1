//! The core memblock data structures and algorithms.
use crate::addr;
use crate::addr::align_down;
use crate::addr::align_up;
use crate::addr::cap_size;
use crate::addr::greater;
use crate::addr::lesser;
use crate::addr::saturating_add;
use crate::addr::PhysAddr;
use crate::error::Error;
use crate::flags::MemblockFlags;
use crate::free;
use crate::free::Search;
use crate::iter::pfn;
use crate::iter::range;
use crate::layout;
use crate::region::MemblockRegion;
use vstd::arithmetic::power2::*;
use vstd::prelude::*;

verus! {

broadcast use addr::group_addresses;

/// An ordered, fixed-capacity collection of memory regions.
///
/// Regions are kept sorted by `base` and non-overlapping; adjacent regions
/// with identical flags are merged automatically. `total_size` tracks the
/// sum of all region sizes.
#[derive(Debug)]
pub struct MemblockType<T: PhysAddr, const N: usize> {
    regions: [MemblockRegion<T>; N],
    cnt: usize,
    total_size: T,
}

impl<T: PhysAddr, const N: usize> Clone for MemblockType<T, N> {
    fn clone(&self) -> (r: Self)
        ensures
            r == *self,
    {
        MemblockType { regions: self.regions, cnt: self.cnt, total_size: self.total_size }
    }
}

impl<T: PhysAddr, const N: usize> View for MemblockType<T, N> {
    type V = Map<int, MemblockFlags>;

    /// The addresses that the collection holds, each with its flags.
    open spec fn view(&self) -> Map<int, MemblockFlags> {
        layout::contents(self.list())
    }
}

impl<T: PhysAddr, const N: usize> MemblockType<T, N> {
    /// The stored regions.
    pub closed spec fn list(self) -> Seq<MemblockRegion<T>> {
        self.regions@.subrange(0, self.cnt as int)
    }

    /// The stored regions fit, do not overlap, and their sizes are summed up.
    closed spec fn consistent(self) -> bool {
        &&& self.cnt <= N
        &&& layout::ordered(self.list())
        &&& self.total_size.addr() == layout::total(self.list())
    }

    /// The invariant of the collection.
    pub closed spec fn wf(self) -> bool {
        &&& self.consistent()
        &&& layout::merged(self.list())
    }

    /// What [`add`](MemblockType::add) does to `self`: it returns `r` and
    /// leaves `after`.
    pub open spec fn adds(
        self,
        base: T,
        size: T,
        flags: MemblockFlags,
        r: Result<(), Error>,
        after: Self,
    ) -> bool {
        let lo = base.addr() as int;
        let hi = addr::range_end(base, size) as int;
        &&& after.wf()
        &&& r == (if layout::pieces_needed(self.list(), lo, hi) <= N - self.list().len() {
            Ok(())
        } else {
            Err(Error::OverCapacity)
        })
        &&& r is Err ==> after == self
        &&& r is Ok ==> after@ == layout::added(self@, lo, hi, flags)
    }

    /// What [`remove`](MemblockType::remove) does to `self`: it returns `r`
    /// and leaves `after`.
    pub open spec fn removes(self, base: T, size: T, r: Result<(), Error>, after: Self) -> bool {
        let lo = base.addr() as int;
        let hi = addr::range_end(base, size) as int;
        &&& after.wf()
        &&& r == (if lo < hi && self.list().len() + layout::splits_needed(self.list(), lo, hi)
            > N {
            Err(Error::OverCapacity)
        } else {
            Ok(())
        })
        &&& r is Err ==> after == self
        &&& r is Ok ==> after@ == layout::removed(self@, lo, hi)
    }

    /// What setting or clearing `flag` on a range does to `self`: it returns
    /// `r` and leaves `after`. It takes two free slots, one for a split at
    /// either end, whether or not regions are split there.
    pub open spec fn sets_flag(
        self,
        base: T,
        size: T,
        flag: MemblockFlags,
        set: bool,
        r: Result<(), Error>,
        after: Self,
    ) -> bool {
        let lo = base.addr() as int;
        let hi = addr::range_end(base, size) as int;
        &&& after.wf()
        &&& r == (if lo < hi && self.list().len() + 2 > N {
            Err(Error::OverCapacity)
        } else {
            Ok(())
        })
        &&& r is Err ==> after == self
        &&& r is Ok ==> after@ == layout::flagged(self@, lo, hi, flag, set)
    }

    /// Some address of `[base, base + size)`, clamped to the top of the
    /// address space, is held.
    pub open spec fn meets(self, base: T, size: T) -> bool {
        exists|a: int|
            base.addr() <= a < addr::range_end(base, size) && #[trigger] self@.contains_key(a)
    }

    /// One region holds `base` and reaches as far as `[base, base + size)`,
    /// clamped to the top of the address space.
    pub open spec fn encloses(self, base: T, size: T) -> bool {
        exists|i: int|
            0 <= i < self.list().len() && layout::holds(
                #[trigger] self.list()[i],
                base.addr() as int,
            ) && addr::range_end(base, size) <= self.list()[i].hi()
    }

    /// Copies `count` regions from index `src` to index `dst`.
    fn move_regions(&mut self, src: usize, dst: usize, count: usize) -> (r: Result<(), Error>)
        ensures
            final(self).cnt == old(self).cnt,
            final(self).total_size == old(self).total_size,
            r == (if count == 0 || src == dst || (src + count <= N && dst + count <= N) {
                Ok(())
            } else {
                Err(Error::InternalError)
            }),
            r is Err ==> final(self).regions@ == old(self).regions@,
            r is Ok ==> forall|i: int|
                0 <= i < N ==> (#[trigger] final(self).regions@[i]) == (if dst <= i < dst + count {
                    old(self).regions@[i - dst + src]
                } else {
                    old(self).regions@[i]
                }),
    {
        if count == 0 || src == dst {
            return Ok(());
        }
        if src > N || count > N - src || dst > N || count > N - dst {
            return Err(Error::InternalError);
        }
        if dst < src {
            let mut k: usize = 0;
            while k < count
                invariant
                    k <= count,
                    dst < src,
                    src + count <= N,
                    self.cnt == old(self).cnt,
                    self.total_size == old(self).total_size,
                    forall|i: int|
                        0 <= i < N ==> (#[trigger] self.regions@[i]) == (if dst <= i < dst + k {
                            old(self).regions@[i - dst + src]
                        } else {
                            old(self).regions@[i]
                        }),
                decreases count - k,
            {
                self.regions[dst + k] = self.regions[src + k];
                k += 1;
            }
        } else {
            let mut k: usize = count;
            while k > 0
                invariant
                    k <= count,
                    src < dst,
                    dst + count <= N,
                    self.cnt == old(self).cnt,
                    self.total_size == old(self).total_size,
                    forall|i: int|
                        0 <= i < N ==> (#[trigger] self.regions@[i]) == (if dst + k <= i < dst
                            + count {
                            old(self).regions@[i - dst + src]
                        } else {
                            old(self).regions@[i]
                        }),
                decreases k,
            {
                k -= 1;
                self.regions[dst + k] = self.regions[src + k];
            }
        }
        Ok(())
    }

    /// Joins neighbours that touch and have the same flags.
    fn merge_regions(&mut self)
        requires
            old(self).consistent(),
        ensures
            final(self).wf(),
            final(self)@ == old(self)@,
            final(self).total_size == old(self).total_size,
    {
        if self.cnt <= 1 {
            return;
        }
        let mut i: usize = 0;
        while i + 1 < self.cnt
            invariant
                i < self.cnt,
                self.consistent(),
                self@ == old(self)@,
                self.total_size == old(self).total_size,
                forall|k: int| 0 <= k < i ==> !#[trigger] layout::joinable(self.list(), k),
            decreases self.cnt - i,
        {
            let ghost s = self.list();
            let curr = self.regions[i];
            let next = self.regions[i + 1];
            proof {
                assert(curr == s[i as int] && next == s[i + 1]);
                assert(layout::valid(curr) && layout::valid(next));
            }
            if curr.end() == next.base() && curr.flags() == next.flags() {
                let joined = MemblockRegion::with_flags(
                    curr.base(),
                    curr.size() + next.size(),
                    curr.flags(),
                );
                self.move_regions(i + 1, i, self.cnt - i - 1).unwrap();
                self.regions[i] = joined;
                self.cnt -= 1;
                self.regions[self.cnt] = MemblockRegion::EMPTY();
                proof {
                    let t = self.list();
                    assert(t =~= s.remove(i + 1).update(i as int, joined));
                    layout::lemma_join(s, i as int, joined);
                    assert forall|k: int| 0 <= k < i implies !#[trigger] layout::joinable(
                        t,
                        k,
                    ) by {
                        assert(!layout::joinable(s, k));
                    }
                }
            } else {
                i += 1;
            }
        }
    }

    /// Inserts `region` before index `pos`.
    fn insert_region(&mut self, pos: usize, region: MemblockRegion<T>) -> (r: Result<(), Error>)
        requires
            old(self).cnt <= N,
            old(self).total_size.addr() + region.size().addr() <= T::MAX.addr(),
        ensures
            r == (if old(self).cnt >= N {
                Err(Error::OverCapacity)
            } else if pos > old(self).cnt {
                Err(Error::InternalError)
            } else {
                Ok(())
            }),
            r is Err ==> *final(self) == *old(self),
            r is Ok ==> {
                &&& final(self).cnt == old(self).cnt + 1
                &&& final(self).list() == old(self).list().insert(pos as int, region)
                &&& final(self).total_size.addr() == old(self).total_size.addr()
                    + region.size().addr()
            },
    {
        if self.cnt >= N {
            return Err(Error::OverCapacity);
        }
        if pos > self.cnt {
            return Err(Error::InternalError);
        }
        if pos < self.cnt {
            self.move_regions(pos, pos + 1, self.cnt - pos).unwrap();
        }
        self.regions[pos] = region;
        self.cnt += 1;
        self.total_size = self.total_size + region.size();
        assert(self.list() =~= old(self).list().insert(pos as int, region));
        Ok(())
    }

    /// Removes the region at index `r`.
    fn remove_region(&mut self, r: usize)
        requires
            old(self).consistent(),
            r < old(self).cnt,
        ensures
            final(self).consistent(),
            final(self).list() == old(self).list().remove(r as int),
            final(self)@ == layout::removed(
                old(self)@,
                old(self).list()[r as int].lo(),
                old(self).list()[r as int].hi(),
            ),
    {
        proof {
            layout::lemma_remove(self.list(), r as int);
        }
        self.total_size = self.total_size - self.regions[r].size();
        self.move_regions(r + 1, r, self.cnt - r - 1).unwrap();
        self.cnt -= 1;
        self.regions[self.cnt] = MemblockRegion::EMPTY();
        assert(self.list() =~= old(self).list().remove(r as int));
    }

    /// Returns `true` if the regions that adding `[base, end)` takes fit into
    /// the unused slots.
    fn has_room(&self, base: T, end: T) -> (r: bool)
        requires
            self.consistent(),
            base.addr() < end.addr(),
        ensures
            r == (layout::pieces_needed(self.list(), base.addr() as int, end.addr() as int) <= N
                - self.cnt),
    {
        let ghost s = self.list();
        let ghost lo = base.addr() as int;
        let ghost hi = end.addr() as int;
        let room = N - self.cnt;
        let mut i: usize = 0;
        let mut nr_new: usize = 0;
        let mut cur_base = base;
        while i < self.cnt && self.regions[i].base() < end
            invariant
                self.consistent(),
                s == self.list(),
                lo == base.addr(),
                hi == end.addr(),
                lo < hi,
                room == N - self.cnt,
                i <= self.cnt,
                nr_new == layout::gaps_met(s, lo, hi, i as int),
                nr_new <= room,
                cur_base.addr() == layout::clamped_gap_lo(s, i as int, lo, hi),
            decreases self.cnt - i,
        {
            let rbase = self.regions[i].base();
            let rend = self.regions[i].end();
            proof {
                assert(self.regions@[i as int] == s[i as int]);
                assert(layout::valid(s[i as int]));
                assert(i > 0 ==> s[i - 1].hi() <= s[i as int].lo());
                layout::lemma_gaps_met_monotonic(s, lo, hi, i + 1, s.len() as int + 1);
            }
            if cur_base < rend {
                if cur_base < rbase {
                    if nr_new >= room {
                        return false;
                    }
                    nr_new += 1;
                }
                cur_base = lesser(end, rend);
            }
            i += 1;
        }
        proof {
            assert(hi <= layout::gap_hi(s, i as int)) by {
                if i < self.cnt {
                    assert(self.regions@[i as int] == s[i as int]);
                }
            }
            layout::lemma_gaps_beyond(s, lo, hi, i as int, s.len() as int + 1);
        }
        if cur_base < end {
            nr_new < room
        } else {
            true
        }
    }

    /// Inserts a region with `flags` for each part of `[base, end)` that no
    /// region holds yet.
    fn fill_gaps(&mut self, base: T, end: T, flags: MemblockFlags)
        requires
            old(self).consistent(),
            base.addr() < end.addr(),
            layout::pieces_needed(old(self).list(), base.addr() as int, end.addr() as int) <= N
                - old(self).cnt,
        ensures
            final(self).consistent(),
            final(self)@ == layout::added(
                old(self)@,
                base.addr() as int,
                end.addr() as int,
                flags,
            ),
    {
        let ghost s0 = self.list();
        let ghost lo = base.addr() as int;
        let ghost hi = end.addr() as int;
        let ghost mut k: int = 0;
        let mut i: usize = 0;
        let mut cur_base = base;
        assert(layout::added(self@, lo, lo, flags) =~= self@);
        while i < self.cnt && self.regions[i].base() < end
            invariant
                self.consistent(),
                layout::ordered(s0),
                lo == base.addr(),
                hi == end.addr(),
                lo < hi,
                layout::pieces_needed(s0, lo, hi) <= N - s0.len(),
                0 <= k <= s0.len(),
                k <= i,
                self.cnt - i == s0.len() - k,
                forall|j: int|
                    k <= j < s0.len() ==> (#[trigger] s0[j]) == self.list()[j + (i - k)],
                self.cnt == s0.len() + layout::gaps_met(s0, lo, hi, k),
                cur_base.addr() == layout::clamped_gap_lo(s0, k, lo, hi),
                i > 0 && cur_base.addr() < hi ==> self.list()[i - 1].hi() <= cur_base.addr(),
                self@ == layout::added(
                    layout::contents(s0),
                    lo,
                    cur_base.addr() as int,
                    flags,
                ),
            decreases s0.len() - k,
        {
            let ghost s = self.list();
            let rbase = self.regions[i].base();
            let rend = self.regions[i].end();
            proof {
                assert(self.regions@[i as int] == s[i as int]);
                assert(s0[k] == s[k + (i - k)]);
                assert(layout::valid(s0[k]));
                assert(k > 0 ==> s0[k - 1].hi() <= s0[k].lo());
                layout::lemma_gaps_met_monotonic(s0, lo, hi, k + 1, s0.len() as int + 1);
            }
            if cur_base < rend {
                if cur_base < rbase {
                    let region = MemblockRegion::with_flags(cur_base, rbase - cur_base, flags);
                    proof {
                        assert(layout::gap_meets(s0, k, lo, hi));
                        layout::lemma_insert(s, i as int, region);
                        layout::lemma_total_bound(s.insert(i as int, region));
                        layout::lemma_added_twice(
                            layout::contents(s0),
                            lo,
                            region.lo(),
                            region.hi(),
                            flags,
                        );
                    }
                    let _ = self.insert_region(i, region);
                    i += 1;
                }
                proof {
                    let mid = if cur_base.addr() < rbase.addr() {
                        rbase.addr() as int
                    } else {
                        cur_base.addr() as int
                    };
                    let top = if end.addr() < rend.addr() {
                        end.addr() as int
                    } else {
                        rend.addr() as int
                    };
                    layout::lemma_added_over(s0, k, lo, mid, top, flags);
                }
                cur_base = lesser(end, rend);
            }
            i += 1;
            proof {
                k = k + 1;
            }
        }
        proof {
            let s = self.list();
            assert(hi <= layout::gap_hi(s0, k)) by {
                if k < s0.len() {
                    assert(s0[k] == s[k + (i - k)]);
                    assert(self.regions@[i as int] == s[i as int]);
                }
            }
            layout::lemma_gaps_beyond(s0, lo, hi, k, s0.len() as int + 1);
        }
        if cur_base < end {
            let region = MemblockRegion::with_flags(cur_base, end - cur_base, flags);
            proof {
                let s = self.list();
                if i < self.cnt {
                    assert(self.regions@[i as int] == s[i as int]);
                }
                layout::lemma_insert(s, i as int, region);
                layout::lemma_total_bound(s.insert(i as int, region));
                layout::lemma_added_twice(
                    layout::contents(s0),
                    lo,
                    region.lo(),
                    region.hi(),
                    flags,
                );
            }
            let _ = self.insert_region(i, region);
        }
    }

    /// Adds the range `[base, base + size)` to this type, tagged with `flags`.
    ///
    /// Overlapping parts of existing regions are left untouched; only the
    /// non-overlapping gaps are added. Adjacent regions with the same flags
    /// are merged afterwards. A zero `size` is a no-op, and a range that
    /// reaches past the top of the address space is truncated there.
    ///
    /// # Errors
    ///
    /// Returns [`Error::OverCapacity`], and changes nothing, if the fixed
    /// region array has no room for the gaps that the range meets.
    pub fn add(&mut self, base: T, size: T, flags: MemblockFlags) -> (r: Result<(), Error>)
        requires
            old(self).wf(),
        ensures
            old(self).adds(base, size, flags, r, *final(self)),
    {
        let size = cap_size(base, size);
        if size == T::ZERO {
            proof {
                let lo = base.addr() as int;
                layout::lemma_no_gaps_met(self.list(), lo, lo, self.list().len() as int + 1);
                assert(layout::added(self@, lo, lo, flags) =~= self@);
            }
            return Ok(());
        }
        let end = base + size;
        proof {
            layout::lemma_gaps_met_monotonic(
                self.list(),
                base.addr() as int,
                end.addr() as int,
                0,
                self.list().len() as int + 1,
            );
        }
        // With more than half of the slots unused, the pieces fit anyhow.
        if self.cnt >= N - self.cnt && !self.has_room(base, end) {
            return Err(Error::OverCapacity);
        }
        self.fill_gaps(base, end, flags);
        self.merge_regions();
        Ok(())
    }

    /// Returns `true` if a region reaches across the address `at`.
    fn is_split_at(&self, at: T) -> (r: bool)
        requires
            self.wf(),
        ensures
            r == layout::splits_at(self.list(), at.addr() as int),
    {
        let ghost s = self.list();
        let ghost a = at.addr() as int;
        match self.search(at) {
            Some(i) => {
                proof {
                    assert(self.regions@[i as int] == s[i as int]);
                    assert forall|k: int|
                        0 <= k < s.len() && (#[trigger] s[k]).lo() < a < s[k].hi() implies k == i by {
                        layout::lemma_holds(s, k, a);
                        layout::lemma_holds(s, i as int, a);
                    }
                }
                self.regions[i].base() < at
            },
            None => {
                proof {
                    if layout::splits_at(s, a) {
                        let k = choose|k: int|
                            0 <= k < s.len() && (#[trigger] s[k]).lo() < a < s[k].hi();
                        layout::lemma_holds(s, k, a);
                    }
                }
                false
            },
        }
    }

    /// Splits the region at index `idx` in two at the address `at`.
    fn split_region(&mut self, idx: usize, at: T)
        requires
            old(self).consistent(),
            old(self).cnt < N,
            idx < old(self).cnt,
            old(self).list()[idx as int].lo() < at.addr() < old(self).list()[idx as int].hi(),
        ensures
            final(self).consistent(),
            final(self).cnt == old(self).cnt + 1,
            final(self)@ == old(self)@,
            forall|k: int| 0 <= k < idx ==> #[trigger] final(self).list()[k] == old(self).list()[k],
            final(self).list()[idx as int].lo() == old(self).list()[idx as int].lo(),
            final(self).list()[idx as int].hi() == at.addr(),
            final(self).list()[idx + 1].lo() == at.addr(),
            final(self).list()[idx + 1].hi() == old(self).list()[idx as int].hi(),
            forall|x: int, y: int|
                layout::joints_at(old(self).list(), x, y) && (at.addr() == x || at.addr() == y)
                    ==> #[trigger] layout::joints_at(final(self).list(), x, y),
            forall|x: int| #[trigger]
                layout::splits_at(final(self).list(), x) ==> layout::splits_at(
                    old(self).list(),
                    x,
                ),
    {
        let ghost s = self.list();
        let r = self.regions[idx];
        let base = r.base();
        let end = r.end();
        let flags = r.flags();
        proof {
            assert(r == s[idx as int]);
            assert(layout::valid(r));
            layout::lemma_total_bound(s);
        }
        let left = MemblockRegion::with_flags(base, at - base, flags);
        let right = MemblockRegion::with_flags(at, end - at, flags);
        proof {
            layout::lemma_split(s, idx as int, left, right);
            layout::lemma_total_update(s, idx as int, right);
            let t = s.update(idx as int, right).insert(idx as int, left);
            assert forall|x: int, y: int|
                layout::joints_at(s, x, y) && (at.addr() == x || at.addr()
                    == y) implies #[trigger] layout::joints_at(t, x, y) by {
                layout::lemma_split_joints(s, idx as int, left, right, x, y);
            }
            assert forall|x: int| #[trigger] layout::splits_at(t, x) implies layout::splits_at(
                s,
                x,
            ) by {
                layout::lemma_split_narrows(s, idx as int, left, right, x);
            }
        }
        self.regions[idx] = right;
        self.total_size = self.total_size - (at - base);
        assert(self.list() =~= s.update(idx as int, right));
        let _ = self.insert_region(idx, left);
    }

    /// Splits regions so that `[base, base + size)` starts and ends between
    /// regions, and returns the indices of those in it.
    fn isolate_range(&mut self, base: T, size: T) -> (r: Result<(usize, usize), Error>)
        requires
            old(self).wf(),
        ensures
            r is Err ==> *final(self) == *old(self),
            ({
                let lo = base.addr() as int;
                let hi = addr::range_end(base, size) as int;
                let s = final(self).list();
                match r {
                    Ok((i, j)) => {
                        &&& lo < hi ==> old(self).list().len() + layout::splits_needed(
                            old(self).list(),
                            lo,
                            hi,
                        ) <= N
                        &&& final(self).consistent()
                        &&& final(self)@ == old(self)@
                        &&& layout::joints_at(s, lo, hi)
                        &&& i <= j <= s.len()
                        &&& lo >= hi ==> i == j && *final(self) == *old(self)
                        &&& forall|k: int|
                            i <= k < j ==> lo <= (#[trigger] s[k]).lo() && s[k].hi() <= hi
                        &&& forall|k: int|
                            0 <= k < s.len() && !(i <= k < j) && lo < hi ==> (#[trigger] s[k]).hi()
                                <= lo || hi <= s[k].lo()
                    },
                    Err(e) => {
                        &&& e == Error::OverCapacity
                        &&& lo < hi
                        &&& old(self).list().len() + layout::splits_needed(
                            old(self).list(),
                            lo,
                            hi,
                        ) > N
                    },
                }
            }),
    {
        let size = cap_size(base, size);
        if size == T::ZERO {
            return Ok((0, 0));
        }
        let end = base + size;
        let ghost lo = base.addr() as int;
        let ghost hi = end.addr() as int;
        let ghost s0 = self.list();
        let mut splits: usize = 0;
        if self.is_split_at(base) {
            splits += 1;
        }
        if self.is_split_at(end) {
            splits += 1;
        }
        if splits > N - self.cnt {
            return Err(Error::OverCapacity);
        }
        // Whether a region was split at `base`, and at `end`.
        let ghost mut at_base: int = 0;
        let ghost mut at_end: int = 0;
        let mut start_rgn: usize = 0;
        let mut end_rgn: usize = 0;
        let mut idx: usize = 0;
        while idx < self.cnt && self.regions[idx].base() < end
            invariant
                self.consistent(),
                self@ == old(self)@,
                layout::joints_at(self.list(), lo, hi),
                lo == base.addr(),
                hi == end.addr(),
                lo < hi,
                s0.len() + layout::splits_needed(s0, lo, hi) <= N,
                self.cnt == s0.len() + at_base + at_end,
                0 <= at_base <= 1,
                0 <= at_end <= 1,
                at_base == 1 ==> layout::splits_at(s0, lo),
                at_end == 1 ==> layout::splits_at(s0, hi),
                forall|x: int| #[trigger]
                    layout::splits_at(self.list(), x) ==> layout::splits_at(s0, x),
                idx <= self.cnt,
                at_base == 1 || at_end == 1 ==> forall|k: int|
                    idx <= k < self.cnt ==> lo <= (#[trigger] self.list()[k]).lo(),
                at_end == 1 ==> forall|k: int|
                    idx <= k < self.cnt ==> (#[trigger] self.list()[k]).hi() <= hi || hi
                        <= self.list()[k].lo(),
                start_rgn <= end_rgn,
                end_rgn == 0 || (start_rgn < end_rgn && end_rgn == idx),
                forall|k: int|
                    0 <= k < (if end_rgn == 0 { idx } else { start_rgn }) ==> (
                    #[trigger] self.list()[k]).hi() <= lo,
                forall|k: int|
                    start_rgn <= k < end_rgn ==> lo <= (#[trigger] self.list()[k]).lo()
                        && self.list()[k].hi() <= hi,
            decreases 2 - at_base - at_end, self.cnt - idx,
        {
            let ghost s = self.list();
            let r = self.regions[idx];
            let rbase = r.base();
            let rend = r.end();
            proof {
                assert(r == s[idx as int]);
                assert(layout::valid(r));
                if end_rgn > 0 {
                    assert(layout::valid(s[idx - 1]));
                    assert(s[idx - 1].hi() <= s[idx as int].lo());
                }
            }
            if rend <= base {
                idx += 1;
            } else if rbase < base {
                assert(layout::splits_at(s, lo));
                self.split_region(idx, base);
                idx += 1;
                proof {
                    at_base = 1;
                    let t = self.list();
                    assert forall|k: int| idx <= k < self.cnt implies lo <= (
                    #[trigger] t[k]).lo() by {
                        assert(layout::valid(t[idx as int]));
                        assert(k > idx ==> t[idx as int].hi() <= t[k].lo());
                    }
                }
            } else if rend > end {
                assert(layout::splits_at(s, hi));
                self.split_region(idx, end);
                proof {
                    at_end = 1;
                    let t = self.list();
                    assert forall|k: int| idx <= k < self.cnt implies (#[trigger] t[k]).hi() <= hi
                        || hi <= t[k].lo() by {
                        assert(layout::valid(t[idx + 1]));
                        assert(k > idx + 1 ==> t[idx + 1].hi() <= t[k].lo());
                    }
                    assert forall|k: int| idx <= k < self.cnt implies lo <= (
                    #[trigger] t[k]).lo() by {
                        assert(layout::valid(t[idx as int]));
                        assert(k > idx ==> t[idx as int].hi() <= t[k].lo());
                    }
                }
            } else {
                if end_rgn == 0 {
                    start_rgn = idx;
                }
                end_rgn = idx + 1;
                idx += 1;
            }
        }
        proof {
            let s = self.list();
            assert forall|k: int| idx <= k < s.len() implies hi <= (#[trigger] s[k]).lo() by {
                assert(self.regions@[idx as int] == s[idx as int]);
                assert(layout::valid(s[idx as int]));
                assert(k > idx ==> s[idx as int].hi() <= s[k].lo());
            }
        }
        Ok((start_rgn, end_rgn))
    }

    /// Removes the range `[base, base + size)` from this type.
    ///
    /// The range may span multiple regions or overlap them partially; regions
    /// are split at the boundaries as needed. Removing a range that is not
    /// present is a no-op.
    ///
    /// # Errors
    ///
    /// Returns [`Error::OverCapacity`], and changes nothing, if splitting
    /// regions would overflow the fixed region array.
    pub fn remove(&mut self, base: T, size: T) -> (r: Result<(), Error>)
        requires
            old(self).wf(),
        ensures
            old(self).removes(base, size, r, *final(self)),
    {
        let ghost lo = base.addr() as int;
        let ghost hi = addr::range_end(base, size) as int;
        let (start_rgn, end_rgn) = match self.isolate_range(base, size) {
            Ok(range) => range,
            Err(e) => {
                return Err(e);
            },
        };
        let ghost s = self.list();
        let mut i = end_rgn;
        assert(layout::cut(s, i as int, end_rgn as int) =~= s);
        while i > start_rgn
            invariant
                self.consistent(),
                start_rgn <= i <= end_rgn <= s.len(),
                self.list() == layout::cut(s, i as int, end_rgn as int),
            decreases i,
        {
            i -= 1;
            self.remove_region(i);
            assert(self.list() =~= layout::cut(s, i as int, end_rgn as int));
        }
        proof {
            if lo < hi {
                layout::lemma_cut(s, start_rgn as int, end_rgn as int, lo, hi);
            } else {
                assert(self.list() =~= s);
                assert(self@ =~= layout::removed(old(self)@, lo, hi));
            }
        }
        Ok(())
    }

    /// Sets or clears `flag` on the range `[base, base + size)`.
    ///
    /// # Errors
    ///
    /// Returns [`Error::OverCapacity`], and changes nothing, if the range is
    /// not empty and the fixed region array has fewer than two free slots, one
    /// for a split at either end.
    pub(crate) fn set_flag(
        &mut self,
        base: T,
        size: T,
        flag: MemblockFlags,
        set: bool,
    ) -> (r: Result<(), Error>)
        requires
            old(self).wf(),
        ensures
            old(self).sets_flag(base, size, flag, set, r, *final(self)),
    {
        let ghost lo = base.addr() as int;
        let ghost hi = addr::range_end(base, size) as int;
        if cap_size(base, size) != T::ZERO && N - self.cnt < 2 {
            return Err(Error::OverCapacity);
        }
        let (start_rgn, end_rgn) = match self.isolate_range(base, size) {
            Ok(range) => range,
            Err(e) => {
                return Err(e);
            },
        };
        let ghost s = self.list();
        let ghost cnt = self.cnt;
        let ghost total_size = self.total_size;
        let mut i = start_rgn;
        while i < end_rgn
            invariant
                start_rgn <= i <= end_rgn <= cnt,
                self.cnt == cnt <= N,
                self.total_size == total_size,
                s.len() == cnt,
                forall|k: int|
                    0 <= k < s.len() ==> (#[trigger] self.list()[k]).base() == s[k].base()
                        && self.list()[k].size() == s[k].size() && self.list()[k].flags() == (
                    if start_rgn <= k < i {
                        layout::changed(s[k].flags(), flag, set)
                    } else {
                        s[k].flags()
                    }),
            decreases end_rgn - i,
        {
            let ghost t = self.list();
            let r = self.regions[i];
            assert(r == t[i as int]);
            let new_flags = if set {
                r.flags().union(flag)
            } else {
                r.flags().intersection(flag.complement())
            };
            let region = MemblockRegion::with_flags(r.base(), r.size(), new_flags);
            self.regions[i] = region;
            assert(self.list() =~= t.update(i as int, region));
            i += 1;
        }
        proof {
            layout::lemma_flag_range(
                s,
                self.list(),
                start_rgn as int,
                end_rgn as int,
                lo,
                hi,
                flag,
                set,
            );
        }
        self.merge_regions();
        Ok(())
    }

    /// The same regions are stored and the same size is recorded. What is in
    /// unused slots does not matter.
    pub closed spec fn same_regions(self, other: Self) -> bool {
        &&& self.cnt == other.cnt
        &&& self.total_size == other.total_size
        &&& forall|k: int|
            0 <= k < self.cnt && k < N ==> #[trigger] self.regions@[k] == other.regions@[k]
    }

    /// Collections compare equal exactly where they hold the same addresses
    /// with the same flags.
    pub proof fn lemma_equality(self, other: Self)
        requires
            self.wf(),
            other.wf(),
        ensures
            self.same_regions(other) <==> self.list() == other.list(),
            self.same_regions(other) <==> self@ == other@,
    {
        self.total_size.lemma_value();
        other.total_size.lemma_value();
        if self.same_regions(other) {
            assert(self.list() =~= other.list());
        }
        if self@ == other@ {
            layout::lemma_unique(self.list(), other.list());
        }
        if self.list() == other.list() {
            assert forall|k: int| 0 <= k < self.cnt && k < N implies #[trigger] self.regions@[k]
                == other.regions@[k] by {
                assert(self.list()[k] == other.list()[k]);
            }
        }
    }

    /// Creates a collection that holds no regions.
    fn new() -> (r: Self)
        ensures
            r.wf(),
            r.list() == Seq::<MemblockRegion<T>>::empty(),
    {
        let r = MemblockType {
            regions: [MemblockRegion::EMPTY();N],
            cnt: 0,
            total_size: T::ZERO,
        };
        assert(r.list() =~= Seq::<MemblockRegion<T>>::empty());
        r
    }

    /// Regions are sorted by base and do not overlap, neighbours that touch
    /// differ in their flags, and there are at most `N` of them.
    pub proof fn lemma_wf(self)
        requires
            self.wf(),
        ensures
            self.list().len() <= N,
            layout::ordered(self.list()),
            layout::merged(self.list()),
    {
    }

    /// Returns the number of regions currently stored.
    pub fn count(&self) -> (r: usize)
        requires
            self.wf(),
        ensures
            r == self.list().len(),
    {
        self.cnt
    }

    /// Returns `true` if this type holds no regions.
    pub fn is_empty(&self) -> (r: bool)
        requires
            self.wf(),
        ensures
            r == (self.list().len() == 0),
    {
        self.cnt == 0
    }

    /// Returns the fixed capacity of the region array.
    pub fn capacity(&self) -> (r: usize)
        ensures
            r == N,
    {
        N
    }

    /// Returns the currently stored regions, sorted by `base`.
    pub fn regions(&self) -> (r: &[MemblockRegion<T>])
        requires
            self.wf(),
        ensures
            r@ == self.list(),
    {
        vstd::slice::slice_subrange(self.regions.as_slice(), 0, self.cnt)
    }

    /// Returns the total size of all stored regions.
    pub fn total_size(&self) -> (r: T)
        requires
            self.wf(),
        ensures
            r.addr() == layout::total(self.list()),
    {
        self.total_size
    }

    /// Returns the index of the region containing `addr`, if any.
    pub fn search(&self, addr: T) -> (r: Option<usize>)
        requires
            self.wf(),
        ensures
            match r {
                Some(i) => i < self.list().len() && layout::holds(
                    self.list()[i as int],
                    addr.addr() as int,
                ),
                None => !self@.contains_key(addr.addr() as int),
            },
    {
        let ghost s = self.list();
        let ghost a = addr.addr() as int;
        let mut lo: usize = 0;
        let mut hi: usize = self.cnt;
        while lo < hi
            invariant
                self.wf(),
                s == self.list(),
                a == addr.addr(),
                lo <= hi <= self.cnt,
                forall|k: int| 0 <= k < lo ==> (#[trigger] s[k]).hi() <= a,
                forall|k: int| hi <= k < s.len() ==> a < (#[trigger] s[k]).lo(),
            decreases hi - lo,
        {
            let mid = lo + (hi - lo) / 2;
            let r = self.regions[mid];
            proof {
                assert(r == s[mid as int]);
                assert(layout::valid(r));
            }
            if addr < r.base() {
                assert forall|k: int| mid <= k < s.len() implies a < (#[trigger] s[k]).lo() by {
                    assert(k > mid ==> s[mid as int].hi() <= s[k].lo());
                }
                hi = mid;
            } else if addr >= r.end() {
                assert forall|k: int| 0 <= k < mid + 1 implies (#[trigger] s[k]).hi() <= a by {
                    assert(k < mid ==> s[k].hi() <= s[mid as int].lo());
                }
                lo = mid + 1;
            } else {
                return Some(mid);
            }
        }
        assert(!layout::covers(s, a));
        None
    }

    /// Returns `true` if the range `[base, base + size)` overlaps any stored
    /// region. A zero `size` never overlaps.
    pub fn overlaps_region(&self, base: T, size: T) -> (r: bool)
        requires
            self.wf(),
        ensures
            r == self.meets(base, size),
    {
        let ghost s = self.list();
        let ghost lo = base.addr() as int;
        let ghost hi = addr::range_end(base, size) as int;
        let capped = cap_size(base, size);
        if capped == T::ZERO {
            return false;
        }
        let end = base + capped;
        let mut i: usize = 0;
        while i < self.cnt && self.regions[i].base() < end
            invariant
                self.wf(),
                s == self.list(),
                lo == base.addr(),
                hi == end.addr(),
                hi == addr::range_end(base, size),
                lo < hi,
                i <= self.cnt,
                forall|k: int| 0 <= k < i ==> (#[trigger] s[k]).hi() <= lo,
            decreases self.cnt - i,
        {
            let r = self.regions[i];
            assert(r == s[i as int]);
            if base < r.end() {
                proof {
                    assert(layout::valid(r));
                    let a = if r.lo() < lo {
                        lo
                    } else {
                        r.lo()
                    };
                    layout::lemma_holds(s, i as int, a);
                    assert(self@.contains_key(a));
                }
                return true;
            }
            i += 1;
        }
        assert forall|a: int| lo <= a < hi implies !#[trigger] self@.contains_key(a) by {
            if layout::covers(s, a) {
                let k = layout::index_at(s, a);
                assert(layout::holds(s[k], a));
                assert(self.regions@[i as int] == s[i as int]);
                assert(layout::valid(s[i as int]));
                assert(k > i ==> s[i as int].hi() <= s[k].lo());
            }
        }
        false
    }
}

impl<T: PhysAddr, const N: usize> PartialEq for MemblockType<T, N> {
    /// Collections are equal if they store the same regions.
    fn eq(&self, other: &Self) -> (r: bool) {
        let equal_sizes = self.total_size == other.total_size;
        proof {
            addr::equality_of_addresses(self.total_size, other.total_size);
        }
        if self.cnt != other.cnt {
            return false;
        }
        let mut i: usize = 0;
        while i < self.cnt && i < N
            invariant
                i <= N,
                self.cnt == other.cnt,
                forall|k: int|
                    0 <= k < i ==> #[trigger] self.regions@[k] == other.regions@[k],
            decreases N - i,
        {
            if self.regions[i] != other.regions[i] {
                return false;
            }
            i += 1;
        }
        equal_sizes
    }
}

impl<T: PhysAddr, const N: usize> vstd::std_specs::cmp::PartialEqSpecImpl for MemblockType<T, N> {
    open spec fn obeys_eq_spec() -> bool {
        true
    }

    open spec fn eq_spec(&self, other: &Self) -> bool {
        self.same_regions(*other)
    }
}

impl<T: PhysAddr, const N: usize> Eq for MemblockType<T, N> {
}

/// The memblock allocator state.
///
/// Holds two [`MemblockType`]s: `memory` (physical memory available to the
/// kernel) and `reserved` (memory already set aside), plus the allocation
/// policy: `bottom_up` selects the search direction and `current_limit` caps
/// the upper bound used by the allocation functions.
#[derive(Debug)]
pub struct Memblock<T: PhysAddr, const N: usize> {
    memory: MemblockType<T, N>,
    reserved: MemblockType<T, N>,
    bottom_up: bool,
    current_limit: T,
}

impl<T: PhysAddr, const N: usize> Clone for Memblock<T, N> {
    fn clone(&self) -> (r: Self)
        ensures
            r == *self,
    {
        Memblock {
            memory: self.memory.clone(),
            reserved: self.reserved.clone(),
            bottom_up: self.bottom_up,
            current_limit: self.current_limit,
        }
    }
}

impl<T: PhysAddr, const N: usize> PartialEq for Memblock<T, N> {
    /// Allocators are equal if their regions and their policy are.
    fn eq(&self, other: &Self) -> (r: bool) {
        proof {
            addr::equality_of_addresses(self.current_limit, other.current_limit);
        }
        self.memory == other.memory && self.reserved == other.reserved && self.bottom_up
            == other.bottom_up && self.current_limit == other.current_limit
    }
}

impl<T: PhysAddr, const N: usize> vstd::std_specs::cmp::PartialEqSpecImpl for Memblock<T, N> {
    open spec fn obeys_eq_spec() -> bool {
        true
    }

    open spec fn eq_spec(&self, other: &Self) -> bool {
        &&& self.memory().same_regions(*other.memory())
        &&& self.reserved().same_regions(*other.reserved())
        &&& self.same_policy(*other)
    }
}

impl<T: PhysAddr, const N: usize> Eq for Memblock<T, N> {
}

impl<T: PhysAddr, const N: usize> Memblock<T, N> {
    pub closed spec fn spec_memory(&self) -> &MemblockType<T, N> {
        &self.memory
    }

    pub closed spec fn spec_reserved(&self) -> &MemblockType<T, N> {
        &self.reserved
    }

    pub closed spec fn spec_bottom_up(&self) -> bool {
        self.bottom_up
    }

    pub closed spec fn spec_current_limit(&self) -> T {
        self.current_limit
    }

    /// The invariant of the allocator: that of both collections.
    pub open spec fn wf(self) -> bool {
        &&& self.memory().wf()
        &&& self.reserved().wf()
    }

    /// The allocation policy is the same.
    pub open spec fn same_policy(self, after: Self) -> bool {
        &&& after.bottom_up() == self.bottom_up()
        &&& after.current_limit() == self.current_limit()
    }

    /// At most `memory` differs.
    pub open spec fn same_but_memory(self, after: Self) -> bool {
        &&& after.reserved() == self.reserved()
        &&& self.same_policy(after)
    }

    /// At most `reserved` differs.
    pub open spec fn same_but_reserved(self, after: Self) -> bool {
        &&& after.memory() == self.memory()
        &&& self.same_policy(after)
    }

    /// The free ranges: those of `memory` that `reserved` leaves free, less
    /// the regions that the filter leaves out.
    pub open spec fn free_ranges(self, filter: Option<MemblockFlags>) -> Seq<(T, T)> {
        free::free_ranges(self.memory().list(), self.reserved().list(), filter)
    }

    /// The search that this allocator makes for `size` bytes aligned to
    /// `align` in `[start, end]`.
    pub open spec fn search_for(self, size: T, align: T, start: T, end: T) -> Search<T> {
        Search { size, align, start, end, bottom_up: self.bottom_up() }
    }

    /// The lesser of `end` and the limit of this allocator.
    pub open spec fn limited(self, end: T) -> T {
        if self.current_limit().addr() < end.addr() {
            self.current_limit()
        } else {
            end
        }
    }

    /// What an allocation of `size` bytes does to `self`: it returns `r` and
    /// leaves `after`.
    ///
    /// A block is found exactly where the search for it, up to the limit,
    /// finds one. It is then reserved for kernel use, unless the region array
    /// is full.
    pub open spec fn allocates(
        self,
        size: T,
        align: T,
        start: T,
        end: T,
        flags: MemblockFlags,
        r: Result<T, Error>,
        after: Self,
    ) -> bool {
        let search = self.search_for(size, align, start, self.limited(end));
        let ranges = self.free_ranges(Some(flags));
        &&& after.wf()
        &&& self.same_but_reserved(after)
        &&& match r {
            Ok(base) => {
                &&& size.addr() != 0
                &&& self.reserved().list().len() < N
                &&& base.addr() + size.addr() <= T::MAX.addr()
                &&& search.finds(ranges, Some((base, T::at(base.addr() + size.addr()))))
                &&& after.reserved()@ == layout::added(
                    self.reserved()@,
                    base.addr() as int,
                    base.addr() + size.addr() as int,
                    MemblockFlags::RSRV_KERN(),
                )
            },
            Err(e) => {
                &&& after == self
                &&& e == (if size.addr() == 0 || search.finds(ranges, None) {
                    Error::OutOfMemory
                } else {
                    Error::OverCapacity
                })
                &&& e == Error::OverCapacity ==> self.reserved().list().len() == N
            },
        }
    }

    /// Creates an empty memblock with no `memory` or `reserved` regions.
    pub fn new() -> (r: Self)
        ensures
            r.wf(),
            r.memory().list() == Seq::<MemblockRegion<T>>::empty(),
            r.reserved().list() == Seq::<MemblockRegion<T>>::empty(),
            !r.bottom_up(),
            r.current_limit() == T::MAX,
    {
        Memblock {
            memory: MemblockType::new(),
            reserved: MemblockType::new(),
            bottom_up: false,
            current_limit: T::MAX,
        }
    }

    /// Adds the range `[base, base + size)` to `memory`.
    ///
    /// See [`MemblockType::add`].
    pub fn add(&mut self, base: T, size: T, flags: MemblockFlags) -> (r: Result<(), Error>)
        requires
            old(self).wf(),
        ensures
            old(self).memory().adds(base, size, flags, r, *final(self).memory()),
            old(self).same_but_memory(*final(self)),
            final(self).wf(),
    {
        self.memory.add(base, size, flags)
    }

    /// Removes the range `[base, base + size)` from `memory`.
    ///
    /// See [`MemblockType::remove`].
    pub fn remove(&mut self, base: T, size: T) -> (r: Result<(), Error>)
        requires
            old(self).wf(),
        ensures
            old(self).memory().removes(base, size, r, *final(self).memory()),
            old(self).same_but_memory(*final(self)),
            final(self).wf(),
    {
        self.memory.remove(base, size)
    }

    /// Adds the range `[base, base + size)` to `reserved`, without special
    /// attributes.
    pub fn reserve(&mut self, base: T, size: T) -> (r: Result<(), Error>)
        requires
            old(self).wf(),
        ensures
            old(self).reserved().adds(
                base,
                size,
                MemblockFlags::NONE(),
                r,
                *final(self).reserved(),
            ),
            old(self).same_but_reserved(*final(self)),
            final(self).wf(),
    {
        self.reserved.add(base, size, MemblockFlags::NONE())
    }

    /// Adds the range `[base, base + size)` to `reserved` and marks it
    /// reserved for kernel use.
    ///
    /// The allocation functions use this internally so that every allocation
    /// carries [`MemblockFlags::RSRV_KERN`].
    pub fn reserve_kern(&mut self, base: T, size: T) -> (r: Result<(), Error>)
        requires
            old(self).wf(),
        ensures
            old(self).reserved().adds(
                base,
                size,
                MemblockFlags::RSRV_KERN(),
                r,
                *final(self).reserved(),
            ),
            old(self).same_but_reserved(*final(self)),
            final(self).wf(),
    {
        self.reserved.add(base, size, MemblockFlags::RSRV_KERN())
    }

    /// Returns the base address of the first `memory` region, if any.
    pub fn memory_base(&self) -> (r: Option<T>)
        requires
            self.wf(),
        ensures
            r == (if self.memory().list().len() > 0 {
                Some(self.memory().list()[0].base())
            } else {
                None
            }),
    {
        if self.memory.cnt > 0 {
            Some(self.memory.regions[0].base())
        } else {
            None
        }
    }

    /// Returns the allocation direction used by all allocation functions.
    ///
    /// Defaults to `false` (top-down).
    #[verifier::when_used_as_spec(spec_bottom_up)]
    pub fn bottom_up(&self) -> (r: bool)
        ensures
            r == self.bottom_up(),
    {
        self.bottom_up
    }

    /// Sets the allocation direction used by all allocation functions.
    pub fn set_bottom_up(&mut self, bottom_up: bool)
        ensures
            final(self).bottom_up() == bottom_up,
            final(self).memory() == old(self).memory(),
            final(self).reserved() == old(self).reserved(),
            final(self).current_limit() == old(self).current_limit(),
    {
        self.bottom_up = bottom_up;
    }

    /// Returns the upper bound used by the allocation functions.
    ///
    /// The allocation end is clamped to this value. `T::MAX` (the default)
    /// means no limit.
    #[verifier::when_used_as_spec(spec_current_limit)]
    pub fn current_limit(&self) -> (r: T)
        ensures
            r == self.current_limit(),
    {
        self.current_limit
    }

    /// Sets the upper bound used by the allocation functions.
    ///
    /// All allocations, including those with an explicit `end`, are clamped
    /// to this limit.
    pub fn set_current_limit(&mut self, limit: T)
        ensures
            final(self).current_limit() == limit,
            final(self).memory() == old(self).memory(),
            final(self).reserved() == old(self).reserved(),
            final(self).bottom_up() == old(self).bottom_up(),
    {
        self.current_limit = limit;
    }

    /// Returns the reserved region collection.
    #[verifier::when_used_as_spec(spec_reserved)]
    pub fn reserved(&self) -> (r: &MemblockType<T, N>)
        ensures
            r == self.reserved(),
    {
        &self.reserved
    }

    /// Returns the memory region collection.
    #[verifier::when_used_as_spec(spec_memory)]
    pub fn memory(&self) -> (r: &MemblockType<T, N>)
        ensures
            r == self.memory(),
    {
        &self.memory
    }
}

impl<T: PhysAddr, const N: usize> Default for Memblock<T, N> {
    fn default() -> (r: Self)
        ensures
            r.wf(),
            r.memory().list() == Seq::<MemblockRegion<T>>::empty(),
            r.reserved().list() == Seq::<MemblockRegion<T>>::empty(),
            !r.bottom_up(),
            r.current_limit() == T::MAX,
    {
        Self::new()
    }
}

impl<T: PhysAddr, const N: usize> Memblock<T, N> {
    /// Searches the free ranges upwards.
    fn find_bottom_up(
        &self,
        search: &Search<T>,
        filter: Option<MemblockFlags>,
    ) -> (r: Option<(T, T)>)
        requires
            self.wf(),
            is_pow2(search.align.addr() as int),
            search.bottom_up,
        ensures
            search.finds(self.free_ranges(filter), r),
    {
        let ghost ranges = self.free_ranges(filter);
        let mut it = range::Iter::new(&self.memory, Some(&self.reserved), filter);
        let ghost mut n: int = 0;
        proof {
            reveal(is_pow2);
            self.memory.lemma_wf();
            self.reserved.lemma_wf();
            free::lemma_free_ranges_ascend(
                self.memory.list(),
                self.reserved.list(),
                filter,
            );
            assert(ranges.skip(0) =~= ranges);
        }
        loop
            invariant
                ranges == self.free_ranges(filter),
                is_pow2(search.align.addr() as int),
                search.align.addr() > 0,
                search.bottom_up,
                free::ascending(ranges),
                0 <= n <= ranges.len(),
                it.left() == ranges.skip(n),
                forall|k: int, b: nat|
                    0 <= k < n && b % search.align.addr() == 0 ==> !#[trigger] search.fits(
                        ranges[k],
                        b,
                    ),
            decreases ranges.len() - n,
        {
            let (r_start, r_end) = match it.next() {
                Some(p) => p,
                None => {
                    return None;
                },
            };
            assert(ranges[n] == (r_start, r_end));
            let this_start = lesser(greater(r_start, search.start), search.end);
            let this_end = lesser(greater(r_end, search.start), search.end);
            if this_start < this_end {
                let cand = align_up(this_start, search.align);
                proof {
                    assert forall|b: nat|
                        b % search.align.addr() == 0 && #[trigger] search.fits(
                            ranges[n],
                            b,
                        ) implies cand.addr() <= b && cand.addr() % search.align.addr() == 0 by {
                        addr::lemma_nearest_multiple(this_start.addr(), search.align.addr(), b);
                    }
                }
                if cand < this_end && this_end - cand >= search.size {
                    proof {
                        addr::lemma_nearest_multiple(this_start.addr(), search.align.addr(), 0);
                        assert(search.fits(ranges[n], cand.addr()));
                        assert forall|b: nat| #[trigger]
                            search.candidate(ranges, b) implies cand.addr() <= b by {
                            let k = choose|k: int|
                                0 <= k < ranges.len() && search.fits(#[trigger] ranges[k], b);
                            assert(k > n ==> ranges[n].1.addr() <= ranges[k].0.addr());
                        }
                    }
                    return Some((cand, cand + search.size));
                }
            }
            proof {
                n = n + 1;
                assert(it.left() =~= ranges.skip(n));
            }
        }
    }

    /// Searches the free ranges downwards.
    fn find_top_down(
        &self,
        search: &Search<T>,
        filter: Option<MemblockFlags>,
    ) -> (r: Option<(T, T)>)
        requires
            self.wf(),
            is_pow2(search.align.addr() as int),
            !search.bottom_up,
        ensures
            search.finds(self.free_ranges(filter), r),
    {
        let ghost ranges = self.free_ranges(filter);
        let mut it = range::Iter::new(&self.memory, Some(&self.reserved), filter);
        let ghost mut n: int = ranges.len() as int;
        proof {
            reveal(is_pow2);
            self.memory.lemma_wf();
            self.reserved.lemma_wf();
            free::lemma_free_ranges_ascend(
                self.memory.list(),
                self.reserved.list(),
                filter,
            );
            assert(ranges.take(n) =~= ranges);
        }
        loop
            invariant
                ranges == self.free_ranges(filter),
                is_pow2(search.align.addr() as int),
                search.align.addr() > 0,
                !search.bottom_up,
                free::ascending(ranges),
                0 <= n <= ranges.len(),
                it.left() == ranges.take(n),
                forall|k: int, b: nat|
                    n <= k < ranges.len() && b % search.align.addr() == 0
                        ==> !#[trigger] search.fits(ranges[k], b),
            decreases n,
        {
            let (r_start, r_end) = match it.next_back() {
                Some(p) => p,
                None => {
                    return None;
                },
            };
            assert(ranges[n - 1] == (r_start, r_end));
            let this_start = lesser(greater(r_start, search.start), search.end);
            let this_end = lesser(greater(r_end, search.start), search.end);
            if this_end >= search.size {
                let cand = align_down(this_end - search.size, search.align);
                proof {
                    let top = (this_end.addr() - search.size.addr()) as nat;
                    addr::lemma_nearest_multiple(top, search.align.addr(), 0);
                    assert forall|b: nat|
                        b % search.align.addr() == 0 && #[trigger] search.fits(
                            ranges[n - 1],
                            b,
                        ) implies b <= cand.addr() by {
                        addr::lemma_nearest_multiple(top, search.align.addr(), b);
                    }
                }
                if cand >= this_start {
                    proof {
                        assert(search.fits(ranges[n - 1], cand.addr()));
                        assert forall|b: nat| #[trigger]
                            search.candidate(ranges, b) implies b <= cand.addr() by {
                            let k = choose|k: int|
                                0 <= k < ranges.len() && search.fits(#[trigger] ranges[k], b);
                            assert(k < n - 1 ==> ranges[k].1.addr() <= ranges[n - 1].0.addr());
                        }
                    }
                    return Some((cand, cand + search.size));
                }
            }
            proof {
                n = n - 1;
                assert(it.left() =~= ranges.take(n));
            }
        }
    }

    /// Searches the free ranges in the configured direction.
    fn find_free(
        &self,
        size: T,
        align: T,
        start: T,
        end: T,
        filter: Option<MemblockFlags>,
    ) -> (r: Option<(T, T)>)
        requires
            self.wf(),
            is_pow2(align.addr() as int),
        ensures
            self.search_for(size, align, start, end).finds(self.free_ranges(filter), r),
    {
        let search = Search { size, align, start, end, bottom_up: self.bottom_up };
        if self.bottom_up {
            self.find_bottom_up(&search, filter)
        } else {
            self.find_top_down(&search, filter)
        }
    }

    /// Finds a free (unreserved) region of `size` bytes aligned to `align`, a
    /// power of two, within `[start, end]`.
    ///
    /// The search direction follows [`Memblock::bottom_up`]. Regions are
    /// filtered by attribute: `NOMAP` and `DRIVER_MANAGED` regions are
    /// skipped unless the corresponding flag is present in `flags`, while
    /// `MIRROR` and `KHO_SCRATCH` regions are only considered when explicitly
    /// requested, and then no others are. The range is treated as clamped to
    /// `[start, end]`.
    ///
    /// Note that unlike the allocation functions, the result is *not*
    /// reserved; combine with [`Memblock::reserve`] to keep it.
    pub fn find_in_range_node(
        &self,
        size: T,
        align: T,
        start: T,
        end: T,
        flags: MemblockFlags,
    ) -> (r: Option<(T, T)>)
        requires
            self.wf(),
            is_pow2(align.addr() as int),
        ensures
            self.search_for(size, align, start, end).finds(self.free_ranges(Some(flags)), r),
    {
        self.find_free(size, align, start, end, Some(flags))
    }

    /// Finds a free (unreserved) region of `size` bytes aligned to `align`, a
    /// power of two, within `[start, end]`, without attribute-based filtering.
    pub fn find_in_range(&self, start: T, end: T, size: T, align: T) -> (r: Option<(T, T)>)
        requires
            self.wf(),
            is_pow2(align.addr() as int),
        ensures
            self.search_for(size, align, start, end).finds(self.free_ranges(None), r),
    {
        self.find_free(size, align, start, end, None)
    }

    /// Iterates over the free memory ranges, ascending.
    ///
    /// A range is free when it belongs to `memory` but not to `reserved`,
    /// i.e. `memory - reserved`. Regions whose attributes are excluded by
    /// `flags` are skipped, e.g. pass [`MemblockFlags::NOMAP`] to include
    /// NOMAP regions.
    pub fn free_mem_ranges(&self, flags: MemblockFlags) -> (r: range::Iter<'_, T, N>)
        requires
            self.wf(),
        ensures
            r.left() == self.free_ranges(Some(flags)),
    {
        range::Iter::new(&self.memory, Some(&self.reserved), Some(flags))
    }

    /// Iterates over the ranges of the `memory` regions, ascending, reserved
    /// or not.
    ///
    /// Regions whose attributes are excluded by `flags` are skipped, e.g. pass
    /// [`MemblockFlags::NOMAP`] to include NOMAP regions.
    pub fn mem_ranges(&self, flags: MemblockFlags) -> (r: range::Iter<'_, T, N>)
        requires
            self.wf(),
        ensures
            r.left() == free::free_ranges(self.memory().list(), seq![], Some(flags)),
    {
        range::Iter::new(&self.memory, None, Some(flags))
    }

    /// Iterates over the `memory` regions as page frame number (PFN) ranges
    /// `[start_pfn, end_pfn)`.
    ///
    /// `page_size` is the size of a page, not zero. Regions that contain no
    /// full page are skipped.
    pub fn mem_pfn_ranges(&self, page_size: T) -> (r: pfn::Iter<'_, T, N>)
        requires
            self.wf(),
            page_size.addr() != 0,
        ensures
            r.left() == pfn::page_ranges(
                self.memory().list(),
                page_size,
                0,
                self.memory().list().len() as int,
            ),
    {
        pfn::Iter::new(&self.memory, page_size)
    }

    /// Allocates `size` bytes of aligned free memory within `[start, end]`.
    fn alloc_internal(
        &mut self,
        size: T,
        align: T,
        start: T,
        end: T,
        flags: MemblockFlags,
    ) -> (r: Result<T, Error>)
        requires
            old(self).wf(),
            size.addr() == 0 || is_pow2(align.addr() as int),
        ensures
            old(self).allocates(size, align, start, end, flags, r, *final(self)),
    {
        if size == T::ZERO {
            return Err(Error::OutOfMemory);
        }
        let limit = lesser(end, self.current_limit);
        let ghost search = self.search_for(size, align, start, limit);
        let ghost ranges = self.free_ranges(Some(flags));
        match self.find_in_range_node(size, align, start, limit, flags) {
            Some((base, found_end)) => {
                proof {
                    let lo = base.addr() as int;
                    let hi = lo + size.addr() as int;
                    let mem = self.memory.list();
                    let res = self.reserved.list();
                    found_end.lemma_value();
                    self.memory.lemma_wf();
                    self.reserved.lemma_wf();
                    search.lemma_candidate(ranges, base.addr());
                    assert forall|a: int| lo <= a < hi implies !#[trigger] layout::covers(
                        res,
                        a,
                    ) by {
                        assert(free::in_ranges(ranges, a));
                        free::lemma_free_ranges_hold(mem, res, Some(flags), a);
                    }
                    free::lemma_untouched_pieces(res, lo, hi);
                }
                match self.reserve_kern(base, found_end - base) {
                    Ok(()) => Ok(base),
                    Err(e) => {
                        proof {
                            assert(search.candidate(ranges, base.addr()));
                            assert(*self == *old(self));
                        }
                        Err(e)
                    },
                }
            },
            None => Err(Error::OutOfMemory),
        }
    }

    /// Allocates `size` bytes of free memory aligned to `align`, a power of
    /// two, within `[start, end]`.
    ///
    /// The search direction follows [`Memblock::bottom_up`] and the upper
    /// bound is clamped to [`Memblock::current_limit`]. The result is added
    /// to `reserved` with [`MemblockFlags::RSRV_KERN`]; the `flags` argument
    /// only filters which `memory` regions may be allocated from (see
    /// [`Memblock::find_in_range_node`] for the filtering rules).
    ///
    /// # Errors
    ///
    /// Returns [`Error::OutOfMemory`] if `size` is zero or no suitable free
    /// region exists, or [`Error::OverCapacity`] if the region array is full.
    pub fn phys_alloc_range(
        &mut self,
        size: T,
        align: T,
        start: T,
        end: T,
        flags: MemblockFlags,
    ) -> (r: Result<T, Error>)
        requires
            old(self).wf(),
            size.addr() == 0 || is_pow2(align.addr() as int),
        ensures
            old(self).allocates(size, align, start, end, flags, r, *final(self)),
    {
        self.alloc_internal(size, align, start, end, flags)
    }

    /// Allocates `size` bytes of free memory aligned to `align`, a power of
    /// two, using the configured [`Memblock::current_limit`] as the upper
    /// bound and [`Memblock::bottom_up`] as the search direction.
    ///
    /// Equivalent to
    /// [`phys_alloc_range(size, align, T::ZERO, T::MAX, flags)`](Memblock::phys_alloc_range).
    /// The result is added to `reserved` with [`MemblockFlags::RSRV_KERN`];
    /// the `flags` argument only filters which `memory` regions may be
    /// allocated from.
    ///
    /// # Errors
    ///
    /// Returns [`Error::OutOfMemory`] if `size` is zero or no suitable free
    /// region exists, or [`Error::OverCapacity`] if the region array is full.
    pub fn phys_alloc(&mut self, size: T, align: T, flags: MemblockFlags) -> (r: Result<T, Error>)
        requires
            old(self).wf(),
            size.addr() == 0 || is_pow2(align.addr() as int),
        ensures
            old(self).allocates(size, align, T::ZERO, T::MAX, flags, r, *final(self)),
    {
        self.alloc_internal(size, align, T::ZERO, T::MAX, flags)
    }

    /// Releases the reserved block `[base, base + size)`.
    ///
    /// The range is removed from `reserved`. Removing a range that is not
    /// present is a no-op.
    ///
    /// # Errors
    ///
    /// Returns [`Error::OverCapacity`], and changes nothing, if splitting
    /// regions would overflow the region array.
    pub fn phys_free(&mut self, base: T, size: T) -> (r: Result<(), Error>)
        requires
            old(self).wf(),
        ensures
            old(self).reserved().removes(base, size, r, *final(self).reserved()),
            old(self).same_but_reserved(*final(self)),
            final(self).wf(),
    {
        self.reserved.remove(base, size)
    }

    /// Returns the total size of all `memory` regions.
    pub fn phys_mem_size(&self) -> (r: T)
        requires
            self.wf(),
        ensures
            r.addr() == layout::total(self.memory().list()),
    {
        self.memory.total_size
    }

    /// Returns the total size of all `reserved` regions.
    pub fn reserved_size(&self) -> (r: T)
        requires
            self.wf(),
        ensures
            r.addr() == layout::total(self.reserved().list()),
    {
        self.reserved.total_size
    }

    /// Returns the end address of the last `memory` region, if any.
    pub fn memory_end(&self) -> (r: Option<T>)
        requires
            self.wf(),
        ensures
            r == (if self.memory().list().len() > 0 {
                Some(free::end_of(self.memory().list().last()))
            } else {
                None
            }),
    {
        if self.memory.cnt > 0 {
            let end = self.memory.regions[self.memory.cnt - 1].end();
            proof {
                end.lemma_value();
            }
            Some(end)
        } else {
            None
        }
    }

    /// Returns the size of the `memory` region containing `addr`, or zero if
    /// `addr` is not in any region.
    pub fn region_size(&self, addr: T) -> (r: T)
        requires
            self.wf(),
        ensures
            r == (if self.memory()@.contains_key(addr.addr() as int) {
                self.memory().list()[layout::index_at(
                    self.memory().list(),
                    addr.addr() as int,
                )].size()
            } else {
                T::ZERO
            }),
    {
        match self.memory.search(addr) {
            Some(i) => {
                proof {
                    layout::lemma_holds(self.memory.list(), i as int, addr.addr() as int);
                }
                self.memory.regions[i].size()
            },
            None => T::ZERO,
        }
    }

    /// Returns `true` if `addr` lies within a `memory` region.
    pub fn is_memory(&self, addr: T) -> (r: bool)
        requires
            self.wf(),
        ensures
            r == self.memory()@.contains_key(addr.addr() as int),
    {
        let r = self.memory.search(addr);
        proof {
            if let Some(i) = r {
                layout::lemma_holds(self.memory.list(), i as int, addr.addr() as int);
            }
        }
        r.is_some()
    }

    /// Returns `true` if `addr` lies within a `reserved` region.
    pub fn is_reserved(&self, addr: T) -> (r: bool)
        requires
            self.wf(),
        ensures
            r == self.reserved()@.contains_key(addr.addr() as int),
    {
        let r = self.reserved.search(addr);
        proof {
            if let Some(i) = r {
                layout::lemma_holds(self.reserved.list(), i as int, addr.addr() as int);
            }
        }
        r.is_some()
    }

    /// Returns `true` if the range `[base, base + size)`, clamped to the top
    /// of the address space, is fully contained in a single `memory` region.
    pub fn is_region_memory(&self, base: T, size: T) -> (r: bool)
        requires
            self.wf(),
        ensures
            r == self.memory().encloses(base, size),
    {
        match self.memory.search(base) {
            Some(i) => {
                proof {
                    let s = self.memory.list();
                    assert(self.memory.regions@[i as int] == s[i as int]);
                    layout::lemma_holds(s, i as int, base.addr() as int);
                    assert forall|j: int|
                        0 <= j < s.len() && layout::holds(
                            #[trigger] s[j],
                            base.addr() as int,
                        ) implies j == i by {
                        layout::lemma_holds(s, j, base.addr() as int);
                    }
                }
                saturating_add(base, size) <= self.memory.regions[i].end()
            },
            None => false,
        }
    }

    /// Returns `true` if the range `[base, base + size)` intersects a
    /// `reserved` region, wholly or in part.
    pub fn is_region_reserved(&self, base: T, size: T) -> (r: bool)
        requires
            self.wf(),
        ensures
            r == self.reserved().meets(base, size),
    {
        self.reserved.overlaps_region(base, size)
    }

    /// Marks the `memory` range `[base, base + size)` as hotpluggable.
    pub fn mark_hotplug(&mut self, base: T, size: T) -> (r: Result<(), Error>)
        requires
            old(self).wf(),
        ensures
            old(self).memory().sets_flag(
                base,
                size,
                MemblockFlags::HOTPLUG(),
                true,
                r,
                *final(self).memory(),
            ),
            old(self).same_but_memory(*final(self)),
            final(self).wf(),
    {
        self.memory.set_flag(base, size, MemblockFlags::HOTPLUG(), true)
    }

    /// Clears the hotpluggable attribute on the `memory` range
    /// `[base, base + size)`.
    pub fn clear_hotplug(&mut self, base: T, size: T) -> (r: Result<(), Error>)
        requires
            old(self).wf(),
        ensures
            old(self).memory().sets_flag(
                base,
                size,
                MemblockFlags::HOTPLUG(),
                false,
                r,
                *final(self).memory(),
            ),
            old(self).same_but_memory(*final(self)),
            final(self).wf(),
    {
        self.memory.set_flag(base, size, MemblockFlags::HOTPLUG(), false)
    }

    /// Marks the `memory` range `[base, base + size)` as mirrored.
    pub fn mark_mirror(&mut self, base: T, size: T) -> (r: Result<(), Error>)
        requires
            old(self).wf(),
        ensures
            old(self).memory().sets_flag(
                base,
                size,
                MemblockFlags::MIRROR(),
                true,
                r,
                *final(self).memory(),
            ),
            old(self).same_but_memory(*final(self)),
            final(self).wf(),
    {
        self.memory.set_flag(base, size, MemblockFlags::MIRROR(), true)
    }

    /// Clears the mirrored attribute on the `memory` range
    /// `[base, base + size)`.
    pub fn clear_mirror(&mut self, base: T, size: T) -> (r: Result<(), Error>)
        requires
            old(self).wf(),
        ensures
            old(self).memory().sets_flag(
                base,
                size,
                MemblockFlags::MIRROR(),
                false,
                r,
                *final(self).memory(),
            ),
            old(self).same_but_memory(*final(self)),
            final(self).wf(),
    {
        self.memory.set_flag(base, size, MemblockFlags::MIRROR(), false)
    }

    /// Marks the `memory` range `[base, base + size)` as not mapped into the
    /// kernel direct mapping.
    pub fn mark_nomap(&mut self, base: T, size: T) -> (r: Result<(), Error>)
        requires
            old(self).wf(),
        ensures
            old(self).memory().sets_flag(
                base,
                size,
                MemblockFlags::NOMAP(),
                true,
                r,
                *final(self).memory(),
            ),
            old(self).same_but_memory(*final(self)),
            final(self).wf(),
    {
        self.memory.set_flag(base, size, MemblockFlags::NOMAP(), true)
    }

    /// Clears the NOMAP attribute on the `memory` range `[base, base + size)`.
    pub fn clear_nomap(&mut self, base: T, size: T) -> (r: Result<(), Error>)
        requires
            old(self).wf(),
        ensures
            old(self).memory().sets_flag(
                base,
                size,
                MemblockFlags::NOMAP(),
                false,
                r,
                *final(self).memory(),
            ),
            old(self).same_but_memory(*final(self)),
            final(self).wf(),
    {
        self.memory.set_flag(base, size, MemblockFlags::NOMAP(), false)
    }

    /// Marks the `memory` range `[base, base + size)` as scratch memory for
    /// kexec handover.
    pub fn mark_kho_scratch(&mut self, base: T, size: T) -> (r: Result<(), Error>)
        requires
            old(self).wf(),
        ensures
            old(self).memory().sets_flag(
                base,
                size,
                MemblockFlags::KHO_SCRATCH(),
                true,
                r,
                *final(self).memory(),
            ),
            old(self).same_but_memory(*final(self)),
            final(self).wf(),
    {
        self.memory.set_flag(base, size, MemblockFlags::KHO_SCRATCH(), true)
    }

    /// Clears the KHO scratch attribute on the `memory` range
    /// `[base, base + size)`.
    pub fn clear_kho_scratch(&mut self, base: T, size: T) -> (r: Result<(), Error>)
        requires
            old(self).wf(),
        ensures
            old(self).memory().sets_flag(
                base,
                size,
                MemblockFlags::KHO_SCRATCH(),
                false,
                r,
                *final(self).memory(),
            ),
            old(self).same_but_memory(*final(self)),
            final(self).wf(),
    {
        self.memory.set_flag(base, size, MemblockFlags::KHO_SCRATCH(), false)
    }

    /// Marks the `reserved` range `[base, base + size)` so that its struct
    /// pages are not initialized.
    pub fn reserved_mark_noinit(&mut self, base: T, size: T) -> (r: Result<(), Error>)
        requires
            old(self).wf(),
        ensures
            old(self).reserved().sets_flag(
                base,
                size,
                MemblockFlags::RSRV_NOINIT(),
                true,
                r,
                *final(self).reserved(),
            ),
            old(self).same_but_reserved(*final(self)),
            final(self).wf(),
    {
        self.reserved.set_flag(base, size, MemblockFlags::RSRV_NOINIT(), true)
    }

    /// Clears the no-init attribute on the `reserved` range
    /// `[base, base + size)`.
    pub fn reserved_clear_noinit(&mut self, base: T, size: T) -> (r: Result<(), Error>)
        requires
            old(self).wf(),
        ensures
            old(self).reserved().sets_flag(
                base,
                size,
                MemblockFlags::RSRV_NOINIT(),
                false,
                r,
                *final(self).reserved(),
            ),
            old(self).same_but_reserved(*final(self)),
            final(self).wf(),
    {
        self.reserved.set_flag(base, size, MemblockFlags::RSRV_NOINIT(), false)
    }

    /// Marks the `reserved` range `[base, base + size)` as reserved for kernel
    /// use.
    pub fn reserved_mark_kern(&mut self, base: T, size: T) -> (r: Result<(), Error>)
        requires
            old(self).wf(),
        ensures
            old(self).reserved().sets_flag(
                base,
                size,
                MemblockFlags::RSRV_KERN(),
                true,
                r,
                *final(self).reserved(),
            ),
            old(self).same_but_reserved(*final(self)),
            final(self).wf(),
    {
        self.reserved.set_flag(base, size, MemblockFlags::RSRV_KERN(), true)
    }

    /// Clears the kernel-use attribute on the `reserved` range
    /// `[base, base + size)`.
    pub fn reserved_clear_kern(&mut self, base: T, size: T) -> (r: Result<(), Error>)
        requires
            old(self).wf(),
        ensures
            old(self).reserved().sets_flag(
                base,
                size,
                MemblockFlags::RSRV_KERN(),
                false,
                r,
                *final(self).reserved(),
            ),
            old(self).same_but_reserved(*final(self)),
            final(self).wf(),
    {
        self.reserved.set_flag(base, size, MemblockFlags::RSRV_KERN(), false)
    }
}

/// Returns `true` if a `memory` region's attributes are excluded by `flags`.
///
/// `NOMAP` and `DRIVER_MANAGED` regions are skipped unless the corresponding
/// flag is present in `flags`; `MIRROR` and `KHO_SCRATCH` regions are only
/// iterated when explicitly requested, and then no others are.
pub(crate) fn should_skip_region<T: PhysAddr>(
    r: MemblockRegion<T>,
    flags: MemblockFlags,
) -> (b: bool)
    ensures
        b == free::skipped(r.flags(), flags),
{
    if !flags.contains(MemblockFlags::NOMAP()) && r.flags().contains(MemblockFlags::NOMAP()) {
        return true;
    }
    if !flags.contains(MemblockFlags::DRIVER_MANAGED()) && r.flags().contains(
        MemblockFlags::DRIVER_MANAGED(),
    ) {
        return true;
    }
    if flags.contains(MemblockFlags::MIRROR()) != r.flags().contains(MemblockFlags::MIRROR()) {
        return true;
    }
    if flags.contains(MemblockFlags::KHO_SCRATCH()) != r.flags().contains(
        MemblockFlags::KHO_SCRATCH(),
    ) {
        return true;
    }
    false
}

} // verus!

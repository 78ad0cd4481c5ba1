//! The mathematical model of the ranges of one list of regions that another
//! list leaves free.
//!
//! A list of `n` regions has `n + 1` gaps. A region of the first list and a
//! gap of the second have a [`piece`] in common; the free ranges are the
//! pieces that are not empty, taken region by region and gap by gap.
use crate::addr;
use crate::addr::PhysAddr;
use crate::flags::MemblockFlags;
use crate::layout;
use crate::region::MemblockRegion;
use vstd::prelude::*;

verus! {

broadcast use addr::group_addresses;

/// A region with the attributes `f` is left out where `wanted` is asked for:
/// `NOMAP` and `DRIVER_MANAGED` regions are left out unless asked for, and
/// `MIRROR` and `KHO_SCRATCH` regions are considered exactly when asked for,
/// and then no others are.
pub open spec fn skipped(f: MemblockFlags, wanted: MemblockFlags) -> bool {
    ||| f.contains(MemblockFlags::NOMAP()) && !wanted.contains(MemblockFlags::NOMAP())
    ||| f.contains(MemblockFlags::DRIVER_MANAGED()) && !wanted.contains(
        MemblockFlags::DRIVER_MANAGED(),
    )
    ||| f.contains(MemblockFlags::MIRROR()) != wanted.contains(MemblockFlags::MIRROR())
    ||| f.contains(MemblockFlags::KHO_SCRATCH()) != wanted.contains(MemblockFlags::KHO_SCRATCH())
}

/// A region with the attributes `f` is considered by a search that filters
/// by `filter`, or by none.
pub open spec fn considered(f: MemblockFlags, filter: Option<MemblockFlags>) -> bool {
    match filter {
        Some(wanted) => !skipped(f, wanted),
        None => true,
    }
}

/// The exclusive end address of a region.
pub open spec fn end_of<T: PhysAddr>(r: MemblockRegion<T>) -> T {
    T::at(addr::range_end(r.base(), r.size()))
}

/// The address at which the `g`-th gap of the list starts.
pub open spec fn gap_start<T: PhysAddr>(res: Seq<MemblockRegion<T>>, g: int) -> T {
    if g <= 0 {
        T::ZERO
    } else {
        end_of(res[g - 1])
    }
}

/// The address at which the `g`-th gap of the list ends.
pub open spec fn gap_end<T: PhysAddr>(res: Seq<MemblockRegion<T>>, g: int) -> T {
    if g >= res.len() {
        T::MAX
    } else {
        res[g].base()
    }
}

/// What the region `m` and the `g`-th gap of `res` have in common, as a pair
/// of start and exclusive end.
pub open spec fn piece<T: PhysAddr>(
    m: MemblockRegion<T>,
    res: Seq<MemblockRegion<T>>,
    g: int,
) -> (T, T) {
    (
        if m.base().addr() < gap_start(res, g).addr() {
            gap_start(res, g)
        } else {
            m.base()
        },
        if gap_end(res, g).addr() < end_of(m).addr() {
            gap_end(res, g)
        } else {
            end_of(m)
        },
    )
}

/// The piece that `m` and the `g`-th gap have in common, unless it is empty.
pub open spec fn clip<T: PhysAddr>(
    m: MemblockRegion<T>,
    res: Seq<MemblockRegion<T>>,
    g: int,
) -> Seq<(T, T)> {
    let p = piece(m, res, g);
    if p.0.addr() < p.1.addr() {
        seq![p]
    } else {
        seq![]
    }
}

/// The pieces that `m` has in common with the gaps from `g0` to `g1`.
pub open spec fn row<T: PhysAddr>(
    m: MemblockRegion<T>,
    res: Seq<MemblockRegion<T>>,
    g0: int,
    g1: int,
) -> Seq<(T, T)>
    decreases g1 - g0,
{
    if g0 >= g1 {
        seq![]
    } else {
        clip(m, res, g0) + row(m, res, g0 + 1, g1)
    }
}

/// The pieces of one region of `mem`, or none if the filter leaves it out.
pub open spec fn filtered_row<T: PhysAddr>(
    m: MemblockRegion<T>,
    res: Seq<MemblockRegion<T>>,
    filter: Option<MemblockFlags>,
    g0: int,
    g1: int,
) -> Seq<(T, T)> {
    if considered(m.flags(), filter) {
        row(m, res, g0, g1)
    } else {
        seq![]
    }
}

/// The pieces that the regions from `m0` to `m1` of `mem` have in common with
/// the gaps from `g0` to `g1` of `res`.
pub open spec fn grid<T: PhysAddr>(
    mem: Seq<MemblockRegion<T>>,
    res: Seq<MemblockRegion<T>>,
    filter: Option<MemblockFlags>,
    m0: int,
    m1: int,
    g0: int,
    g1: int,
) -> Seq<(T, T)>
    decreases m1 - m0,
{
    if m0 >= m1 {
        seq![]
    } else {
        filtered_row(mem[m0], res, filter, g0, g1) + grid(mem, res, filter, m0 + 1, m1, g0, g1)
    }
}

/// The ranges of `mem` that `res` leaves free, ascending.
pub open spec fn free_ranges<T: PhysAddr>(
    mem: Seq<MemblockRegion<T>>,
    res: Seq<MemblockRegion<T>>,
    filter: Option<MemblockFlags>,
) -> Seq<(T, T)> {
    grid(mem, res, filter, 0, mem.len() as int, 0, res.len() as int + 1)
}

/// The numbers that the bounds of regions and gaps stand for.
pub proof fn lemma_bounds<T: PhysAddr>(res: Seq<MemblockRegion<T>>, g: int)
    requires
        layout::ordered(res),
        0 <= g <= res.len(),
    ensures
        gap_start(res, g).addr() == layout::gap_lo(res, g),
        gap_end(res, g).addr() == layout::gap_hi(res, g),
        0 <= layout::gap_lo(res, g) <= layout::gap_hi(res, g) <= T::MAX.addr(),
{
    if g > 0 {
        assert(layout::valid(res[g - 1]));
        T::lemma_at(addr::range_end(res[g - 1].base(), res[g - 1].size()));
    }
    if g < res.len() {
        assert(layout::valid(res[g]));
        assert(g > 0 ==> res[g - 1].hi() <= res[g].lo());
    }
}

/// The number that the end of a region stands for.
pub proof fn lemma_end_of<T: PhysAddr>(r: MemblockRegion<T>)
    ensures
        end_of(r).addr() == r.hi(),
{
    T::lemma_at(addr::range_end(r.base(), r.size()));
}

/// Gaps come one after the other.
pub proof fn lemma_gap_order<T: PhysAddr>(res: Seq<MemblockRegion<T>>, g: int, h: int)
    requires
        layout::ordered(res),
        0 <= g < h <= res.len(),
    ensures
        layout::gap_hi(res, g) < layout::gap_lo(res, h),
{
    assert(layout::valid(res[g]));
    assert(layout::valid(res[h - 1]));
    assert(g < h - 1 ==> res[g].hi() <= res[h - 1].lo());
}

/// A region and a gap that do not meet have no piece in common.
pub proof fn lemma_clip_empty<T: PhysAddr>(
    m: MemblockRegion<T>,
    res: Seq<MemblockRegion<T>>,
    g: int,
)
    requires
        layout::ordered(res),
        0 <= g <= res.len(),
        m.hi() <= layout::gap_lo(res, g) || layout::gap_hi(res, g) <= m.lo(),
    ensures
        clip(m, res, g) == Seq::<(T, T)>::empty(),
{
    lemma_bounds(res, g);
    lemma_end_of(m);
}

/// A row whose gaps all lie past the region is empty.
pub proof fn lemma_row_past<T: PhysAddr>(
    m: MemblockRegion<T>,
    res: Seq<MemblockRegion<T>>,
    g0: int,
    g1: int,
)
    requires
        layout::ordered(res),
        0 <= g0,
        g1 <= res.len() + 1,
        forall|g: int| g0 <= g < g1 ==> m.hi() <= #[trigger] layout::gap_lo(res, g),
    ensures
        row(m, res, g0, g1) == Seq::<(T, T)>::empty(),
    decreases g1 - g0,
{
    if g0 < g1 {
        assert(m.hi() <= layout::gap_lo(res, g0));
        lemma_clip_empty(m, res, g0);
        lemma_row_past(m, res, g0 + 1, g1);
        assert(row(m, res, g0, g1) =~= Seq::<(T, T)>::empty());
    } else {
        assert(row(m, res, g0, g1) =~= Seq::<(T, T)>::empty());
    }
}

/// A row whose gaps all lie before the region is empty.
pub proof fn lemma_row_before<T: PhysAddr>(
    m: MemblockRegion<T>,
    res: Seq<MemblockRegion<T>>,
    g0: int,
    g1: int,
)
    requires
        layout::ordered(res),
        0 <= g0,
        g1 <= res.len() + 1,
        forall|g: int| g0 <= g < g1 ==> #[trigger] layout::gap_hi(res, g) <= m.lo(),
    ensures
        row(m, res, g0, g1) == Seq::<(T, T)>::empty(),
    decreases g1 - g0,
{
    if g0 < g1 {
        assert(layout::gap_hi(res, g0) <= m.lo());
        lemma_clip_empty(m, res, g0);
        lemma_row_before(m, res, g0 + 1, g1);
        assert(row(m, res, g0, g1) =~= Seq::<(T, T)>::empty());
    } else {
        assert(row(m, res, g0, g1) =~= Seq::<(T, T)>::empty());
    }
}

/// A row ends with the piece of its last gap.
pub proof fn lemma_row_last<T: PhysAddr>(
    m: MemblockRegion<T>,
    res: Seq<MemblockRegion<T>>,
    g0: int,
    g1: int,
)
    requires
        g0 < g1,
    ensures
        row(m, res, g0, g1) == row(m, res, g0, g1 - 1) + clip(m, res, g1 - 1),
    decreases g1 - g0,
{
    reveal_with_fuel(row, 2);
    if g0 + 1 < g1 {
        lemma_row_last(m, res, g0 + 1, g1);
    }
    assert(row(m, res, g0, g1) =~= row(m, res, g0, g1 - 1) + clip(m, res, g1 - 1));
}

/// A grid ends with its last row.
pub proof fn lemma_grid_last<T: PhysAddr>(
    mem: Seq<MemblockRegion<T>>,
    res: Seq<MemblockRegion<T>>,
    filter: Option<MemblockFlags>,
    m0: int,
    m1: int,
    g0: int,
    g1: int,
)
    requires
        m0 < m1,
    ensures
        grid(mem, res, filter, m0, m1, g0, g1) == grid(mem, res, filter, m0, m1 - 1, g0, g1)
            + filtered_row(mem[m1 - 1], res, filter, g0, g1),
    decreases m1 - m0,
{
    reveal_with_fuel(grid, 2);
    if m0 + 1 < m1 {
        lemma_grid_last(mem, res, filter, m0 + 1, m1, g0, g1);
    }
    assert(grid(mem, res, filter, m0, m1, g0, g1) =~= grid(mem, res, filter, m0, m1 - 1, g0, g1)
        + filtered_row(mem[m1 - 1], res, filter, g0, g1));
}

/// A grid without gaps is empty.
pub proof fn lemma_grid_no_gaps<T: PhysAddr>(
    mem: Seq<MemblockRegion<T>>,
    res: Seq<MemblockRegion<T>>,
    filter: Option<MemblockFlags>,
    m0: int,
    m1: int,
    g0: int,
    g1: int,
)
    requires
        g0 >= g1,
    ensures
        grid(mem, res, filter, m0, m1, g0, g1) == Seq::<(T, T)>::empty(),
    decreases m1 - m0,
{
    if m0 < m1 {
        lemma_grid_no_gaps(mem, res, filter, m0 + 1, m1, g0, g1);
    }
    assert(grid(mem, res, filter, m0, m1, g0, g1) =~= Seq::<(T, T)>::empty());
}

/// The first gap may be dropped from a grid whose regions lie past it.
pub proof fn lemma_grid_drop_first_gap<T: PhysAddr>(
    mem: Seq<MemblockRegion<T>>,
    res: Seq<MemblockRegion<T>>,
    filter: Option<MemblockFlags>,
    m0: int,
    m1: int,
    g0: int,
    g1: int,
)
    requires
        layout::ordered(res),
        0 <= g0 <= res.len(),
        g0 < g1,
        forall|k: int| m0 <= k < m1 ==> layout::gap_hi(res, g0) <= (#[trigger] mem[k]).lo(),
    ensures
        grid(mem, res, filter, m0, m1, g0, g1) == grid(mem, res, filter, m0, m1, g0 + 1, g1),
    decreases m1 - m0,
{
    if m0 < m1 {
        lemma_grid_drop_first_gap(mem, res, filter, m0 + 1, m1, g0, g1);
        lemma_clip_empty(mem[m0], res, g0);
        assert(row(mem[m0], res, g0, g1) =~= row(mem[m0], res, g0 + 1, g1));
    }
}

/// The last gap may be dropped from a grid whose regions lie before it.
pub proof fn lemma_grid_drop_last_gap<T: PhysAddr>(
    mem: Seq<MemblockRegion<T>>,
    res: Seq<MemblockRegion<T>>,
    filter: Option<MemblockFlags>,
    m0: int,
    m1: int,
    g0: int,
    g1: int,
)
    requires
        layout::ordered(res),
        0 <= g1 - 1 <= res.len(),
        g0 < g1,
        forall|k: int| m0 <= k < m1 ==> (#[trigger] mem[k]).hi() <= layout::gap_lo(res, g1 - 1),
    ensures
        grid(mem, res, filter, m0, m1, g0, g1) == grid(mem, res, filter, m0, m1, g0, g1 - 1),
    decreases m1 - m0,
{
    if m0 < m1 {
        lemma_grid_drop_last_gap(mem, res, filter, m0 + 1, m1, g0, g1);
        lemma_clip_empty(mem[m0], res, g1 - 1);
        lemma_row_last(mem[m0], res, g0, g1);
        assert(row(mem[m0], res, g0, g1) =~= row(mem[m0], res, g0, g1 - 1));
    }
}

/// The first region of a grid that the filter leaves out, or that the first
/// gap lies past, has no piece.
pub proof fn lemma_front_skip<T: PhysAddr>(
    mem: Seq<MemblockRegion<T>>,
    res: Seq<MemblockRegion<T>>,
    filter: Option<MemblockFlags>,
    m0: int,
    m1: int,
    g0: int,
    g1: int,
)
    requires
        layout::ordered(res),
        m0 < m1,
        0 <= g0 < g1 <= res.len() + 1,
        !considered(mem[m0].flags(), filter) || mem[m0].hi() <= layout::gap_lo(res, g0),
    ensures
        grid(mem, res, filter, m0, m1, g0, g1) == grid(mem, res, filter, m0 + 1, m1, g0, g1),
{
    if considered(mem[m0].flags(), filter) {
        assert forall|g: int| g0 <= g < g1 implies mem[m0].hi() <= #[trigger] layout::gap_lo(
            res,
            g,
        ) by {
            lemma_bounds(res, g0);
            if g > g0 {
                lemma_gap_order(res, g0, g);
            }
        }
        lemma_row_past(mem[m0], res, g0, g1);
    }
    assert(grid(mem, res, filter, m0, m1, g0, g1) =~= grid(mem, res, filter, m0 + 1, m1, g0, g1));
}

/// The first region of a grid that ends in the first gap has its last piece
/// there.
pub proof fn lemma_front_region<T: PhysAddr>(
    mem: Seq<MemblockRegion<T>>,
    res: Seq<MemblockRegion<T>>,
    filter: Option<MemblockFlags>,
    m0: int,
    m1: int,
    g0: int,
    g1: int,
)
    requires
        layout::ordered(res),
        m0 < m1,
        0 <= g0 < g1 <= res.len() + 1,
        considered(mem[m0].flags(), filter),
        mem[m0].hi() <= layout::gap_hi(res, g0),
    ensures
        grid(mem, res, filter, m0, m1, g0, g1) == clip(mem[m0], res, g0) + grid(
            mem,
            res,
            filter,
            m0 + 1,
            m1,
            g0,
            g1,
        ),
{
    assert forall|g: int| g0 + 1 <= g < g1 implies mem[m0].hi() <= #[trigger] layout::gap_lo(
        res,
        g,
    ) by {
        lemma_gap_order(res, g0, g);
    }
    lemma_row_past(mem[m0], res, g0 + 1, g1);
    assert(row(mem[m0], res, g0, g1) =~= clip(mem[m0], res, g0));
}

/// The first gap of a grid that ends in the first region has its last piece
/// there.
pub proof fn lemma_front_gap<T: PhysAddr>(
    mem: Seq<MemblockRegion<T>>,
    res: Seq<MemblockRegion<T>>,
    filter: Option<MemblockFlags>,
    m0: int,
    m1: int,
    g0: int,
    g1: int,
)
    requires
        layout::ordered(mem),
        layout::ordered(res),
        0 <= m0 < m1 <= mem.len(),
        0 <= g0 < g1 <= res.len() + 1,
        considered(mem[m0].flags(), filter),
        layout::gap_hi(res, g0) < mem[m0].hi(),
    ensures
        grid(mem, res, filter, m0, m1, g0, g1) == clip(mem[m0], res, g0) + grid(
            mem,
            res,
            filter,
            m0,
            m1,
            g0 + 1,
            g1,
        ),
{
    assert forall|k: int| m0 + 1 <= k < m1 implies layout::gap_hi(res, g0) <= (
    #[trigger] mem[k]).lo() by {
        assert(mem[m0].hi() <= mem[k].lo());
    }
    lemma_grid_drop_first_gap(mem, res, filter, m0 + 1, m1, g0, g1);
    assert(grid(mem, res, filter, m0, m1, g0, g1) =~= clip(mem[m0], res, g0) + grid(
        mem,
        res,
        filter,
        m0,
        m1,
        g0 + 1,
        g1,
    ));
}

/// The last region of a grid that the filter leaves out, or that the last gap
/// lies before, has no piece.
pub proof fn lemma_back_skip<T: PhysAddr>(
    mem: Seq<MemblockRegion<T>>,
    res: Seq<MemblockRegion<T>>,
    filter: Option<MemblockFlags>,
    m0: int,
    m1: int,
    g0: int,
    g1: int,
)
    requires
        layout::ordered(res),
        m0 < m1,
        0 <= g0 < g1 <= res.len() + 1,
        !considered(mem[m1 - 1].flags(), filter) || layout::gap_hi(res, g1 - 1)
            <= mem[m1 - 1].lo(),
    ensures
        grid(mem, res, filter, m0, m1, g0, g1) == grid(mem, res, filter, m0, m1 - 1, g0, g1),
{
    let m = mem[m1 - 1];
    lemma_grid_last(mem, res, filter, m0, m1, g0, g1);
    if considered(m.flags(), filter) {
        assert forall|g: int| g0 <= g < g1 implies #[trigger] layout::gap_hi(res, g) <= m.lo() by {
            lemma_bounds(res, g1 - 1);
            if g < g1 - 1 {
                lemma_gap_order(res, g, g1 - 1);
            }
        }
        lemma_row_before(m, res, g0, g1);
    }
    assert(grid(mem, res, filter, m0, m1, g0, g1) =~= grid(mem, res, filter, m0, m1 - 1, g0, g1));
}

/// The last region of a grid that starts in the last gap has its first piece
/// there.
pub proof fn lemma_back_region<T: PhysAddr>(
    mem: Seq<MemblockRegion<T>>,
    res: Seq<MemblockRegion<T>>,
    filter: Option<MemblockFlags>,
    m0: int,
    m1: int,
    g0: int,
    g1: int,
)
    requires
        layout::ordered(res),
        m0 < m1,
        0 <= g0 < g1 <= res.len() + 1,
        considered(mem[m1 - 1].flags(), filter),
        layout::gap_lo(res, g1 - 1) <= mem[m1 - 1].lo(),
    ensures
        grid(mem, res, filter, m0, m1, g0, g1) == grid(mem, res, filter, m0, m1 - 1, g0, g1)
            + clip(mem[m1 - 1], res, g1 - 1),
{
    let m = mem[m1 - 1];
    lemma_grid_last(mem, res, filter, m0, m1, g0, g1);
    lemma_row_last(m, res, g0, g1);
    assert forall|g: int| g0 <= g < g1 - 1 implies #[trigger] layout::gap_hi(res, g) <= m.lo() by {
        lemma_gap_order(res, g, g1 - 1);
    }
    lemma_row_before(m, res, g0, g1 - 1);
    assert(row(m, res, g0, g1) =~= clip(m, res, g1 - 1));
}

/// The last gap of a grid that starts in the last region has its first piece
/// there.
pub proof fn lemma_back_gap<T: PhysAddr>(
    mem: Seq<MemblockRegion<T>>,
    res: Seq<MemblockRegion<T>>,
    filter: Option<MemblockFlags>,
    m0: int,
    m1: int,
    g0: int,
    g1: int,
)
    requires
        layout::ordered(mem),
        layout::ordered(res),
        0 <= m0 < m1 <= mem.len(),
        0 <= g0 < g1 <= res.len() + 1,
        considered(mem[m1 - 1].flags(), filter),
        mem[m1 - 1].lo() < layout::gap_lo(res, g1 - 1),
    ensures
        grid(mem, res, filter, m0, m1, g0, g1) == grid(mem, res, filter, m0, m1, g0, g1 - 1)
            + clip(mem[m1 - 1], res, g1 - 1),
{
    let m = mem[m1 - 1];
    lemma_grid_last(mem, res, filter, m0, m1, g0, g1);
    lemma_grid_last(mem, res, filter, m0, m1, g0, g1 - 1);
    lemma_row_last(m, res, g0, g1);
    assert forall|k: int| m0 <= k < m1 - 1 implies (#[trigger] mem[k]).hi() <= layout::gap_lo(
        res,
        g1 - 1,
    ) by {
        assert(mem[k].hi() <= m.lo());
    }
    lemma_grid_drop_last_gap(mem, res, filter, m0, m1 - 1, g0, g1);
    assert(grid(mem, res, filter, m0, m1, g0, g1) =~= grid(mem, res, filter, m0, m1, g0, g1 - 1)
        + clip(m, res, g1 - 1));
}

/// Some range of the list holds the address `a`.
pub open spec fn in_ranges<T: PhysAddr>(ranges: Seq<(T, T)>, a: int) -> bool {
    exists|i: int|
        0 <= i < ranges.len() && (#[trigger] ranges[i]).0.addr() <= a < ranges[i].1.addr()
}

/// No range of the list is empty, and each starts at or after the end of the
/// one before.
pub open spec fn ascending<T: PhysAddr>(ranges: Seq<(T, T)>) -> bool {
    &&& forall|i: int|
        0 <= i < ranges.len() ==> (#[trigger] ranges[i]).0.addr() < ranges[i].1.addr()
    &&& forall|i: int, j: int|
        0 <= i < j < ranges.len() ==> (#[trigger] ranges[i]).1.addr() <= (
        #[trigger] ranges[j]).0.addr()
}

/// The ranges of the list lie in `[lo, hi]`.
pub open spec fn ranges_within<T: PhysAddr>(ranges: Seq<(T, T)>, lo: int, hi: int) -> bool {
    forall|i: int|
        0 <= i < ranges.len() ==> lo <= (#[trigger] ranges[i]).0.addr() && ranges[i].1.addr()
            <= hi
}

/// Two lists that ascend and lie one after the other ascend as one.
pub proof fn lemma_ascending_concat<T: PhysAddr>(
    a: Seq<(T, T)>,
    b: Seq<(T, T)>,
    lo: int,
    mid: int,
    hi: int,
)
    requires
        ascending(a),
        ascending(b),
        ranges_within(a, lo, mid),
        ranges_within(b, mid, hi),
        lo <= mid <= hi,
    ensures
        ascending(a + b),
        ranges_within(a + b, lo, hi),
{
    let c = a + b;
    assert forall|i: int| 0 <= i < c.len() implies #[trigger] c[i] == (if i < a.len() {
        a[i]
    } else {
        b[i - a.len()]
    }) by {}
}

/// A concatenation holds what either part holds.
pub proof fn lemma_in_ranges_concat<T: PhysAddr>(a: Seq<(T, T)>, b: Seq<(T, T)>, x: int)
    ensures
        in_ranges(a + b, x) <==> in_ranges(a, x) || in_ranges(b, x),
{
    let c = a + b;
    if in_ranges(a, x) {
        let i = choose|i: int| 0 <= i < a.len() && (#[trigger] a[i]).0.addr() <= x < a[i].1.addr();
        assert(c[i] == a[i]);
    }
    if in_ranges(b, x) {
        let i = choose|i: int| 0 <= i < b.len() && (#[trigger] b[i]).0.addr() <= x < b[i].1.addr();
        assert(c[a.len() + i] == b[i]);
    }
    if in_ranges(c, x) {
        let i = choose|i: int| 0 <= i < c.len() && (#[trigger] c[i]).0.addr() <= x < c[i].1.addr();
        if i < a.len() {
            assert(c[i] == a[i]);
        } else {
            assert(c[i] == b[i - a.len()]);
        }
    }
}

/// The address `a` lies in the `g`-th gap.
pub open spec fn in_gap<T: PhysAddr>(res: Seq<MemblockRegion<T>>, g: int, a: int) -> bool {
    layout::gap_lo(res, g) <= a < layout::gap_hi(res, g)
}

proof fn lemma_clip<T: PhysAddr>(
    m: MemblockRegion<T>,
    res: Seq<MemblockRegion<T>>,
    g: int,
    a: int,
)
    requires
        layout::ordered(res),
        layout::valid(m),
        0 <= g <= res.len(),
    ensures
        ascending(clip(m, res, g)),
        ranges_within(clip(m, res, g), m.lo(), m.hi()),
        ranges_within(clip(m, res, g), layout::gap_lo(res, g), layout::gap_hi(res, g)),
        in_ranges(clip(m, res, g), a) <==> layout::holds(m, a) && in_gap(res, g, a),
{
    lemma_bounds(res, g);
    lemma_end_of(m);
    let c = clip(m, res, g);
    if layout::holds(m, a) && in_gap(res, g, a) {
        assert(c[0].0.addr() <= a < c[0].1.addr());
    }
}

proof fn lemma_row<T: PhysAddr>(
    m: MemblockRegion<T>,
    res: Seq<MemblockRegion<T>>,
    g0: int,
    g1: int,
    a: int,
)
    requires
        layout::ordered(res),
        layout::valid(m),
        0 <= g0 <= g1 <= res.len() + 1,
    ensures
        ascending(row(m, res, g0, g1)),
        ranges_within(row(m, res, g0, g1), m.lo(), m.hi()),
        g0 < g1 ==> ranges_within(
            row(m, res, g0, g1),
            layout::gap_lo(res, g0),
            T::MAX.addr() as int,
        ),
        in_ranges(row(m, res, g0, g1), a) <==> layout::holds(m, a) && exists|g: int|
            g0 <= g < g1 && #[trigger] in_gap(res, g, a),
    decreases g1 - g0,
{
    if g0 < g1 {
        lemma_row(m, res, g0 + 1, g1, a);
        lemma_clip(m, res, g0, a);
        lemma_bounds(res, g0);
        let c = clip(m, res, g0);
        let rest = row(m, res, g0 + 1, g1);
        if g0 + 1 < g1 {
            lemma_gap_order(res, g0, g0 + 1);
            lemma_bounds(res, g0 + 1);
            lemma_ascending_concat(
                c,
                rest,
                layout::gap_lo(res, g0),
                layout::gap_hi(res, g0),
                T::MAX.addr() as int,
            );
        } else {
            assert(c + rest =~= c);
        }
        lemma_in_ranges_concat(c, rest, a);
        assert(ranges_within(c + rest, m.lo(), m.hi())) by {
            let d = c + rest;
            assert forall|i: int| 0 <= i < d.len() implies #[trigger] d[i] == (if i < c.len() {
                c[i]
            } else {
                rest[i - c.len()]
            }) by {}
        }
        if layout::holds(m, a) {
            if in_gap(res, g0, a) {
                assert(in_ranges(row(m, res, g0, g1), a));
            }
        }
    }
}

proof fn lemma_grid<T: PhysAddr>(
    mem: Seq<MemblockRegion<T>>,
    res: Seq<MemblockRegion<T>>,
    filter: Option<MemblockFlags>,
    m0: int,
    m1: int,
    g0: int,
    g1: int,
    a: int,
)
    requires
        layout::ordered(mem),
        layout::ordered(res),
        0 <= m0 <= m1 <= mem.len(),
        0 <= g0 <= g1 <= res.len() + 1,
    ensures
        ascending(grid(mem, res, filter, m0, m1, g0, g1)),
        m0 < m1 ==> ranges_within(
            grid(mem, res, filter, m0, m1, g0, g1),
            mem[m0].lo(),
            T::MAX.addr() as int,
        ),
        in_ranges(grid(mem, res, filter, m0, m1, g0, g1), a) <==> (exists|k: int|
            m0 <= k < m1 && considered((#[trigger] mem[k]).flags(), filter) && layout::holds(
                mem[k],
                a,
            )) && (exists|g: int| g0 <= g < g1 && #[trigger] in_gap(res, g, a)),
    decreases m1 - m0,
{
    if m0 < m1 {
        assert(layout::valid(mem[m0]));
        lemma_grid(mem, res, filter, m0 + 1, m1, g0, g1, a);
        lemma_row(mem[m0], res, g0, g1, a);
        let c = filtered_row(mem[m0], res, filter, g0, g1);
        let rest = grid(mem, res, filter, m0 + 1, m1, g0, g1);
        if m0 + 1 < m1 {
            assert(layout::valid(mem[m0 + 1]));
            assert(mem[m0].hi() <= mem[m0 + 1].lo());
            lemma_ascending_concat(
                c,
                rest,
                mem[m0].lo(),
                mem[m0].hi(),
                T::MAX.addr() as int,
            );
        } else {
            assert(c + rest =~= c);
        }
        lemma_in_ranges_concat(c, rest, a);
    }
}

/// Every address below the top of the address space lies in a region or in a
/// gap, and in not both.
pub proof fn lemma_region_or_gap<T: PhysAddr>(res: Seq<MemblockRegion<T>>, a: int)
    requires
        layout::ordered(res),
        0 <= a < T::MAX.addr(),
    ensures
        layout::covers(res, a) <==> !exists|g: int|
            0 <= g <= res.len() && #[trigger] in_gap(res, g, a),
{
    if exists|g: int| 0 <= g <= res.len() && #[trigger] in_gap(res, g, a) {
        let g = choose|g: int| 0 <= g <= res.len() && #[trigger] in_gap(res, g, a);
        if layout::covers(res, a) {
            let k = layout::index_at(res, a);
            assert(layout::holds(res[k], a));
            if k < g {
                assert(k < g - 1 ==> res[k].hi() <= res[g - 1].lo());
                assert(layout::valid(res[g - 1]));
            } else {
                assert(k > g ==> res[g].hi() <= res[k].lo());
                assert(layout::valid(res[g]));
            }
        }
    } else {
        lemma_find_region(res, a, 0);
    }
}

/// An address that lies in no gap from `g` on, but after the region before
/// `g`, lies in a region.
proof fn lemma_find_region<T: PhysAddr>(res: Seq<MemblockRegion<T>>, a: int, g: int)
    requires
        layout::ordered(res),
        0 <= g <= res.len(),
        layout::gap_lo(res, g) <= a < T::MAX.addr(),
        forall|h: int| g <= h <= res.len() ==> !#[trigger] in_gap(res, h, a),
    ensures
        layout::covers(res, a),
    decreases res.len() - g,
{
    assert(!in_gap(res, g, a));
    assert(g < res.len());
    if layout::holds(res[g], a) {
    } else {
        lemma_find_region(res, a, g + 1);
    }
}

/// The free ranges are not empty and ascend.
pub proof fn lemma_free_ranges_ascend<T: PhysAddr>(
    mem: Seq<MemblockRegion<T>>,
    res: Seq<MemblockRegion<T>>,
    filter: Option<MemblockFlags>,
)
    requires
        layout::ordered(mem),
        layout::ordered(res),
    ensures
        ascending(free_ranges(mem, res, filter)),
{
    lemma_grid(mem, res, filter, 0, mem.len() as int, 0, res.len() as int + 1, 0);
}

/// The free ranges hold exactly the addresses that a considered region of
/// `mem` holds and no region of `res` does.
pub proof fn lemma_free_ranges_hold<T: PhysAddr>(
    mem: Seq<MemblockRegion<T>>,
    res: Seq<MemblockRegion<T>>,
    filter: Option<MemblockFlags>,
    a: int,
)
    requires
        layout::ordered(mem),
        layout::ordered(res),
    ensures
        in_ranges(free_ranges(mem, res, filter), a) <==> layout::contents(mem).contains_key(a)
            && considered(layout::contents(mem)[a], filter) && !layout::contents(res).contains_key(
            a,
        ),
{
    lemma_grid(mem, res, filter, 0, mem.len() as int, 0, res.len() as int + 1, a);
    if layout::covers(mem, a) {
        let k = layout::index_at(mem, a);
        assert(layout::holds(mem[k], a));
        assert(layout::valid(mem[k]));
        lemma_region_or_gap(res, a);
    }
    if exists|k: int|
        0 <= k < mem.len() && considered((#[trigger] mem[k]).flags(), filter) && layout::holds(
            mem[k],
            a,
        ) {
        let k = choose|k: int|
            0 <= k < mem.len() && considered((#[trigger] mem[k]).flags(), filter)
                && layout::holds(mem[k], a);
        layout::lemma_holds(mem, k, a);
    }
}

/// `x` moved into `[start, end]`.
pub open spec fn clamp<T: PhysAddr>(x: T, start: T, end: T) -> nat {
    let y = if x.addr() < start.addr() {
        start.addr()
    } else {
        x.addr()
    };
    if end.addr() < y {
        end.addr()
    } else {
        y
    }
}

/// A search for `size` bytes aligned to `align` in `[start, end]`, upwards or
/// downwards.
pub struct Search<T: PhysAddr> {
    pub size: T,
    pub align: T,
    pub start: T,
    pub end: T,
    pub bottom_up: bool,
}

impl<T: PhysAddr> Search<T> {
    /// The block of the searched size at `b` lies in the part of the range
    /// `p` that is searched. Upwards it also has to start before the end of
    /// that part, which makes a difference to blocks of no bytes alone.
    pub open spec fn fits(self, p: (T, T), b: nat) -> bool {
        &&& clamp(p.0, self.start, self.end) <= b
        &&& b + self.size.addr() <= clamp(p.1, self.start, self.end)
        &&& self.bottom_up ==> b < clamp(p.1, self.start, self.end)
    }

    /// The block at `b` is aligned and lies in the searched part of one of
    /// the ranges.
    pub open spec fn candidate(self, ranges: Seq<(T, T)>, b: nat) -> bool {
        &&& b % self.align.addr() == 0
        &&& exists|i: int| 0 <= i < ranges.len() && self.fits(#[trigger] ranges[i], b)
    }

    /// `r` is the outcome of the search among `ranges`: the bounds of the
    /// lowest block upwards and of the highest one downwards, or `None` if
    /// there is no such block.
    pub open spec fn finds(self, ranges: Seq<(T, T)>, r: Option<(T, T)>) -> bool {
        match r {
            Some((base, end)) => {
                &&& end.addr() == base.addr() + self.size.addr()
                &&& self.candidate(ranges, base.addr())
                &&& forall|b: nat| #[trigger]
                    self.candidate(ranges, b) ==> if self.bottom_up {
                        base.addr() <= b
                    } else {
                        b <= base.addr()
                    }
            },
            None => forall|b: nat| !#[trigger] self.candidate(ranges, b),
        }
    }
}

/// A range that no region of the list touches lies in one gap.
pub proof fn lemma_untouched_range<T: PhysAddr>(
    res: Seq<MemblockRegion<T>>,
    lo: int,
    hi: int,
) -> (g: int)
    requires
        layout::ordered(res),
        0 <= lo < hi <= T::MAX.addr(),
        forall|a: int| lo <= a < hi ==> !#[trigger] layout::covers(res, a),
    ensures
        0 <= g <= res.len(),
        layout::gap_lo(res, g) <= lo,
        hi <= layout::gap_hi(res, g),
{
    assert(!layout::covers(res, lo));
    lemma_region_or_gap(res, lo);
    let g = choose|g: int| 0 <= g <= res.len() && #[trigger] in_gap(res, g, lo);
    if layout::gap_hi(res, g) < hi {
        let a = layout::gap_hi(res, g);
        assert(g < res.len());
        assert(layout::valid(res[g]));
        layout::lemma_holds(res, g, a);
    }
    g
}

proof fn lemma_one_gap_met<T: PhysAddr>(
    res: Seq<MemblockRegion<T>>,
    lo: int,
    hi: int,
    g: int,
    n: int,
)
    requires
        layout::ordered(res),
        lo < hi,
        0 <= g <= res.len(),
        0 <= n <= res.len() + 1,
        layout::gap_lo(res, g) <= lo,
        hi <= layout::gap_hi(res, g),
    ensures
        layout::gaps_met(res, lo, hi, n) == (if n > g {
            1nat
        } else {
            0nat
        }),
    decreases n,
{
    if n > 0 {
        lemma_one_gap_met(res, lo, hi, g, n - 1);
        if n - 1 < g {
            lemma_gap_order(res, n - 1, g);
        } else if n - 1 > g {
            lemma_gap_order(res, g, n - 1);
        }
    }
}

/// Adding a range that no region touches takes one new region.
pub proof fn lemma_untouched_pieces<T: PhysAddr>(
    res: Seq<MemblockRegion<T>>,
    lo: int,
    hi: int,
)
    requires
        layout::ordered(res),
        0 <= lo < hi <= T::MAX.addr(),
        forall|a: int| lo <= a < hi ==> !#[trigger] layout::covers(res, a),
    ensures
        layout::pieces_needed(res, lo, hi) == 1,
{
    let g = lemma_untouched_range(res, lo, hi);
    lemma_one_gap_met(res, lo, hi, g, res.len() as int + 1);
}

impl<T: PhysAddr> Search<T> {
    /// A block of at least one byte that the search may return lies in
    /// `[start, end]` and in one of the ranges.
    pub proof fn lemma_candidate(self, ranges: Seq<(T, T)>, b: nat)
        requires
            self.size.addr() > 0,
            self.candidate(ranges, b),
        ensures
            self.start.addr() <= b,
            b + self.size.addr() <= self.end.addr(),
            exists|i: int|
                0 <= i < ranges.len() && (#[trigger] ranges[i]).0.addr() <= b && b
                    + self.size.addr() <= ranges[i].1.addr(),
            forall|a: int|
                b <= a < b + self.size.addr() ==> #[trigger] in_ranges(ranges, a),
    {
        let i = choose|i: int| 0 <= i < ranges.len() && self.fits(#[trigger] ranges[i], b);
        let p = ranges[i];
        assert(p.0.addr() <= b && b + self.size.addr() <= p.1.addr());
        assert forall|a: int| b <= a < b + self.size.addr() implies #[trigger] in_ranges(
            ranges,
            a,
        ) by {
            assert(ranges[i].0.addr() <= a < ranges[i].1.addr());
        }
    }
}

proof fn lemma_row_source<T: PhysAddr>(
    m: MemblockRegion<T>,
    res: Seq<MemblockRegion<T>>,
    g0: int,
    g1: int,
    i: int,
) -> (g: int)
    requires
        0 <= i < row(m, res, g0, g1).len(),
    ensures
        g0 <= g < g1,
        row(m, res, g0, g1)[i] == piece(m, res, g),
    decreases g1 - g0,
{
    let c = clip(m, res, g0);
    if i < c.len() {
        g0
    } else {
        lemma_row_source(m, res, g0 + 1, g1, i - c.len())
    }
}

proof fn lemma_grid_source<T: PhysAddr>(
    mem: Seq<MemblockRegion<T>>,
    res: Seq<MemblockRegion<T>>,
    filter: Option<MemblockFlags>,
    m0: int,
    m1: int,
    g0: int,
    g1: int,
    i: int,
) -> (source: (int, int))
    requires
        0 <= i < grid(mem, res, filter, m0, m1, g0, g1).len(),
    ensures
        m0 <= source.0 < m1,
        g0 <= source.1 < g1,
        considered(mem[source.0].flags(), filter),
        grid(mem, res, filter, m0, m1, g0, g1)[i] == piece(mem[source.0], res, source.1),
    decreases m1 - m0,
{
    let c = filtered_row(mem[m0], res, filter, g0, g1);
    if i < c.len() {
        (m0, lemma_row_source(mem[m0], res, g0, g1, i))
    } else {
        lemma_grid_source(mem, res, filter, m0 + 1, m1, g0, g1, i - c.len())
    }
}

/// Every free range is what one considered region and one gap have in common.
pub proof fn lemma_free_range_source<T: PhysAddr>(
    mem: Seq<MemblockRegion<T>>,
    res: Seq<MemblockRegion<T>>,
    filter: Option<MemblockFlags>,
    i: int,
) -> (source: (int, int))
    requires
        0 <= i < free_ranges(mem, res, filter).len(),
    ensures
        0 <= source.0 < mem.len(),
        0 <= source.1 <= res.len(),
        considered(mem[source.0].flags(), filter),
        free_ranges(mem, res, filter)[i] == piece(mem[source.0], res, source.1),
{
    lemma_grid_source(mem, res, filter, 0, mem.len() as int, 0, res.len() as int + 1, i)
}

proof fn lemma_row_lists<T: PhysAddr>(
    m: MemblockRegion<T>,
    res: Seq<MemblockRegion<T>>,
    g0: int,
    g1: int,
    g: int,
) -> (i: int)
    requires
        g0 <= g < g1,
        clip(m, res, g).len() > 0,
    ensures
        0 <= i < row(m, res, g0, g1).len(),
        row(m, res, g0, g1)[i] == piece(m, res, g),
    decreases g1 - g0,
{
    if g == g0 {
        0
    } else {
        clip(m, res, g0).len() + lemma_row_lists(m, res, g0 + 1, g1, g)
    }
}

proof fn lemma_grid_lists<T: PhysAddr>(
    mem: Seq<MemblockRegion<T>>,
    res: Seq<MemblockRegion<T>>,
    filter: Option<MemblockFlags>,
    m0: int,
    m1: int,
    g0: int,
    g1: int,
    k: int,
    g: int,
) -> (i: int)
    requires
        m0 <= k < m1,
        g0 <= g < g1,
        considered(mem[k].flags(), filter),
        clip(mem[k], res, g).len() > 0,
    ensures
        0 <= i < grid(mem, res, filter, m0, m1, g0, g1).len(),
        grid(mem, res, filter, m0, m1, g0, g1)[i] == piece(mem[k], res, g),
    decreases m1 - m0,
{
    if k == m0 {
        lemma_row_lists(mem[k], res, g0, g1, g)
    } else {
        filtered_row(mem[m0], res, filter, g0, g1).len() + lemma_grid_lists(
            mem,
            res,
            filter,
            m0 + 1,
            m1,
            g0,
            g1,
            k,
            g,
        )
    }
}

/// What a considered region and a gap have in common is a free range, unless
/// it is empty.
pub proof fn lemma_piece_is_free<T: PhysAddr>(
    mem: Seq<MemblockRegion<T>>,
    res: Seq<MemblockRegion<T>>,
    filter: Option<MemblockFlags>,
    k: int,
    g: int,
) -> (i: int)
    requires
        0 <= k < mem.len(),
        0 <= g <= res.len(),
        considered(mem[k].flags(), filter),
        clip(mem[k], res, g).len() > 0,
    ensures
        0 <= i < free_ranges(mem, res, filter).len(),
        free_ranges(mem, res, filter)[i] == piece(mem[k], res, g),
{
    lemma_grid_lists(mem, res, filter, 0, mem.len() as int, 0, res.len() as int + 1, k, g)
}

} // verus!

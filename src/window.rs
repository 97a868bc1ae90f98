use vstd::prelude::*;
use crate::region::{map_wf, MemoryRegion};

verus! {

/// One gibibyte: the size of a window page.
pub const GIB: u64 = 0x4000_0000;

/// 512 GiB: the span of one root entry, to which the window offset is aligned.
pub const WINDOW_ALIGN: u64 = 0x80_0000_0000;

/// The highest physical end of any region; 0 for an empty map.
pub open spec fn phys_mem_end_of(regions: Seq<MemoryRegion>) -> int
    decreases regions.len(),
{
    if regions.len() == 0 {
        0
    } else {
        let rest = phys_mem_end_of(regions.drop_last());
        let e = regions.last().phys_end();
        if e > rest { e } else { rest }
    }
}

/// The highest virtual end of any region; 0 for an empty map.
pub open spec fn max_used_virt_of(regions: Seq<MemoryRegion>) -> int
    decreases regions.len(),
{
    if regions.len() == 0 {
        0
    } else {
        let rest = max_used_virt_of(regions.drop_last());
        let e = regions.last().virt_end();
        if e > rest { e } else { rest }
    }
}

/// The smallest multiple of `a` that is at least `x`.
pub open spec fn round_up(x: int, a: int) -> int {
    ((x + a - 1) / a) * a
}

/// Where the window onto physical memory starts for this map.
pub open spec fn window_offset_of(regions: Seq<MemoryRegion>) -> int {
    round_up(max_used_virt_of(regions), WINDOW_ALIGN as int)
}

/// How many 1 GiB pages the window needs: `ceil(phys_mem_end / 1 GiB)`.
pub open spec fn window_count_of(regions: Seq<MemoryRegion>) -> int {
    (phys_mem_end_of(regions) + GIB - 1) / (GIB as int)
}

/// The whole window lies below the top of the 64-bit address space.
pub open spec fn window_fits(regions: Seq<MemoryRegion>) -> bool {
    window_offset_of(regions) <= u64::MAX
        && window_offset_of(regions) + window_count_of(regions) * GIB <= u64::MAX + 1
}

pub fn phys_mem_end(regions: &Vec<MemoryRegion>) -> (r: u64)
    requires
        map_wf(regions@),
    ensures
        r == phys_mem_end_of(regions@),
{
    let mut best: u64 = 0;
    let mut i: usize = 0;
    while i < regions.len()
        invariant
            i <= regions.len(),
            map_wf(regions@),
            best == phys_mem_end_of(regions@.take(i as int)),
        decreases regions.len() - i,
    {
        proof {
            assert(regions@.take(i as int + 1).drop_last() =~= regions@.take(i as int));
            assert(regions@[i as int].wf());
        }
        let e = regions[i].phys_end_exec();
        if e > best {
            best = e;
        }
        i = i + 1;
    }
    proof {
        assert(regions@.take(i as int) =~= regions@);
    }
    best
}

pub fn max_used_virt(regions: &Vec<MemoryRegion>) -> (r: u64)
    requires
        map_wf(regions@),
    ensures
        r == max_used_virt_of(regions@),
{
    let mut best: u64 = 0;
    let mut i: usize = 0;
    while i < regions.len()
        invariant
            i <= regions.len(),
            map_wf(regions@),
            best == max_used_virt_of(regions@.take(i as int)),
        decreases regions.len() - i,
    {
        proof {
            assert(regions@.take(i as int + 1).drop_last() =~= regions@.take(i as int));
            assert(regions@[i as int].wf());
        }
        let e = regions[i].virt_end_exec();
        if e > best {
            best = e;
        }
        i = i + 1;
    }
    proof {
        assert(regions@.take(i as int) =~= regions@);
    }
    best
}

/// The window offset for a map whose regions end at most at `max_virt`:
/// the next multiple of 512 GiB, or `None` when that is past 64 bits.
pub fn window_offset(max_virt: u64) -> (r: Option<u64>)
    ensures
        r == (if round_up(max_virt as int, WINDOW_ALIGN as int) <= u64::MAX {
            Some(round_up(max_virt as int, WINDOW_ALIGN as int) as u64)
        } else {
            None
        }),
{
    let q = max_virt / WINDOW_ALIGN;
    let rem = max_virt % WINDOW_ALIGN;
    proof {
        let a = WINDOW_ALIGN as int;
        let x = max_virt as int;
        assert(x == q * a + rem);
        if rem == 0 {
            assert((x + a - 1) / a == q) by (nonlinear_arith)
                requires x == q * a, a > 0, q >= 0;
        } else {
            assert((x + a - 1) / a == q + 1) by (nonlinear_arith)
                requires x == q * a + rem, a > 0, 0 < rem < a, q >= 0;
        }
    }
    if rem == 0 {
        Some(max_virt)
    } else if q < u64::MAX / WINDOW_ALIGN {
        proof {
            assert((q + 1) * WINDOW_ALIGN <= u64::MAX) by (nonlinear_arith)
                requires q < u64::MAX / WINDOW_ALIGN, WINDOW_ALIGN > 0;
        }
        Some((q + 1) * WINDOW_ALIGN)
    } else {
        proof {
            assert((q + 1) * WINDOW_ALIGN > u64::MAX) by (nonlinear_arith)
                requires q >= u64::MAX / WINDOW_ALIGN, WINDOW_ALIGN > 0;
        }
        None
    }
}

/// The number of 1 GiB pages that cover `[0, end)`.
pub fn window_gigabytes(end: u64) -> (r: u64)
    ensures
        r == (end + GIB - 1) / (GIB as int),
{
    let q = end / GIB;
    if end % GIB == 0 {
        q
    } else {
        q + 1
    }
}

/// The window offset is a multiple of 512 GiB, lies at or above every
/// virtual address the map uses, and is the smallest such multiple.
pub proof fn lemma_window_offset_aligned(regions: Seq<MemoryRegion>)
    ensures
        window_offset_of(regions) % (WINDOW_ALIGN as int) == 0,
        window_offset_of(regions) >= max_used_virt_of(regions),
        window_offset_of(regions) < max_used_virt_of(regions) + WINDOW_ALIGN,
{
    lemma_ends_nonnegative(regions);
    let x = max_used_virt_of(regions);
    let a = WINDOW_ALIGN as int;
    let q = (x + a - 1) / a;
    assert(q * a % a == 0) by (nonlinear_arith)
        requires a > 0;
    assert(q * a >= x && q * a < x + a) by (nonlinear_arith)
        requires a > 0, x >= 0, q == (x + a - 1) / a;
}

pub proof fn lemma_ends_nonnegative(regions: Seq<MemoryRegion>)
    ensures
        max_used_virt_of(regions) >= 0,
        phys_mem_end_of(regions) >= 0,
    decreases regions.len(),
{
    if regions.len() > 0 {
        lemma_ends_nonnegative(regions.drop_last());
    }
}

} // verus!

use vstd::prelude::*;
use crate::bump::BumpFrameAllocator;
use crate::region::{map_wf, MemoryRegion, RegionKind, PAGE_SIZE};
use crate::table::{covers, lemma_conflict_means_mapped, Flags, MapError, PageSize, PageTableArena};
use crate::translate::resolve;
use crate::window::{
    max_used_virt, phys_mem_end, window_count_of, window_fits, window_gigabytes, window_offset,
    window_offset_of, GIB, WINDOW_ALIGN,
};

verus! {

/// A failure of the build; each one aborts it.
#[derive(Clone, Copy, Debug, PartialEq, Eq, Structural)]
pub enum BootError {
    /// The firmware could not hand out pages or pool memory.
    AllocationFailure,
    /// The memory map is stale or does not describe the scratch pool.
    MapUnavailable,
    /// A table node was needed and the scratch pool is exhausted.
    OutOfScratchFrames,
    /// Two mappings claim the same virtual page.
    AlreadyMapped,
    /// The physical window does not fit below the top of the address space.
    AddressSpaceExhausted,
}

/// The last stage the build completed.
#[derive(Clone, Copy, Debug, PartialEq, Eq, Structural)]
pub enum Stage {
    Idle,
    ScratchReserved,
    MapAcquired,
    WindowMapped,
    RuntimeMapped,
}

/// A build that stopped: the stage it had completed, and why.
#[derive(Clone, Copy, Debug, PartialEq, Eq, Structural)]
pub struct Aborted {
    pub reached: Stage,
    pub error: BootError,
}

/// One inserted mapping.
#[derive(Clone, Copy, Debug, PartialEq, Eq, Structural)]
pub struct Mapping {
    pub virt: u64,
    pub phys: u64,
    pub flags: Flags,
    pub size: PageSize,
}

/// What the next boot stage receives.
#[derive(Clone, Copy, Debug, PartialEq, Eq, Structural)]
pub struct HandOff {
    pub root_frame_number: u64,
    pub physical_window_offset: u64,
    pub scratch_pool_base: u64,
    pub scratch_pool_page_count: u64,
}

pub open spec fn map_error(e: MapError) -> BootError {
    match e {
        MapError::AlreadyMapped => BootError::AlreadyMapped,
        MapError::OutOfScratchFrames => BootError::OutOfScratchFrames,
    }
}

fn boot_error(e: MapError) -> (r: BootError)
    ensures
        r == map_error(e),
{
    match e {
        MapError::AlreadyMapped => BootError::AlreadyMapped,
        MapError::OutOfScratchFrames => BootError::OutOfScratchFrames,
    }
}

/// The hierarchy maps `m.virt` as `m` says.
pub open spec fn present(arena: PageTableArena, m: Mapping) -> bool {
    arena.lookup(m.virt) == Some((m.size, m.phys, m.flags))
}

pub open spec fn all_present(arena: PageTableArena, maps: Seq<Mapping>) -> bool {
    forall|k: int| 0 <= k < maps.len() ==> present(arena, #[trigger] maps[k])
}

/// Some mapping of `done` covers the address `w`.
#[verifier::opaque]
pub open spec fn covered_by(done: Seq<Mapping>, w: u64) -> bool {
    exists|k: int| 0 <= k < done.len() && covers((#[trigger] done[k]).virt, done[k].size, w)
}

/// Every address the hierarchy maps is covered by a mapping of `done`.
pub open spec fn only_done(arena: PageTableArena, done: Seq<Mapping>) -> bool {
    forall|w: u64| (#[trigger] arena.lookup(w) is Some) ==> covered_by(done, w)
}

/// No mapping of `maps` covers the address of a later one.
pub open spec fn disjoint(maps: Seq<Mapping>) -> bool {
    forall|j: int, k: int| #![trigger maps[j], maps[k]]
        0 <= j < k < maps.len() ==> !covers(maps[j].virt, maps[j].size, maps[k].virt)
}

proof fn lemma_disjoint_prefix(a: Seq<Mapping>, b: Seq<Mapping>)
    requires
        disjoint(a + b),
    ensures
        disjoint(a),
{
    assert forall|j: int, k: int| #![trigger a[j], a[k]] 0 <= j < k < a.len() implies
        !covers(a[j].virt, a[j].size, a[k].virt) by {
        assert((a + b)[j] == a[j] && (a + b)[k] == a[k]);
    }
}

/// Nodes a mapping of `size` can need at most.
pub open spec fn worst_frames(size: PageSize) -> int {
    if size == PageSize::Size1GiB { 1 } else { 3 }
}

proof fn lemma_insert_keeps(a0: PageTableArena, a1: PageTableArena, done: Seq<Mapping>, m: Mapping)
    requires
        all_present(a0, done),
        only_done(a0, done),
        forall|w: u64| covers(m.virt, m.size, w) ==> (#[trigger] a0.lookup(w) is None),
        forall|w: u64| #[trigger] a1.lookup(w) == (if covers(m.virt, m.size, w) {
            Some((m.size, m.phys, m.flags))
        } else {
            a0.lookup(w)
        }),
    ensures
        all_present(a1, done.push(m)),
        only_done(a1, done.push(m)),
{
    reveal(covered_by);
    let d = done.push(m);
    assert(covers(m.virt, m.size, m.virt));
    assert forall|k: int| 0 <= k < d.len() implies present(a1, #[trigger] d[k]) by {
        if k < done.len() {
            assert(d[k] == done[k]);
            assert(present(a0, done[k]));
            assert(covers(done[k].virt, done[k].size, done[k].virt));
            assert(a0.lookup(done[k].virt) is Some);
        }
    }
    assert forall|w: u64| (#[trigger] a1.lookup(w) is Some) implies covered_by(d, w) by {
        if covers(m.virt, m.size, w) {
            assert(d[done.len() as int] == m);
        } else {
            assert(a0.lookup(w) is Some);
            let k = choose|k: int| 0 <= k < done.len() && covers((#[trigger] done[k]).virt, done[k].size, w);
            assert(d[k] == done[k]);
        }
    }
}

/// Maps `m` after the mappings of `done`, keeping all of them.
fn insert(arena: &mut PageTableArena, alloc: &mut BumpFrameAllocator, m: Mapping, done: Ghost<Seq<Mapping>>) -> (r: Result<(), MapError>)
    requires
        old(arena).wf(*old(alloc)),
        all_present(*old(arena), done@),
        only_done(*old(arena), done@),
    ensures
        final(arena).wf(*final(alloc)),
        final(arena).pool_base == old(arena).pool_base,
        final(arena).pool_frames == old(arena).pool_frames,
        r is Ok ==> all_present(*final(arena), done@.push(m)),
        r is Ok ==> only_done(*final(arena), done@.push(m)),
        r is Ok ==> final(alloc).remaining >= old(alloc).remaining - worst_frames(m.size),
        m.size == PageSize::Size1GiB && old(arena).no_small_tables() ==> final(arena).no_small_tables(),
        !covered_by(done@, m.virt) && old(alloc).remaining >= worst_frames(m.size)
            && (m.size == PageSize::Size4KiB || old(arena).no_small_tables()) ==> r is Ok,
{
    let ghost a0 = *arena;
    let ghost al0 = *alloc;
    proof {
        if m.size == PageSize::Size4KiB || a0.no_small_tables() {
            lemma_conflict_means_mapped(a0, al0, m.virt, m.size);
        }
    }
    let r = arena.map_to(alloc, m.virt, m.phys, m.flags, m.size);
    proof {
        if r is Ok {
            lemma_insert_keeps(a0, *arena, done@, m);
        }
        if !covered_by(done@, m.virt) {
            assert(a0.lookup(m.virt) is None);
        }
    }
    r
}

/// Flags of every window page: present, writable, user-accessible, not executable.
pub open spec fn window_flags() -> Flags {
    Flags { present: true, writable: true, user_accessible: true, no_execute: true }
}

/// The `g`-th window mapping: virtual `offset + g GiB` to physical `g GiB`.
pub open spec fn window_mapping(offset: int, g: int) -> Mapping {
    Mapping {
        virt: (offset + g * GIB) as u64,
        phys: (g * GIB) as u64,
        flags: window_flags(),
        size: PageSize::Size1GiB,
    }
}

/// The first `n` window mappings, in order.
pub open spec fn window_plan(offset: int, n: int) -> Seq<Mapping> {
    Seq::new(n as nat, |g: int| window_mapping(offset, g))
}

/// Flags of a runtime-pass mapping for a region of `kind`; `None` for the
/// classes that get none.
pub open spec fn runtime_flags(kind: RegionKind) -> Option<Flags> {
    match kind {
        RegionKind::RuntimeServicesCode => Some(
            Flags { present: true, writable: false, user_accessible: true, no_execute: false },
        ),
        RegionKind::RuntimeServicesData => Some(
            Flags { present: true, writable: true, user_accessible: true, no_execute: true },
        ),
        _ => None,
    }
}

pub fn runtime_flags_for(kind: RegionKind) -> (r: Option<Flags>)
    ensures
        r == runtime_flags(kind),
{
    match kind {
        RegionKind::RuntimeServicesCode => Some(
            Flags { present: true, writable: false, user_accessible: true, no_execute: false },
        ),
        RegionKind::RuntimeServicesData => Some(
            Flags { present: true, writable: true, user_accessible: true, no_execute: true },
        ),
        _ => None,
    }
}

/// The mapping of page `k` of `r` at its own virtual address.
pub open spec fn page_mapping(r: MemoryRegion, k: int, flags: Flags) -> Mapping {
    Mapping {
        virt: (r.virt_start + k * PAGE_SIZE) as u64,
        phys: (r.phys_start + k * PAGE_SIZE) as u64,
        flags,
        size: PageSize::Size4KiB,
    }
}

/// The runtime-pass mappings of one region, page by page.
pub open spec fn region_pages(r: MemoryRegion) -> Seq<Mapping> {
    match runtime_flags(r.kind) {
        Some(flags) => Seq::new(r.page_count as nat, |k: int| page_mapping(r, k, flags)),
        None => Seq::empty(),
    }
}

/// The runtime-pass mappings of a map, region by region in map order.
pub open spec fn runtime_plan(regions: Seq<MemoryRegion>) -> Seq<Mapping>
    decreases regions.len(),
{
    if regions.len() == 0 {
        Seq::empty()
    } else {
        runtime_plan(regions.drop_last()) + region_pages(regions.last())
    }
}

/// Region `r` holds the whole pool of `frames` frames at `base`.
pub open spec fn hosts(r: MemoryRegion, base: int, frames: int) -> bool {
    r.phys_start <= base && base + frames * PAGE_SIZE <= r.phys_end()
}

pub open spec fn has_host(regions: Seq<MemoryRegion>, base: int, frames: int) -> bool {
    exists|i: int| 0 <= i < regions.len() && hosts(#[trigger] regions[i], base, frames)
}

/// The first region of the map that holds the whole scratch pool.
pub fn find_host(regions: &Vec<MemoryRegion>, base: u64, frames: u64) -> (r: Option<usize>)
    requires
        map_wf(regions@),
    ensures
        r matches Some(i) ==> i < regions@.len() && hosts(regions@[i as int], base as int, frames as int),
        r is None <==> !has_host(regions@, base as int, frames as int),
{
    let mut i: usize = 0;
    while i < regions.len()
        invariant
            i <= regions.len(),
            map_wf(regions@),
            forall|j: int| 0 <= j < i ==> !hosts(#[trigger] regions@[j], base as int, frames as int),
        decreases regions.len() - i,
    {
        let r = regions[i];
        proof {
            assert(regions@[i as int].wf());
        }
        let end = r.phys_end_exec();
        let fits = match frames.checked_mul(PAGE_SIZE) {
            Some(len) => match base.checked_add(len) {
                Some(top) => r.phys_start <= base && top <= end,
                None => false,
            },
            None => false,
        };
        if fits {
            return Some(i);
        }
        i = i + 1;
    }
    None
}

/// The finished hierarchy with what it was built from.
pub struct BuiltTables {
    pub arena: PageTableArena,
    pub alloc: BumpFrameAllocator,
    /// The region that holds the scratch pool.
    pub host: MemoryRegion,
    pub window_offset: u64,
    pub window_mappings: Vec<Mapping>,
    pub runtime_mappings: Vec<Mapping>,
}

/// Maps the window of `count` 1 GiB pages at `offset`, in order.
fn map_window(
    arena: &mut PageTableArena,
    alloc: &mut BumpFrameAllocator,
    offset: u64,
    count: u64,
) -> (r: Result<Vec<Mapping>, MapError>)
    requires
        old(arena).wf(*old(alloc)),
        old(arena).no_small_tables(),
        forall|w: u64| (#[trigger] old(arena).lookup(w) is None),
        offset + count * GIB <= u64::MAX + 1,
    ensures
        final(arena).wf(*final(alloc)),
        final(arena).pool_base == old(arena).pool_base,
        final(arena).pool_frames == old(arena).pool_frames,
        r matches Ok(maps) ==> maps@ == window_plan(offset as int, count as int),
        r matches Ok(maps) ==> all_present(*final(arena), maps@),
        r matches Ok(maps) ==> only_done(*final(arena), maps@),
        r is Ok ==> final(alloc).remaining >= old(alloc).remaining - count,
        disjoint(window_plan(offset as int, count as int)) && old(alloc).remaining >= count ==> r is Ok,
{
    let mut maps: Vec<Mapping> = Vec::new();
    let mut g: u64 = 0;
    while g < count
        invariant
            g <= count,
            arena.wf(*alloc),
            arena.pool_base == old(arena).pool_base,
            arena.pool_frames == old(arena).pool_frames,
            offset + count * GIB <= u64::MAX + 1,
            maps@ == window_plan(offset as int, g as int),
            all_present(*arena, maps@),
            only_done(*arena, maps@),
            arena.no_small_tables(),
            alloc.remaining + g >= old(alloc).remaining,
        decreases count - g,
    {
        proof {
            assert(offset + g * GIB + GIB <= u64::MAX + 1) by (nonlinear_arith)
                requires offset + count * GIB <= u64::MAX + 1, g < count;
        }
        let m = Mapping {
            virt: offset + g * GIB,
            phys: g * GIB,
            flags: Flags { present: true, writable: true, user_accessible: true, no_execute: true },
            size: PageSize::Size1GiB,
        };
        proof {
            let plan = window_plan(offset as int, count as int);
            if disjoint(plan) && old(alloc).remaining >= count {
                reveal(covered_by);
                assert(plan[g as int] == m);
                if covered_by(maps@, m.virt) {
                    let k = choose|k: int| 0 <= k < maps@.len() && covers((#[trigger] maps@[k]).virt, maps@[k].size, m.virt);
                    assert(plan[k] == maps@[k]);
                }
            }
        }
        match insert(arena, alloc, m, Ghost(maps@)) {
            Ok(()) => {},
            Err(e) => {
                return Err(e);
            },
        }
        maps.push(m);
        proof {
            assert(maps@ =~= window_plan(offset as int, g + 1));
        }
        g = g + 1;
    }
    Ok(maps)
}

proof fn lemma_plan_prefix(regions: Seq<MemoryRegion>, i: int)
    requires
        0 <= i <= regions.len(),
    ensures
        runtime_plan(regions.take(i)).len() <= runtime_plan(regions).len(),
        forall|q: int| 0 <= q < runtime_plan(regions.take(i)).len() ==>
            #[trigger] runtime_plan(regions.take(i))[q] == runtime_plan(regions)[q],
    decreases regions.len(),
{
    if i == regions.len() {
        assert(regions.take(i) =~= regions);
    } else {
        let rest = regions.drop_last();
        assert(regions.take(i) =~= rest.take(i));
        lemma_plan_prefix(rest, i);
    }
}

/// Maps every page of every runtime-services region at its own virtual
/// address, in map order.
fn map_runtime(
    arena: &mut PageTableArena,
    alloc: &mut BumpFrameAllocator,
    regions: &Vec<MemoryRegion>,
    prior: Ghost<Seq<Mapping>>,
) -> (r: Result<Vec<Mapping>, MapError>)
    requires
        old(arena).wf(*old(alloc)),
        map_wf(regions@),
        all_present(*old(arena), prior@),
        only_done(*old(arena), prior@),
    ensures
        final(arena).wf(*final(alloc)),
        final(arena).pool_base == old(arena).pool_base,
        final(arena).pool_frames == old(arena).pool_frames,
        r matches Ok(maps) ==> maps@ == runtime_plan(regions@),
        r matches Ok(maps) ==> all_present(*final(arena), prior@ + maps@),
        disjoint(prior@ + runtime_plan(regions@)) && old(alloc).remaining >= 3 * runtime_plan(regions@).len()
            ==> r is Ok,
{
    let mut maps: Vec<Mapping> = Vec::new();
    let mut i: usize = 0;
    while i < regions.len()
        invariant
            i <= regions.len(),
            map_wf(regions@),
            arena.wf(*alloc),
            arena.pool_base == old(arena).pool_base,
            arena.pool_frames == old(arena).pool_frames,
            maps@ == runtime_plan(regions@.take(i as int)),
            all_present(*arena, prior@ + maps@),
            only_done(*arena, prior@ + maps@),
            alloc.remaining + 3 * maps@.len() >= old(alloc).remaining,
        decreases regions.len() - i,
    {
        let r = regions[i];
        let ghost before = maps@;
        proof {
            assert(regions@.take(i as int + 1).drop_last() =~= regions@.take(i as int));
            assert(r.wf());
            assert(regions@.take(i as int + 1).last() == r);
            lemma_plan_prefix(regions@, i as int + 1);
        }
        match runtime_flags_for(r.kind) {
            None => {
                proof {
                    assert(maps@ =~= runtime_plan(regions@.take(i as int + 1)));
                }
            },
            Some(flags) => {
                let mut k: u64 = 0;
                while k < r.page_count
                    invariant
                        k <= r.page_count,
                        r.wf(),
                        runtime_flags(r.kind) == Some(flags),
                        arena.wf(*alloc),
                        arena.pool_base == old(arena).pool_base,
                        arena.pool_frames == old(arena).pool_frames,
                        maps@ == before + region_pages(r).take(k as int),
                        before == runtime_plan(regions@.take(i as int)),
                        all_present(*arena, prior@ + maps@),
                        only_done(*arena, prior@ + maps@),
                        alloc.remaining + 3 * maps@.len() >= old(alloc).remaining,
                        runtime_plan(regions@.take(i as int + 1)) == before + region_pages(r),
                        runtime_plan(regions@.take(i as int + 1)).len() <= runtime_plan(regions@).len(),
                        forall|q: int| 0 <= q < runtime_plan(regions@.take(i as int + 1)).len() ==>
                            #[trigger] runtime_plan(regions@.take(i as int + 1))[q] == runtime_plan(regions@)[q],
                    decreases r.page_count - k,
                {
                    proof {
                        assert(k * PAGE_SIZE < r.page_count * PAGE_SIZE) by (nonlinear_arith)
                            requires k < r.page_count;
                    }
                    let m = Mapping {
                        virt: r.virt_start + k * PAGE_SIZE,
                        phys: r.phys_start + k * PAGE_SIZE,
                        flags,
                        size: PageSize::Size4KiB,
                    };
                    proof {
                        let plan = runtime_plan(regions@);
                        let all = prior@ + plan;
                        let here = before.len() + k;
                        assert(region_pages(r)[k as int] == m);
                        assert(plan[here] == m) by {
                            assert(runtime_plan(regions@.take(i as int + 1))[here] == m);
                        }
                        if disjoint(all) && old(alloc).remaining >= 3 * plan.len() {
                            reveal(covered_by);
                            let done = prior@ + maps@;
                            assert(all[prior@.len() + here] == m);
                            if covered_by(done, m.virt) {
                                let q = choose|q: int| 0 <= q < done.len() && covers((#[trigger] done[q]).virt, done[q].size, m.virt);
                                if q >= prior@.len() {
                                    let q2 = q - prior@.len();
                                    assert(maps@[q2] == runtime_plan(regions@.take(i as int + 1))[q2]);
                                    assert(plan[q2] == maps@[q2]);
                                }
                                assert(all[q] == done[q]);
                            }
                            assert(maps@.len() < plan.len());
                        }
                    }
                    match insert(arena, alloc, m, Ghost(prior@ + maps@)) {
                        Ok(()) => {},
                        Err(e) => {
                            return Err(e);
                        },
                    }
                    let ghost done = prior@ + maps@;
                    maps.push(m);
                    proof {
                        assert(prior@ + maps@ =~= done.push(m));
                        assert(region_pages(r).take(k as int + 1) =~= region_pages(r).take(k as int).push(m));
                        assert(maps@ =~= before + region_pages(r).take(k as int + 1));
                    }
                    k = k + 1;
                }
                proof {
                    assert(region_pages(r).take(k as int) =~= region_pages(r));
                }
            },
        }
        i = i + 1;
    }
    proof {
        assert(regions@.take(i as int) =~= regions@);
    }
    Ok(maps)
}

/// Builds the hierarchy for `regions` in the scratch pool of `pool_frames`
/// frames at `pool_base`: an empty root in the pool's first frame, the window
/// onto all physical memory, then the runtime-services regions.
pub fn build(regions: &Vec<MemoryRegion>, pool_base: u64, pool_frames: u64) -> (r: Result<BuiltTables, Aborted>)
    requires
        map_wf(regions@),
        pool_frames * 512 <= usize::MAX,
    ensures
        !has_host(regions@, pool_base as int, pool_frames as int) <==> r == Err::<BuiltTables, Aborted>(
            Aborted { reached: Stage::ScratchReserved, error: BootError::MapUnavailable },
        ),
        has_host(regions@, pool_base as int, pool_frames as int) && !window_fits(regions@) <==> r
            == Err::<BuiltTables, Aborted>(
            Aborted { reached: Stage::MapAcquired, error: BootError::AddressSpaceExhausted },
        ),
        has_host(regions@, pool_base as int, pool_frames as int) && window_fits(regions@) && pool_frames == 0
            ==> r == Err::<BuiltTables, Aborted>(
            Aborted { reached: Stage::MapAcquired, error: BootError::OutOfScratchFrames },
        ),
        has_host(regions@, pool_base as int, pool_frames as int) && window_fits(regions@)
            && pool_frames >= 1 + window_count_of(regions@) + 3 * runtime_plan(regions@).len()
            && disjoint(window_plan(window_offset_of(regions@), window_count_of(regions@)) + runtime_plan(regions@))
            ==> r is Ok,
        r matches Err(a) ==> a.error == BootError::MapUnavailable || a.error == BootError::AddressSpaceExhausted
            || (a.reached == Stage::MapAcquired || a.reached == Stage::WindowMapped)
            && (a.error == BootError::OutOfScratchFrames || a.error == BootError::AlreadyMapped),
        r matches Ok(t) ==> {
            &&& t.window_offset == window_offset_of(regions@)
            &&& t.window_mappings@ == window_plan(window_offset_of(regions@), window_count_of(regions@))
            &&& t.window_mappings@.len() == window_count_of(regions@)
            &&& t.wf()
            &&& t.runtime_mappings@ == runtime_plan(regions@)
            &&& all_present(t.arena, t.window_mappings@ + t.runtime_mappings@)
            &&& t.arena.pool_base == pool_base
            &&& t.arena.pool_frames == pool_frames
            &&& t.arena.wf(t.alloc)
            &&& t.host.wf()
            &&& hosts(t.host, pool_base as int, pool_frames as int)
            &&& regions@.contains(t.host)
        },
{
    let host = match find_host(regions, pool_base, pool_frames) {
        Some(i) => regions[i],
        None => {
            return Err(Aborted { reached: Stage::ScratchReserved, error: BootError::MapUnavailable });
        },
    };
    proof {
        let i = choose|i: int| 0 <= i < regions@.len() && regions@[i] == host;
        assert(host.wf());
    }
    let max_virt = max_used_virt(regions);
    let end = phys_mem_end(regions);
    let count = window_gigabytes(end);
    let offset = match window_offset(max_virt) {
        Some(o) => o,
        None => {
            return Err(Aborted { reached: Stage::MapAcquired, error: BootError::AddressSpaceExhausted });
        },
    };
    proof {
        assert(count * GIB <= u64::MAX + 1) by (nonlinear_arith)
            requires count == (end + GIB - 1) / (GIB as int), end <= u64::MAX;
    }
    if count > (u64::MAX - offset) / GIB + 1 {
        proof {
            assert(offset + count * GIB > u64::MAX + 1) by (nonlinear_arith)
                requires count > (u64::MAX - offset) / (GIB as int) + 1, offset <= u64::MAX;
        }
        return Err(Aborted { reached: Stage::MapAcquired, error: BootError::AddressSpaceExhausted });
    }
    if count == (u64::MAX - offset) / GIB + 1 && (u64::MAX - offset) % GIB != GIB - 1 {
        proof {
            assert(offset + count * GIB > u64::MAX + 1) by (nonlinear_arith)
                requires count == (u64::MAX - offset) / (GIB as int) + 1,
                    (u64::MAX - offset) % (GIB as int) != GIB - 1, offset <= u64::MAX;
        }
        return Err(Aborted { reached: Stage::MapAcquired, error: BootError::AddressSpaceExhausted });
    }
    proof {
        assert(offset + count * GIB <= u64::MAX + 1) by (nonlinear_arith)
            requires count <= (u64::MAX - offset) / (GIB as int) + 1,
                count == (u64::MAX - offset) / (GIB as int) + 1 ==> (u64::MAX - offset) % (GIB as int) == GIB - 1,
                offset <= u64::MAX;
    }
    if pool_frames == 0 {
        return Err(Aborted { reached: Stage::MapAcquired, error: BootError::OutOfScratchFrames });
    }
    let (mut arena, mut alloc) = PageTableArena::new(pool_base, pool_frames);
    proof {
        let w = window_plan(offset as int, count as int);
        if disjoint(w + runtime_plan(regions@)) {
            lemma_disjoint_prefix(w, runtime_plan(regions@));
        }
    }
    let window_mappings = match map_window(&mut arena, &mut alloc, offset, count) {
        Ok(maps) => maps,
        Err(e) => {
            return Err(Aborted { reached: Stage::MapAcquired, error: boot_error(e) });
        },
    };
    let runtime_mappings = match map_runtime(&mut arena, &mut alloc, regions, Ghost(window_mappings@)) {
        Ok(maps) => maps,
        Err(e) => {
            return Err(Aborted { reached: Stage::WindowMapped, error: boot_error(e) });
        },
    };
    Ok(BuiltTables { arena, alloc, host, window_offset: offset, window_mappings, runtime_mappings })
}

impl BuiltTables {
    /// The pool is hosted by `host`, and the arena and allocator agree.
    pub open spec fn wf(self) -> bool {
        &&& self.arena.wf(self.alloc)
        &&& self.host.wf()
        &&& hosts(self.host, self.arena.pool_base as int, self.arena.pool_frames as int)
    }

    /// The record handed to the kernel.
    pub fn hand_off(&self) -> (r: HandOff)
        ensures
            r.root_frame_number == self.arena.pool_base / PAGE_SIZE,
            r.physical_window_offset == self.window_offset,
            r.scratch_pool_base == self.arena.pool_base,
            r.scratch_pool_page_count == self.arena.pool_frames,
    {
        HandOff {
            root_frame_number: self.arena.pool_base / PAGE_SIZE,
            physical_window_offset: self.window_offset,
            scratch_pool_base: self.arena.pool_base,
            scratch_pool_page_count: self.arena.pool_frames,
        }
    }

    /// Physical address of the frame of slot `slot`.
    pub fn node_frame(&self, slot: u64) -> (r: u64)
        requires
            self.wf(),
            slot < self.arena.pool_frames,
        ensures
            r == self.arena.slot_frame(slot as int),
            self.host.contains_phys(r as int),
    {
        proof {
            assert(slot * PAGE_SIZE + PAGE_SIZE <= self.arena.pool_frames * PAGE_SIZE) by (nonlinear_arith)
                requires slot < self.arena.pool_frames;
        }
        self.arena.pool_base + slot * PAGE_SIZE
    }

    /// Where the node of slot `slot` can be written before hand-off.
    pub fn node_address(&self, slot: u64) -> (r: u64)
        requires
            self.wf(),
            slot < self.arena.pool_frames,
        ensures
            r == self.host.virt_start + (self.arena.slot_frame(slot as int) - self.host.phys_start),
            self.host.virt_start <= r < self.host.virt_end(),
    {
        let frame = self.node_frame(slot);
        resolve(frame, &self.host)
    }
}

/// Every runtime-pass mapping is a page of some region of the map; a region
/// of an ephemeral class contributes none; every page of a runtime code
/// region is read-only and executable, every page of a runtime data region
/// writable and not executable, all of them present and user-accessible.
/// `m` is page `j` of the runtime-pass mappings of some region `i` of the map.
pub open spec fn is_runtime_page(regions: Seq<MemoryRegion>, m: Mapping) -> bool {
    exists|i: int, j: int|
        0 <= i < regions.len() && 0 <= j < region_pages(regions[i]).len()
            && m == #[trigger] region_pages(regions[i])[j]
}

pub proof fn lemma_runtime_policy(regions: Seq<MemoryRegion>)
    ensures
        forall|k: int| 0 <= k < runtime_plan(regions).len() ==> is_runtime_page(regions, #[trigger] runtime_plan(regions)[k]),
        forall|i: int| 0 <= i < regions.len() && (#[trigger] regions[i]).kind.is_ephemeral()
            ==> region_pages(regions[i]).len() == 0,
        forall|i: int, j: int| 0 <= i < regions.len() && 0 <= j < region_pages(regions[i]).len()
            ==> {
            let f = (#[trigger] region_pages(regions[i])[j]).flags;
            &&& f.present && f.user_accessible
            &&& regions[i].kind == RegionKind::RuntimeServicesCode ==> !f.writable && !f.no_execute
            &&& regions[i].kind == RegionKind::RuntimeServicesData ==> f.writable && f.no_execute
        },
    decreases regions.len(),
{
    if regions.len() > 0 {
        let rest = regions.drop_last();
        lemma_runtime_policy(rest);
        let plan = runtime_plan(regions);
        let last = regions.len() - 1;
        assert(plan == runtime_plan(rest) + region_pages(regions[last]));
        assert forall|k: int| 0 <= k < plan.len() implies is_runtime_page(regions, #[trigger] plan[k]) by {
            if k < runtime_plan(rest).len() {
                assert(is_runtime_page(rest, runtime_plan(rest)[k]));
                let (i, j) = choose|i: int, j: int| 0 <= i < rest.len() && 0 <= j < region_pages(rest[i]).len()
                    && runtime_plan(rest)[k] == #[trigger] region_pages(rest[i])[j];
                assert(rest[i] == regions[i]);
                assert(plan[k] == region_pages(regions[i])[j]);
            } else {
                let j = k - runtime_plan(rest).len();
                assert(plan[k] == region_pages(regions[last])[j]);
            }
        }
    } else {
        assert(runtime_plan(regions).len() == 0);
    }
}

proof fn lemma_window_indices(b: int, g: int)
    requires
        b >= 0,
        0 <= g,
    ensures
        ((b * WINDOW_ALIGN + g * GIB) / (GIB as int)) % 512 == g % 512,
        ((b * WINDOW_ALIGN + g * GIB) / (WINDOW_ALIGN as int)) % 512 == (b + g / 512) % 512,
{
    assert(b * WINDOW_ALIGN + g * GIB == (b * 512 + g) * GIB);
    assert((b * 512 + g) * GIB / (GIB as int) == b * 512 + g) by (nonlinear_arith)
        requires b >= 0, g >= 0;
    assert((b * 512 + g) % 512 == g % 512) by (nonlinear_arith)
        requires b >= 0, g >= 0;
    assert(b * WINDOW_ALIGN + g * GIB == (b * 512 + g % 512) * GIB + (g / 512) * WINDOW_ALIGN);
    assert((b * WINDOW_ALIGN + g * GIB) / (WINDOW_ALIGN as int) == b + g / 512) by (nonlinear_arith)
        requires b >= 0, g >= 0, b * WINDOW_ALIGN + g * GIB == (b + g / 512) * WINDOW_ALIGN + (g % 512) * GIB,
            0 <= g % 512 < 512;
}

/// With the offset on a 512 GiB boundary, the window pages of a map with at
/// most 2^18 of them (256 TiB) never cover one another.
pub proof fn lemma_window_plan_disjoint(offset: int, n: int)
    requires
        offset >= 0,
        offset % (WINDOW_ALIGN as int) == 0,
        0 <= n <= 0x4_0000,
        offset + n * GIB <= u64::MAX + 1,
    ensures
        disjoint(window_plan(offset, n)),
{
    let p = window_plan(offset, n);
    let b = offset / (WINDOW_ALIGN as int);
    assert(offset == b * WINDOW_ALIGN);
    assert forall|j: int, k: int| #![trigger p[j], p[k]] 0 <= j < k < n implies
        !covers(p[j].virt, p[j].size, p[k].virt) by {
        assert(offset + k * GIB < u64::MAX + 1) by (nonlinear_arith)
            requires offset + n * GIB <= u64::MAX + 1, k < n;
        assert(offset + j * GIB < u64::MAX + 1) by (nonlinear_arith)
            requires offset + n * GIB <= u64::MAX + 1, j < k, k < n;
        assert(j * GIB >= 0 && k * GIB >= 0) by (nonlinear_arith)
            requires j >= 0, k >= 0;
        lemma_window_indices(b, j);
        lemma_window_indices(b, k);
        assert(p[j].virt == offset + j * GIB);
        assert(p[k].virt == offset + k * GIB);
        if covers(p[j].virt, p[j].size, p[k].virt) {
            assert(j % 512 == k % 512);
            assert((b + j / 512) % 512 == (b + k / 512) % 512);
            assert(j / 512 < 512 && k / 512 < 512);
            assert(j / 512 == k / 512) by (nonlinear_arith)
                requires (b + j / 512) % 512 == (b + k / 512) % 512, 0 <= j / 512 < 512, 0 <= k / 512 < 512, b >= 0;
            assert(j == k);
        }
    }
}

} // verus!

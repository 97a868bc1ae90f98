use boot_paging::builder::{build, runtime_flags_for, Aborted, BootError, BuiltTables, Mapping, Stage};
use boot_paging::bump::BumpFrameAllocator;
use boot_paging::region::{map_is_well_formed, MemoryRegion, RegionKind, PAGE_SIZE};
use boot_paging::table::{encode, Flags, MapError, PageSize, PageTableArena};
use boot_paging::translate::resolve;
use boot_paging::window::{max_used_virt, phys_mem_end, window_gigabytes, window_offset, GIB, WINDOW_ALIGN};

fn region(phys: u64, virt: u64, pages: u64, kind: RegionKind) -> MemoryRegion {
    MemoryRegion { phys_start: phys, virt_start: virt, page_count: pages, kind, attribute: 0 }
}

fn built(r: Result<BuiltTables, Aborted>) -> BuiltTables {
    match r {
        Ok(t) => t,
        Err(a) => panic!("build aborted: {:?}", a),
    }
}

fn aborted(r: Result<BuiltTables, Aborted>) -> Aborted {
    match r {
        Ok(_) => panic!("build succeeded"),
        Err(a) => a,
    }
}

fn data_flags() -> Flags {
    Flags { present: true, writable: true, user_accessible: true, no_execute: true }
}

fn code_flags() -> Flags {
    Flags { present: true, writable: false, user_accessible: true, no_execute: false }
}

#[test]
fn resolve_inside_region() {
    let r = region(0x10_0000, 0xFFFF_8000_0010_0000, 16, RegionKind::LoaderData);
    assert_eq!(resolve(0x10_0000, &r), 0xFFFF_8000_0010_0000);
    assert_eq!(resolve(0x10_3000, &r), 0xFFFF_8000_0010_3000);
    assert_eq!(resolve(0x10_FFFF, &r), 0xFFFF_8000_0010_FFFF);
}

#[test]
fn allocator_drains_highest_first() {
    let mut a = BumpFrameAllocator::new(0x1000, 3);
    assert_eq!(a.allocate(), Some(0x3000));
    assert_eq!(a.allocate(), Some(0x2000));
    assert_eq!(a.allocate(), Some(0x1000));
    assert_eq!(a.allocate(), None);
    assert_eq!(a.allocate(), None);
    assert_eq!(a.remaining, 0);
}

#[test]
fn allocator_frames_distinct_and_decreasing() {
    let n = 64u64;
    let mut a = BumpFrameAllocator::new(0x20_0000, n);
    let mut prev: Option<u64> = None;
    for _ in 0..n {
        let f = a.allocate().expect("pool not yet exhausted");
        if let Some(p) = prev {
            assert!(f + PAGE_SIZE <= p);
        }
        prev = Some(f);
    }
    assert_eq!(prev, Some(0x20_0000));
    assert_eq!(a.allocate(), None);
}

#[test]
fn window_offset_rounds_up_to_512_gib() {
    assert_eq!(window_offset(0), Some(0));
    assert_eq!(window_offset(1), Some(WINDOW_ALIGN));
    assert_eq!(window_offset(WINDOW_ALIGN), Some(WINDOW_ALIGN));
    assert_eq!(window_offset(WINDOW_ALIGN + 1), Some(2 * WINDOW_ALIGN));
    assert_eq!(window_offset(0xFFFF_8000_0000_1000), Some(0xFFFF_8080_0000_0000));
    assert_eq!(window_offset(u64::MAX - WINDOW_ALIGN + 2), None);
    assert_eq!(window_offset(u64::MAX - WINDOW_ALIGN + 1), Some(u64::MAX - WINDOW_ALIGN + 1));
}

#[test]
fn window_gigabytes_is_ceiling() {
    assert_eq!(window_gigabytes(0), 0);
    assert_eq!(window_gigabytes(1), 1);
    assert_eq!(window_gigabytes(GIB), 1);
    assert_eq!(window_gigabytes(GIB + 1), 2);
    assert_eq!(window_gigabytes(u64::MAX), 1 << 34);
}

#[test]
fn map_extents_are_maxima() {
    let map = vec![
        region(0x4000_0000, 0, 2, RegionKind::Conventional),
        region(0, 0x9000_0000, 16, RegionKind::LoaderCode),
        region(0x1000, 0x1000, 1, RegionKind::AcpiReclaim),
    ];
    assert!(map_is_well_formed(&map));
    assert_eq!(phys_mem_end(&map), 0x4000_2000);
    assert_eq!(max_used_virt(&map), 0x9001_0000);
    assert_eq!(phys_mem_end(&Vec::new()), 0);
}

#[test]
fn ill_formed_region_is_detected() {
    let map = vec![region(u64::MAX - 0xFFF, 0, 2, RegionKind::Conventional)];
    assert!(!map_is_well_formed(&map));
}

#[test]
fn runtime_flags_policy() {
    assert_eq!(runtime_flags_for(RegionKind::RuntimeServicesCode), Some(code_flags()));
    assert_eq!(runtime_flags_for(RegionKind::RuntimeServicesData), Some(data_flags()));
    for k in [
        RegionKind::BootServicesCode,
        RegionKind::BootServicesData,
        RegionKind::LoaderCode,
        RegionKind::LoaderData,
        RegionKind::Conventional,
        RegionKind::AcpiReclaim,
        RegionKind::Other,
    ] {
        assert_eq!(runtime_flags_for(k), None);
    }
}

#[test]
fn one_gib_of_conventional_memory() {
    let map = vec![region(0, 0, 262144, RegionKind::Conventional)];
    let t = built(build(&map, 0x10_0000, 16));
    assert_eq!(t.window_mappings.len(), 1);
    assert_eq!(t.runtime_mappings.len(), 0);
    assert_eq!(t.window_offset, WINDOW_ALIGN);
    assert_eq!(
        t.window_mappings[0],
        Mapping { virt: WINDOW_ALIGN, phys: 0, flags: data_flags(), size: PageSize::Size1GiB }
    );
    assert_eq!(t.alloc.remaining, 14);
}

#[test]
fn runtime_data_region_is_mapped() {
    let map = vec![
        region(0x10_0000, 0x10_0000, 64, RegionKind::LoaderData),
        region(GIB, 0xFFFF_8000_0000_0000, 1, RegionKind::RuntimeServicesData),
    ];
    let t = built(build(&map, 0x10_0000, 16));
    assert_eq!(t.runtime_mappings.len(), 1);
    assert_eq!(
        t.runtime_mappings[0],
        Mapping { virt: 0xFFFF_8000_0000_0000, phys: GIB, flags: data_flags(), size: PageSize::Size4KiB }
    );
    assert_eq!(t.window_offset, 0xFFFF_8080_0000_0000);
    assert_eq!(t.window_mappings.len(), 2);
    assert_eq!(t.window_mappings[1].virt, 0xFFFF_8080_4000_0000);
    assert_eq!(t.window_mappings[1].phys, GIB);
}

#[test]
fn runtime_code_pages_are_read_only_and_executable() {
    let map = vec![
        region(0x10_0000, 0x10_0000, 64, RegionKind::LoaderData),
        region(0x20_0000, 0xFFFF_8000_0020_0000, 3, RegionKind::RuntimeServicesCode),
        region(0x30_0000, 0xFFFF_8000_0030_0000, 5, RegionKind::BootServicesCode),
    ];
    let t = built(build(&map, 0x10_0000, 16));
    assert_eq!(t.runtime_mappings.len(), 3);
    for (k, m) in t.runtime_mappings.iter().enumerate() {
        assert_eq!(m.virt, 0xFFFF_8000_0020_0000 + k as u64 * PAGE_SIZE);
        assert_eq!(m.phys, 0x20_0000 + k as u64 * PAGE_SIZE);
        assert_eq!(m.flags, code_flags());
    }
}

#[test]
fn pool_one_frame_short_aborts_before_window() {
    let map = vec![region(0, 0, 262144, RegionKind::Conventional)];
    let a = aborted(build(&map, 0x10_0000, 1));
    assert_eq!(a, Aborted { reached: Stage::MapAcquired, error: BootError::OutOfScratchFrames });
    let t = built(build(&map, 0x10_0000, 2));
    assert_eq!(t.alloc.remaining, 0);
}

#[test]
fn pool_outside_map_is_map_unavailable() {
    let map = vec![region(0, 0, 16, RegionKind::Conventional)];
    let a = aborted(build(&map, 0x10_0000, 4));
    assert_eq!(a, Aborted { reached: Stage::ScratchReserved, error: BootError::MapUnavailable });
    let a = aborted(build(&map, 0x8000, 16));
    assert_eq!(a.error, BootError::MapUnavailable);
}

#[test]
fn window_past_top_of_address_space() {
    let map = vec![
        region(0x10_0000, 0x10_0000, 64, RegionKind::LoaderData),
        region(0x4000_0000, 0xFFFF_FF80_0000_1000, 1, RegionKind::RuntimeServicesData),
    ];
    let a = aborted(build(&map, 0x10_0000, 16));
    assert_eq!(a, Aborted { reached: Stage::MapAcquired, error: BootError::AddressSpaceExhausted });
}

#[test]
fn overlapping_runtime_regions_conflict() {
    let map = vec![
        region(0x10_0000, 0x10_0000, 64, RegionKind::LoaderData),
        region(0x20_0000, 0xFFFF_8000_0000_0000, 1, RegionKind::RuntimeServicesData),
        region(0x30_0000, 0xFFFF_8000_0000_0000, 1, RegionKind::RuntimeServicesCode),
    ];
    let a = aborted(build(&map, 0x10_0000, 16));
    assert_eq!(a, Aborted { reached: Stage::WindowMapped, error: BootError::AlreadyMapped });
}

#[test]
fn map_to_places_entries_by_address_bits() {
    let (mut arena, mut alloc) = PageTableArena::new(0x10_0000, 4);
    let virt = 2 * WINDOW_ALIGN + 3 * GIB;
    assert_eq!(arena.map_to(&mut alloc, virt, 5 * GIB, data_flags(), PageSize::Size1GiB), Ok(()));
    assert_eq!(alloc.remaining, 2);
    assert_eq!(arena.hardware_entry(&alloc, 0, 0), Some(0));
    assert_eq!(arena.hardware_entry(&alloc, 0, 2), Some(0x10_0000 + 3 * PAGE_SIZE + 7));
    assert_eq!(arena.hardware_entry(&alloc, 3, 3), Some(5 * GIB + 0x87 + (1 << 63)));
    assert_eq!(arena.hardware_entry(&alloc, 3, 0), Some(0));
    assert_eq!(
        arena.map_to(&mut alloc, virt, 0, data_flags(), PageSize::Size1GiB),
        Err(MapError::AlreadyMapped)
    );
    assert_eq!(
        arena.map_to(&mut alloc, virt + 0x5000, 0, data_flags(), PageSize::Size4KiB),
        Err(MapError::AlreadyMapped)
    );
}

#[test]
fn map_to_small_page_walks_four_levels() {
    let (mut arena, mut alloc) = PageTableArena::new(0x10_0000, 4);
    let virt = 0xFFFF_8000_0040_3000u64;
    assert_eq!(arena.map_to(&mut alloc, virt, 0x7000, code_flags(), PageSize::Size4KiB), Ok(()));
    assert_eq!(alloc.remaining, 0);
    assert_eq!(arena.hardware_entry(&alloc, 0, 256), Some(0x10_0000 + 3 * PAGE_SIZE + 7));
    assert_eq!(arena.hardware_entry(&alloc, 3, 0), Some(0x10_0000 + 2 * PAGE_SIZE + 7));
    assert_eq!(arena.hardware_entry(&alloc, 2, 2), Some(0x10_0000 + PAGE_SIZE + 7));
    assert_eq!(arena.hardware_entry(&alloc, 1, 3), Some(0x7000 + 5));
    assert_eq!(
        arena.map_to(&mut alloc, 0x1000, 0x7000, code_flags(), PageSize::Size4KiB),
        Err(MapError::OutOfScratchFrames)
    );
    assert_eq!(arena.hardware_entry(&alloc, 0, 0), Some(0));
}

#[test]
fn encode_rejects_unaligned_and_wide_addresses() {
    assert_eq!(encode(0x1001, data_flags(), false), None);
    assert_eq!(encode(1 << 52, data_flags(), false), None);
    assert_eq!(encode(0x2000, code_flags(), false), Some(0x2005));
    assert_eq!(encode(GIB, data_flags(), true), Some(GIB + 0x87 + (1 << 63)));
}

#[test]
fn hand_off_and_node_addresses() {
    let map = vec![
        region(0, 0, 0x100, RegionKind::Conventional),
        region(0x10_0000, 0x8000_0000, 64, RegionKind::LoaderData),
    ];
    let t = built(build(&map, 0x10_4000, 8));
    let h = t.hand_off();
    assert_eq!(h.root_frame_number, 0x104);
    assert_eq!(h.scratch_pool_base, 0x10_4000);
    assert_eq!(h.scratch_pool_page_count, 8);
    assert_eq!(h.physical_window_offset, WINDOW_ALIGN);
    assert_eq!(t.node_frame(2), 0x10_6000);
    assert_eq!(t.node_address(0), 0x8000_4000);
    assert_eq!(t.node_address(7), 0x8000_B000);
}

#[test]
fn window_past_512_gib_takes_a_second_node() {
    let map = vec![region(0, 0, 600 * 262144, RegionKind::Conventional)];
    let a = aborted(build(&map, 0x10_0000, 2));
    assert_eq!(a, Aborted { reached: Stage::MapAcquired, error: BootError::OutOfScratchFrames });
    let t = built(build(&map, 0x10_0000, 3));
    assert_eq!(t.window_mappings.len(), 600);
    assert_eq!(t.alloc.remaining, 0);
    assert_eq!(t.window_offset, 2 * WINDOW_ALIGN);
    assert_eq!(t.window_mappings[599].virt, 2 * WINDOW_ALIGN + 599 * GIB);
    assert_eq!(t.arena.hardware_entry(&t.alloc, 0, 2), Some(0x10_0000 + 2 * PAGE_SIZE + 7));
    assert_eq!(t.arena.hardware_entry(&t.alloc, 0, 3), Some(0x10_0000 + PAGE_SIZE + 7));
    assert_eq!(t.arena.hardware_entry(&t.alloc, 1, 599 - 512), Some(599 * GIB + 0x87 + (1 << 63)));
}

use blog_os_verified::memory::{
    BootInfoFrameAllocator, EmptyFrameAllocator, MemoryMap, MemoryRegion, MemoryRegionType,
    MAX_MEMORY_MAP_SIZE,
};

fn map_of(regions: &[MemoryRegion]) -> MemoryMap {
    let mut entries = [region(0, 0, MemoryRegionType::Empty); MAX_MEMORY_MAP_SIZE];
    entries[..regions.len()].copy_from_slice(regions);
    MemoryMap { entries, next_entry_index: regions.len() as u64 }
}

fn region(start: u64, end: u64, region_type: MemoryRegionType) -> MemoryRegion {
    MemoryRegion { start_frame_number: start, end_frame_number: end, region_type }
}

#[test]
fn empty_allocator_has_nothing() {
    let mut a = EmptyFrameAllocator;
    assert_eq!(a.allocate_frame(), None);
    assert_eq!(a.allocate_frame(), None);
}

#[test]
fn frames_come_from_usable_regions_in_order() {
    let map = map_of(&[
        region(0, 1, MemoryRegionType::FrameZero),
        region(1, 3, MemoryRegionType::Usable),
        region(3, 5, MemoryRegionType::Reserved),
        region(5, 6, MemoryRegionType::Usable),
    ]);
    let mut a = BootInfoFrameAllocator::init(map);
    assert_eq!(a.allocate_frame(), Some(0x1000));
    assert_eq!(a.allocate_frame(), Some(0x2000));
    assert_eq!(a.allocate_frame(), Some(0x5000));
    assert_eq!(a.allocate_frame(), None);
    assert_eq!(a.allocate_frame(), None);
}

#[test]
fn frame_lookup_by_position() {
    let map = map_of(&[
        region(0x100, 0x102, MemoryRegionType::Usable),
        region(0x102, 0x200, MemoryRegionType::Kernel),
        region(0x200, 0x300, MemoryRegionType::Usable),
    ]);
    let a = BootInfoFrameAllocator::init(map);
    assert_eq!(a.usable_frame_at(0), Some(0x10_0000));
    assert_eq!(a.usable_frame_at(1), Some(0x10_1000));
    assert_eq!(a.usable_frame_at(2), Some(0x20_0000));
    assert_eq!(a.usable_frame_at(257), Some(0x2ff_000));
    assert_eq!(a.usable_frame_at(258), None);
}

#[test]
fn empty_and_inverted_regions_give_no_frames() {
    let map = map_of(&[
        region(4, 4, MemoryRegionType::Usable),
        region(9, 2, MemoryRegionType::Usable),
    ]);
    let mut a = BootInfoFrameAllocator::init(map);
    assert_eq!(a.allocate_frame(), None);
}

#[test]
fn allocated_frames_are_distinct_and_aligned() {
    let map = map_of(&[
        region(1, 4, MemoryRegionType::Usable),
        region(4, 8, MemoryRegionType::InUse),
        region(8, 12, MemoryRegionType::Usable),
    ]);
    let mut a = BootInfoFrameAllocator::init(map);
    let mut seen = Vec::new();
    while let Some(f) = a.allocate_frame() {
        assert_eq!(f % 4096, 0);
        assert!(!seen.contains(&f));
        if let Some(&last) = seen.last() {
            assert!(f > last);
        }
        seen.push(f);
    }
    assert_eq!(seen.len(), 7);
}

#[test]
fn entries_past_the_map_length_are_ignored() {
    let mut map = map_of(&[region(1, 2, MemoryRegionType::Usable)]);
    map.entries[1] = region(10, 20, MemoryRegionType::Usable);
    let mut a = BootInfoFrameAllocator::init(map);
    assert_eq!(a.allocate_frame(), Some(0x1000));
    assert_eq!(a.allocate_frame(), None);
}

#[test]
fn frames_fit_checks_usable_regions_only() {
    let ok = map_of(&[
        region(1, 0x100_0000_0000, MemoryRegionType::Usable),
        region(0x200_0000_0000, 0x300_0000_0000, MemoryRegionType::Reserved),
    ]);
    assert!(ok.frames_fit());
    let too_high = map_of(&[region(1, 0x100_0000_0001, MemoryRegionType::Usable)]);
    assert!(!too_high.frames_fit());
}

#[test]
fn requests_count_every_call() {
    let mut a = BootInfoFrameAllocator::init(map_of(&[region(1, 2, MemoryRegionType::Usable)]));
    assert_eq!(a.requests(), 0);
    a.allocate_frame();
    a.allocate_frame();
    assert_eq!(a.requests(), 2);
}

#[test]
fn unsorted_disjoint_regions_give_distinct_frames() {
    let map = map_of(&[
        region(8, 10, MemoryRegionType::Usable),
        region(2, 4, MemoryRegionType::Usable),
        region(3, 9, MemoryRegionType::Reserved),
    ]);
    let mut a = BootInfoFrameAllocator::init(map);
    assert_eq!(a.allocate_frame(), Some(0x8000));
    assert_eq!(a.allocate_frame(), Some(0x9000));
    assert_eq!(a.allocate_frame(), Some(0x2000));
    assert_eq!(a.allocate_frame(), Some(0x3000));
    assert_eq!(a.allocate_frame(), None);
    assert_eq!(a.allocate_frame(), None);
}

use kernel_memory::frame_allocator::{
    addr_to_frame, allocate_frame, deallocate_frame, frame_allocator_stats, frame_to_addr,
    init_frame_allocator, FrameAllocator, MemoryRegion, PAGE_SHIFT, PAGE_SIZE,
};

// Region of 256 frames whose first 16 lie below the kernel-image boundary
// (0x4100_0000): frames 0..16 are reserved, 16..256 start out free.
fn region_256_frames_16_reserved() -> MemoryRegion {
    MemoryRegion { start: 0x40FF_0000, size: 256 * 4096 }
}

// Region of 16 frames entirely above the kernel-image boundary: all free.
fn small_free_region(start: u64, frames: u64) -> MemoryRegion {
    MemoryRegion { start, size: frames * 4096 }
}

#[test]
fn address_frame_conversions() {
    assert_eq!(PAGE_SIZE, 4096);
    assert_eq!(PAGE_SHIFT, 12);
    assert_eq!(addr_to_frame(0x4000_0000), 0x40000);
    assert_eq!(addr_to_frame(0x4000_0FFF), 0x40000);
    assert_eq!(frame_to_addr(0x40000), 0x4000_0000);
    assert_eq!(frame_to_addr(addr_to_frame(0x4001_0000)), 0x4001_0000);
}

#[test]
fn construction_reserves_kernel_prefix() {
    let fa = FrameAllocator::new(&[region_256_frames_16_reserved()], vec![0u8; 32]);
    let (free, total) = fa.stats();
    assert_eq!(total, 256);
    assert_eq!(free, 240);
}

#[test]
fn construction_picks_largest_region() {
    let regions = [
        small_free_region(0x4100_0000, 8),
        small_free_region(0x4200_0000, 32),
        small_free_region(0x4300_0000, 16),
    ];
    let mut fa = FrameAllocator::new(&regions, vec![0u8; 8]);
    let (free, total) = fa.stats();
    assert_eq!(total, 32);
    assert_eq!(free, 32);
    // The first frame handed out lies in the chosen region.
    let frame = fa.allocate_frame().unwrap();
    assert_eq!(frame_to_addr(frame), 0x4200_0000);
}

#[test]
fn construction_ties_go_to_later_region() {
    let regions = [
        small_free_region(0x4100_0000, 16),
        small_free_region(0x4200_0000, 16),
    ];
    let mut fa = FrameAllocator::new(&regions, vec![0u8; 4]);
    let frame = fa.allocate_frame().unwrap();
    assert_eq!(frame_to_addr(frame), 0x4200_0000);
}

#[test]
fn construction_region_fully_reserved() {
    // A region entirely below the kernel boundary: nothing is usable.
    let region = MemoryRegion { start: 0x4000_0000, size: 16 * 4096 };
    let mut fa = FrameAllocator::new(&[region], vec![0u8; 2]);
    let (free, total) = fa.stats();
    assert_eq!(total, 16);
    assert_eq!(free, 0);
    assert_eq!(fa.allocate_frame(), None);
}

#[test]
fn first_fit_honors_rotating_hint() {
    // 256 usable-minus-16 frames; the hint starts at index 0, so the first
    // sixteen allocations return the sixteen lowest unreserved frames, and
    // the 17th returns the lowest index that is still free.
    let mut fa = FrameAllocator::new(&[region_256_frames_16_reserved()], vec![0u8; 32]);
    let base = addr_to_frame(0x40FF_0000);
    for i in 0..16 {
        let frame = fa.allocate_frame().unwrap();
        assert_eq!(frame, base + 16 + i);
    }
    let seventeenth = fa.allocate_frame().unwrap();
    assert_eq!(seventeenth, base + 32);
}

#[test]
fn hint_skips_freed_lower_frames_until_wraparound() {
    // After freeing an early frame, the rotating hint keeps scanning upward
    // first and returns to the freed frame only after wrapping.
    let mut fa = FrameAllocator::new(&[small_free_region(0x4100_0000, 16)], vec![0u8; 2]);
    let base = addr_to_frame(0x4100_0000);
    let first = fa.allocate_frame().unwrap();
    assert_eq!(first, base);
    fa.deallocate_frame(first);
    // The hint moved past index 0, so the next allocation returns index 1.
    assert_eq!(fa.allocate_frame().unwrap(), base + 1);
}

#[test]
fn allocations_stay_in_range() {
    let mut fa = FrameAllocator::new(&[region_256_frames_16_reserved()], vec![0u8; 32]);
    let base = addr_to_frame(0x40FF_0000);
    loop {
        match fa.allocate_frame() {
            Some(frame) => {
                assert!(frame >= base);
                assert!(frame < base + 256);
            },
            None => break,
        }
    }
    let (free, total) = fa.stats();
    assert_eq!(free, 0);
    assert_eq!(total, 256);
}

#[test]
fn exhaustion_returns_none_and_counts_stay_balanced() {
    let mut fa = FrameAllocator::new(&[small_free_region(0x4100_0000, 16)], vec![0u8; 2]);
    for _ in 0..16 {
        assert!(fa.allocate_frame().is_some());
    }
    assert_eq!(fa.allocate_frame(), None);
    assert_eq!(fa.stats(), (0, 16));
}

#[test]
fn alloc_dealloc_roundtrip_restores_free_count() {
    let mut fa = FrameAllocator::new(&[region_256_frames_16_reserved()], vec![0u8; 32]);
    let (free_before, total_before) = fa.stats();
    let mut frames = Vec::new();
    for _ in 0..10 {
        frames.push(fa.allocate_frame().unwrap());
    }
    let (free_mid, _) = fa.stats();
    assert_eq!(free_mid, free_before - 10);
    // Deallocate in a different order than allocated.
    for &i in &[3usize, 9, 0, 7, 5, 1, 8, 2, 6, 4] {
        fa.deallocate_frame(frames[i]);
    }
    let (free_after, total_after) = fa.stats();
    assert_eq!(free_after, free_before);
    assert_eq!(total_after, total_before);
}

#[test]
fn invalid_deallocations_are_silently_ignored() {
    let mut fa = FrameAllocator::new(&[region_256_frames_16_reserved()], vec![0u8; 32]);
    let (free_before, _) = fa.stats();
    let base = addr_to_frame(0x40FF_0000);
    // Below and above the managed region.
    fa.deallocate_frame(0);
    fa.deallocate_frame(base + 256);
    fa.deallocate_frame(base + 10_000);
    // In range but never allocated (already free).
    fa.deallocate_frame(base + 100);
    let (free_after, _) = fa.stats();
    assert_eq!(free_after, free_before);
}

#[test]
fn double_free_is_a_no_op() {
    let mut fa = FrameAllocator::new(&[region_256_frames_16_reserved()], vec![0u8; 32]);
    let frame = fa.allocate_frame().unwrap();
    let (free_before, _) = fa.stats();
    fa.deallocate_frame(frame);
    let (free_once, _) = fa.stats();
    assert_eq!(free_once, free_before + 1);
    fa.deallocate_frame(frame);
    let (free_twice, _) = fa.stats();
    assert_eq!(free_twice, free_once);
}

#[test]
fn allocator_slot_functions() {
    let mut slot: Option<FrameAllocator> = None;
    // An empty slot yields nothing and reports zero.
    assert_eq!(allocate_frame(&mut slot), None);
    assert_eq!(frame_allocator_stats(&slot), (0, 0));
    deallocate_frame(&mut slot, 0x4100_0000);

    init_frame_allocator(&mut slot, &[region_256_frames_16_reserved()], vec![0u8; 32]);
    assert_eq!(frame_allocator_stats(&slot), (240, 256));

    let addr = allocate_frame(&mut slot).unwrap();
    assert_eq!(addr, 0x4100_0000);
    assert_eq!(addr % 4096, 0);
    assert_eq!(frame_allocator_stats(&slot), (239, 256));

    deallocate_frame(&mut slot, addr);
    assert_eq!(frame_allocator_stats(&slot), (240, 256));
}

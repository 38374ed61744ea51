use kernel_memory::frame_allocator::{FrameAllocator, MemoryRegion};
use kernel_memory::mmu::{
    mair_el1_value, sctlr_el1_enable_value, tcr_el1_value, MemoryManagementUnit,
};
use kernel_memory::paging::{MemoryError, PageFlags, FLAG_INNER_SHAREABLE, FLAG_VALID};

fn boot_allocator() -> FrameAllocator {
    // The scenario region: 256 MiB at 0x4000_0000 is 65536 frames at 4 KiB;
    // the kernel-image boundary at 0x4100_0000 reserves the first 4096.
    FrameAllocator::new(
        &[MemoryRegion { start: 0x4000_0000, size: 0x1000_0000 }],
        vec![0u8; 8192],
    )
}

fn rw_normal() -> PageFlags {
    PageFlags::from_bits_truncate(FLAG_VALID | FLAG_INNER_SHAREABLE)
}

#[test]
fn register_values() {
    // Device / normal-non-cacheable / normal-write-back in slots 0..3.
    assert_eq!(mair_el1_value(), 0x00FF_4400);
    // T0SZ=16, T1SZ=16, 4 KiB granules, 44-bit physical addresses.
    assert_eq!(tcr_el1_value(), 0x2_8010_0010);
    // Translation and both caches on, alignment checking off.
    assert_eq!(sctlr_el1_enable_value(0), 0x1005);
    assert_eq!(sctlr_el1_enable_value(0x2), 0x1005);
    assert_eq!(sctlr_el1_enable_value(0x1005), 0x1005);
}

#[test]
fn operations_fail_before_initialization() {
    let mut fa = boot_allocator();
    let mut mmu = MemoryManagementUnit::new();
    assert_eq!(
        mmu.map_page(&mut fa, 0x1000, 0x4001_0000, rw_normal()),
        Err(MemoryError::NotInitialized)
    );
    assert_eq!(mmu.unmap_page(0x1000), Err(MemoryError::NotInitialized));
    assert_eq!(mmu.translate(0x1000), None);
}

#[test]
fn initialization_happens_once() {
    let mut fa = boot_allocator();
    let mut mmu = MemoryManagementUnit::new();
    assert_eq!(mmu.init(&mut fa), Ok(()));
    assert_eq!(mmu.init(&mut fa), Err(MemoryError::AlreadyInitialized));
}

#[test]
fn initialization_fails_without_frames() {
    // A region entirely below the kernel boundary has no usable frame.
    let mut fa = FrameAllocator::new(
        &[MemoryRegion { start: 0x4000_0000, size: 16 * 4096 }],
        vec![0u8; 2],
    );
    let mut mmu = MemoryManagementUnit::new();
    assert_eq!(mmu.init(&mut fa), Err(MemoryError::VmmCreationFailed));
    assert_eq!(mmu.translate(0x1000), None);
}

#[test]
fn unmap_and_free_returns_the_frame_to_the_allocator() {
    let mut fa = boot_allocator();
    let mut mmu = MemoryManagementUnit::new();
    assert_eq!(mmu.init(&mut fa), Ok(()));

    // Map a frame taken from the allocator itself, then release both the
    // mapping and the frame in one step.
    let data_frame = fa.allocate_frame().unwrap();
    let pa = (data_frame as u64) << 12;
    assert_eq!(mmu.map_page(&mut fa, 0x3000, pa, rw_normal()), Ok(()));
    let (free_mapped, _) = fa.stats();

    assert_eq!(mmu.unmap_page_and_free(&mut fa, 0x3000), Ok(pa));
    let (free_after, _) = fa.stats();
    assert_eq!(free_after, free_mapped + 1);
    assert_eq!(mmu.translate(0x3000), None);

    // Unmapping an unmapped page frees nothing.
    assert_eq!(
        mmu.unmap_page_and_free(&mut fa, 0x3000),
        Err(MemoryError::NotMapped)
    );
    assert_eq!(fa.stats().0, free_after);
}

#[test]
fn boot_scenario_maps_and_translates() {
    // 65536 frames, 4096 reserved for the kernel image; map 0x1000 to
    // 0x4001_0000 read-write normal memory and translate an offset address.
    let mut fa = boot_allocator();
    let (free0, total) = fa.stats();
    assert_eq!(total, 65536);
    assert_eq!(free0, 65536 - 4096);

    let mut mmu = MemoryManagementUnit::new();
    assert_eq!(mmu.init(&mut fa), Ok(()));

    assert_eq!(mmu.map_page(&mut fa, 0x1000, 0x4001_0000, rw_normal()), Ok(()));
    assert_eq!(mmu.translate(0x1000 + 0x234), Some(0x4001_0234));

    // One frame for the root table, three for the intermediate levels.
    let (free_now, _) = fa.stats();
    assert_eq!(free_now, free0 - 4);

    assert_eq!(mmu.unmap_page(0x1000), Ok(0x4001_0000));
    assert_eq!(mmu.translate(0x1000 + 0x234), None);
    assert_eq!(mmu.unmap_page(0x1000), Err(MemoryError::NotMapped));

    // The unmapped data frame is the caller's to free; the table frames stay.
    assert_eq!(fa.stats().0, free0 - 4);
}

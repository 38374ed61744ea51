use kernel_memory::frame_allocator::{FrameAllocator, MemoryRegion};
use kernel_memory::paging::{
    MemoryError, PageFlags, PageTable, PageTableEntry, VirtualMemoryManager, FLAG_DEVICE_MEMORY,
    FLAG_INNER_SHAREABLE, FLAG_READ_ONLY, FLAG_TABLE, FLAG_USER, FLAG_VALID,
};

fn allocator_with_frames(frames: u64) -> FrameAllocator {
    // A region above the kernel-image boundary: every frame starts out free.
    let bytes = ((frames + 7) / 8) as usize;
    FrameAllocator::new(
        &[MemoryRegion { start: 0x4100_0000, size: frames * 4096 }],
        vec![0u8; bytes],
    )
}

fn rw_normal() -> PageFlags {
    PageFlags::from_bits_truncate(FLAG_VALID | FLAG_INNER_SHAREABLE)
}

#[test]
fn flags_truncate_to_attribute_bits() {
    let f = PageFlags::from_bits_truncate(0xFFFF_FFFF_FFFF_FFFF);
    assert_eq!(f.bits(), 0x3C7);
    assert_eq!(PageFlags::empty().bits(), 0);
    let g = PageFlags::from_bits_truncate(FLAG_VALID | FLAG_READ_ONLY);
    assert_eq!(g.bits(), 0x81);
    let u = g.union(PageFlags::from_bits_truncate(FLAG_USER));
    assert_eq!(u.bits(), 0xC1);
    assert!(u.contains(g));
    assert!(!g.contains(u));
}

#[test]
fn entry_bit_layout() {
    // Bit 0 valid, bit 1 table/leaf, bit 2 memory type, bit 6 user,
    // bit 7 read-only, bits 8-9 shareability; bits 12..48 the address.
    let flags = PageFlags::from_bits_truncate(
        FLAG_VALID | FLAG_DEVICE_MEMORY | FLAG_USER | FLAG_READ_ONLY | FLAG_INNER_SHAREABLE,
    );
    let e = PageTableEntry::new(0x4001_0000, flags);
    assert_eq!(e.0, 0x4001_0000 | 0x1 | 0x4 | 0x40 | 0x80 | 0x300);
    assert!(e.is_valid());
    assert_eq!(e.physical_addr(), 0x4001_0000);
    assert_eq!(e.flags().bits(), 0x3C5);

    // The address is masked to page alignment before it is stored.
    let unaligned = PageTableEntry::new(0x4001_0ABC, PageFlags::from_bits_truncate(FLAG_VALID));
    assert_eq!(unaligned.physical_addr(), 0x4001_0000);

    let mut e2 = PageTableEntry::empty();
    assert!(!e2.is_valid());
    assert_eq!(e2.0, 0);
    e2.set_addr(0x4200_0000, PageFlags::from_bits_truncate(FLAG_VALID | FLAG_TABLE));
    assert_eq!(e2.0, 0x4200_0003);
}

#[test]
fn table_starts_empty_and_entries_are_settable() {
    let mut table = PageTable::new();
    assert!(table.get_entry(0).is_some());
    assert!(table.get_entry(511).is_some());
    assert!(table.get_entry(512).is_none());
    assert!(!table.get_entry(7).unwrap().is_valid());

    let e = PageTableEntry::new(0x4300_0000, PageFlags::from_bits_truncate(FLAG_VALID));
    table.set_entry(7, e);
    assert_eq!(table.get_entry(7).unwrap().0, e.0);

    let slot = table.get_entry_mut(9);
    *slot = e;
    assert_eq!(table.get_entry(9).unwrap().0, e.0);

    table.zero();
    assert!(!table.get_entry(7).unwrap().is_valid());
    assert!(!table.get_entry(9).unwrap().is_valid());
}

#[test]
fn vmm_creation_consumes_one_frame() {
    let mut fa = allocator_with_frames(16);
    let vmm = VirtualMemoryManager::new(&mut fa).unwrap();
    assert_eq!(fa.stats(), (15, 16));
    assert_eq!(vmm.root_table_addr(), 0x4100_0000);
    assert_eq!(vmm.root_table_addr() % 4096, 0);
}

#[test]
fn vmm_creation_fails_when_no_frame_is_free() {
    let mut fa = allocator_with_frames(1);
    assert!(fa.allocate_frame().is_some());
    assert!(VirtualMemoryManager::new(&mut fa).is_none());
}

#[test]
fn map_then_translate_returns_exact_address() {
    let mut fa = allocator_with_frames(64);
    let mut vmm = VirtualMemoryManager::new(&mut fa).unwrap();
    let va: u64 = 0x1000;
    let pa: u64 = 0x4001_0000;
    assert_eq!(vmm.map_page(&mut fa, va, pa, rw_normal()), Ok(()));
    // Exactly p plus the page offset, over the whole page.
    assert_eq!(vmm.translate(va), Some(pa));
    assert_eq!(vmm.translate(va + 0x234), Some(pa + 0x234));
    assert_eq!(vmm.translate(va + 0xFFF), Some(pa + 0xFFF));
    // Neighbouring pages stay unmapped.
    assert_eq!(vmm.translate(va - 0x1000), None);
    assert_eq!(vmm.translate(va + 0x1000), None);
}

#[test]
fn mapping_consumes_only_missing_tables() {
    let mut fa = allocator_with_frames(64);
    let mut vmm = VirtualMemoryManager::new(&mut fa).unwrap();
    let (free0, _) = fa.stats();
    // First mapping builds the three intermediate levels.
    assert_eq!(vmm.map_page(&mut fa, 0x1000, 0x4001_0000, rw_normal()), Ok(()));
    assert_eq!(fa.stats().0, free0 - 3);
    // A second mapping in the same final-level table creates nothing.
    assert_eq!(vmm.map_page(&mut fa, 0x2000, 0x4001_1000, rw_normal()), Ok(()));
    assert_eq!(fa.stats().0, free0 - 3);
    assert_eq!(vmm.translate(0x2000), Some(0x4001_1000));
}

#[test]
fn double_map_is_rejected_and_keeps_first_mapping() {
    let mut fa = allocator_with_frames(64);
    let mut vmm = VirtualMemoryManager::new(&mut fa).unwrap();
    let va: u64 = 0x7_F000;
    let first_pa: u64 = 0x4002_0000;
    let second_pa: u64 = 0x4003_0000;
    assert_eq!(vmm.map_page(&mut fa, va, first_pa, rw_normal()), Ok(()));
    let (free_mid, _) = fa.stats();
    assert_eq!(
        vmm.map_page(&mut fa, va, second_pa, rw_normal()),
        Err(MemoryError::AlreadyMapped)
    );
    // The first mapping still answers, and no frame was spent.
    assert_eq!(vmm.translate(va), Some(first_pa));
    assert_eq!(fa.stats().0, free_mid);
}

#[test]
fn unmap_returns_mapped_address_once() {
    let mut fa = allocator_with_frames(64);
    let mut vmm = VirtualMemoryManager::new(&mut fa).unwrap();
    let va: u64 = 0x40_0000;
    let pa: u64 = 0x4004_0000;
    // Never mapped: rejected.
    assert_eq!(vmm.unmap_page(va), Err(MemoryError::NotMapped));
    assert_eq!(vmm.map_page(&mut fa, va, pa, rw_normal()), Ok(()));
    // Mapped: unmapping yields exactly the mapped address.
    assert_eq!(vmm.unmap_page(va), Ok(pa));
    assert_eq!(vmm.translate(va), None);
    // Immediately afterwards the page is gone again.
    assert_eq!(vmm.unmap_page(va), Err(MemoryError::NotMapped));
}

#[test]
fn unmap_leaves_other_mappings_alone() {
    let mut fa = allocator_with_frames(64);
    let mut vmm = VirtualMemoryManager::new(&mut fa).unwrap();
    assert_eq!(vmm.map_page(&mut fa, 0x1000, 0x4001_0000, rw_normal()), Ok(()));
    assert_eq!(vmm.map_page(&mut fa, 0x2000, 0x4002_0000, rw_normal()), Ok(()));
    assert_eq!(vmm.unmap_page(0x1000), Ok(0x4001_0000));
    assert_eq!(vmm.translate(0x2000), Some(0x4002_0000));
    // A page can be mapped anew after an unmap.
    assert_eq!(vmm.map_page(&mut fa, 0x1000, 0x4005_0000, rw_normal()), Ok(()));
    assert_eq!(vmm.translate(0x1000), Some(0x4005_0000));
}

#[test]
fn map_fails_when_tables_cannot_be_allocated() {
    // Two frames: the root takes one, and the three intermediate levels for
    // a first mapping cannot all be built from the one that is left.
    let mut fa = allocator_with_frames(2);
    let mut vmm = VirtualMemoryManager::new(&mut fa).unwrap();
    assert_eq!(
        vmm.map_page(&mut fa, 0x1000, 0x4001_0000, rw_normal()),
        Err(MemoryError::TableAllocationFailed)
    );
    assert_eq!(fa.stats().0, 0);
    assert_eq!(vmm.translate(0x1000), None);
}

#[test]
fn distant_addresses_use_distinct_paths() {
    let mut fa = allocator_with_frames(64);
    let mut vmm = VirtualMemoryManager::new(&mut fa).unwrap();
    let (free0, _) = fa.stats();
    // Two addresses that differ in their top-level index.
    let va1: u64 = 0x1000;
    let va2: u64 = 0x0100_0000_0000;
    assert_eq!(vmm.map_page(&mut fa, va1, 0x4001_0000, rw_normal()), Ok(()));
    assert_eq!(vmm.map_page(&mut fa, va2, 0x4002_0000, rw_normal()), Ok(()));
    // Each mapping built its own three levels.
    assert_eq!(fa.stats().0, free0 - 6);
    assert_eq!(vmm.translate(va1), Some(0x4001_0000));
    assert_eq!(vmm.translate(va2), Some(0x4002_0000));
}

#[test]
fn high_virtual_address_bits_are_truncated() {
    // Bits above the 48-bit virtual address space do not take part in the
    // walk: two addresses that agree on bits 12..48 reach the same page.
    let mut fa = allocator_with_frames(64);
    let mut vmm = VirtualMemoryManager::new(&mut fa).unwrap();
    let va: u64 = 0x1000;
    let alias: u64 = 0xFFFF_0000_0000_1000;
    assert_eq!(vmm.map_page(&mut fa, va, 0x4001_0000, rw_normal()), Ok(()));
    assert_eq!(
        vmm.map_page(&mut fa, alias, 0x4002_0000, rw_normal()),
        Err(MemoryError::AlreadyMapped)
    );
    assert_eq!(vmm.translate(alias), Some(0x4001_0000));
}

//! Memory-management-unit façade: owns the kernel's virtual memory manager
//! and computes the values for the translation-control registers.
//!
//! Writing those values into the privileged registers (and issuing
//! synchronization barriers and TLB invalidations) is machine code that only
//! the platform layer can run; everything it writes is computed here.

use vstd::prelude::*;

verus! {

use crate::frame_allocator::{FrameAllocator, FrameAllocatorModel};
use crate::paging::{
    MemoryError,
    PageFlags,
    PageTableEntry,
    PhysAddr,
    VirtAddr,
    VirtualMemoryManager,
    FLAG_VALID,
    same_page,
};

/// Memory-attribute encoding: device memory (nGnRnE).
pub const MAIR_DEVICE_NGNRNE: u64 = 0x00;

/// Memory-attribute encoding: normal memory, non-cacheable.
pub const MAIR_NORMAL_NC: u64 = 0x44;

/// Memory-attribute encoding: normal memory, write-back.
pub const MAIR_NORMAL_WB: u64 = 0xFF;

/// Translation control: 48-bit virtual address space for the low half.
pub const TCR_T0SZ: u64 = 16;

/// Translation control: 48-bit virtual address space for the high half.
pub const TCR_T1SZ: u64 = 16 << 16;

/// Translation control: 4 KiB granule for the low-half table base.
pub const TCR_TG0_4K: u64 = 0;

/// Translation control: 4 KiB granule for the high-half table base.
pub const TCR_TG1_4K: u64 = 2 << 30;

/// Translation control: 44-bit physical address space.
pub const TCR_IPS_44BIT: u64 = 2 << 32;

/// Value for the memory-attribute register: the device, normal-non-cacheable
/// and normal-write-back encodings in the three attribute slots.
pub fn mair_el1_value() -> (r: u64)
    ensures
        r == MAIR_DEVICE_NGNRNE | (MAIR_NORMAL_NC << 8) | (MAIR_NORMAL_WB << 16),
{
    MAIR_DEVICE_NGNRNE | (MAIR_NORMAL_NC << 8) | (MAIR_NORMAL_WB << 16)
}

/// Value for the translation-control register: address-space sizes, granule
/// sizes and physical-address-size fields.
pub fn tcr_el1_value() -> (r: u64)
    ensures
        r == TCR_T0SZ | TCR_T1SZ | TCR_TG0_4K | TCR_TG1_4K | TCR_IPS_44BIT,
{
    TCR_T0SZ | TCR_T1SZ | TCR_TG0_4K | TCR_TG1_4K | TCR_IPS_44BIT
}

/// New value for the system-control register: translation (bit 0), data
/// cache (bit 2) and instruction cache (bit 12) enabled, alignment checking
/// (bit 1) cleared.
pub fn sctlr_el1_enable_value(sctlr: u64) -> (r: u64)
    ensures
        r == (sctlr | (1u64 << 0) | (1u64 << 2) | (1u64 << 12)) & !(1u64 << 1),
{
    (sctlr | (1u64 << 0) | (1u64 << 2) | (1u64 << 12)) & !(1u64 << 1)
}

/// The kernel's one memory-management unit: an initialize-once holder of the
/// virtual memory manager whose root table the hardware is programmed with.
pub struct MemoryManagementUnit {
    vmm: Option<VirtualMemoryManager>,
}

impl MemoryManagementUnit {
    /// Whether `init` has succeeded.
    pub closed spec fn is_initialized(self) -> bool {
        self.vmm.is_some()
    }

    /// The owned virtual memory manager (meaningful once initialized).
    pub closed spec fn vmm_state(self) -> VirtualMemoryManager {
        self.vmm.unwrap()
    }

    /// Validity: once initialized, the manager is well-formed and every one
    /// of its table frames is marked used in the frame allocator `m`.
    pub open spec fn wf(self, m: FrameAllocatorModel) -> bool {
        self.is_initialized() ==> self.vmm_state().wf() && self.vmm_state().owned_by(m)
    }

    /// The live leaf entry for `va`'s page (meaningful once initialized).
    pub open spec fn resolve(self, va: u64) -> Option<PageTableEntry> {
        self.vmm_state().resolve(va)
    }

    /// An uninitialized unit; `init` gives it its manager.
    pub fn new() -> (r: Self)
        ensures
            !r.is_initialized(),
    {
        MemoryManagementUnit { vmm: None }
    }

    /// Create the kernel's virtual memory manager and store it.
    ///
    /// Fails with `AlreadyInitialized` on a second call and with
    /// `VmmCreationFailed` when no frame is free for the root table. The
    /// identity mapping of the kernel's low memory is intentionally deferred
    /// to the platform layer, which also writes the computed register values
    /// (`mair_el1_value`, `tcr_el1_value`, the root table address for the
    /// translation-base registers, `sctlr_el1_enable_value`) into hardware.
    pub fn init(&mut self, fa: &mut FrameAllocator) -> (r: Result<(), MemoryError>)
        requires
            old(fa).wf(),
            old(self).wf(old(fa)@),
        ensures
            final(fa).wf(),
            final(fa)@.base == old(fa)@.base,
            final(fa)@.total() == old(fa)@.total(),
            final(self).wf(final(fa)@),
            old(self).is_initialized() ==> r == Err::<(), MemoryError>(
                MemoryError::AlreadyInitialized,
            ) && *final(self) == *old(self) && *final(fa) == *old(fa),
            !old(self).is_initialized() ==> {
                &&& (r.is_ok() <==> old(fa)@.free() > 0)
                &&& (r.is_ok() ==> final(self).is_initialized() && (forall|w: u64|
                    final(self).resolve(w).is_none()) && final(fa)@.free() == old(fa)@.free() - 1)
                &&& (r.is_err() ==> r == Err::<(), MemoryError>(MemoryError::VmmCreationFailed)
                    && !final(self).is_initialized() && final(fa)@ == old(fa)@)
            },
    {
        if self.vmm.is_some() {
            return Err(MemoryError::AlreadyInitialized);
        }
        let vmm = match VirtualMemoryManager::new(fa) {
            Some(v) => v,
            None => {
                return Err(MemoryError::VmmCreationFailed);
            },
        };
        self.vmm = Some(vmm);
        Ok(())
    }

    /// Forward to the manager's `map_page`; fails with `NotInitialized`
    /// before `init`.
    pub fn map_page(
        &mut self,
        fa: &mut FrameAllocator,
        virt_addr: VirtAddr,
        phys_addr: PhysAddr,
        flags: PageFlags,
    ) -> (r: Result<(), MemoryError>)
        requires
            old(self).wf(old(fa)@),
            old(fa).wf(),
        ensures
            final(fa).wf(),
            final(self).wf(final(fa)@),
            final(fa)@.base == old(fa)@.base,
            final(fa)@.total() == old(fa)@.total(),
            final(self).is_initialized() == old(self).is_initialized(),
            !old(self).is_initialized() ==> r == Err::<(), MemoryError>(
                MemoryError::NotInitialized,
            ) && *final(self) == *old(self) && *final(fa) == *old(fa),
            old(self).is_initialized() ==> {
                &&& (old(self).resolve(virt_addr).is_some() ==> r == Err::<(), MemoryError>(
                    MemoryError::AlreadyMapped,
                ) && *final(self) == *old(self) && *final(fa) == *old(fa))
                &&& (old(self).resolve(virt_addr).is_none() ==> {
                    &&& (r.is_ok() <==> old(fa)@.free() >= old(self).vmm_state().missing_tables(
                        virt_addr,
                    ))
                    &&& (r.is_err() ==> r == Err::<(), MemoryError>(
                        MemoryError::TableAllocationFailed,
                    ) && final(fa)@.free() == 0 && (forall|w: u64|
                        final(self).resolve(w) == old(self).resolve(w)))
                    &&& (r.is_ok() ==> ({
                        &&& final(fa)@.free() == old(fa)@.free() - old(
                            self,
                        ).vmm_state().missing_tables(virt_addr)
                        &&& (forall|w: u64|
                            same_page(w, virt_addr) ==> final(self).resolve(w) == Some(
                                PageTableEntry(
                                    PageTableEntry::entry_value(
                                        phys_addr,
                                        flags.spec_bits() | FLAG_VALID,
                                    ),
                                ),
                            ))
                        &&& (forall|w: u64|
                            !same_page(w, virt_addr) ==> final(self).resolve(w) == old(
                                self,
                            ).resolve(w))
                    }))
                })
            },
    {
        match &mut self.vmm {
            Some(vmm) => vmm.map_page(fa, virt_addr, phys_addr, flags),
            None => Err(MemoryError::NotInitialized),
        }
    }

    /// Forward to the manager's `unmap_page`; fails with `NotInitialized`
    /// before `init`.
    pub fn unmap_page(&mut self, virt_addr: VirtAddr) -> (r: Result<PhysAddr, MemoryError>)
        requires
            old(self).wf_alone(),
        ensures
            final(self).wf_alone(),
            final(self).is_initialized() == old(self).is_initialized(),
            forall|m: FrameAllocatorModel| old(self).wf(m) ==> final(self).wf(m),
            !old(self).is_initialized() ==> r == Err::<PhysAddr, MemoryError>(
                MemoryError::NotInitialized,
            ) && *final(self) == *old(self),
            old(self).is_initialized() ==> {
                &&& (old(self).resolve(virt_addr).is_none() ==> r == Err::<PhysAddr, MemoryError>(
                    MemoryError::NotMapped,
                ) && *final(self) == *old(self))
                &&& (old(self).resolve(virt_addr).is_some() ==> {
                    &&& r == Ok::<PhysAddr, MemoryError>(
                        old(self).resolve(virt_addr).unwrap().spec_physical_addr(),
                    )
                    &&& (forall|w: u64|
                        same_page(w, virt_addr) ==> final(self).resolve(w).is_none())
                    &&& (forall|w: u64|
                        !same_page(w, virt_addr) ==> final(self).resolve(w) == old(self).resolve(
                            w,
                        ))
                })
            },
    {
        match &mut self.vmm {
            Some(vmm) => vmm.unmap_page(virt_addr),
            None => Err(MemoryError::NotInitialized),
        }
    }

    /// Unmap the page of `virt_addr` and return its frame to the allocator
    /// in one step, for callers that prefer safety over control.
    ///
    /// The plain `unmap_page` leaves the frame's lifetime to the caller; this
    /// wrapper frees it immediately. Translation hardware may still hold the
    /// stale translation: the platform layer must invalidate the TLB for the
    /// address before the frame is reused.
    /// The page's frame may, through a caller's own mapping, be one that
    /// backs a translation table; only when it is not does the unit stay
    /// valid against the allocator, which the last condition below records.
    pub fn unmap_page_and_free(&mut self, fa: &mut FrameAllocator, virt_addr: VirtAddr) -> (r:
        Result<PhysAddr, MemoryError>)
        requires
            old(self).wf(old(fa)@),
            old(fa).wf(),
        ensures
            final(fa).wf(),
            final(self).wf_alone(),
            final(fa)@.base == old(fa)@.base,
            final(fa)@.total() == old(fa)@.total(),
            !old(self).is_initialized() ==> r == Err::<PhysAddr, MemoryError>(
                MemoryError::NotInitialized,
            ) && *final(self) == *old(self) && *final(fa) == *old(fa),
            old(self).is_initialized() ==> {
                &&& (old(self).resolve(virt_addr).is_none() ==> r == Err::<PhysAddr, MemoryError>(
                    MemoryError::NotMapped,
                ) && *final(self) == *old(self) && *final(fa) == *old(fa))
                &&& (old(self).resolve(virt_addr).is_some() ==> {
                    let pa = old(self).resolve(virt_addr).unwrap().spec_physical_addr();
                    &&& r == Ok::<PhysAddr, MemoryError>(pa)
                    &&& (forall|w: u64|
                        same_page(w, virt_addr) ==> final(self).resolve(w).is_none())
                    &&& (forall|w: u64|
                        !same_page(w, virt_addr) ==> final(self).resolve(w) == old(self).resolve(
                            w,
                        ))
                    &&& (old(fa)@.frame_used((pa >> 12) as int) ==> final(fa)@.free() == old(
                        fa,
                    )@.free() + 1)
                    &&& (!old(fa)@.frame_used((pa >> 12) as int) ==> final(fa)@ == old(fa)@)
                    &&& ((forall|t: int|
                        0 <= t < old(self).vmm_state().num_tables() ==> (#[trigger] old(
                            self,
                        ).vmm_state().spec_table_addr(t)) != pa) ==> final(self).wf(final(fa)@))
                })
            },
    {
        let phys_addr = match self.unmap_page(virt_addr) {
            Ok(pa) => pa,
            Err(e) => {
                return Err(e);
            },
        };
        let ghost vmm_pre = old(self).vmm_state();
        let frame_wide = phys_addr >> 12;
        if frame_wide <= usize::MAX as u64 {
            fa.deallocate_frame(frame_wide as usize);
        } else {
            // A frame number beyond the machine word lies outside any managed
            // region; the allocator would ignore it, so there is nothing to do.
            proof {
                fa.lemma_wf_bounds();
            }
        }
        proof {
            // When the freed frame backs no translation table, every table
            // frame keeps its used mark and the unit stays valid.
            let raw = old(self).resolve(virt_addr).unwrap().0;
            assert((raw & 0x0000_FFFF_FFFF_F000u64) & 0xFFFu64 == 0) by (bit_vector);
            if forall|t: int|
                0 <= t < vmm_pre.num_tables() ==> (#[trigger] vmm_pre.spec_table_addr(t))
                    != phys_addr {
                assert forall|t: int| 0 <= t < vmm_pre.num_tables() implies fa@.frame_used(
                    (((#[trigger] vmm_pre.spec_table_addr(t)) >> 12) as int),
                ) by {
                    vmm_pre.lemma_wf_bounds();
                    let a = vmm_pre.spec_table_addr(t);
                    assert(old(fa)@.frame_used(((a >> 12) as int)));
                    assert(a != phys_addr);
                    assert(a & 0xFFF == 0u64 && phys_addr & 0xFFF == 0u64 && a != phys_addr ==> a
                        >> 12 != phys_addr >> 12) by (bit_vector);
                }
                assert(old(self).wf(fa@));
                assert(self.wf(fa@));
            }
        }
        Ok(phys_addr)
    }

    /// Validity of the unit by itself: the stored manager is well-formed.
    pub open spec fn wf_alone(self) -> bool {
        self.is_initialized() ==> self.vmm_state().wf()
    }

    /// Forward to the manager's `translate`; `None` before `init`.
    pub fn translate(&self, virt_addr: VirtAddr) -> (r: Option<PhysAddr>)
        requires
            self.wf_alone(),
        ensures
            !self.is_initialized() ==> r.is_none(),
            self.is_initialized() ==> r == self.vmm_state().spec_translate(virt_addr),
    {
        match &self.vmm {
            Some(vmm) => vmm.translate(virt_addr),
            None => None,
        }
    }
}

} // verus!

//! Bitmap-based physical frame allocator.
//!
//! One bit per frame over a single contiguous physical region (1 = used,
//! 0 = free), with a running free-frame counter and a rotating search hint.

use vstd::prelude::*;

verus! {

/// Size in bytes of a physical frame and of a virtual page.
pub const PAGE_SIZE: usize = 4096;

/// log2 of `PAGE_SIZE`: physical address and frame number are mutually
/// derivable by shifting by this amount.
pub const PAGE_SHIFT: usize = 12;

/// An integer identifying one physical page-sized unit of memory.
pub type FrameNumber = usize;

/// A contiguous region of physical memory, as reported by the platform's
/// memory-topology description.
#[derive(Clone, Copy, Debug, PartialEq, Eq, Structural)]
pub struct MemoryRegion {
    pub start: u64,
    pub size: u64,
}

/// Convert a physical address to the number of the frame containing it.
pub fn addr_to_frame(addr: u64) -> (frame: FrameNumber)
    requires
        addr >> 12 <= usize::MAX as u64,
    ensures
        frame == addr >> 12,
{
    (addr >> PAGE_SHIFT) as usize
}

/// Convert a frame number to the physical address of its first byte.
pub fn frame_to_addr(frame: FrameNumber) -> (addr: u64)
    requires
        frame < 0x10_0000_0000_0000,
    ensures
        addr == (frame as u64) << 12,
        addr == frame * 4096,
        addr & 0xFFF == 0,
{
    let wide: u64 = frame as u64;
    proof {
        assert(wide << 12 == wide * 4096 && (wide << 12) & 0xFFF == 0) by (bit_vector)
            requires
                wide < 0x10_0000_0000_0000u64,
        ;
    }
    wide << PAGE_SHIFT
}

/// Physical addresses at or below this boundary hold the kernel image; the
/// frames overlapping them are reserved at construction and never handed out.
pub const KERNEL_IMAGE_END: u64 = 0x4100_0000;

/// Abstract state of a [`FrameAllocator`]: a base frame number, one boolean
/// per managed frame (`true` = free), and the rotating search hint.
pub struct FrameAllocatorModel {
    pub base: int,
    pub frames: Seq<bool>,
    pub hint: int,
}

/// Number of free frames among the first `n` entries of `frames`.
pub open spec fn count_free(frames: Seq<bool>, n: int) -> int
    decreases n,
{
    if n <= 0 {
        0
    } else {
        count_free(frames, n - 1) + if frames[n - 1] {
            1int
        } else {
            0int
        }
    }
}

impl FrameAllocatorModel {
    /// Number of frames managed by the allocator.
    pub open spec fn total(self) -> int {
        self.frames.len() as int
    }

    /// Number of frames currently free.
    pub open spec fn free(self) -> int {
        count_free(self.frames, self.frames.len() as int)
    }

    /// Whether the absolute frame number lies in the managed region.
    pub open spec fn in_range(self, frame: int) -> bool {
        self.base <= frame < self.base + self.total()
    }

    /// Whether the absolute frame number is managed and currently marked used.
    pub open spec fn frame_used(self, frame: int) -> bool {
        self.in_range(frame) && !self.frames[frame - self.base]
    }

    /// Frame index probed at step `j` of an allocation scan: the probes walk
    /// `hint, hint + 1, ...` and wrap modulo `total`.
    pub open spec fn probe(self, j: int) -> int {
        (self.hint + j) % self.total()
    }

    /// Offset (relative to the hint) of the first free frame reached when
    /// probing from step `k` onward; `total` when no free frame exists.
    pub open spec fn scan_offset(self, k: int) -> int
        decreases self.total() - k,
    {
        if k < 0 || k >= self.total() {
            self.total()
        } else if self.frames[self.probe(k)] {
            k
        } else {
            self.scan_offset(k + 1)
        }
    }

    /// Index (relative to `base`) of the frame that the next allocation
    /// returns: the first free frame at or after the hint, wrapping around.
    pub open spec fn chosen_index(self) -> int {
        (self.hint + self.scan_offset(0)) % self.total()
    }
}

/// Index of the largest region by size; when several share the largest size,
/// the last of them wins.
pub open spec fn largest_region_idx(regions: Seq<MemoryRegion>) -> int
    decreases regions.len(),
{
    if regions.len() <= 1 {
        0
    } else {
        let r = largest_region_idx(regions.drop_last());
        if regions.last().size >= regions[r].size {
            regions.len() - 1
        } else {
            r
        }
    }
}

/// The region a newly constructed allocator manages: the largest supplied
/// region.
pub open spec fn selected_region(regions: Seq<MemoryRegion>) -> MemoryRegion {
    regions[largest_region_idx(regions)]
}

/// Number of leading frames of `region` overlapped by the kernel image and
/// therefore reserved (marked used) at construction.
pub open spec fn reserved_prefix(region: MemoryRegion) -> int {
    let start_frame = (region.start >> 12) as int;
    let kernel_end_frame = (KERNEL_IMAGE_END >> 12) as int;
    if kernel_end_frame > start_frame {
        kernel_end_frame - start_frame
    } else {
        0
    }
}

/// Model of a freshly constructed allocator over `regions`: it manages the
/// selected region, the hint rests at zero, and exactly the frames past the
/// kernel reservation boundary are free.
pub open spec fn fresh_allocator_model(m: FrameAllocatorModel, regions: Seq<MemoryRegion>) -> bool {
    let sel = selected_region(regions);
    &&& m.base == sel.start >> 12
    &&& m.total() == sel.size >> 12
    &&& m.hint == 0
    &&& forall|j: int| 0 <= j < m.total() ==> (m.frames[j] <==> j >= reserved_prefix(sel))
    &&& m.free() == if reserved_prefix(sel) <= m.total() {
        m.total() - reserved_prefix(sel)
    } else {
        0
    }
}

/// The selected region is a supplied region, and none is larger.
pub proof fn lemma_selected_region_is_largest(regions: Seq<MemoryRegion>)
    requires
        regions.len() > 0,
    ensures
        0 <= largest_region_idx(regions) < regions.len(),
        forall|i: int|
            0 <= i < regions.len() ==> (#[trigger] regions[i]).size <= selected_region(
                regions,
            ).size,
    decreases regions.len(),
{
    if regions.len() > 1 {
        lemma_selected_region_is_largest(regions.drop_last());
        assert forall|i: int|
            0 <= i < regions.len() implies (#[trigger] regions[i]).size <= selected_region(
            regions,
        ).size by {
            if i < regions.len() - 1 {
                assert(regions.drop_last()[i] == regions[i]);
            }
        }
    }
}

/// Whether relative frame index `i` is marked free in the raw bitmap bytes.
pub open spec fn bit_free(bytes: Seq<u8>, i: int) -> bool {
    bytes[i / 8] & (1u8 << ((i % 8) as u8)) == 0
}

/// Bitmap-based allocator of physical frames over one contiguous region.
///
/// Invariant (`wf`): the free-frame counter always equals the number of zero
/// bits in the bitmap, and the rotating hint stays below the frame count.
pub struct FrameAllocator {
    bitmap: Vec<u8>,
    start_frame: FrameNumber,
    total_frames: usize,
    free_frames: usize,
    next_free_hint: usize,
}

impl View for FrameAllocator {
    type V = FrameAllocatorModel;

    closed spec fn view(&self) -> FrameAllocatorModel {
        FrameAllocatorModel {
            base: self.start_frame as int,
            frames: Seq::new(self.total_frames as nat, |i: int| bit_free(self.bitmap@, i)),
            hint: self.next_free_hint as int,
        }
    }
}

impl FrameAllocator {
    /// Internal well-formedness: enough bitmap bytes for every managed frame,
    /// a counter that matches the bitmap, a hint below the frame count, and
    /// frame numbers small enough that every managed frame has a physical
    /// address below the architecture's 48-bit limit.
    pub closed spec fn wf(self) -> bool {
        &&& self.bitmap@.len() * 8 >= self.total_frames
        &&& self.free_frames == count_free(self@.frames, self.total_frames as int)
        &&& (self.next_free_hint == 0 || self.next_free_hint < self.total_frames)
        &&& self.start_frame + self.total_frames <= 0x10_0000_0000
        &&& self.start_frame + self.total_frames <= usize::MAX
    }

    /// Public bounds implied by well-formedness, for callers that hold the
    /// allocator's model opaquely.
    pub proof fn lemma_wf_bounds(self)
        requires
            self.wf(),
        ensures
            0 <= self@.base,
            self@.base + self@.total() <= 0x10_0000_0000,
            self@.base + self@.total() <= usize::MAX,
            0 <= self@.hint,
            self@.hint == 0 || self@.hint < self@.total(),
            0 <= self@.free() <= self@.total(),
    {
        lemma_count_free_bounds(self@.frames, self@.total());
    }
}

/// `count_free` over any prefix lies between 0 and the prefix length.
proof fn lemma_count_free_bounds(frames: Seq<bool>, n: int)
    ensures
        0 <= count_free(frames, n),
        count_free(frames, n) <= if n >= 0 {
            n
        } else {
            0
        },
    decreases n,
{
    if n > 0 {
        lemma_count_free_bounds(frames, n - 1);
    }
}

/// Two bit sequences that agree below `n` have the same `count_free`.
proof fn lemma_count_free_agree(f1: Seq<bool>, f2: Seq<bool>, n: int)
    requires
        forall|j: int| 0 <= j < n ==> f1[j] == f2[j],
    ensures
        count_free(f1, n) == count_free(f2, n),
    decreases n,
{
    if n > 0 {
        lemma_count_free_agree(f1, f2, n - 1);
    }
}

/// Changing the single entry `i` changes `count_free` by exactly the change
/// in that entry.
proof fn lemma_count_free_update(f1: Seq<bool>, f2: Seq<bool>, n: int, i: int)
    requires
        0 <= i < n,
        forall|j: int| 0 <= j < n && j != i ==> f1[j] == f2[j],
    ensures
        count_free(f2, n) == count_free(f1, n) + (if f2[i] {
            1int
        } else {
            0int
        }) - (if f1[i] {
            1int
        } else {
            0int
        }),
    decreases n,
{
    if i == n - 1 {
        lemma_count_free_agree(f1, f2, n - 1);
    } else {
        lemma_count_free_update(f1, f2, n - 1, i);
    }
}

/// A free entry below `n` forces a strictly positive count.
proof fn lemma_count_free_positive(frames: Seq<bool>, n: int, i: int)
    requires
        0 <= i < n,
        frames[i],
    ensures
        count_free(frames, n) >= 1,
    decreases n,
{
    lemma_count_free_bounds(frames, n - 1);
    if i < n - 1 {
        lemma_count_free_positive(frames, n - 1, i);
    }
}

/// If every entry below `n` is used, the count is zero.
proof fn lemma_count_free_zero(frames: Seq<bool>, n: int)
    requires
        forall|j: int| 0 <= j < n ==> !frames[j],
    ensures
        count_free(frames, n) == 0,
    decreases n,
{
    if n > 0 {
        lemma_count_free_zero(frames, n - 1);
    }
}

/// Setting bit `k` of a byte marks exactly that bit used and no other.
proof fn lemma_u8_set_bit(b: u8, k: u8, j: u8)
    by (bit_vector)
    requires
        k < 8,
        j < 8,
    ensures
        (b | (1u8 << k)) & (1u8 << k) != 0,
        j != k ==> ((b | (1u8 << k)) & (1u8 << j) == 0 <==> b & (1u8 << j) == 0),
{
}

/// Clearing bit `k` of a byte marks exactly that bit free and no other.
proof fn lemma_u8_clear_bit(b: u8, k: u8, j: u8)
    by (bit_vector)
    requires
        k < 8,
        j < 8,
    ensures
        (b & !(1u8 << k)) & (1u8 << k) == 0,
        j != k ==> ((b & !(1u8 << k)) & (1u8 << j) == 0 <==> b & (1u8 << j) == 0),
{
}

/// Every bit of `0xFF` is set, so every frame covered by such a byte is used.
proof fn lemma_u8_all_ones(k: u8)
    by (bit_vector)
    requires
        k < 8,
    ensures
        0xFFu8 & (1u8 << k) != 0,
{
}

impl FrameAllocator {
    /// Whether the frame at relative index `frame_idx` is currently free.
    fn is_frame_free(&self, frame_idx: usize) -> (r: bool)
        requires
            self.wf(),
            frame_idx < self@.total(),
        ensures
            r == self@.frames[frame_idx as int],
    {
        let byte_idx: usize = frame_idx / 8;
        let bit_idx: u8 = (frame_idx % 8) as u8;
        if byte_idx >= self.bitmap.len() {
            return false;
        }
        (self.bitmap[byte_idx] & (1u8 << bit_idx)) == 0
    }

    /// Mark the frame at relative index `frame_idx` used, decrementing the
    /// free counter; a frame that is already used is left untouched.
    fn mark_frame_used(&mut self, frame_idx: usize)
        requires
            old(self).wf(),
            frame_idx < old(self)@.total(),
        ensures
            final(self).wf(),
            final(self)@.base == old(self)@.base,
            final(self)@.hint == old(self)@.hint,
            final(self)@.total() == old(self)@.total(),
            final(self)@.frames == if old(self)@.frames[frame_idx as int] {
                old(self)@.frames.update(frame_idx as int, false)
            } else {
                old(self)@.frames
            },
    {
        let byte_idx: usize = frame_idx / 8;
        let bit_idx: u8 = (frame_idx % 8) as u8;
        if byte_idx < self.bitmap.len() && self.is_frame_free(frame_idx) {
            proof {
                lemma_count_free_positive(self@.frames, self@.total(), frame_idx as int);
            }
            let b = self.bitmap[byte_idx];
            self.bitmap[byte_idx] = b | (1u8 << bit_idx);
            self.free_frames = self.free_frames - 1;
            proof {
                self.lemma_bit_write(*old(self), frame_idx as int, false);
                lemma_count_free_update(
                    old(self)@.frames,
                    self@.frames,
                    self@.total(),
                    frame_idx as int,
                );
                assert(self@.frames =~= old(self)@.frames.update(frame_idx as int, false));
            }
        } else {
            proof {
                assert(self@.frames =~= old(self)@.frames);
            }
        }
    }

    /// Mark the frame at relative index `frame_idx` free, incrementing the
    /// free counter; a frame that is already free is left untouched.
    fn mark_frame_free(&mut self, frame_idx: usize)
        requires
            old(self).wf(),
            frame_idx < old(self)@.total(),
        ensures
            final(self).wf(),
            final(self)@.base == old(self)@.base,
            final(self)@.hint == old(self)@.hint,
            final(self)@.total() == old(self)@.total(),
            final(self)@.frames == if !old(self)@.frames[frame_idx as int] {
                old(self)@.frames.update(frame_idx as int, true)
            } else {
                old(self)@.frames
            },
    {
        let byte_idx: usize = frame_idx / 8;
        let bit_idx: u8 = (frame_idx % 8) as u8;
        if byte_idx < self.bitmap.len() && !self.is_frame_free(frame_idx) {
            proof {
                lemma_count_free_bounds(self@.frames, self@.total());
            }
            let b = self.bitmap[byte_idx];
            self.bitmap[byte_idx] = b & !(1u8 << bit_idx);
            proof {
                self.lemma_bit_write(*old(self), frame_idx as int, true);
                lemma_count_free_update(
                    old(self)@.frames,
                    self@.frames,
                    self@.total(),
                    frame_idx as int,
                );
                lemma_count_free_bounds(self@.frames, self@.total());
                assert(self@.frames =~= old(self)@.frames.update(frame_idx as int, true));
                assert(count_free(self@.frames, self@.total()) == self.free_frames + 1);
                assert(self.free_frames + 1 <= self@.total());
            }
            self.free_frames = self.free_frames + 1;
        } else {
            proof {
                assert(self@.frames =~= old(self)@.frames);
            }
        }
    }

    /// After writing one byte that differs from the old byte only in bit
    /// `i % 8`, the model's frame bits change only at index `i`.
    proof fn lemma_bit_write(self, prev: FrameAllocator, i: int, now_free: bool)
        requires
            0 <= i < self.total_frames,
            self.total_frames == prev.total_frames,
            self.bitmap@.len() == prev.bitmap@.len(),
            prev.bitmap@.len() * 8 >= prev.total_frames,
            self.bitmap@ == prev.bitmap@.update(
                i / 8,
                if now_free {
                    prev.bitmap@[i / 8] & !(1u8 << ((i % 8) as u8))
                } else {
                    prev.bitmap@[i / 8] | (1u8 << ((i % 8) as u8))
                },
            ),
        ensures
            self@.frames[i] == now_free,
            forall|j: int|
                0 <= j < self.total_frames && j != i ==> self@.frames[j] == prev@.frames[j],
    {
        let kb = (i % 8) as u8;
        if now_free {
            lemma_u8_clear_bit(prev.bitmap@[i / 8], kb, kb);
        } else {
            lemma_u8_set_bit(prev.bitmap@[i / 8], kb, kb);
        }
        assert forall|j: int|
            0 <= j < self.total_frames && j != i implies self@.frames[j] == prev@.frames[j] by {
            if j / 8 == i / 8 {
                if j % 8 == i % 8 {
                    lemma_bit_position_injective(i, j);
                }
                if now_free {
                    lemma_u8_clear_bit(prev.bitmap@[i / 8], kb, (j % 8) as u8);
                } else {
                    lemma_u8_set_bit(prev.bitmap@[i / 8], kb, (j % 8) as u8);
                }
            }
        }
    }

    /// Construct an allocator over the largest of the supplied regions.
    ///
    /// The whole bitmap starts out "used"; every frame from the kernel-image
    /// reservation boundary onward is then marked free. The caller must
    /// supply at least one region and enough bitmap storage for the chosen
    /// region's frames; addresses must stay below the architecture's 48-bit
    /// physical limit and frame counts must fit the machine word.
    pub fn new(memory_regions: &[MemoryRegion], bitmap_storage: Vec<u8>) -> (r: Self)
        requires
            memory_regions@.len() > 0,
            (selected_region(memory_regions@).start >> 12) + (selected_region(memory_regions@).size
                >> 12) <= 0x10_0000_0000,
            (selected_region(memory_regions@).start >> 12) + (selected_region(memory_regions@).size
                >> 12) <= usize::MAX as u64,
            bitmap_storage@.len() >= ((selected_region(memory_regions@).size >> 12) + 7) / 8,
        ensures
            r.wf(),
            fresh_allocator_model(r@, memory_regions@),
    {
        let ghost regions = memory_regions@;
        // Find the largest memory region (later regions win ties).
        let mut best: usize = 0;
        let mut i: usize = 1;
        while i < memory_regions.len()
            invariant
                regions == memory_regions@,
                regions.len() > 0,
                1 <= i <= regions.len(),
                best < i,
                best == largest_region_idx(regions.take(i as int)),
            decreases regions.len() - i,
        {
            proof {
                assert(regions.take(i as int + 1).drop_last() =~= regions.take(i as int));
                assert(regions.take(i as int + 1).last() == regions[i as int]);
            }
            if memory_regions[i].size >= memory_regions[best].size {
                best = i;
            }
            i = i + 1;
        }
        proof {
            assert(regions.take(regions.len() as int) =~= regions);
        }
        let main_start = memory_regions[best].start;
        let main_size = memory_regions[best].size;

        let start_frame = addr_to_frame(main_start);
        let total_frames = (main_size >> PAGE_SHIFT) as usize;

        // Initialize the bitmap: every frame starts out used.
        let bitmap_bytes = ((total_frames as u64 + 7) / 8) as usize;
        let mut storage = bitmap_storage;
        let mut b: usize = 0;
        while b < bitmap_bytes
            invariant
                b <= bitmap_bytes,
                bitmap_bytes <= storage@.len(),
                forall|j: int| 0 <= j < b ==> storage@[j] == 0xFFu8,
            decreases bitmap_bytes - b,
        {
            storage[b] = 0xFF;
            b = b + 1;
        }

        let mut allocator = FrameAllocator {
            bitmap: storage,
            start_frame,
            total_frames,
            free_frames: 0,
            next_free_hint: 0,
        };
        proof {
            assert(8 * ((total_frames + 7) / 8) >= total_frames) by {
                vstd::arithmetic::div_mod::lemma_fundamental_div_mod(total_frames + 7, 8);
            }
            assert forall|j: int| 0 <= j < total_frames implies !allocator@.frames[j] by {
                assert(j / 8 < bitmap_bytes) by {
                    vstd::arithmetic::div_mod::lemma_multiply_divide_lt(
                        j,
                        bitmap_bytes as int,
                        8,
                    );
                }
                assert(allocator.bitmap@[j / 8] == 0xFFu8);
                lemma_u8_all_ones((j % 8) as u8);
            }
            lemma_count_free_zero(allocator@.frames, total_frames as int);
        }

        // Mark every frame from the kernel reservation boundary onward free.
        proof {
            assert(KERNEL_IMAGE_END >> 12 == 0x41000u64) by (bit_vector);
        }
        let kernel_end_frame = addr_to_frame(KERNEL_IMAGE_END);
        let usable_start: usize = if kernel_end_frame > start_frame {
            kernel_end_frame - start_frame
        } else {
            0
        };
        let mut frame_idx = usable_start;
        while frame_idx < total_frames
            invariant
                allocator.wf(),
                allocator@.base == start_frame,
                allocator@.total() == total_frames,
                allocator@.hint == 0,
                allocator.free_frames == frame_idx - usable_start,
                usable_start <= frame_idx,
                frame_idx <= total_frames || frame_idx == usable_start,
                forall|j: int|
                    0 <= j < total_frames ==> (allocator@.frames[j] <==> usable_start <= j
                        < frame_idx),
            decreases total_frames - frame_idx,
        {
            proof {
                lemma_count_free_update(
                    allocator@.frames,
                    allocator@.frames.update(frame_idx as int, true),
                    total_frames as int,
                    frame_idx as int,
                );
            }
            allocator.mark_frame_free(frame_idx);
            frame_idx = frame_idx + 1;
        }
        allocator
    }

    /// Allocate a single physical frame.
    ///
    /// Returns `None` exactly when no frame is free. Otherwise the result is
    /// the first free frame found probing from the rotating hint upward
    /// (wrapping once), which becomes used; the hint advances past it.
    pub fn allocate_frame(&mut self) -> (r: Option<FrameNumber>)
        requires
            old(self).wf(),
        ensures
            final(self).wf(),
            final(self)@.base == old(self)@.base,
            final(self)@.total() == old(self)@.total(),
            r.is_some() <==> old(self)@.free() > 0,
            r.is_none() ==> final(self)@ == old(self)@,
            r.is_some() ==> ({
                let idx = old(self)@.chosen_index();
                &&& 0 <= idx < old(self)@.total()
                &&& old(self)@.frames[idx]
                &&& r.unwrap() == old(self)@.base + idx
                &&& old(self)@.base <= r.unwrap() < old(self)@.base + old(self)@.total()
                &&& final(self)@.frames == old(self)@.frames.update(idx, false)
                &&& final(self)@.free() == old(self)@.free() - 1
                &&& final(self)@.hint == (idx + 1) % old(self)@.total()
            }),
            r.is_some() ==> alloc_step(old(self)@, final(self)@, r.unwrap() as int),
    {
        if self.free_frames == 0 {
            proof {
                assert(self@ =~= old(self)@);
            }
            return None;
        }
        proof {
            lemma_count_free_bounds(self@.frames, self@.total());
        }
        let ghost orig = *self;
        let total = self.total_frames;
        let mut i: usize = 0;
        while i < total
            invariant
                *self == orig,
                orig == *old(self),
                orig.wf(),
                total == orig.total_frames,
                0 < total,
                orig.next_free_hint < total,
                orig.free_frames > 0,
                i <= total,
                forall|j: int| 0 <= j < i ==> !orig@.frames[#[trigger] orig@.probe(j)],
            decreases total - i,
        {
            let frame_idx = ((self.next_free_hint as u64 + i as u64) % (total as u64)) as usize;
            if self.is_frame_free(frame_idx) {
                proof {
                    lemma_scan_offset_found(orig@, i as int);
                    assert(orig@.chosen_index() == frame_idx);
                }
                self.mark_frame_used(frame_idx);
                let ghost marked = *self;
                self.next_free_hint = ((frame_idx as u64 + 1) % (total as u64)) as usize;
                proof {
                    assert(self@.frames =~= marked@.frames);
                    lemma_count_free_update(
                        orig@.frames,
                        self@.frames,
                        orig@.total(),
                        frame_idx as int,
                    );
                }
                return Some(self.start_frame + frame_idx);
            }
            i = i + 1;
        }
        proof {
            assert forall|idx: int| 0 <= idx < total implies !orig@.frames[idx] by {
                lemma_probe_coverage(orig@.hint, total as int, idx);
                let j = (idx + total - orig@.hint) % (total as int);
                assert(!orig@.frames[orig@.probe(j)]);
            }
            lemma_count_free_zero(orig@.frames, total as int);
            assert(false);
        }
        None
    }

    /// Point-in-time snapshot `(free_frames, total_frames)`.
    pub fn stats(&self) -> (r: (usize, usize))
        requires
            self.wf(),
        ensures
            r.0 == self@.free(),
            r.1 == self@.total(),
    {
        (self.free_frames, self.total_frames)
    }

    /// Return a frame to the allocator.
    ///
    /// A frame outside the managed region, or one that is already free, is
    /// silently ignored: the model (and so the free counter) is unchanged.
    pub fn deallocate_frame(&mut self, frame: FrameNumber)
        requires
            old(self).wf(),
        ensures
            final(self).wf(),
            final(self)@.base == old(self)@.base,
            final(self)@.hint == old(self)@.hint,
            final(self)@.total() == old(self)@.total(),
            final(self)@.frames == if old(self)@.frame_used(frame as int) {
                old(self)@.frames.update(frame as int - old(self)@.base, true)
            } else {
                old(self)@.frames
            },
            old(self)@.frame_used(frame as int) ==> final(self)@.free() == old(self)@.free() + 1,
            old(self)@.frame_used(frame as int) ==> dealloc_step(
                old(self)@,
                final(self)@,
                frame as int,
            ),
            !old(self)@.frame_used(frame as int) ==> final(self)@ == old(self)@,
    {
        if frame < self.start_frame || frame >= self.start_frame + self.total_frames {
            return;
        }
        let frame_idx = frame - self.start_frame;
        if !self.is_frame_free(frame_idx) {
            self.mark_frame_free(frame_idx);
            proof {
                lemma_count_free_update(
                    old(self)@.frames,
                    self@.frames,
                    self@.total(),
                    frame_idx as int,
                );
            }
        }
    }
}

/// Effect of one successful allocation on the allocator's model: `frame` was
/// managed and free, and exactly that frame became used.
pub open spec fn alloc_step(pre: FrameAllocatorModel, post: FrameAllocatorModel, frame: int) -> bool {
    &&& pre.in_range(frame)
    &&& pre.frames[frame - pre.base]
    &&& post.base == pre.base
    &&& post.frames == pre.frames.update(frame - pre.base, false)
}

/// Effect of one effective deallocation on the allocator's model: `frame` was
/// managed and used, and exactly that frame became free.
pub open spec fn dealloc_step(pre: FrameAllocatorModel, post: FrameAllocatorModel, frame: int) -> bool {
    &&& pre.frame_used(frame)
    &&& post.base == pre.base
    &&& post.frames == pre.frames.update(frame - pre.base, true)
}

/// If the probes before `i` all hit used frames and probe `i` hits a free
/// one, the scan stops exactly at offset `i`.
proof fn lemma_scan_offset_found(m: FrameAllocatorModel, i: int)
    requires
        0 <= i < m.total(),
        0 <= m.hint < m.total(),
        forall|j: int| 0 <= j < i ==> !m.frames[#[trigger] m.probe(j)],
        m.frames[m.probe(i)],
    ensures
        m.scan_offset(0) == i,
        0 <= m.chosen_index() < m.total(),
        m.chosen_index() == m.probe(i),
{
    lemma_scan_offset_stops(m, 0, i);
    vstd::arithmetic::div_mod::lemma_mod_division_less_than_divisor(m.hint + i, m.total());
    vstd::arithmetic::div_mod::lemma_mod_bound(m.hint + i, m.total());
}

/// Helper for `lemma_scan_offset_found`: the scan starting at `k` stops at `i`.
proof fn lemma_scan_offset_stops(m: FrameAllocatorModel, k: int, i: int)
    requires
        0 <= k <= i < m.total(),
        forall|j: int| k <= j < i ==> !m.frames[#[trigger] m.probe(j)],
        m.frames[m.probe(i)],
    ensures
        m.scan_offset(k) == i,
    decreases i - k,
{
    if k < i {
        lemma_scan_offset_stops(m, k + 1, i);
    }
}

/// Every frame index is reached by some probe within one wrap of the hint.
proof fn lemma_probe_coverage(hint: int, total: int, idx: int)
    requires
        0 <= idx < total,
        0 <= hint < total,
    ensures
        0 <= (idx + total - hint) % total < total,
        (hint + (idx + total - hint) % total) % total == idx,
{
    let d = idx + total - hint;
    vstd::arithmetic::div_mod::lemma_mod_bound(d, total);
    if d < total {
        vstd::arithmetic::div_mod::lemma_small_mod(d as nat, total as nat);
        vstd::arithmetic::div_mod::lemma_mod_add_multiples_vanish(idx, total);
        vstd::arithmetic::div_mod::lemma_small_mod(idx as nat, total as nat);
    } else {
        vstd::arithmetic::div_mod::lemma_mod_add_multiples_vanish(d - total, total);
        vstd::arithmetic::div_mod::lemma_small_mod((d - total) as nat, total as nat);
        vstd::arithmetic::div_mod::lemma_mod_add_multiples_vanish(idx, total);
        vstd::arithmetic::div_mod::lemma_small_mod(idx as nat, total as nat);
    }
}

/// Distinct in-range indices differ in byte position or in bit position.
proof fn lemma_bit_position_injective(i: int, j: int)
    requires
        0 <= i,
        0 <= j,
        i / 8 == j / 8,
        i % 8 == j % 8,
    ensures
        i == j,
{
    vstd::arithmetic::div_mod::lemma_fundamental_div_mod(i, 8);
    vstd::arithmetic::div_mod::lemma_fundamental_div_mod(j, 8);
}

/// Build an allocator over the supplied regions and install it in the
/// kernel's allocator slot.
pub fn init_frame_allocator(
    slot: &mut Option<FrameAllocator>,
    memory_regions: &[MemoryRegion],
    bitmap_storage: Vec<u8>,
)
    requires
        memory_regions@.len() > 0,
        (selected_region(memory_regions@).start >> 12) + (selected_region(memory_regions@).size
            >> 12) <= 0x10_0000_0000,
        (selected_region(memory_regions@).start >> 12) + (selected_region(memory_regions@).size
            >> 12) <= usize::MAX as u64,
        bitmap_storage@.len() >= ((selected_region(memory_regions@).size >> 12) + 7) / 8,
    ensures
        final(slot).is_some(),
        final(slot).unwrap().wf(),
        fresh_allocator_model(final(slot).unwrap()@, memory_regions@),
{
    let allocator = FrameAllocator::new(memory_regions, bitmap_storage);
    *slot = Some(allocator);
}

/// Allocate one frame from the allocator in the slot, as a physical address.
///
/// Returns `None` when the slot is empty or no frame is free.
pub fn allocate_frame(allocator: &mut Option<FrameAllocator>) -> (r: Option<u64>)
    requires
        old(allocator).is_some() ==> old(allocator).unwrap().wf(),
    ensures
        old(allocator).is_none() ==> r.is_none() && final(allocator).is_none(),
        old(allocator).is_some() ==> ({
            let pre = old(allocator).unwrap()@;
            &&& final(allocator).is_some()
            &&& final(allocator).unwrap().wf()
            &&& final(allocator).unwrap()@.base == pre.base
            &&& final(allocator).unwrap()@.total() == pre.total()
            &&& (r.is_some() <==> pre.free() > 0)
            &&& (r.is_none() ==> final(allocator).unwrap()@ == pre)
            &&& (r.is_some() ==> ({
                let idx = pre.chosen_index();
                &&& 0 <= idx < pre.total()
                &&& r.unwrap() == (pre.base + idx) * 4096
                &&& alloc_step(pre, final(allocator).unwrap()@, pre.base + idx)
                &&& final(allocator).unwrap()@.free() == pre.free() - 1
                &&& final(allocator).unwrap()@.hint == (idx + 1) % pre.total()
            }))
        }),
{
    match allocator {
        Some(fa) => {
            proof {
                fa.lemma_wf_bounds();
            }
            match fa.allocate_frame() {
                Some(frame) => Some(frame_to_addr(frame)),
                None => None,
            }
        },
        None => None,
    }
}

/// Return the frame holding `frame_addr` to the allocator in the slot.
///
/// An empty slot, an address outside the managed region, and a frame that is
/// already free are all silently ignored.
pub fn deallocate_frame(allocator: &mut Option<FrameAllocator>, frame_addr: u64)
    requires
        old(allocator).is_some() ==> old(allocator).unwrap().wf(),
        frame_addr >> 12 <= usize::MAX as u64,
    ensures
        old(allocator).is_none() ==> final(allocator).is_none(),
        old(allocator).is_some() ==> ({
            let pre = old(allocator).unwrap()@;
            let frame = (frame_addr >> 12) as int;
            &&& final(allocator).is_some()
            &&& final(allocator).unwrap().wf()
            &&& (pre.frame_used(frame) ==> dealloc_step(pre, final(allocator).unwrap()@, frame)
                && final(allocator).unwrap()@.free() == pre.free() + 1)
            &&& (!pre.frame_used(frame) ==> final(allocator).unwrap()@ == pre)
        }),
{
    let frame = addr_to_frame(frame_addr);
    match allocator {
        Some(fa) => {
            fa.deallocate_frame(frame);
        },
        None => {},
    }
}

/// Snapshot `(free_frames, total_frames)` of the allocator in the slot;
/// `(0, 0)` when the slot is empty.
pub fn frame_allocator_stats(allocator: &Option<FrameAllocator>) -> (r: (usize, usize))
    requires
        allocator.is_some() ==> allocator.unwrap().wf(),
    ensures
        allocator.is_none() ==> r == (0usize, 0usize),
        allocator.is_some() ==> r.0 == allocator.unwrap()@.free() && r.1
            == allocator.unwrap()@.total(),
{
    match allocator {
        Some(fa) => fa.stats(),
        None => (0, 0),
    }
}

/// Law: with the search hint at zero, as a fresh allocator has it, the next
/// allocation is first-fit within the free set: it returns the lowest free
/// frame index.
pub proof fn lemma_first_fit_from_zero_hint(m: FrameAllocatorModel, i: int)
    requires
        m.hint == 0,
        0 <= i < m.total(),
        m.frames[i],
        forall|j: int| 0 <= j < i ==> !m.frames[j],
    ensures
        m.chosen_index() == i,
{
    assert forall|j: int| 0 <= j < m.total() implies m.probe(j) == j by {
        vstd::arithmetic::div_mod::lemma_small_mod(j as nat, m.total() as nat);
    }
    lemma_scan_offset_found(m, i);
}

/// A run of allocations leaves every frame it never returned untouched, and
/// each returned frame started free and ends used.
proof fn lemma_alloc_phase(states: Seq<FrameAllocatorModel>, frames: Seq<int>)
    requires
        states.len() == frames.len() + 1,
        forall|i: int|
            0 <= i < frames.len() ==> alloc_step(states[i], states[i + 1], #[trigger] frames[i]),
    ensures
        states.last().base == states[0].base,
        states.last().total() == states[0].total(),
        forall|j: int|
            0 <= j < states[0].total() && !frames.contains(states[0].base + j)
                ==> states.last().frames[j] == states[0].frames[j],
        forall|f: int|
            #[trigger] frames.contains(f) ==> states[0].in_range(f) && states[0].frames[f
                - states[0].base] && !states.last().frames[f - states[0].base],
    decreases frames.len(),
{
    if frames.len() > 0 {
        let n = frames.len() as int;
        let prefix_states = states.drop_last();
        let prefix_frames = frames.drop_last();
        lemma_alloc_phase(prefix_states, prefix_frames);
        let s0 = states[0];
        let pre = states[n - 1];
        let last_frame = frames[n - 1];
        assert(prefix_states.last() == pre);
        assert(prefix_states[0] == s0);
        assert(alloc_step(pre, states[n], last_frame));
        assert forall|f: int| #[trigger] frames.contains(f) implies prefix_frames.contains(f) || f
            == last_frame by {
            let i = choose|i: int| 0 <= i < frames.len() && frames[i] == f;
            if i < n - 1 {
                assert(prefix_frames[i] == f);
            }
        }
        assert forall|f: int| #[trigger] prefix_frames.contains(f) implies frames.contains(f) by {
            let i = choose|i: int| 0 <= i < prefix_frames.len() && prefix_frames[i] == f;
            assert(frames[i] == f);
        }
        assert(frames.contains(last_frame)) by {
            assert(frames[n - 1] == last_frame);
        }
        assert forall|j: int|
            0 <= j < s0.total() && !frames.contains(s0.base + j) implies states.last().frames[j]
            == s0.frames[j] by {
            assert(!prefix_frames.contains(s0.base + j));
            assert(j != last_frame - s0.base);
        }
        assert forall|f: int| #[trigger] frames.contains(f) implies s0.in_range(f) && s0.frames[f
            - s0.base] && !states.last().frames[f - s0.base] by {
            if prefix_frames.contains(f) {
                if f == last_frame {
                    assert(!pre.frames[f - s0.base]);
                    assert(false);
                }
            } else {
                assert(f == last_frame);
                assert(!prefix_frames.contains(s0.base + (f - s0.base)));
            }
        }
    }
}

/// A run of deallocations leaves every frame it never received untouched, and
/// each received frame started used and ends free.
proof fn lemma_dealloc_phase(states: Seq<FrameAllocatorModel>, frames: Seq<int>)
    requires
        states.len() == frames.len() + 1,
        forall|i: int|
            0 <= i < frames.len() ==> dealloc_step(states[i], states[i + 1], #[trigger] frames[i]),
    ensures
        states.last().base == states[0].base,
        states.last().total() == states[0].total(),
        forall|j: int|
            0 <= j < states[0].total() && !frames.contains(states[0].base + j)
                ==> states.last().frames[j] == states[0].frames[j],
        forall|f: int|
            #[trigger] frames.contains(f) ==> states[0].in_range(f) && !states[0].frames[f
                - states[0].base] && states.last().frames[f - states[0].base],
    decreases frames.len(),
{
    if frames.len() > 0 {
        let n = frames.len() as int;
        let prefix_states = states.drop_last();
        let prefix_frames = frames.drop_last();
        lemma_dealloc_phase(prefix_states, prefix_frames);
        let s0 = states[0];
        let pre = states[n - 1];
        let last_frame = frames[n - 1];
        assert(prefix_states.last() == pre);
        assert(prefix_states[0] == s0);
        assert(dealloc_step(pre, states[n], last_frame));
        assert forall|f: int| #[trigger] frames.contains(f) implies prefix_frames.contains(f) || f
            == last_frame by {
            let i = choose|i: int| 0 <= i < frames.len() && frames[i] == f;
            if i < n - 1 {
                assert(prefix_frames[i] == f);
            }
        }
        assert forall|f: int| #[trigger] prefix_frames.contains(f) implies frames.contains(f) by {
            let i = choose|i: int| 0 <= i < prefix_frames.len() && prefix_frames[i] == f;
            assert(frames[i] == f);
        }
        assert(frames.contains(last_frame)) by {
            assert(frames[n - 1] == last_frame);
        }
        assert forall|j: int|
            0 <= j < s0.total() && !frames.contains(s0.base + j) implies states.last().frames[j]
            == s0.frames[j] by {
            assert(!prefix_frames.contains(s0.base + j));
            assert(j != last_frame - s0.base);
        }
        assert forall|f: int| #[trigger] frames.contains(f) implies s0.in_range(f) && !s0.frames[f
            - s0.base] && states.last().frames[f - s0.base] by {
            if prefix_frames.contains(f) {
                if f == last_frame {
                    assert(pre.frames[f - s0.base]);
                    assert(false);
                }
            } else {
                assert(f == last_frame);
                assert(!prefix_frames.contains(s0.base + (f - s0.base)));
            }
        }
    }
}

/// Law: any sequence of allocations followed by deallocating exactly the
/// returned frames, in any order, restores the allocator's whole free map,
/// and with it the free-frame count; the total frame count never changes.
///
/// `alloc_states` and `dealloc_states` are the models of the allocator before
/// and after each step of the two phases; `alloc_step` and `dealloc_step` are
/// what `FrameAllocator::allocate_frame` and `FrameAllocator::deallocate_frame`
/// guarantee for each step in their postconditions.
pub proof fn lemma_alloc_dealloc_roundtrip(
    alloc_states: Seq<FrameAllocatorModel>,
    alloc_frames: Seq<int>,
    dealloc_states: Seq<FrameAllocatorModel>,
    dealloc_frames: Seq<int>,
)
    requires
        alloc_states.len() == alloc_frames.len() + 1,
        dealloc_states.len() == dealloc_frames.len() + 1,
        dealloc_states[0] == alloc_states.last(),
        forall|i: int|
            0 <= i < alloc_frames.len() ==> alloc_step(
                alloc_states[i],
                alloc_states[i + 1],
                #[trigger] alloc_frames[i],
            ),
        forall|i: int|
            0 <= i < dealloc_frames.len() ==> dealloc_step(
                dealloc_states[i],
                dealloc_states[i + 1],
                #[trigger] dealloc_frames[i],
            ),
        alloc_frames.to_multiset() == dealloc_frames.to_multiset(),
    ensures
        dealloc_states.last().base == alloc_states[0].base,
        dealloc_states.last().frames == alloc_states[0].frames,
        dealloc_states.last().total() == alloc_states[0].total(),
        dealloc_states.last().free() == alloc_states[0].free(),
{
    lemma_alloc_phase(alloc_states, alloc_frames);
    lemma_dealloc_phase(dealloc_states, dealloc_frames);
    let s0 = alloc_states[0];
    let mid = alloc_states.last();
    let fin = dealloc_states.last();
    alloc_frames.to_multiset_ensures();
    dealloc_frames.to_multiset_ensures();
    assert forall|f: int| #[trigger] alloc_frames.contains(f) implies dealloc_frames.contains(
        f,
    ) by {
        assert(alloc_frames.to_multiset().count(f) > 0);
    }
    assert forall|f: int| #[trigger] dealloc_frames.contains(f) implies alloc_frames.contains(
        f,
    ) by {
        assert(dealloc_frames.to_multiset().count(f) > 0);
    }
    assert forall|j: int| 0 <= j < s0.total() implies fin.frames[j] == s0.frames[j] by {
        if alloc_frames.contains(s0.base + j) {
            assert(s0.frames[j]);
            assert(fin.frames[j]);
        } else {
            assert(!dealloc_frames.contains(mid.base + j));
        }
    }
    assert(fin.frames =~= s0.frames);
}

} // verus!

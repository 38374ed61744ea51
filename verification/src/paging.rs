//! Four-level page tables: entries, tables, and the virtual memory manager.
//!
//! Physical frames that hold translation tables are modelled as an arena of
//! typed tables indexed by handle; every entry still carries the exact 64-bit
//! value the hardware expects, and handles are resolved through the physical
//! address stored in the entry.

use vstd::prelude::*;

verus! {

use crate::frame_allocator::{FrameAllocator, FrameAllocatorModel, frame_to_addr};

/// A virtual address.
pub type VirtAddr = u64;

/// A physical address.
pub type PhysAddr = u64;

/// Entry bit: the entry holds a live translation.
pub const FLAG_VALID: u64 = 0x1;

/// Entry bit: the entry points to a next-level table (clear: a leaf page).
pub const FLAG_TABLE: u64 = 0x2;

/// Entry bits for a final-level page (no bit set).
pub const FLAG_PAGE: u64 = 0x0;

/// Entry bits for normal memory (no bit set).
pub const FLAG_NORMAL_MEMORY: u64 = 0x0;

/// Entry bit: device memory.
pub const FLAG_DEVICE_MEMORY: u64 = 0x4;

/// Entry bit: user-accessible.
pub const FLAG_USER: u64 = 0x40;

/// Entry bits for a read-write mapping (no bit set).
pub const FLAG_READ_WRITE: u64 = 0x0;

/// Entry bit: read-only mapping.
pub const FLAG_READ_ONLY: u64 = 0x80;

/// Shareability domain: non-shareable (no bit set).
pub const FLAG_NON_SHAREABLE: u64 = 0x0;

/// Shareability domain: outer shareable.
pub const FLAG_OUTER_SHAREABLE: u64 = 0x200;

/// Shareability domain: inner shareable.
pub const FLAG_INNER_SHAREABLE: u64 = 0x300;

/// All attribute bits an entry can carry: validity, table/leaf, memory type,
/// user access, write protection and the two shareability bits.
pub const FLAG_ATTR_MASK: u64 = 0x3C7;

/// Mask of the bits of an entry that hold the page-aligned physical address
/// (bits 12 up to the architecture's 48-bit physical-address width).
pub const ENTRY_ADDR_MASK: u64 = 0x0000_FFFF_FFFF_F000;

/// A set of page-table-entry attribute bits.
///
/// Values are only ever built from the `FLAG_*` constants, so the bits always
/// stay inside `FLAG_ATTR_MASK`; the address bits of an entry are never
/// touched by a flag set.
#[derive(Clone, Copy, Debug, PartialEq, Eq, Structural)]
pub struct PageFlags {
    bits: u64,
}

impl PageFlags {
    /// All values carry attribute bits only: they never reach into the
    /// address portion of an entry.
    #[verifier::type_invariant]
    pub closed spec fn inv(self) -> bool {
        self.bits & FLAG_ATTR_MASK == self.bits
    }

    /// The attribute bits this set carries.
    pub closed spec fn spec_bits(&self) -> u64 {
        self.bits
    }

    /// The empty flag set.
    pub fn empty() -> (r: PageFlags)
        ensures
            r.spec_bits() == 0,
    {
        proof {
            assert(0u64 & 0x3C7 == 0) by (bit_vector);
        }
        PageFlags { bits: 0 }
    }

    /// Build a flag set from raw bits, dropping anything outside the
    /// attribute mask.
    pub fn from_bits_truncate(bits: u64) -> (r: PageFlags)
        ensures
            r.spec_bits() == bits & FLAG_ATTR_MASK,
    {
        proof {
            assert((bits & 0x3C7) & 0x3C7 == bits & 0x3C7) by (bit_vector);
        }
        PageFlags { bits: bits & FLAG_ATTR_MASK }
    }

    /// The raw attribute bits.
    #[verifier::when_used_as_spec(spec_bits)]
    pub fn bits(&self) -> (r: u64)
        ensures
            r == self.spec_bits(),
    {
        self.bits
    }

    /// The union of two flag sets.
    pub fn union(self, other: PageFlags) -> (r: PageFlags)
        ensures
            r.spec_bits() == self.spec_bits() | other.spec_bits(),
    {
        proof {
            use_type_invariant(self);
            use_type_invariant(other);
            let a = self.bits;
            let b = other.bits;
            assert(a & 0x3C7 == a && b & 0x3C7 == b ==> (a | b) & 0x3C7 == (a | b))
                by (bit_vector);
        }
        PageFlags { bits: self.bits | other.bits }
    }

    /// Whether every bit of `other` is set in `self`.
    pub fn contains(self, other: PageFlags) -> (r: bool)
        ensures
            r == (self.spec_bits() & other.spec_bits() == other.spec_bits()),
    {
        self.bits & other.bits == other.bits
    }
}

/// One 64-bit translation entry: a page-aligned physical address combined
/// with attribute bits.
#[derive(Clone, Copy, Debug, PartialEq, Eq, Structural)]
pub struct PageTableEntry(pub u64);

impl PageTableEntry {
    /// Whether the validity bit of a raw entry value is set.
    pub open spec fn spec_is_valid(self) -> bool {
        self.0 & FLAG_VALID != 0
    }

    /// The physical address bits of a raw entry value.
    pub open spec fn spec_physical_addr(self) -> u64 {
        self.0 & ENTRY_ADDR_MASK
    }

    /// The raw value an entry built from `addr` and `flags` carries: the
    /// address masked to page alignment, with the attribute bits laid over
    /// the low bits.
    pub open spec fn entry_value(addr: PhysAddr, flag_bits: u64) -> u64 {
        (addr & !0xFFF) | flag_bits
    }

    /// Build an entry from a physical address and attribute flags; the
    /// address is masked to page alignment before it is stored.
    pub fn new(addr: PhysAddr, flags: PageFlags) -> (r: Self)
        ensures
            r.0 == Self::entry_value(addr, flags.spec_bits()),
    {
        let aligned_addr = addr & !0xFFF;
        Self(aligned_addr | flags.bits())
    }

    /// The empty (invalid, un-owned) entry.
    pub fn empty() -> (r: Self)
        ensures
            r.0 == 0,
            !r.spec_is_valid(),
    {
        proof {
            assert(0u64 & 0x1 == 0) by (bit_vector);
        }
        Self(0)
    }

    /// Whether this entry holds a live translation.
    pub fn is_valid(&self) -> (r: bool)
        ensures
            r == self.spec_is_valid(),
    {
        (self.0 & FLAG_VALID) != 0
    }

    /// The page-aligned physical address this entry points at.
    pub fn physical_addr(&self) -> (r: PhysAddr)
        ensures
            r == self.spec_physical_addr(),
    {
        self.0 & ENTRY_ADDR_MASK
    }

    /// The attribute bits this entry carries.
    pub fn flags(&self) -> (r: PageFlags)
        ensures
            r.spec_bits() == self.0 & FLAG_ATTR_MASK,
    {
        PageFlags::from_bits_truncate(self.0)
    }

    /// Overwrite this entry with a new address and flags.
    pub fn set_addr(&mut self, addr: PhysAddr, flags: PageFlags)
        ensures
            final(self).0 == Self::entry_value(addr, flags.spec_bits()),
    {
        let aligned_addr = addr & !0xFFF;
        self.0 = aligned_addr | flags.bits();
    }
}

/// Failure conditions of the memory-management operations.
#[derive(Clone, Copy, Debug, PartialEq, Eq, Structural)]
pub enum MemoryError {
    /// The virtual page already holds a live mapping.
    AlreadyMapped,
    /// An intermediate translation table could not be allocated.
    TableAllocationFailed,
    /// The virtual page holds no live mapping.
    NotMapped,
    /// The manager has not been initialized yet.
    NotInitialized,
    /// The manager was already initialized.
    AlreadyInitialized,
    /// No frame was available for the root translation table.
    VmmCreationFailed,
}

/// A translation table: exactly 512 entries, one page worth of the hardware's
/// 64-bit entries.
pub struct PageTable {
    entries: Vec<PageTableEntry>,
}

impl View for PageTable {
    type V = Seq<PageTableEntry>;

    closed spec fn view(&self) -> Seq<PageTableEntry> {
        self.entries@
    }
}

impl PageTable {
    /// A fresh table with all 512 entries empty.
    pub fn new() -> (r: Self)
        ensures
            r@.len() == 512,
            forall|i: int| 0 <= i < 512 ==> r@[i].0 == 0,
    {
        let mut entries: Vec<PageTableEntry> = Vec::new();
        let mut i: usize = 0;
        while i < 512
            invariant
                i <= 512,
                entries@.len() == i,
                forall|j: int| 0 <= j < i ==> entries@[j].0 == 0,
            decreases 512 - i,
        {
            entries.push(PageTableEntry::empty());
            i = i + 1;
        }
        PageTable { entries }
    }

    /// Clear every entry of the table.
    pub fn zero(&mut self)
        ensures
            final(self)@.len() == old(self)@.len(),
            forall|i: int| 0 <= i < final(self)@.len() ==> final(self)@[i].0 == 0,
    {
        let mut i: usize = 0;
        let len = self.entries.len();
        while i < len
            invariant
                i <= len,
                self.entries@.len() == len,
                forall|j: int| 0 <= j < i ==> self.entries@[j].0 == 0,
            decreases len - i,
        {
            self.entries[i] = PageTableEntry::empty();
            i = i + 1;
        }
    }

    /// The entry at `index`, or `None` when `index` is out of range.
    pub fn get_entry(&self, index: usize) -> (r: Option<PageTableEntry>)
        ensures
            index < self@.len() ==> r == Some(self@[index as int]),
            index >= self@.len() ==> r.is_none(),
    {
        if index < self.entries.len() {
            Some(self.entries[index])
        } else {
            None
        }
    }

    /// A mutable reference to the entry at `index`.
    pub fn get_entry_mut(&mut self, index: usize) -> (r: &mut PageTableEntry)
        requires
            index < old(self)@.len(),
        ensures
            *r == old(self)@[index as int],
            final(self)@ == old(self)@.update(index as int, *final(r)),
    {
        &mut self.entries[index]
    }

    /// The entry at an index known to be in range.
    fn entry_at(&self, index: usize) -> (r: PageTableEntry)
        requires
            index < self@.len(),
        ensures
            r == self@[index as int],
    {
        self.entries[index]
    }

    /// Overwrite the entry at `index`.
    pub fn set_entry(&mut self, index: usize, entry: PageTableEntry)
        requires
            index < old(self)@.len(),
        ensures
            final(self)@ == old(self)@.update(index as int, entry),
    {
        self.entries[index] = entry;
    }
}

/// Position of `a` in `addrs` (first occurrence), or `-1` when absent.
pub open spec fn addr_index(addrs: Seq<u64>, a: u64) -> int
    decreases addrs.len(),
{
    if addrs.len() == 0 {
        -1
    } else if addrs[0] == a {
        0
    } else {
        let r = addr_index(addrs.drop_first(), a);
        if r < 0 {
            -1
        } else {
            r + 1
        }
    }
}

/// `addr_index` lies in `[-1, len)`; a non-negative result points at `a`, and
/// `-1` means `a` occurs nowhere.
proof fn lemma_addr_index_bounds(addrs: Seq<u64>, a: u64)
    ensures
        -1 <= addr_index(addrs, a) < addrs.len(),
        addr_index(addrs, a) >= 0 ==> addrs[addr_index(addrs, a)] == a,
        addr_index(addrs, a) == -1 ==> forall|j: int| 0 <= j < addrs.len() ==> addrs[j] != a,
    decreases addrs.len(),
{
    if addrs.len() > 0 && addrs[0] != a {
        lemma_addr_index_bounds(addrs.drop_first(), a);
        assert forall|j: int|
            addr_index(addrs, a) == -1 && 0 <= j < addrs.len() implies addrs[j] != a by {
            if j > 0 {
                assert(addrs.drop_first()[j - 1] == addrs[j]);
            }
        }
    }
}

/// The first occurrence of `a` determines `addr_index`.
proof fn lemma_addr_index_first(addrs: Seq<u64>, a: u64, i: int)
    requires
        0 <= i < addrs.len(),
        addrs[i] == a,
        forall|k: int| 0 <= k < i ==> addrs[k] != a,
    ensures
        addr_index(addrs, a) == i,
    decreases addrs.len(),
{
    if i > 0 {
        assert(addrs.drop_first()[i - 1] == addrs[i]);
        assert forall|k: int| 0 <= k < i - 1 implies addrs.drop_first()[k] != a by {
            assert(addrs.drop_first()[k] == addrs[k + 1]);
        }
        lemma_addr_index_first(addrs.drop_first(), a, i - 1);
    }
}

/// Appending a fresh address leaves old positions alone and gives the new
/// address the next position.
proof fn lemma_addr_index_push(addrs: Seq<u64>, a: u64, x: u64)
    ensures
        addr_index(addrs, x) >= 0 ==> addr_index(addrs.push(a), x) == addr_index(addrs, x),
        addr_index(addrs, x) == -1 && x == a ==> addr_index(addrs.push(a), x) == addrs.len(),
        addr_index(addrs, x) == -1 && x != a ==> addr_index(addrs.push(a), x) == -1,
    decreases addrs.len(),
{
    if addrs.len() == 0 {
        assert(addrs.push(a)[0] == a);
        if x != a {
            assert(addrs.push(a).drop_first() =~= Seq::<u64>::empty());
            assert(addr_index(Seq::<u64>::empty(), x) == -1);
        }
    } else {
        assert(addrs.push(a)[0] == addrs[0]);
        if addrs[0] != x {
            assert(addrs.push(a).drop_first() =~= addrs.drop_first().push(a));
            lemma_addr_index_push(addrs.drop_first(), a, x);
        }
    }
}

/// Index into the level-`d` table for virtual address `va`: the four 9-bit
/// slices of the 48-bit virtual address, from bits 39-47 down to bits 12-20.
pub open spec fn level_index(va: u64, d: int) -> int {
    if d == 0 {
        ((va >> 39) & 0x1FF) as int
    } else if d == 1 {
        ((va >> 30) & 0x1FF) as int
    } else if d == 2 {
        ((va >> 21) & 0x1FF) as int
    } else {
        ((va >> 12) & 0x1FF) as int
    }
}

/// Whether two virtual addresses select the same translation path, that is,
/// the same page: all four level indices agree.
pub open spec fn same_page(v1: u64, v2: u64) -> bool {
    forall|d: int| 0 <= d < 4 ==> level_index(v1, d) == level_index(v2, d)
}

/// Every level index fits its 9-bit field.
proof fn lemma_level_index_bounds(va: u64, d: int)
    ensures
        0 <= level_index(va, d) < 512,
{
    assert((va >> 39) & 0x1FF < 512 && (va >> 30) & 0x1FF < 512 && (va >> 21) & 0x1FF < 512 && (
    va >> 12) & 0x1FF < 512) by (bit_vector);
}

/// Owner of one root translation table and, transitively through valid table
/// entries, of every table reachable from it.
///
/// The tables live in an arena (`tables`); `table_addrs[i]` is the physical
/// address of the frame backing `tables[i]`, and an entry's address bits are
/// resolved back to an arena position through `addr_index`. The ghost
/// `levels` records each table's depth; `tables[0]` is the root at depth 0.
pub struct VirtualMemoryManager {
    tables: Vec<PageTable>,
    table_addrs: Vec<u64>,
    levels: Ghost<Seq<int>>,
}

impl VirtualMemoryManager {
    /// Number of tables the manager owns.
    pub closed spec fn num_tables(self) -> int {
        self.tables@.len() as int
    }

    /// Depth of arena table `t` (0 = root, 3 = final level).
    pub closed spec fn level_of(self, t: int) -> int {
        self.levels@[t]
    }

    /// Physical address of the root translation table.
    pub closed spec fn spec_root_table_addr(self) -> u64 {
        self.table_addrs@[0]
    }

    /// The raw entry at slot `k` of arena table `t`.
    pub closed spec fn entry(self, t: int, k: int) -> PageTableEntry {
        self.tables@[t]@[k]
    }

    /// Arena position of the table the entry at `(t, k)` links to, or `-1`
    /// when the entry is invalid or dangling.
    pub closed spec fn step(self, t: int, k: int) -> int {
        let e = self.entry(t, k);
        if !e.spec_is_valid() {
            -1
        } else {
            addr_index(self.table_addrs@, e.spec_physical_addr())
        }
    }

    /// Arena position of the table reached after following `d` levels of the
    /// walk for `va` (so `walk(va, 0) == 0`, the root), or `-1` once a level
    /// is missing.
    pub closed spec fn walk(self, va: u64, d: int) -> int
        decreases d,
    {
        if d <= 0 {
            0
        } else {
            let t = self.walk(va, d - 1);
            if t < 0 {
                -1
            } else {
                self.step(t, level_index(va, d - 1))
            }
        }
    }

    /// The live leaf entry mapping `va`'s page, if the four-level walk
    /// completes and the final entry is valid.
    pub closed spec fn resolve(self, va: u64) -> Option<PageTableEntry> {
        let t3 = self.walk(va, 3);
        if t3 < 0 {
            None
        } else {
            let e = self.entry(t3, level_index(va, 3));
            if e.spec_is_valid() {
                Some(e)
            } else {
                None
            }
        }
    }

    /// What translation yields for `va`: the mapped page's physical address
    /// plus the page offset of `va`.
    pub open spec fn spec_translate(self, va: u64) -> Option<u64> {
        match self.resolve(va) {
            Some(e) => Some((e.spec_physical_addr() + (va & 0xFFF)) as u64),
            None => None,
        }
    }

    /// Whether the entry at `(t, k)` is a live link to a deeper table.
    pub closed spec fn is_table_link(self, t: int, k: int) -> bool {
        &&& 0 <= t < self.num_tables()
        &&& 0 <= k < 512
        &&& self.level_of(t) < 3
        &&& self.entry(t, k).spec_is_valid()
    }

    /// Structural well-formedness of the table arena.
    ///
    /// The parallel vectors agree in length; depths start at 0 for the root
    /// and stay within 0..=3; table addresses are page-aligned, below the
    /// 48-bit physical limit, and pairwise distinct; every live entry of a
    /// table above the final level links to an arena table one level deeper
    /// and stores exactly that table's address; and no two live links reach
    /// the same table (the arena is a forest below the root).
    pub closed spec fn wf(self) -> bool {
        let n = self.tables@.len();
        &&& self.table_addrs@.len() == n
        &&& self.levels@.len() == n
        &&& n >= 1
        &&& self.levels@[0] == 0
        &&& forall|t: int| 1 <= t < n ==> 1 <= #[trigger] self.levels@[t] <= 3
        &&& forall|t: int| 0 <= t < n ==> (#[trigger] self.tables@[t])@.len() == 512
        &&& forall|t1: int, t2: int|
            0 <= t1 < t2 < n ==> self.table_addrs@[t1] != self.table_addrs@[t2]
        &&& forall|t: int|
            0 <= t < n ==> #[trigger] self.table_addrs@[t] & 0xFFF == 0 && self.table_addrs@[t]
                < 0x1_0000_0000_0000
        &&& forall|t: int, k: int|
            self.is_table_link(t, k) ==> 0 <= #[trigger] self.step(t, k) < n && self.level_of(
                self.step(t, k),
            ) == self.level_of(t) + 1 && self.entry(t, k).0 == self.table_addrs@[self.step(t, k)]
                | 3
        &&& forall|t1: int, k1: int, t2: int, k2: int|
            #![trigger self.step(t1, k1), self.step(t2, k2)]
            self.is_table_link(t1, k1) && self.is_table_link(t2, k2) && self.step(t1, k1)
                == self.step(t2, k2) ==> t1 == t2 && k1 == k2
    }

    /// Every table's backing frame is marked used in the frame allocator the
    /// manager draws from.
    pub open spec fn owned_by(self, m: crate::frame_allocator::FrameAllocatorModel) -> bool {
        forall|t: int|
            0 <= t < self.num_tables() ==> m.frame_used(
                ((#[trigger] self.spec_table_addr(t)) >> 12) as int,
            )
    }

    /// Physical address of arena table `t`.
    pub closed spec fn spec_table_addr(self, t: int) -> u64 {
        self.table_addrs@[t]
    }

    /// Bounds implied by well-formedness, for callers that hold the manager
    /// opaquely: there is a root, and every table's frame address is
    /// page-aligned and below the 48-bit physical limit.
    pub proof fn lemma_wf_bounds(self)
        requires
            self.wf(),
        ensures
            self.num_tables() >= 1,
            forall|t: int|
                0 <= t < self.num_tables() ==> (#[trigger] self.spec_table_addr(t)) & 0xFFF == 0
                    && self.spec_table_addr(t) < 0x1_0000_0000_0000,
    {
    }

    /// Create a virtual memory manager: allocate a frame for the root table
    /// and zero-initialize it. Fails (with the allocator unchanged) exactly
    /// when no frame is free.
    pub fn new(fa: &mut FrameAllocator) -> (r: Option<Self>)
        requires
            old(fa).wf(),
        ensures
            final(fa).wf(),
            final(fa)@.base == old(fa)@.base,
            final(fa)@.total() == old(fa)@.total(),
            r.is_some() <==> old(fa)@.free() > 0,
            r.is_none() ==> final(fa)@ == old(fa)@,
            r.is_some() ==> ({
                let vmm = r.unwrap();
                &&& vmm.wf()
                &&& vmm.owned_by(final(fa)@)
                &&& forall|w: u64| vmm.resolve(w).is_none()
                &&& final(fa)@.free() == old(fa)@.free() - 1
                &&& vmm.spec_root_table_addr() == (old(fa)@.base + old(fa)@.chosen_index())
                    * 4096
            }),
    {
        proof {
            fa.lemma_wf_bounds();
        }
        let frame = match fa.allocate_frame() {
            Some(f) => f,
            None => {
                return None;
            },
        };
        let root_addr = frame_to_addr(frame);
        let root_table = PageTable::new();
        let mut tables: Vec<PageTable> = Vec::new();
        let mut table_addrs: Vec<u64> = Vec::new();
        tables.push(root_table);
        table_addrs.push(root_addr);
        let ghost root_levels: Seq<int> = seq![0int];
        let vmm = VirtualMemoryManager { tables, table_addrs, levels: Ghost(root_levels) };
        proof {
            assert(0u64 & 0x1u64 == 0) by (bit_vector);
            assert(frame * 4096 < 0x1_0000_0000_0000) by {
                assert(frame < 0x10_0000_0000);
            }
            assert(vmm.wf());
            assert forall|w: u64| vmm.resolve(w).is_none() by {
                lemma_level_index_bounds(w, 0);
                assert(vmm.entry(0, level_index(w, 0)).0 == 0);
                assert(vmm.step(0, level_index(w, 0)) == -1);
                assert(vmm.walk(w, 0) == 0);
                assert(vmm.walk(w, 1) == -1);
                lemma_walk_none_propagates(vmm, w, 1, 3);
            }
            let fw = frame as u64;
            assert(fw << 12 >> 12 == fw) by (bit_vector)
                requires
                    fw < 0x10_0000_0000_0000u64,
            ;
        }
        Some(vmm)
    }

    /// Allocate a frame, zero-initialize it as a fresh table one level below
    /// table `t`, and write a valid table link to it at slot `index` of `t`.
    /// Fails (with nothing changed) exactly when no frame is free.
    fn create_next_table(&mut self, fa: &mut FrameAllocator, t: usize, index: usize) -> (r: Option<
        usize,
    >)
        requires
            old(self).wf(),
            old(fa).wf(),
            old(self).owned_by(old(fa)@),
            (t as int) < old(self).num_tables(),
            index < 512,
            old(self).level_of(t as int) < 3,
            !old(self).entry(t as int, index as int).spec_is_valid(),
        ensures
            final(self).wf(),
            final(fa).wf(),
            final(self).owned_by(final(fa)@),
            final(fa)@.base == old(fa)@.base,
            final(fa)@.total() == old(fa)@.total(),
            final(self).spec_root_table_addr() == old(self).spec_root_table_addr(),
            r.is_none() ==> old(fa)@.free() == 0 && *final(self) == *old(self) && final(fa)@
                == old(fa)@,
            r.is_some() ==> ({
                let j = r.unwrap() as int;
                &&& j == old(self).num_tables()
                &&& final(self).num_tables() == j + 1
                &&& old(fa)@.free() > 0
                &&& final(fa)@.free() == old(fa)@.free() - 1
                &&& final(self).step(t as int, index as int) == j
                &&& final(self).level_of(j) == old(self).level_of(t as int) + 1
                &&& forall|w: u64, d: int|
                    0 <= d <= 3 && old(self).walk(w, d) >= 0 ==> final(self).walk(w, d) == old(
                        self,
                    ).walk(w, d)
                &&& forall|w: u64| final(self).resolve(w) == old(self).resolve(w)
                &&& forall|k2: int| 0 <= k2 < 512 ==> final(self).entry(j, k2).0 == 0
            }),
    {
        proof {
            fa.lemma_wf_bounds();
        }
        let frame = match fa.allocate_frame() {
            Some(f) => f,
            None => {
                return None;
            },
        };
        let table_addr = frame_to_addr(frame);
        let ghost pre = *self;

        // The new frame was free, while every frame backing a table is used:
        // the new address is fresh.
        proof {
            assert forall|j: int| 0 <= j < pre.num_tables() implies pre.table_addrs@[j]
                != table_addr by {
                let a = pre.spec_table_addr(j);
                assert(old(fa)@.frame_used(((pre.spec_table_addr(j) >> 12) as int)));
                if a == table_addr {
                    let fw = frame as u64;
                    assert((fw << 12) >> 12 == fw) by (bit_vector)
                        requires
                            fw < 0x10_0000_0000_0000u64,
                    ;
                }
            }
            assert(frame * 4096 < 0x1_0000_0000_0000) by {
                assert(frame < 0x10_0000_0000);
            }
        }

        let new_table = PageTable::new();
        let entry = PageTableEntry::new(
            table_addr,
            PageFlags::from_bits_truncate(FLAG_VALID | FLAG_TABLE),
        );
        proof {
            assert((0x1u64 | 0x2u64) & 0x3C7u64 == 3) by (bit_vector);
            assert((table_addr & !0xFFF) | 3u64 == table_addr | 3u64) by (bit_vector)
                requires
                    table_addr & 0xFFF == 0u64,
            ;
        }
        let j = self.tables.len();
        let table_ref = &mut self.tables[t];
        table_ref.set_entry(index, entry);
        self.tables.push(new_table);
        self.table_addrs.push(table_addr);
        proof {
            self.levels@ = pre.levels@.push(pre.level_of(t as int) + 1);
        }
        proof {
            assert(create_shape(pre, *self, t as int, index as int, table_addr));
            lemma_create_link(pre, *self, t as int, index as int, table_addr);
            // Every old table frame keeps its used mark, and the new one is used.
            assert forall|t2: int| 0 <= t2 < self.num_tables() implies final(fa)@.frame_used(
                ((#[trigger] self.spec_table_addr(t2)) >> 12) as int,
            ) by {
                if t2 < pre.num_tables() {
                    assert(old(fa)@.frame_used(((pre.spec_table_addr(t2) >> 12) as int)));
                } else {
                    let fw = frame as u64;
                    assert((fw << 12) >> 12 == fw) by (bit_vector)
                        requires
                            fw < 0x10_0000_0000_0000u64,
                    ;
                }
            }
        }
        Some(j)
    }

    /// The four 9-bit table indices of a virtual address, top level first.
    fn get_page_table_indices(&self, virt_addr: VirtAddr) -> (r: [usize; 4])
        ensures
            forall|d: int| 0 <= d < 4 ==> r@[d] == level_index(virt_addr, d) && r@[d] < 512,
    {
        proof {
            lemma_level_index_bounds(virt_addr, 0);
            lemma_level_index_bounds(virt_addr, 1);
            lemma_level_index_bounds(virt_addr, 2);
            lemma_level_index_bounds(virt_addr, 3);
        }
        [
            ((virt_addr >> 39) & 0x1FF) as usize,
            ((virt_addr >> 30) & 0x1FF) as usize,
            ((virt_addr >> 21) & 0x1FF) as usize,
            ((virt_addr >> 12) & 0x1FF) as usize,
        ]
    }

    /// Map the page of `virt_addr` to the frame of `phys_addr`, walking the
    /// four levels and creating intermediate tables on demand.
    ///
    /// Fails with `AlreadyMapped` (and changes nothing) when the page already
    /// holds a live mapping: mapping never silently overwrites. Fails with
    /// `TableAllocationFailed` when the frame allocator runs out while
    /// building the path; intermediate tables created up to that point are
    /// kept, but no page resolves differently. Succeeds exactly when the
    /// allocator has a frame for every missing level, and then installs a
    /// leaf entry carrying `phys_addr` (page-aligned) with the given flags
    /// and the valid bit forced on.
    pub fn map_page(
        &mut self,
        fa: &mut FrameAllocator,
        virt_addr: VirtAddr,
        phys_addr: PhysAddr,
        flags: PageFlags,
    ) -> (r: Result<(), MemoryError>)
        requires
            old(self).wf(),
            old(fa).wf(),
            old(self).owned_by(old(fa)@),
        ensures
            final(self).wf(),
            final(fa).wf(),
            final(self).owned_by(final(fa)@),
            final(fa)@.base == old(fa)@.base,
            final(fa)@.total() == old(fa)@.total(),
            final(self).spec_root_table_addr() == old(self).spec_root_table_addr(),
            old(self).resolve(virt_addr).is_some() ==> r == Err::<(), MemoryError>(
                MemoryError::AlreadyMapped,
            ) && *final(self) == *old(self) && *final(fa) == *old(fa),
            old(self).resolve(virt_addr).is_none() ==> {
                &&& (r.is_ok() <==> old(fa)@.free() >= old(self).missing_tables(virt_addr))
                &&& (r.is_err() ==> r == Err::<(), MemoryError>(
                    MemoryError::TableAllocationFailed,
                ) && final(fa)@.free() == 0 && (forall|w: u64|
                    final(self).resolve(w) == old(self).resolve(w)))
                &&& (r.is_ok() ==> ({
                    &&& final(fa)@.free() == old(fa)@.free() - old(self).missing_tables(virt_addr)
                    &&& (forall|w: u64|
                        same_page(w, virt_addr) ==> final(self).resolve(w) == Some(
                            PageTableEntry(
                                PageTableEntry::entry_value(
                                    phys_addr,
                                    flags.spec_bits() | FLAG_VALID,
                                ),
                            ),
                        ))
                    &&& (forall|w: u64|
                        !same_page(w, virt_addr) ==> final(self).resolve(w) == old(self).resolve(
                            w,
                        ))
                }))
            },
    {
        let indices = self.get_page_table_indices(virt_addr);
        let mut t: usize = 0;
        let mut d: usize = 0;
        #[verifier::loop_isolation(false)]
        while d < 3
            invariant
                self.wf(),
                fa.wf(),
                self.owned_by(fa@),
                fa@.base == old(fa)@.base,
                fa@.total() == old(fa)@.total(),
                self.spec_root_table_addr() == old(self).spec_root_table_addr(),
                d <= 3,
                (t as int) < self.num_tables(),
                self.level_of(t as int) == d,
                self.walk(virt_addr, d as int) == t,
                forall|w: u64| self.resolve(w) == old(self).resolve(w),
                old(fa)@.free() - fa@.free() == self.num_tables() - old(self).num_tables(),
                self.missing_from(t as int, virt_addr, d as int) == old(self).missing_tables(
                    virt_addr,
                ) - (self.num_tables() - old(self).num_tables()),
                old(self).resolve(virt_addr).is_some() ==> *self == *old(self) && *fa == *old(fa),
            decreases 3 - d,
        {
            proof {
                assert(indices@[d as int] == level_index(virt_addr, d as int) && indices@[d as int]
                    < 512);
            }
            let idx = indices[d];
            match self.next_table_index(t, idx) {
                Some(nt) => {
                    proof {
                        assert(self.step(t as int, idx as int) == nt);
                        assert(self.is_table_link(t as int, idx as int));
                        assert(self.walk(virt_addr, d as int + 1) == nt);
                    }
                    t = nt;
                },
                None => {
                    let ghost pre_iter = *self;
                    proof {
                        // A valid link would have been found: the slot is empty.
                        if self.entry(t as int, idx as int).spec_is_valid() {
                            assert(self.is_table_link(t as int, idx as int));
                            assert(self.step(t as int, idx as int) >= 0);
                        }
                        // The page cannot already be mapped on this path.
                        assert(self.walk(virt_addr, d as int + 1) == -1);
                        lemma_walk_none_propagates(*self, virt_addr, d as int + 1, 3);
                        assert(self.resolve(virt_addr).is_none());
                    }
                    let nt = match self.create_next_table(fa, t, idx) {
                        Some(x) => x,
                        None => {
                            proof {
                                assert(self.missing_from(t as int, virt_addr, d as int) == 3 - d);
                            }
                            return Err(MemoryError::TableAllocationFailed);
                        },
                    };
                    proof {
                        assert(pre_iter.walk(virt_addr, d as int) == t);
                        assert(self.walk(virt_addr, d as int) == t);
                        assert(self.walk(virt_addr, d as int + 1) == self.step(
                            t as int,
                            idx as int,
                        ));
                        assert(self.step(t as int, idx as int) == nt);
                        // The fresh table is empty, so everything below it is
                        // still missing.
                        assert(0u64 & 0x1u64 == 0) by (bit_vector);
                        if d + 1 < 3 {
                            lemma_level_index_bounds(virt_addr, d as int + 1);
                            assert(!self.entry(nt as int, level_index(virt_addr, d as int + 1))
                                .spec_is_valid());
                            assert(self.missing_from(nt as int, virt_addr, d as int + 1) == 3 - (
                            d as int + 1));
                        }
                        assert(pre_iter.missing_from(t as int, virt_addr, d as int) == 3 - d);
                    }
                    t = nt;
                },
            }
            d = d + 1;
        }
        let page_index = indices[3];
        let entry = self.tables[t].entry_at(page_index);
        if entry.is_valid() {
            proof {
                assert(self.resolve(virt_addr) == Some(entry));
                assert(old(self).resolve(virt_addr).is_some());
            }
            return Err(MemoryError::AlreadyMapped);
        }
        proof {
            assert(self.resolve(virt_addr).is_none());
            assert(old(self).resolve(virt_addr).is_none());
            assert(self.missing_from(t as int, virt_addr, 3) == 0);
        }
        let ghost mid = *self;
        let new_entry = PageTableEntry::new(
            phys_addr,
            flags.union(PageFlags::from_bits_truncate(FLAG_VALID)),
        );
        proof {
            assert(0x1u64 & 0x3C7u64 == 0x1u64) by (bit_vector);
            let b = flags.spec_bits();
            assert(((phys_addr & !0xFFFu64) | (b | 0x1u64)) & 0x1u64 != 0) by (bit_vector);
        }
        let table_ref = &mut self.tables[t];
        table_ref.set_entry(page_index, new_entry);
        proof {
            assert(leaf_write_shape(mid, *self, t as int, page_index as int, new_entry));
            lemma_leaf_write(mid, *self, t as int, page_index as int, new_entry);
            assert forall|w: u64| same_page(w, virt_addr) implies self.resolve(w) == Some(
                new_entry,
            ) by {
                lemma_walk_same_indices(mid, w, virt_addr, 3);
                assert(level_index(w, 3) == level_index(virt_addr, 3));
            }
            assert forall|w: u64| !same_page(w, virt_addr) implies self.resolve(w) == old(
                self,
            ).resolve(w) by {
                if mid.walk(w, 3) == t as int && level_index(w, 3) == page_index as int {
                    lemma_walk_injective(mid, w, virt_addr);
                    assert(forall|dd: int| 0 <= dd < 4 ==> level_index(w, dd) == level_index(
                        virt_addr,
                        dd,
                    ));
                    assert(false);
                }
            }
            // The leaf write touches no table address and no frame.
            assert forall|t2: int| 0 <= t2 < self.num_tables() implies fa@.frame_used(
                (((#[trigger] self.spec_table_addr(t2)) >> 12) as int),
            ) by {
                assert(self.spec_table_addr(t2) == mid.spec_table_addr(t2));
                assert(fa@.frame_used(((mid.spec_table_addr(t2) >> 12) as int)));
            }
            fa.lemma_wf_bounds();
        }
        Ok(())
    }

    /// Unmap the page of `virt_addr`, returning the physical address its leaf
    /// entry carried.
    ///
    /// Fails with `NotMapped` (and changes nothing) when any level of the
    /// walk is absent or the leaf entry is invalid. On success only the leaf
    /// entry is cleared: intermediate tables are kept, and the unmapped frame
    /// is not returned to any allocator — the caller owns that decision.
    pub fn unmap_page(&mut self, virt_addr: VirtAddr) -> (r: Result<PhysAddr, MemoryError>)
        requires
            old(self).wf(),
        ensures
            final(self).wf(),
            final(self).spec_root_table_addr() == old(self).spec_root_table_addr(),
            final(self).num_tables() == old(self).num_tables(),
            forall|m: FrameAllocatorModel| old(self).owned_by(m) ==> final(self).owned_by(m),
            old(self).resolve(virt_addr).is_none() ==> r == Err::<PhysAddr, MemoryError>(
                MemoryError::NotMapped,
            ) && *final(self) == *old(self),
            old(self).resolve(virt_addr).is_some() ==> {
                &&& r == Ok::<PhysAddr, MemoryError>(
                    old(self).resolve(virt_addr).unwrap().spec_physical_addr(),
                )
                &&& (forall|w: u64|
                    same_page(w, virt_addr) ==> final(self).resolve(w).is_none())
                &&& (forall|w: u64|
                    !same_page(w, virt_addr) ==> final(self).resolve(w) == old(self).resolve(w))
            },
    {
        let indices = self.get_page_table_indices(virt_addr);
        let mut t: usize = 0;
        let mut d: usize = 0;
        #[verifier::loop_isolation(false)]
        while d < 3
            invariant
                *self == *old(self),
                d <= 3,
                (t as int) < self.num_tables(),
                self.level_of(t as int) == d,
                self.walk(virt_addr, d as int) == t,
            decreases 3 - d,
        {
            proof {
                assert(indices@[d as int] == level_index(virt_addr, d as int) && indices@[d as int]
                    < 512);
            }
            match self.next_table_index(t, indices[d]) {
                Some(nt) => {
                    proof {
                        assert(self.walk(virt_addr, d as int + 1) == self.step(
                            t as int,
                            indices@[d as int] as int,
                        ));
                        assert(self.is_table_link(t as int, indices@[d as int] as int));
                    }
                    t = nt;
                },
                None => {
                    proof {
                        assert(self.walk(virt_addr, d as int + 1) == -1);
                        lemma_walk_none_propagates(*self, virt_addr, d as int + 1, 3);
                    }
                    return Err(MemoryError::NotMapped);
                },
            }
            d = d + 1;
        }
        let page_index = indices[3];
        let entry = self.tables[t].entry_at(page_index);
        if !entry.is_valid() {
            return Err(MemoryError::NotMapped);
        }
        let phys_addr = entry.physical_addr();
        proof {
            assert(self.resolve(virt_addr) == Some(entry));
        }
        let ghost mid = *self;
        let cleared = PageTableEntry::empty();
        let table_ref = &mut self.tables[t];
        table_ref.set_entry(page_index, cleared);
        proof {
            assert(0u64 & 0x1u64 == 0) by (bit_vector);
            assert(leaf_write_shape(mid, *self, t as int, page_index as int, cleared));
            lemma_leaf_write(mid, *self, t as int, page_index as int, cleared);
            assert forall|w: u64| same_page(w, virt_addr) implies self.resolve(w).is_none() by {
                lemma_walk_same_indices(mid, w, virt_addr, 3);
                assert(level_index(w, 3) == level_index(virt_addr, 3));
            }
            assert forall|w: u64| !same_page(w, virt_addr) implies self.resolve(w) == old(
                self,
            ).resolve(w) by {
                if mid.walk(w, 3) == t as int && level_index(w, 3) == page_index as int {
                    lemma_walk_injective(mid, w, virt_addr);
                    assert(forall|dd: int| 0 <= dd < 4 ==> level_index(w, dd) == level_index(
                        virt_addr,
                        dd,
                    ));
                    assert(false);
                }
            }
            assert forall|m: FrameAllocatorModel| old(self).owned_by(m) implies self.owned_by(
                m,
            ) by {
                assert forall|t2: int| 0 <= t2 < self.num_tables() implies m.frame_used(
                    (((#[trigger] self.spec_table_addr(t2)) >> 12) as int),
                ) by {
                    assert(self.spec_table_addr(t2) == mid.spec_table_addr(t2));
                    assert(m.frame_used(((mid.spec_table_addr(t2) >> 12) as int)));
                }
            }
        }
        Ok(phys_addr)
    }

    /// Translate a virtual address: a read-only walk that yields the mapped
    /// page's physical address plus the page offset, or nothing when any
    /// level is absent or the leaf entry is invalid.
    pub fn translate(&self, virt_addr: VirtAddr) -> (r: Option<PhysAddr>)
        requires
            self.wf(),
        ensures
            r == self.spec_translate(virt_addr),
    {
        let indices = self.get_page_table_indices(virt_addr);
        let offset = virt_addr & 0xFFF;
        let mut t: usize = 0;
        let mut d: usize = 0;
        #[verifier::loop_isolation(false)]
        while d < 3
            invariant
                d <= 3,
                (t as int) < self.num_tables(),
                self.level_of(t as int) == d,
                self.walk(virt_addr, d as int) == t,
            decreases 3 - d,
        {
            proof {
                assert(indices@[d as int] == level_index(virt_addr, d as int) && indices@[d as int]
                    < 512);
            }
            match self.next_table_index(t, indices[d]) {
                Some(nt) => {
                    proof {
                        assert(self.walk(virt_addr, d as int + 1) == self.step(
                            t as int,
                            indices@[d as int] as int,
                        ));
                        assert(self.is_table_link(t as int, indices@[d as int] as int));
                    }
                    t = nt;
                },
                None => {
                    proof {
                        assert(self.walk(virt_addr, d as int + 1) == -1);
                        lemma_walk_none_propagates(*self, virt_addr, d as int + 1, 3);
                    }
                    return None;
                },
            }
            d = d + 1;
        }
        let entry = self.tables[t].entry_at(indices[3]);
        if entry.is_valid() {
            proof {
                assert(self.resolve(virt_addr) == Some(entry));
                let raw = entry.0;
                assert(raw & 0x0000_FFFF_FFFF_F000u64 <= 0x0000_FFFF_FFFF_F000u64 && virt_addr
                    & 0xFFFu64 <= 0xFFFu64) by (bit_vector);
            }
            Some(entry.physical_addr() + offset)
        } else {
            None
        }
    }

    /// Physical address of the root table, for the translation-base register.
    pub fn root_table_addr(&self) -> (r: PhysAddr)
        requires
            self.wf(),
        ensures
            r == self.spec_root_table_addr(),
    {
        self.table_addrs[0]
    }

    /// Find the arena position of the table at physical address `addr`.
    fn find_table(&self, addr: u64) -> (r: Option<usize>)
        ensures
            match r {
                Some(j) => addr_index(self.table_addrs@, addr) == j && (j as int)
                    < self.table_addrs@.len(),
                None => addr_index(self.table_addrs@, addr) == -1,
            },
    {
        let ghost addrs = self.table_addrs@;
        let mut i: usize = 0;
        let len = self.table_addrs.len();
        while i < len
            invariant
                addrs == self.table_addrs@,
                len == addrs.len(),
                i <= len,
                forall|k: int| 0 <= k < i ==> addrs[k] != addr,
            decreases len - i,
        {
            if self.table_addrs[i] == addr {
                proof {
                    lemma_addr_index_first(addrs, addr, i as int);
                }
                return Some(i);
            }
            i = i + 1;
        }
        proof {
            lemma_addr_index_bounds(addrs, addr);
            if addr_index(addrs, addr) >= 0 {
                assert(addrs[addr_index(addrs, addr)] == addr);
            }
        }
        None
    }

    /// Follow the entry at slot `index` of arena table `t` to the next-level
    /// table, if that entry is a live link.
    fn next_table_index(&self, t: usize, index: usize) -> (r: Option<usize>)
        requires
            self.wf(),
            t < self.num_tables(),
            index < 512,
        ensures
            match r {
                Some(j) => self.step(t as int, index as int) == j,
                None => self.step(t as int, index as int) < 0,
            },
    {
        let entry = match self.tables[t].get_entry(index) {
            Some(e) => e,
            None => {
                return None;
            },
        };
        if !entry.is_valid() {
            return None;
        }
        let addr = entry.physical_addr();
        self.find_table(addr)
    }
}

impl VirtualMemoryManager {
    /// Tables still to be created below table `t` (at depth `d`) before the
    /// walk for `va` reaches the final level: 0 when the path is complete,
    /// and all remaining levels once one link is missing.
    pub closed spec fn missing_from(self, t: int, va: u64, d: int) -> int
        decreases 3 - d,
    {
        if d >= 3 {
            0
        } else {
            let c = self.step(t, level_index(va, d));
            if c >= 0 {
                self.missing_from(c, va, d + 1)
            } else {
                3 - d
            }
        }
    }

    /// Number of intermediate tables a mapping of `va` still has to create.
    pub closed spec fn missing_tables(self, va: u64) -> int {
        self.missing_from(0, va, 0)
    }
}

/// At most the three intermediate levels can be missing.
proof fn lemma_missing_from_bounds(m: VirtualMemoryManager, t: int, va: u64, d: int)
    requires
        0 <= d <= 3,
    ensures
        0 <= m.missing_from(t, va, d) <= 3 - d,
    decreases 3 - d,
{
    if d < 3 {
        let c = m.step(t, level_index(va, d));
        if c >= 0 {
            lemma_missing_from_bounds(m, c, va, d + 1);
        }
    }
}

/// A mapping never needs more than the three intermediate tables.
pub proof fn lemma_missing_tables_bounds(m: VirtualMemoryManager, va: u64)
    ensures
        0 <= m.missing_tables(va) <= 3,
{
    lemma_missing_from_bounds(m, 0, va, 0);
}

/// A completed walk prefix visits only arena tables, at matching depth.
proof fn lemma_walk_level(m: VirtualMemoryManager, va: u64, d: int)
    requires
        m.wf(),
        0 <= d <= 3,
        m.walk(va, d) >= 0,
    ensures
        m.walk(va, d) < m.num_tables(),
        m.level_of(m.walk(va, d)) == d,
    decreases d,
{
    if d > 0 {
        let t = m.walk(va, d - 1);
        assert(t >= 0);
        lemma_walk_level(m, va, d - 1);
        lemma_level_index_bounds(va, d - 1);
        assert(m.is_table_link(t, level_index(va, d - 1)));
        assert(0 <= m.step(t, level_index(va, d - 1)) < m.num_tables());
    }
}

/// A missing level stays missing for the rest of the walk.
proof fn lemma_walk_none_propagates(m: VirtualMemoryManager, va: u64, d1: int, d2: int)
    requires
        0 <= d1 <= d2 <= 3,
        m.walk(va, d1) == -1,
    ensures
        m.walk(va, d2) == -1,
    decreases d2 - d1,
{
    if d1 < d2 {
        lemma_walk_none_propagates(m, va, d1, d2 - 1);
    }
}

/// A completed walk has every prefix completed.
proof fn lemma_walk_prefix(m: VirtualMemoryManager, va: u64, d1: int, d2: int)
    requires
        0 <= d1 <= d2 <= 3,
        m.walk(va, d2) >= 0,
    ensures
        m.walk(va, d1) >= 0,
{
    if m.walk(va, d1) == -1 {
        lemma_walk_none_propagates(m, va, d1, d2);
    }
}

/// The walk depends only on the level indices of the address.
proof fn lemma_walk_same_indices(m: VirtualMemoryManager, v1: u64, v2: u64, d: int)
    requires
        0 <= d <= 3,
        forall|k: int| 0 <= k < d ==> level_index(v1, k) == level_index(v2, k),
    ensures
        m.walk(v1, d) == m.walk(v2, d),
    decreases d,
{
    if d > 0 {
        lemma_walk_same_indices(m, v1, v2, d - 1);
    }
}

/// Two addresses whose walks complete at the same final-level table took the
/// same path: their first three level indices agree.
proof fn lemma_walk_injective(m: VirtualMemoryManager, v1: u64, v2: u64)
    requires
        m.wf(),
        m.walk(v1, 3) >= 0,
        m.walk(v1, 3) == m.walk(v2, 3),
    ensures
        forall|d: int| 0 <= d < 3 ==> level_index(v1, d) == level_index(v2, d),
{
    lemma_walk_step_injective(m, v1, v2, 3);
    lemma_walk_step_injective(m, v1, v2, 2);
    lemma_walk_step_injective(m, v1, v2, 1);
}

/// If the walks for `v1` and `v2` agree (and are complete) at depth `d`, they
/// agree one level up, with equal indices at that level.
proof fn lemma_walk_step_injective(m: VirtualMemoryManager, v1: u64, v2: u64, d: int)
    requires
        m.wf(),
        1 <= d <= 3,
        m.walk(v1, d) >= 0,
        m.walk(v1, d) == m.walk(v2, d),
    ensures
        m.walk(v1, d - 1) >= 0,
        m.walk(v1, d - 1) == m.walk(v2, d - 1),
        level_index(v1, d - 1) == level_index(v2, d - 1),
{
    let t1 = m.walk(v1, d - 1);
    let t2 = m.walk(v2, d - 1);
    assert(t1 >= 0 && t2 >= 0);
    lemma_walk_level(m, v1, d - 1);
    lemma_walk_level(m, v2, d - 1);
    lemma_level_index_bounds(v1, d - 1);
    lemma_level_index_bounds(v2, d - 1);
    assert(m.is_table_link(t1, level_index(v1, d - 1)));
    assert(m.is_table_link(t2, level_index(v2, d - 1)));
    assert(m.step(t1, level_index(v1, d - 1)) == m.step(t2, level_index(v2, d - 1)));
}

/// A leaf entry built from a page-aligned physical address below the 48-bit
/// limit, with the valid bit forced on, is valid and carries exactly that
/// address: the attribute bits never leak into the address field.
pub proof fn lemma_mapped_entry_shape(pa: u64, flag_bits: u64)
    requires
        pa & 0xFFF == 0,
        pa < 0x1_0000_0000_0000,
        flag_bits & FLAG_ATTR_MASK == flag_bits,
    ensures
        PageTableEntry(
            PageTableEntry::entry_value(pa, flag_bits | FLAG_VALID),
        ).spec_is_valid(),
        PageTableEntry(
            PageTableEntry::entry_value(pa, flag_bits | FLAG_VALID),
        ).spec_physical_addr() == pa,
{
    let v = (pa & !0xFFF) | (flag_bits | 0x1);
    assert(v & 0x1u64 != 0 && v & 0x0000_FFFF_FFFF_F000u64 == pa) by (bit_vector)
        requires
            v == (pa & !0xFFFu64) | (flag_bits | 0x1u64),
            pa & 0xFFFu64 == 0,
            pa < 0x1_0000_0000_0000u64,
            flag_bits & 0x3C7u64 == flag_bits,
    ;
}

/// Law: translating an address whose page is mapped to the page-aligned
/// physical address `pa` (as a successful `map_page(va, pa, flags)` leaves
/// the manager) yields exactly `pa` plus the page offset of the address.
pub proof fn lemma_map_then_translate(m: VirtualMemoryManager, va: u64, pa: u64, flag_bits: u64)
    requires
        pa & 0xFFF == 0,
        pa < 0x1_0000_0000_0000,
        flag_bits & FLAG_ATTR_MASK == flag_bits,
        m.resolve(va) == Some(
            PageTableEntry(PageTableEntry::entry_value(pa, flag_bits | FLAG_VALID)),
        ),
    ensures
        m.spec_translate(va) == Some((pa + (va & 0xFFF)) as u64),
{
    lemma_mapped_entry_shape(pa, flag_bits);
    assert(va & 0xFFFu64 <= 0xFFFu64) by (bit_vector);
}

/// Law: a page that a successful `map_page(va, first_pa, flags)` left mapped still
/// holds a live mapping, so by `map_page`'s contract a second map of the same
/// page must return `AlreadyMapped` and change nothing, and translation still
/// follows the first mapping.
pub proof fn lemma_double_map_keeps_first(
    m: VirtualMemoryManager,
    va: u64,
    first_pa: u64,
    flag_bits: u64,
)
    requires
        first_pa & 0xFFF == 0,
        first_pa < 0x1_0000_0000_0000,
        flag_bits & FLAG_ATTR_MASK == flag_bits,
        m.resolve(va) == Some(
            PageTableEntry(PageTableEntry::entry_value(first_pa, flag_bits | FLAG_VALID)),
        ),
    ensures
        m.resolve(va).is_some(),
        m.spec_translate(va) == Some((first_pa + (va & 0xFFF)) as u64),
{
    lemma_map_then_translate(m, va, first_pa, flag_bits);
}

/// Law: unmapping a page that a successful `map_page(va, pa, flags)` left
/// mapped returns exactly `pa` (by `unmap_page`'s contract, which yields the
/// resolved entry's address), and afterwards the page no longer resolves, so
/// an immediate second unmap must return `NotMapped`.
pub proof fn lemma_unmap_returns_mapped_addr(
    m: VirtualMemoryManager,
    va: u64,
    pa: u64,
    flag_bits: u64,
)
    requires
        pa & 0xFFF == 0,
        pa < 0x1_0000_0000_0000,
        flag_bits & FLAG_ATTR_MASK == flag_bits,
        m.resolve(va) == Some(
            PageTableEntry(PageTableEntry::entry_value(pa, flag_bits | FLAG_VALID)),
        ),
    ensures
        m.resolve(va).unwrap().spec_physical_addr() == pa,
{
    lemma_mapped_entry_shape(pa, flag_bits);
}

/// Requirements tying a post state to a pre state that differ in one entry of
/// one final-level table.
spec fn leaf_write_shape(
    pre: VirtualMemoryManager,
    post: VirtualMemoryManager,
    t3: int,
    k3: int,
    e: PageTableEntry,
) -> bool {
    &&& 0 <= t3 < pre.num_tables()
    &&& 0 <= k3 < 512
    &&& pre.level_of(t3) == 3
    &&& post.table_addrs@ == pre.table_addrs@
    &&& post.levels@ == pre.levels@
    &&& post.tables@.len() == pre.tables@.len()
    &&& post.tables@[t3]@ == pre.tables@[t3]@.update(k3, e)
    &&& forall|t: int|
        0 <= t < pre.num_tables() && t != t3 ==> (#[trigger] post.tables@[t])@ == pre.tables@[t]@
}

/// The walk ignores final-level tables, so writing a leaf entry never moves
/// any walk.
proof fn lemma_leaf_write_walk(
    pre: VirtualMemoryManager,
    post: VirtualMemoryManager,
    t3: int,
    k3: int,
    e: PageTableEntry,
    w: u64,
    d: int,
)
    requires
        pre.wf(),
        leaf_write_shape(pre, post, t3, k3, e),
        0 <= d <= 3,
    ensures
        post.walk(w, d) == pre.walk(w, d),
    decreases d,
{
    if d > 0 {
        lemma_leaf_write_walk(pre, post, t3, k3, e, w, d - 1);
        let t = pre.walk(w, d - 1);
        if t >= 0 {
            lemma_walk_level(pre, w, d - 1);
            assert(t != t3);
            assert(post.tables@[t]@ == pre.tables@[t]@);
        }
    }
}

/// Writing entry `(t3, k3)` of a final-level table changes the resolution of
/// exactly the pages that walk to that slot, keeps the arena well-formed, and
/// leaves every walk unchanged.
proof fn lemma_leaf_write(
    pre: VirtualMemoryManager,
    post: VirtualMemoryManager,
    t3: int,
    k3: int,
    e: PageTableEntry,
)
    requires
        pre.wf(),
        leaf_write_shape(pre, post, t3, k3, e),
    ensures
        post.wf(),
        forall|w: u64, d: int| 0 <= d <= 3 ==> post.walk(w, d) == pre.walk(w, d),
        forall|w: u64|
            pre.walk(w, 3) == t3 && level_index(w, 3) == k3 ==> post.resolve(w) == (
            if e.spec_is_valid() {
                Some(e)
            } else {
                None
            }),
        forall|w: u64|
            !(pre.walk(w, 3) == t3 && level_index(w, 3) == k3) ==> post.resolve(w) == pre.resolve(
                w,
            ),
{
    // No walk moves.
    assert forall|w: u64, d: int| 0 <= d <= 3 implies post.walk(w, d) == pre.walk(w, d) by {
        lemma_leaf_write_walk(pre, post, t3, k3, e, w, d);
    }
    // Entries outside the written slot are unchanged.
    assert forall|t: int, k: int|
        0 <= t < post.num_tables() && 0 <= k < 512 && !(t == t3 && k == k3) implies post.entry(
        t,
        k,
    ) == pre.entry(t, k) by {
        if t == t3 {
            assert(post.tables@[t]@ == pre.tables@[t]@.update(k3, e));
        } else {
            assert(post.tables@[t]@ == pre.tables@[t]@);
        }
    }
    // Links live strictly above the final level, so none is affected.
    assert forall|t: int, k: int| post.is_table_link(t, k) implies pre.is_table_link(t, k)
        && post.step(t, k) == pre.step(t, k) by {
        assert(post.entry(t, k) == pre.entry(t, k));
    }
    assert forall|t: int, k: int| pre.is_table_link(t, k) implies post.is_table_link(t, k) by {
        assert(post.entry(t, k) == pre.entry(t, k));
    }
    assert(post.wf());
    // Resolution changes exactly at the written slot.
    assert forall|w: u64|
        pre.walk(w, 3) == t3 && level_index(w, 3) == k3 implies post.resolve(w) == (
    if e.spec_is_valid() {
        Some(e)
    } else {
        None
    }) by {
        assert(post.walk(w, 3) == t3);
        assert(post.entry(t3, k3) == e);
    }
    assert forall|w: u64|
        !(pre.walk(w, 3) == t3 && level_index(w, 3) == k3) implies post.resolve(w)
        == pre.resolve(w) by {
        let t = pre.walk(w, 3);
        if t >= 0 {
            lemma_level_index_bounds(w, 3);
            lemma_walk_level(pre, w, 3);
            assert(post.entry(t, level_index(w, 3)) == pre.entry(t, level_index(w, 3)));
        }
    }
}

/// Requirements tying a post state to a pre state extended by one fresh empty
/// table at address `a_new`, linked from the previously invalid slot `(t, k)`.
spec fn create_shape(
    pre: VirtualMemoryManager,
    post: VirtualMemoryManager,
    t: int,
    k: int,
    a_new: u64,
) -> bool {
    let n = pre.num_tables();
    &&& 0 <= t < n
    &&& 0 <= k < 512
    &&& pre.level_of(t) < 3
    &&& !pre.entry(t, k).spec_is_valid()
    &&& a_new & 0xFFF == 0
    &&& a_new < 0x1_0000_0000_0000
    &&& forall|j: int| 0 <= j < n ==> pre.table_addrs@[j] != a_new
    &&& post.table_addrs@ == pre.table_addrs@.push(a_new)
    &&& post.levels@ == pre.levels@.push(pre.level_of(t) + 1)
    &&& post.tables@.len() == n + 1
    &&& post.tables@[t]@ == pre.tables@[t]@.update(k, PageTableEntry(a_new | 3))
    &&& forall|t2: int|
        0 <= t2 < n && t2 != t ==> (#[trigger] post.tables@[t2])@ == pre.tables@[t2]@
    &&& post.tables@[n]@.len() == 512
    &&& forall|k2: int| 0 <= k2 < 512 ==> post.entry(n, k2).0 == 0
}

/// After linking in a fresh empty table, every walk that was complete is
/// unchanged, and a walk that was missing either stays missing or ends in the
/// new (empty) table.
proof fn lemma_create_walk(
    pre: VirtualMemoryManager,
    post: VirtualMemoryManager,
    t: int,
    k: int,
    a_new: u64,
    w: u64,
    d: int,
)
    requires
        pre.wf(),
        create_shape(pre, post, t, k, a_new),
        0 <= d <= 3,
    ensures
        pre.walk(w, d) >= 0 ==> post.walk(w, d) == pre.walk(w, d),
        pre.walk(w, d) == -1 ==> post.walk(w, d) == -1 || post.walk(w, d) == pre.num_tables(),
    decreases d,
{
    let n = pre.num_tables();
    if d > 0 {
        lemma_create_walk(pre, post, t, k, a_new, w, d - 1);
        let tw = pre.walk(w, d - 1);
        let idx = level_index(w, d - 1);
        lemma_level_index_bounds(w, d - 1);
        if tw >= 0 {
            lemma_walk_level(pre, w, d - 1);
            assert(post.walk(w, d - 1) == tw);
            if tw == t && idx == k {
                // The previously missing link now reaches the new table.
                assert(pre.step(tw, idx) == -1);
                assert(post.entry(t, k).0 == (a_new | 3) as u64);
                assert((a_new | 3) & 0x1u64 != 0 && ((a_new | 3) & 0x0000_FFFF_FFFF_F000u64)
                    == a_new) by (bit_vector)
                    requires
                        a_new & 0xFFF == 0u64 && a_new < 0x1_0000_0000_0000u64,
                ;
                lemma_addr_index_bounds(pre.table_addrs@, a_new);
                lemma_addr_index_push(pre.table_addrs@, a_new, a_new);
                assert(post.step(t, k) == n);
            } else {
                // Any other slot is unchanged, and old links stay resolvable.
                if tw == t {
                    assert(post.entry(tw, idx) == pre.entry(tw, idx));
                } else {
                    assert(post.tables@[tw]@ == pre.tables@[tw]@);
                }
                let e = pre.entry(tw, idx);
                if e.spec_is_valid() {
                    assert(pre.is_table_link(tw, idx));
                    assert(0 <= pre.step(tw, idx) < n);
                    lemma_addr_index_push(pre.table_addrs@, a_new, e.spec_physical_addr());
                    assert(post.step(tw, idx) == pre.step(tw, idx));
                } else {
                    assert(pre.step(tw, idx) == -1 && post.step(tw, idx) == -1);
                }
            }
        } else {
            // The walk was already missing one level further up.
            if post.walk(w, d - 1) == n {
                // The new table is empty, so the walk dies here.
                assert(post.entry(n, idx).0 == 0);
                assert(0u64 & 0x1u64 == 0) by (bit_vector);
                assert(post.step(n, idx) == -1);
            }
        }
    }
}

/// Linking in a fresh empty table keeps the arena well-formed, resolves no
/// page differently, and extends exactly the one walk that was missing at
/// `(t, k)`.
proof fn lemma_create_link(
    pre: VirtualMemoryManager,
    post: VirtualMemoryManager,
    t: int,
    k: int,
    a_new: u64,
)
    requires
        pre.wf(),
        create_shape(pre, post, t, k, a_new),
    ensures
        post.wf(),
        post.step(t, k) == pre.num_tables(),
        post.level_of(pre.num_tables()) == pre.level_of(t) + 1,
        forall|w: u64, d: int|
            0 <= d <= 3 && pre.walk(w, d) >= 0 ==> post.walk(w, d) == pre.walk(w, d),
        forall|w: u64| post.resolve(w) == pre.resolve(w),
{
    let n = pre.num_tables();
    assert((a_new | 3) & 0x1u64 != 0 && ((a_new | 3) & 0x0000_FFFF_FFFF_F000u64) == a_new && (
    a_new | 3) & 0x3C7u64 != 0) by (bit_vector)
        requires
            a_new & 0xFFF == 0u64 && a_new < 0x1_0000_0000_0000u64,
    ;
    assert(0u64 & 0x1u64 == 0) by (bit_vector);
    lemma_addr_index_bounds(pre.table_addrs@, a_new);
    lemma_addr_index_push(pre.table_addrs@, a_new, a_new);
    assert(post.step(t, k) == n);

    // Old entries outside `(t, k)` are unchanged.
    assert forall|t2: int, k2: int|
        0 <= t2 < n && 0 <= k2 < 512 && !(t2 == t && k2 == k) implies post.entry(t2, k2)
        == pre.entry(t2, k2) by {
        if t2 == t {
            assert(post.tables@[t2]@ == pre.tables@[t2]@.update(k, PageTableEntry(a_new | 3)));
        } else {
            assert(post.tables@[t2]@ == pre.tables@[t2]@);
        }
    }
    // Old links keep their targets.
    assert forall|t2: int, k2: int|
        pre.is_table_link(t2, k2) implies post.is_table_link(t2, k2) && post.step(t2, k2)
        == pre.step(t2, k2) by {
        assert(!(t2 == t && k2 == k));
        assert(post.entry(t2, k2) == pre.entry(t2, k2));
        assert(0 <= pre.step(t2, k2) < n);
        lemma_addr_index_push(pre.table_addrs@, a_new, pre.entry(t2, k2).spec_physical_addr());
    }
    // Every link of the post state is an old link or the new one.
    assert forall|t2: int, k2: int|
        post.is_table_link(t2, k2) && !(t2 == t && k2 == k) implies pre.is_table_link(t2, k2)
        && post.step(t2, k2) == pre.step(t2, k2) by {
        if t2 == n {
            assert(post.entry(t2, k2).0 == 0);
            assert(!post.entry(t2, k2).spec_is_valid());
        } else {
            assert(post.entry(t2, k2) == pre.entry(t2, k2));
            assert(pre.is_table_link(t2, k2));
            lemma_addr_index_push(
                pre.table_addrs@,
                a_new,
                pre.entry(t2, k2).spec_physical_addr(),
            );
        }
    }
    assert(post.wf()) by {
        assert forall|t1: int, t2: int|
            0 <= t1 < t2 < n + 1 implies post.table_addrs@[t1] != post.table_addrs@[t2] by {
            if t2 == n {
                assert(pre.table_addrs@[t1] != a_new);
            }
        }
        assert forall|t2: int, k2: int| post.is_table_link(t2, k2) implies 0 <= #[trigger] post.step(
            t2,
            k2,
        ) < n + 1 && post.level_of(post.step(t2, k2)) == post.level_of(t2) + 1 && post.entry(
            t2,
            k2,
        ).0 == post.table_addrs@[post.step(t2, k2)] | 3 by {
            if t2 == t && k2 == k {
                assert(post.step(t2, k2) == n);
                assert(post.level_of(n) == pre.level_of(t) + 1);
            } else {
                assert(pre.is_table_link(t2, k2));
            }
        }
        assert forall|t1: int, k1: int, t2: int, k2: int|
            #![trigger post.step(t1, k1), post.step(t2, k2)]
            post.is_table_link(t1, k1) && post.is_table_link(t2, k2) && post.step(t1, k1)
                == post.step(t2, k2) implies t1 == t2 && k1 == k2 by {
            let new1 = t1 == t && k1 == k;
            let new2 = t2 == t && k2 == k;
            if new1 && !new2 {
                assert(post.step(t2, k2) == pre.step(t2, k2) < n);
                assert(post.step(t1, k1) == n);
            } else if !new1 && new2 {
                assert(post.step(t1, k1) == pre.step(t1, k1) < n);
                assert(post.step(t2, k2) == n);
            } else if !new1 && !new2 {
                assert(pre.step(t1, k1) == pre.step(t2, k2));
            }
        }
    }
    // Complete walks are unchanged.
    assert forall|w: u64, d: int|
        0 <= d <= 3 && pre.walk(w, d) >= 0 implies post.walk(w, d) == pre.walk(w, d) by {
        lemma_create_walk(pre, post, t, k, a_new, w, d);
    }
    // No page resolves differently: a page whose walk completed reads the
    // same final-level entry, and one whose walk was missing now at most
    // reaches the new, still empty table.
    assert forall|w: u64| post.resolve(w) == pre.resolve(w) by {
        lemma_create_walk(pre, post, t, k, a_new, w, 3);
        let t3 = pre.walk(w, 3);
        lemma_level_index_bounds(w, 3);
        if t3 >= 0 {
            lemma_walk_level(pre, w, 3);
            assert(t3 != t);
            assert(post.entry(t3, level_index(w, 3)) == pre.entry(t3, level_index(w, 3)));
        } else {
            if post.walk(w, 3) == n {
                assert(post.entry(n, level_index(w, 3)).0 == 0);
            }
        }
    }
}

} // verus!

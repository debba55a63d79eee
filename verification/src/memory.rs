use vstd::prelude::*;
use bit_field::BitField;

verus! {

/// Whether bit `bit` of `word` is set (bit 0 is the least significant).
pub open spec fn bit_set(word: u64, bit: u64) -> bool {
    word & (1u64 << bit) != 0
}

/// The bits `lo..=hi` of `word`, shifted down to start at bit 0.
pub open spec fn bits_range(word: u64, lo: u64, hi: u64) -> u64 {
    ((word << ((63 - hi) as u64)) >> ((63 - hi) as u64)) >> lo
}

/// `bit_field::BitField::get_bit` on a `u64`: true when bit `bit` is set.
/// It panics for `bit >= 64`, which `requires` leaves out.
#[verifier::external_body]
fn word_bit(word: u64, bit: usize) -> (r: bool)
    requires
        bit < 64,
    ensures
        r == bit_set(word, bit as u64),
{
    word.get_bit(bit)
}

/// `bit_field::BitField::get_bits` on a `u64` with the range `lo..=hi`: the
/// word shifted left to drop the bits above `hi`, back right by the same
/// amount, then right by `lo`. It panics when `hi >= 64` or `lo > hi`, which
/// `requires` leaves out.
#[verifier::external_body]
fn word_bits(word: u64, lo: usize, hi: usize) -> (r: u64)
    requires
        lo <= hi < 64,
    ensures
        r == bits_range(word, lo as u64, hi as u64),
{
    word.get_bits(lo..=hi)
}

} // verus!

verus! {

/// Bit positions of the flags of an x86_64 page-table entry.
pub const PRESENT_BIT: usize = 0;
pub const WRITABLE_BIT: usize = 1;
pub const USER_ACCESSIBLE_BIT: usize = 2;
pub const WRITE_THROUGH_BIT: usize = 3;
pub const NO_CACHE_BIT: usize = 4;
pub const ACCESSED_BIT: usize = 5;
pub const DIRTY_BIT: usize = 6;
pub const HUGE_PAGE_BIT: usize = 7;
pub const GLOBAL_BIT: usize = 8;
pub const NO_EXECUTE_BIT: usize = 63;

/// The physical address held in bits 12..=51 of an entry.
pub open spec fn address_of(entry: u64) -> u64 {
    entry & 0x000f_ffff_ffff_f000u64
}

/// The ten flags that an entry carries (bits 0 to 8 and bit 63) are the
/// same in `a` and in `b`.
pub open spec fn same_flags(a: u64, b: u64) -> bool {
    &&& bit_set(a, 0) == bit_set(b, 0)
    &&& bit_set(a, 1) == bit_set(b, 1)
    &&& bit_set(a, 2) == bit_set(b, 2)
    &&& bit_set(a, 3) == bit_set(b, 3)
    &&& bit_set(a, 4) == bit_set(b, 4)
    &&& bit_set(a, 5) == bit_set(b, 5)
    &&& bit_set(a, 6) == bit_set(b, 6)
    &&& bit_set(a, 7) == bit_set(b, 7)
    &&& bit_set(a, 8) == bit_set(b, 8)
    &&& bit_set(a, 63) == bit_set(b, 63)
}

/// `current` continues the run that `previous` belongs to: both carry the
/// same flags and, when present, `current` maps the frame (4 KiB, or 2 MiB
/// for a huge page) right after the one of `previous`.
pub open spec fn continues(current: u64, previous: u64) -> bool {
    &&& same_flags(current, previous)
    &&& (bit_set(current, 0) ==> if bit_set(current, 7) {
        address_of(current) == address_of(previous) + 0x20_0000
    } else {
        address_of(current) == address_of(previous) + 0x1000
    })
}

/// One 64-bit entry of an x86_64 page table.
pub struct PageTableEntry {
    entry: u64,
}

impl View for PageTableEntry {
    type V = u64;

    closed spec fn view(&self) -> u64 {
        self.entry
    }
}

impl PageTableEntry {
    pub fn from(entry: u64) -> (r: PageTableEntry)
        ensures
            r@ == entry,
    {
        PageTableEntry { entry }
    }

    pub fn as_u64(&self) -> (r: u64)
        ensures
            r == self@,
    {
        self.entry
    }

    pub fn is_present(&self) -> (r: bool)
        ensures
            r == bit_set(self@, 0),
    {
        word_bit(self.entry, PRESENT_BIT)
    }

    pub fn is_writeable(&self) -> (r: bool)
        ensures
            r == bit_set(self@, 1),
    {
        word_bit(self.entry, WRITABLE_BIT)
    }

    pub fn is_user_accessible(&self) -> (r: bool)
        ensures
            r == bit_set(self@, 2),
    {
        word_bit(self.entry, USER_ACCESSIBLE_BIT)
    }

    pub fn is_write_through_caching(&self) -> (r: bool)
        ensures
            r == bit_set(self@, 3),
    {
        word_bit(self.entry, WRITE_THROUGH_BIT)
    }

    pub fn is_disable_cache(&self) -> (r: bool)
        ensures
            r == bit_set(self@, 4),
    {
        word_bit(self.entry, NO_CACHE_BIT)
    }

    pub fn is_accessed(&self) -> (r: bool)
        ensures
            r == bit_set(self@, 5),
    {
        word_bit(self.entry, ACCESSED_BIT)
    }

    pub fn is_dirty(&self) -> (r: bool)
        ensures
            r == bit_set(self@, 6),
    {
        word_bit(self.entry, DIRTY_BIT)
    }

    pub fn is_huge_page(&self) -> (r: bool)
        ensures
            r == bit_set(self@, 7),
    {
        word_bit(self.entry, HUGE_PAGE_BIT)
    }

    pub fn is_global(&self) -> (r: bool)
        ensures
            r == bit_set(self@, 8),
    {
        word_bit(self.entry, GLOBAL_BIT)
    }

    pub fn is_not_executable(&self) -> (r: bool)
        ensures
            r == bit_set(self@, 63),
    {
        word_bit(self.entry, NO_EXECUTE_BIT)
    }

    /// The physical address of the frame or table that the entry points to:
    /// bits 12..=51 of the entry, in place, the other bits cleared.
    pub fn physical_address(&self) -> (r: u64)
        ensures
            r == address_of(self@),
            r % 4096 == 0,
            r < 0x10_0000_0000_0000,
    {
        let bits = word_bits(self.entry, 12, 51);
        let e = self.entry;
        assert((((e << 12u64) >> 12u64) >> 12u64) << 12u64 == e & 0x000f_ffff_ffff_f000u64)
            by (bit_vector);
        assert((e & 0x000f_ffff_ffff_f000u64) % 4096 == 0) by (bit_vector);
        assert((e & 0x000f_ffff_ffff_f000u64) < 0x10_0000_0000_0000u64) by (bit_vector);
        bits << 12
    }

    /// Whether this entry continues the run of `previous` (see `continues`).
    pub fn is_continuation_of(&self, previous: &PageTableEntry) -> (r: bool)
        ensures
            r == continues(self@, previous@),
    {
        if self.is_present() != previous.is_present() || self.is_writeable()
            != previous.is_writeable() || self.is_user_accessible()
            != previous.is_user_accessible() || self.is_write_through_caching()
            != previous.is_write_through_caching() || self.is_disable_cache()
            != previous.is_disable_cache() || self.is_accessed() != previous.is_accessed()
            || self.is_dirty() != previous.is_dirty() || self.is_huge_page()
            != previous.is_huge_page() || self.is_global() != previous.is_global()
            || self.is_not_executable() != previous.is_not_executable() {
            return false;
        }
        if !self.is_present() {
            return true;
        }
        if self.is_huge_page() {
            return self.physical_address() == previous.physical_address() + 0x20_0000;
        } else {
            return self.physical_address() == previous.physical_address() + 0x1000;
        }
    }
}

/// A frame allocator that has no frame to give.
pub struct EmptyFrameAllocator;

impl EmptyFrameAllocator {
    /// Always `None`: there is nothing to allocate.
    pub fn allocate_frame(&mut self) -> (r: Option<u64>)
        ensures
            r is None,
    {
        None
    }
}

} // verus!

verus! {

/// How many bytes of virtual address space one entry of a table at `level`
/// covers (level 1 is the page table, level 4 the top table).
pub open spec fn entry_span(level: u64) -> nat {
    if level == 1 {
        0x1000
    } else if level == 2 {
        0x20_0000
    } else if level == 3 {
        0x4000_0000
    } else {
        0x80_0000_0000
    }
}

/// The table a walk descends into: where its entries map from, where it is
/// stored, and its level.
#[derive(Clone, Copy, Debug, PartialEq, Eq, Structural)]
pub struct TableWalk {
    pub virtual_address: u64,
    pub physical_address: u64,
    pub level: u64,
}

/// What the walker does with one entry.
#[derive(Clone, Copy, Debug, PartialEq, Eq, Structural)]
pub enum EntryReport {
    /// The entry is folded into the current run; `skipped` is the new count
    /// of entries folded since the last one shown.
    Continued { skipped: u32 },
    /// The entry is shown, after a line counting the `skipped` entries
    /// folded before it when there are any; `descend` is the table it points
    /// to when the walk goes on into it.
    Shown { skipped: u32, descend: Option<TableWalk> },
}

/// The entry at `index` is folded into the run of the entry before it: it
/// is neither the first nor the last of its table, it maps a page (level 1,
/// a huge page) or is absent, and it continues `previous`.
pub open spec fn folds_into_run(index: u64, level: u64, entry: u64, previous: u64) -> bool {
    &&& 0 < index < 511
    &&& (level == 1 || !bit_set(entry, 0) || bit_set(entry, 7))
    &&& continues(entry, previous)
}

/// The walk goes down into the table that `entry` points to.
pub open spec fn descends(level: u64, entry: u64) -> bool {
    !bit_set(entry, 7) && bit_set(entry, 0) && level > 1
}

/// What the walker does with the entry at `index` of a table at `level`
/// whose entries map from `virtual_address` on, after `skipped` folded
/// entries.
pub open spec fn entry_report(
    virtual_address: u64,
    entry: u64,
    index: u64,
    level: u64,
    previous: u64,
    skipped: nat,
) -> EntryReport {
    if folds_into_run(index, level, entry, previous) {
        EntryReport::Continued { skipped: (skipped + 1) as u32 }
    } else {
        EntryReport::Shown {
            skipped: skipped as u32,
            descend: if descends(level, entry) {
                Some(
                    TableWalk {
                        virtual_address,
                        physical_address: address_of(entry),
                        level: (level - 1) as u64,
                    },
                )
            } else {
                None
            },
        }
    }
}

/// Decides what to do with one entry of a table at `level` (1 to 4): fold
/// it into the run of the previous entry, or show it (with the count of
/// entries folded before it) and possibly walk into the table it points to.
pub fn describe_page_table_entry_inner(
    virtual_address: u64,
    page_table_entry_u64: u64,
    index: u64,
    level: u64,
    previous_entry: u64,
    nb_continuation: u32,
) -> (r: EntryReport)
    requires
        1 <= level <= 4,
        folds_into_run(index, level, page_table_entry_u64, previous_entry) ==> nb_continuation
            < u32::MAX,
    ensures
        r == entry_report(
            virtual_address,
            page_table_entry_u64,
            index,
            level,
            previous_entry,
            nb_continuation as nat,
        ),
{
    let page_table_entry = PageTableEntry::from(page_table_entry_u64);
    if index > 0 && index < 511 {
        let previous_page_table_entry = PageTableEntry::from(previous_entry);
        if level == 1 || !page_table_entry.is_present() || page_table_entry.is_huge_page() {
            if page_table_entry.is_continuation_of(&previous_page_table_entry) {
                return EntryReport::Continued { skipped: nb_continuation + 1 };
            }
        }
    }
    let descend = if !page_table_entry.is_huge_page() && page_table_entry.is_present() && level
        > 1 {
        Some(
            TableWalk {
                virtual_address,
                physical_address: page_table_entry.physical_address(),
                level: level - 1,
            },
        )
    } else {
        None
    };
    EntryReport::Shown { skipped: nb_continuation, descend }
}

} // verus!

verus! {

/// One line of a table walk: the entry at `index`, the virtual address its
/// region starts at, the physical address of the slot it is stored in, its
/// raw value and what the walker does with it.
#[derive(Clone, Copy, Debug, PartialEq, Eq, Structural)]
pub struct EntryLine {
    pub index: u64,
    pub virtual_address: u64,
    pub slot_address: u64,
    pub entry: u64,
    pub report: EntryReport,
}

/// The entry looked at just before index `i` (0 before the first one).
pub open spec fn previous_of(entries: Seq<u64>, i: nat) -> u64 {
    if i == 0 {
        0
    } else {
        entries[i - 1]
    }
}

/// The number of entries folded in a row just before index `i`.
pub open spec fn skipped_before(entries: Seq<u64>, level: u64, i: nat) -> nat
    decreases i,
{
    if i == 0 {
        0
    } else {
        let j = (i - 1) as nat;
        if folds_into_run(j as u64, level, entries[j as int], previous_of(entries, j)) {
            skipped_before(entries, level, j) + 1
        } else {
            0
        }
    }
}

/// The line that a walk of the table `entries` at `level`, mapping from
/// `virtual_address` and stored at `physical_address`, gives for index `i`.
pub open spec fn entry_line(
    virtual_address: u64,
    physical_address: u64,
    level: u64,
    entries: Seq<u64>,
    i: nat,
) -> EntryLine {
    let entry_va = (virtual_address + i * entry_span(level)) as u64;
    EntryLine {
        index: i as u64,
        virtual_address: entry_va,
        slot_address: (physical_address + i * 8) as u64,
        entry: entries[i as int],
        report: entry_report(
            entry_va,
            entries[i as int],
            i as u64,
            level,
            previous_of(entries, i),
            skipped_before(entries, level, i),
        ),
    }
}

/// No more entries are folded in a row than there are entries before.
pub proof fn lemma_skipped_before_bounded(entries: Seq<u64>, level: u64, i: nat)
    ensures
        skipped_before(entries, level, i) <= i,
    decreases i,
{
    if i > 0 {
        lemma_skipped_before_bounded(entries, level, (i - 1) as nat);
    }
}

/// The span of one entry, computed as the original shift.
fn span_of_level(level: u64) -> (r: u64)
    requires
        1 <= level <= 4,
    ensures
        r == entry_span(level),
{
    let shift: u64 = 12 + 9 * (level - 1);
    let r = 1u64 << shift;
    if level == 1 {
        assert(1u64 << 12u64 == 0x1000u64) by (bit_vector);
    } else if level == 2 {
        assert(1u64 << 21u64 == 0x20_0000u64) by (bit_vector);
    } else if level == 3 {
        assert(1u64 << 30u64 == 0x4000_0000u64) by (bit_vector);
    } else {
        assert(1u64 << 39u64 == 0x80_0000_0000u64) by (bit_vector);
    }
    r
}

/// Walks the 512 entries of one table at `level` (1 to 4), mapping from
/// `virtual_address` and stored at `physical_address`, and gives one line
/// per entry: its addresses and what to do with it. Runs of entries that
/// continue one another are folded; the caller shows the other entries in
/// order and walks into the tables they point to.
pub fn describe_page_table_inner(
    virtual_address: u64,
    physical_address: u64,
    level: u64,
    page_table: &[u64],
) -> (r: Vec<EntryLine>)
    requires
        1 <= level <= 4,
        page_table@.len() == 512,
        virtual_address + 511 * entry_span(level) <= u64::MAX,
        physical_address + 511 * 8 <= u64::MAX,
    ensures
        r@.len() == 512,
        forall|i: int|
            0 <= i < 512 ==> #[trigger] r@[i] == entry_line(
                virtual_address,
                physical_address,
                level,
                page_table@,
                i as nat,
            ),
{
    let virtual_address_offset = span_of_level(level);
    let mut previous_entry: u64 = 0;
    let mut nb_continuation: u32 = 0;
    let mut lines: Vec<EntryLine> = Vec::new();
    let mut ix: u64 = 0;
    while ix < 512
        invariant
            1 <= level <= 4,
            page_table@.len() == 512,
            virtual_address + 511 * entry_span(level) <= u64::MAX,
            physical_address + 511 * 8 <= u64::MAX,
            virtual_address_offset == entry_span(level),
            ix <= 512,
            lines@.len() == ix,
            nb_continuation == skipped_before(page_table@, level, ix as nat),
            previous_entry == previous_of(page_table@, ix as nat),
            forall|j: int|
                0 <= j < ix ==> #[trigger] lines@[j] == entry_line(
                    virtual_address,
                    physical_address,
                    level,
                    page_table@,
                    j as nat,
                ),
        decreases 512 - ix,
    {
        let page_table_entry = page_table[ix as usize];
        proof {
            lemma_skipped_before_bounded(page_table@, level, ix as nat);
            assert(ix * virtual_address_offset <= 511 * virtual_address_offset) by (nonlinear_arith)
                requires
                    ix < 512,
            ;
        }
        let entry_va = virtual_address + ix * virtual_address_offset;
        let slot = physical_address + ix * 8;
        let report = describe_page_table_entry_inner(
            entry_va,
            page_table_entry,
            ix,
            level,
            previous_entry,
            nb_continuation,
        );
        lines.push(
            EntryLine {
                index: ix,
                virtual_address: entry_va,
                slot_address: slot,
                entry: page_table_entry,
                report,
            },
        );
        nb_continuation = match report {
            EntryReport::Continued { skipped } => skipped,
            EntryReport::Shown { .. } => 0,
        };
        previous_entry = page_table_entry;
        ix = ix + 1;
    }
    lines
}

} // verus!

verus! {

/// One past the largest physical address.
pub const MAX_PHYS_ADDR: u64 = 0x10_0000_0000_0000;

/// The start of the 4 KiB frame that holds `addr`.
pub open spec fn frame_start(addr: u64) -> u64 {
    addr & 0xffff_ffff_ffff_f000u64
}

/// `x86_64::structures::paging::PhysFrame::<Size4KiB>::containing_address`
/// of `PhysAddr::new(addr)`, taken by its start address: `addr` with its
/// low 12 bits cleared. `PhysAddr::new` panics when a bit from 52 up is
/// set, which `requires` leaves out.
#[verifier::external_body]
fn containing_frame(addr: u64) -> (r: u64)
    requires
        addr < MAX_PHYS_ADDR,
    ensures
        r == frame_start(addr),
{
    x86_64::structures::paging::PhysFrame::<x86_64::structures::paging::Size4KiB>::containing_address(
        x86_64::PhysAddr::new(addr),
    ).start_address().as_u64()
}

/// The kind of a region of physical memory in the boot memory map.
#[derive(Clone, Copy, Debug, PartialEq, Eq, Structural)]
pub enum MemoryRegionType {
    Usable,
    InUse,
    Reserved,
    AcpiReclaimable,
    AcpiNvs,
    BadMemory,
    Kernel,
    KernelStack,
    PageTable,
    Bootloader,
    FrameZero,
    Empty,
    BootInfo,
    Package,
    NonExhaustive,
}

/// One region of the boot memory map: the 4 KiB frames numbered
/// `start_frame_number` up to (not including) `end_frame_number`.
#[derive(Clone, Copy, Debug, PartialEq, Eq, Structural)]
pub struct MemoryRegion {
    pub start_frame_number: u64,
    pub end_frame_number: u64,
    pub region_type: MemoryRegionType,
}

/// Room for this many regions in a memory map.
pub const MAX_MEMORY_MAP_SIZE: usize = 64;

/// The boot memory map: the first `next_entry_index` of `entries` are its
/// regions.
#[derive(Clone, Copy, Debug)]
pub struct MemoryMap {
    pub entries: [MemoryRegion; MAX_MEMORY_MAP_SIZE],
    pub next_entry_index: u64,
}

impl View for MemoryMap {
    type V = Seq<MemoryRegion>;

    open spec fn view(&self) -> Seq<MemoryRegion> {
        self.entries@.take(self.next_entry_index as int)
    }
}

impl MemoryMap {
    /// The count of regions is within the room for them.
    pub open spec fn wf(&self) -> bool {
        self.next_entry_index <= MAX_MEMORY_MAP_SIZE
    }

    /// Whether every frame of every usable region has a valid physical
    /// address (see `regions_fit`).
    pub fn frames_fit(&self) -> (r: bool)
        requires
            self.wf(),
        ensures
            r == regions_fit(self@),
    {
        broadcast use vstd::array::group_array_axioms;

        let len = self.next_entry_index as usize;
        let mut i: usize = 0;
        while i < len
            invariant
                len == self@.len(),
                self.wf(),
                i <= len,
                forall|j: int|
                    0 <= j < i && (#[trigger] self@[j]).region_type is Usable ==> {
                        &&& self@[j].start_frame_number * 4096 <= MAX_PHYS_ADDR
                        &&& self@[j].end_frame_number * 4096 <= MAX_PHYS_ADDR
                    },
            decreases len - i,
        {
            let region = self.entries[i];
            assert(region == self@[i as int]);
            let usable = match region.region_type {
                MemoryRegionType::Usable => true,
                _ => false,
            };
            if usable && (region.start_frame_number > MAX_PHYS_ADDR / 4096
                || region.end_frame_number > MAX_PHYS_ADDR / 4096) {
                return false;
            }
            i = i + 1;
        }
        true
    }
}

/// Every frame of a usable region is a valid physical address: below
/// 2^52, the width of x86_64 physical addresses.
pub open spec fn regions_fit(regions: Seq<MemoryRegion>) -> bool {
    forall|i: int|
        0 <= i < regions.len() && (#[trigger] regions[i]).region_type is Usable ==> {
            &&& regions[i].start_frame_number * 4096 <= MAX_PHYS_ADDR
            &&& regions[i].end_frame_number * 4096 <= MAX_PHYS_ADDR
        }
}

/// The start addresses of the frames a region offers: those of its frames
/// when it is usable, none otherwise.
pub open spec fn region_frames(r: MemoryRegion) -> Seq<u64> {
    if r.region_type is Usable && r.start_frame_number < r.end_frame_number {
        Seq::new(
            (r.end_frame_number - r.start_frame_number) as nat,
            |k: int| ((r.start_frame_number + k) * 4096) as u64,
        )
    } else {
        Seq::empty()
    }
}

/// The usable frames of a memory map, region after region, in order.
pub open spec fn usable_frames(regions: Seq<MemoryRegion>) -> Seq<u64>
    decreases regions.len(),
{
    if regions.len() == 0 {
        Seq::empty()
    } else {
        usable_frames(regions.drop_last()) + region_frames(regions.last())
    }
}

/// The regions are in increasing order of address and do not overlap.
pub open spec fn regions_sorted(regions: Seq<MemoryRegion>) -> bool {
    forall|i: int, j: int|
        0 <= i < j < regions.len() ==> (#[trigger] regions[i]).end_frame_number
            <= (#[trigger] regions[j]).start_frame_number
}

proof fn lemma_usable_frames_take_step(regions: Seq<MemoryRegion>, j: int)
    requires
        0 <= j < regions.len(),
    ensures
        usable_frames(regions.take(j + 1)) == usable_frames(regions.take(j)) + region_frames(
            regions[j],
        ),
{
    assert(regions.take(j + 1).drop_last() =~= regions.take(j));
}

proof fn lemma_usable_frames_prefix(regions: Seq<MemoryRegion>, j: int)
    requires
        0 <= j <= regions.len(),
    ensures
        usable_frames(regions.take(j)).len() <= usable_frames(regions).len(),
        forall|k: int|
            0 <= k < usable_frames(regions.take(j)).len() ==> usable_frames(regions)[k]
                == #[trigger] usable_frames(regions.take(j))[k],
    decreases regions.len() - j,
{
    if j == regions.len() {
        assert(regions.take(j) =~= regions);
    } else {
        lemma_usable_frames_prefix(regions, j + 1);
        lemma_usable_frames_take_step(regions, j);
        let short = usable_frames(regions.take(j));
        let long = usable_frames(regions.take(j + 1));
        assert forall|k: int| 0 <= k < short.len() implies usable_frames(regions)[k]
            == #[trigger] short[k] by {
            assert(long[k] == short[k]);
        }
    }
}

/// The frame at position `n` of the usable frames of `regions`, if there is
/// one.
fn nth_usable_frame(regions: &MemoryMap, n: usize) -> (r: Option<u64>)
    requires
        regions.wf(),
        regions_fit(regions@),
    ensures
        r == if n < usable_frames(regions@).len() {
            Some(usable_frames(regions@)[n as int])
        } else {
            None::<u64>
        },
{
    let mut i: usize = 0;
    let mut remaining: usize = n;
    let len = regions.next_entry_index as usize;
    proof {
        broadcast use vstd::array::group_array_axioms;
        assert(regions@.len() == len);
    }
    while i < len
        invariant
            len == regions@.len(),
            regions.wf(),
            regions_fit(regions@),
            i <= regions@.len(),
            usable_frames(regions@.take(i as int)).len() <= n,
            remaining == n - usable_frames(regions@.take(i as int)).len(),
        decreases regions@.len() - i,
    {
        let region = regions.entries[i];
        proof {
            broadcast use vstd::array::group_array_axioms;
            assert(region == regions@[i as int]);
            lemma_usable_frames_take_step(regions@, i as int);
        }
        let usable = match region.region_type {
            MemoryRegionType::Usable => true,
            _ => false,
        };
        if usable && region.start_frame_number < region.end_frame_number {
            let count = region.end_frame_number - region.start_frame_number;
            if (remaining as u64) < count {
                let frame_number = region.start_frame_number + remaining as u64;
                proof {
                    assert(regions@[i as int].region_type is Usable);
                    let e = region.end_frame_number;
                    assert(frame_number * 4096 < e * 4096) by (nonlinear_arith)
                        requires
                            frame_number < e,
                    ;
                    lemma_usable_frames_prefix(regions@, i + 1);
                    assert(usable_frames(regions@.take(i + 1))[n as int]
                        == region_frames(region)[remaining as int]);
                }
                let addr = frame_number * 4096;
                proof {
                    assert(addr % 4096 == 0) by (nonlinear_arith)
                        requires
                            addr == frame_number * 4096,
                    ;
                    assert(addr % 4096 == 0 ==> addr & 0xffff_ffff_ffff_f000u64 == addr)
                        by (bit_vector);
                }
                return Some(containing_frame(addr));
            }
            remaining = remaining - count as usize;
        }
        i = i + 1;
    }
    proof {
        assert(regions@.take(i as int) =~= regions@);
    }
    None
}

/// A frame allocator that hands out the usable frames of the boot memory
/// map one after the other.
pub struct BootInfoFrameAllocator {
    memory_map: MemoryMap,
    next: usize,
}

impl BootInfoFrameAllocator {
    /// The memory map the frames come from.
    pub closed spec fn regions(&self) -> Seq<MemoryRegion> {
        self.memory_map@
    }

    /// How many frames have been asked for so far.
    pub closed spec fn next_index(&self) -> nat {
        self.next as nat
    }

    /// The memory map holds no more regions than it has room for.
    pub closed spec fn wf(&self) -> bool {
        self.memory_map.wf()
    }

    pub fn init(memory_map: MemoryMap) -> (r: BootInfoFrameAllocator)
        requires
            memory_map.wf(),
        ensures
            r.wf(),
            r.regions() == memory_map@,
            r.next_index() == 0,
    {
        BootInfoFrameAllocator { memory_map, next: 0 }
    }

    /// How many frames have been asked for so far.
    pub fn requests(&self) -> (r: usize)
        ensures
            r == self.next_index(),
    {
        self.next
    }

    /// The usable frame at position `n`, counted over the whole map.
    pub fn usable_frame_at(&self, n: usize) -> (r: Option<u64>)
        requires
            self.wf(),
            regions_fit(self.regions()),
        ensures
            r == if n < usable_frames(self.regions()).len() {
                Some(usable_frames(self.regions())[n as int])
            } else {
                None::<u64>
            },
    {
        nth_usable_frame(&self.memory_map, n)
    }

    /// Hands out the next usable frame, or `None` once they are used up;
    /// the count of requests goes up either way.
    pub fn allocate_frame(&mut self) -> (r: Option<u64>)
        requires
            old(self).wf(),
            regions_fit(old(self).regions()),
            old(self).next_index() < usize::MAX,
        ensures
            final(self).wf(),
            final(self).regions() == old(self).regions(),
            final(self).next_index() == old(self).next_index() + 1,
            r == if old(self).next_index() < usable_frames(old(self).regions()).len() {
                Some(usable_frames(old(self).regions())[old(self).next_index() as int])
            } else {
                None::<u64>
            },
    {
        let frame = nth_usable_frame(&self.memory_map, self.next);
        self.next = self.next + 1;
        frame
    }
}

} // verus!

verus! {

/// Dropping the last region keeps the frames of a map valid.
proof fn lemma_regions_fit_drop_last(regions: Seq<MemoryRegion>)
    requires
        regions_fit(regions),
        regions.len() > 0,
    ensures
        regions_fit(regions.drop_last()),
{
    let rest = regions.drop_last();
    assert forall|i: int|
        0 <= i < rest.len() && (#[trigger] rest[i]).region_type is Usable implies {
        &&& rest[i].start_frame_number * 4096 <= MAX_PHYS_ADDR
        &&& rest[i].end_frame_number * 4096 <= MAX_PHYS_ADDR
    } by {
        assert(rest[i] == regions[i]);
    }
}

/// The frame at position `k` of a region is the start of its `k`-th
/// frame: aligned, inside the region, and before its later frames.
proof fn lemma_region_frame(r: MemoryRegion, k: int)
    requires
        0 <= k < region_frames(r).len(),
        r.end_frame_number * 4096 <= MAX_PHYS_ADDR,
    ensures
        r.region_type is Usable,
        region_frames(r)[k] == (r.start_frame_number + k) * 4096,
        region_frames(r)[k] % 4096 == 0,
        r.start_frame_number * 4096 <= region_frames(r)[k] < r.end_frame_number * 4096,
        forall|k2: int|
            k < k2 < region_frames(r).len() ==> region_frames(r)[k] < #[trigger] region_frames(
                r,
            )[k2],
{
    let s = r.start_frame_number;
    let e = r.end_frame_number;
    let f = s + k;
    assert(s * 4096 <= f * 4096 < e * 4096) by (nonlinear_arith)
        requires
            s <= f < e,
    ;
    assert((f * 4096) % 4096 == 0) by (nonlinear_arith);
    assert forall|k2: int| k < k2 < region_frames(r).len() implies region_frames(r)[k]
        < #[trigger] region_frames(r)[k2] by {
        assert(f * 4096 < (s + k2) * 4096 <= e * 4096) by (nonlinear_arith)
            requires
                f < s + k2 <= e,
        ;
    }
}

/// Every frame the allocator can hand out is the 4 KiB-aligned start of a
/// frame inside a usable region of the memory map.
pub proof fn lemma_usable_frame_in_usable_region(regions: Seq<MemoryRegion>, k: int)
    requires
        regions_fit(regions),
        0 <= k < usable_frames(regions).len(),
    ensures
        usable_frames(regions)[k] % 4096 == 0,
        exists|i: int|
            0 <= i < regions.len() && (#[trigger] regions[i]).region_type is Usable
                && regions[i].start_frame_number * 4096 <= usable_frames(regions)[k]
                < regions[i].end_frame_number * 4096,
    decreases regions.len(),
{
    let rest = regions.drop_last();
    let li = regions.len() - 1;
    lemma_regions_fit_drop_last(regions);
    if k < usable_frames(rest).len() {
        lemma_usable_frame_in_usable_region(rest, k);
        let i = choose|i: int|
            0 <= i < rest.len() && (#[trigger] rest[i]).region_type is Usable
                && rest[i].start_frame_number * 4096 <= usable_frames(rest)[k]
                < rest[i].end_frame_number * 4096;
        assert(regions[i] == rest[i]);
    } else {
        assert(regions[li] == regions.last());
        lemma_region_frame(regions.last(), k - usable_frames(rest).len());
    }
}

/// Two positions of the usable frames, the first before the last region's
/// frames and the second among them: the first frame lies in an earlier
/// usable region, the second in the last region.
proof fn lemma_frames_across_last(regions: Seq<MemoryRegion>, a: int, b: int)
    requires
        regions_fit(regions),
        regions.len() > 0,
        0 <= a < usable_frames(regions.drop_last()).len() <= b < usable_frames(regions).len(),
    ensures
        exists|i: int|
            0 <= i < regions.len() - 1 && (#[trigger] regions[i]).region_type is Usable
                && regions[i].start_frame_number * 4096 <= usable_frames(regions)[a]
                < regions[i].end_frame_number * 4096,
        regions[regions.len() - 1].region_type is Usable,
        regions[regions.len() - 1].start_frame_number * 4096 <= usable_frames(regions)[b]
            < regions[regions.len() - 1].end_frame_number * 4096,
{
    let rest = regions.drop_last();
    let li = regions.len() - 1;
    lemma_regions_fit_drop_last(regions);
    lemma_usable_frame_in_usable_region(rest, a);
    let i = choose|i: int|
        0 <= i < rest.len() && (#[trigger] rest[i]).region_type is Usable
            && rest[i].start_frame_number * 4096 <= usable_frames(rest)[a]
            < rest[i].end_frame_number * 4096;
    assert(regions[i] == rest[i]);
    assert(regions[li] == regions.last());
    lemma_region_frame(regions.last(), b - usable_frames(rest).len());
}

/// On a sorted memory map the usable frames come in strictly increasing
/// order.
pub proof fn lemma_usable_frames_increasing(regions: Seq<MemoryRegion>)
    requires
        regions_fit(regions),
        regions_sorted(regions),
    ensures
        forall|a: int, b: int|
            0 <= a < b < usable_frames(regions).len() ==> #[trigger] usable_frames(regions)[a]
                < #[trigger] usable_frames(regions)[b],
    decreases regions.len(),
{
    if regions.len() > 0 {
        let rest = regions.drop_last();
        let li = regions.len() - 1;
        lemma_regions_fit_drop_last(regions);
        assert forall|i: int, j: int| 0 <= i < j < rest.len() implies (#[trigger] rest[i]).end_frame_number
            <= (#[trigger] rest[j]).start_frame_number by {
            assert(rest[i] == regions[i]);
            assert(rest[j] == regions[j]);
        }
        lemma_usable_frames_increasing(rest);
        let fs = usable_frames(regions);
        let fr = usable_frames(rest);
        assert forall|a: int, b: int| 0 <= a < b < fs.len() implies #[trigger] fs[a]
            < #[trigger] fs[b] by {
            if b < fr.len() {
                assert(fs[a] == fr[a] && fs[b] == fr[b]);
            } else if a >= fr.len() {
                assert(regions[li] == regions.last());
                lemma_region_frame(regions.last(), a - fr.len());
            } else {
                lemma_frames_across_last(regions, a, b);
                let i = choose|i: int|
                    0 <= i < regions.len() - 1 && (#[trigger] regions[i]).region_type is Usable
                        && regions[i].start_frame_number * 4096 <= fs[a]
                        < regions[i].end_frame_number * 4096;
                let ei = regions[i].end_frame_number;
                let sl = regions[li].start_frame_number;
                assert(ei <= sl);
                assert(ei * 4096 <= sl * 4096) by (nonlinear_arith)
                    requires
                        ei <= sl,
                ;
            }
        }
    }
}

/// No two usable regions share a frame.
pub open spec fn usable_regions_disjoint(regions: Seq<MemoryRegion>) -> bool {
    forall|i: int, j: int|
        0 <= i < j < regions.len() && (#[trigger] regions[i]).region_type is Usable && (
        #[trigger] regions[j]).region_type is Usable ==> regions[i].end_frame_number
            <= regions[j].start_frame_number || regions[j].end_frame_number
            <= regions[i].start_frame_number
}

/// When no two usable regions share a frame, the usable frames are all
/// different, so the allocator never hands out the same frame twice,
/// whatever order the regions come in.
pub proof fn lemma_usable_frames_distinct(regions: Seq<MemoryRegion>)
    requires
        regions_fit(regions),
        usable_regions_disjoint(regions),
    ensures
        forall|a: int, b: int|
            0 <= a < b < usable_frames(regions).len() ==> #[trigger] usable_frames(regions)[a]
                != #[trigger] usable_frames(regions)[b],
    decreases regions.len(),
{
    if regions.len() > 0 {
        let rest = regions.drop_last();
        let li = regions.len() - 1;
        lemma_regions_fit_drop_last(regions);
        assert forall|i: int, j: int|
            0 <= i < j < rest.len() && (#[trigger] rest[i]).region_type is Usable && (
            #[trigger] rest[j]).region_type is Usable implies rest[i].end_frame_number
            <= rest[j].start_frame_number || rest[j].end_frame_number
            <= rest[i].start_frame_number by {
            assert(rest[i] == regions[i]);
            assert(rest[j] == regions[j]);
        }
        lemma_usable_frames_distinct(rest);
        let fs = usable_frames(regions);
        let fr = usable_frames(rest);
        assert forall|a: int, b: int| 0 <= a < b < fs.len() implies #[trigger] fs[a]
            != #[trigger] fs[b] by {
            if b < fr.len() {
                assert(fs[a] == fr[a] && fs[b] == fr[b]);
            } else if a >= fr.len() {
                assert(regions[li] == regions.last());
                lemma_region_frame(regions.last(), a - fr.len());
            } else {
                lemma_frames_across_last(regions, a, b);
                let i = choose|i: int|
                    0 <= i < regions.len() - 1 && (#[trigger] regions[i]).region_type is Usable
                        && regions[i].start_frame_number * 4096 <= fs[a]
                        < regions[i].end_frame_number * 4096;
                let si = regions[i].start_frame_number;
                let ei = regions[i].end_frame_number;
                let sl = regions[li].start_frame_number;
                let el = regions[li].end_frame_number;
                if ei <= sl {
                    assert(ei * 4096 <= sl * 4096) by (nonlinear_arith)
                        requires
                            ei <= sl,
                    ;
                } else {
                    assert(el <= si);
                    assert(el * 4096 <= si * 4096) by (nonlinear_arith)
                        requires
                            el <= si,
                    ;
                }
            }
        }
    }
}

} // verus!

verus! {

/// The indentation in front of the line of an entry of a table at `level`:
/// two spaces per level below the top table.
pub fn indent_for_level(level: u64) -> (r: &'static str)
    requires
        1 <= level <= 4,
    ensures
        r@.len() == 2 * (4 - level),
        forall|i: int| 0 <= i < r@.len() ==> r@[i] == ' ',
{
    if level == 4 {
        proof {
            reveal_strlit("");
        }
        ""
    } else if level == 3 {
        proof {
            reveal_strlit("  ");
        }
        "  "
    } else if level == 2 {
        proof {
            reveal_strlit("    ");
        }
        "    "
    } else {
        proof {
            reveal_strlit("      ");
        }
        "      "
    }
}

} // verus!

verus! {

/// How many entries a line accounts for: a shown entry counts itself and
/// the entries folded just before it, a folded entry counts nothing (the
/// next shown entry counts it).
pub open spec fn entries_accounted(report: EntryReport) -> nat {
    match report {
        EntryReport::Continued { .. } => 0,
        EntryReport::Shown { skipped, .. } => (skipped + 1) as nat,
    }
}

/// The entries accounted for by the lines of indexes `0..i` of a walk.
pub open spec fn accounted_before(
    virtual_address: u64,
    physical_address: u64,
    level: u64,
    entries: Seq<u64>,
    i: nat,
) -> nat
    decreases i,
{
    if i == 0 {
        0
    } else {
        accounted_before(virtual_address, physical_address, level, entries, (i - 1) as nat)
            + entries_accounted(
            entry_line(virtual_address, physical_address, level, entries, (i - 1) as nat).report,
        )
    }
}

proof fn lemma_accounted_prefix(
    virtual_address: u64,
    physical_address: u64,
    level: u64,
    entries: Seq<u64>,
    i: nat,
)
    requires
        i <= entries.len(),
        entries.len() == 512,
    ensures
        accounted_before(virtual_address, physical_address, level, entries, i)
            + skipped_before(entries, level, i) == i,
    decreases i,
{
    if i > 0 {
        let j = (i - 1) as nat;
        lemma_accounted_prefix(virtual_address, physical_address, level, entries, j);
        lemma_skipped_before_bounded(entries, level, j);
    }
}

/// A table walk loses no entry and counts none twice: the shown entries
/// together with the runs folded before them account for all 512 entries
/// of the table, as the last entry is always shown.
pub proof fn lemma_walk_accounts_for_every_entry(
    virtual_address: u64,
    physical_address: u64,
    level: u64,
    entries: Seq<u64>,
)
    requires
        entries.len() == 512,
    ensures
        accounted_before(virtual_address, physical_address, level, entries, 512) == 512,
{
    lemma_accounted_prefix(virtual_address, physical_address, level, entries, 512);
    assert(!folds_into_run(511u64, level, entries[511], previous_of(entries, 511)));
}

} // verus!



verus! {

/// One step of listing a table, in the order it is done: a line counting
/// folded entries, the line of a shown entry, or going down into a table
/// (which is listed whole before the steps after it).
#[derive(Clone, Copy, Debug, PartialEq, Eq, Structural)]
pub enum WalkAction {
    ShowSkipped(u32),
    Show(EntryLine),
    Descend(TableWalk),
}

/// The steps for one line of a walk: nothing for a folded entry; for a
/// shown one, the count of entries folded before it (when there are any),
/// its own line, then the table it points to, if the walk goes down.
pub open spec fn line_actions(line: EntryLine) -> Seq<WalkAction> {
    match line.report {
        EntryReport::Continued { .. } => Seq::empty(),
        EntryReport::Shown { skipped, descend } => (if skipped > 0 {
            seq![WalkAction::ShowSkipped(skipped)]
        } else {
            Seq::empty()
        }) + seq![WalkAction::Show(line)] + match descend {
            Some(t) => seq![WalkAction::Descend(t)],
            None => Seq::empty(),
        },
    }
}

/// The steps for the lines of a table walk, line after line.
pub open spec fn walk_actions(lines: Seq<EntryLine>) -> Seq<WalkAction>
    decreases lines.len(),
{
    if lines.len() == 0 {
        Seq::empty()
    } else {
        walk_actions(lines.drop_last()) + line_actions(lines.last())
    }
}

/// The steps that list a table, from the lines its walk gave, in order.
pub fn table_actions(lines: &Vec<EntryLine>) -> (r: Vec<WalkAction>)
    ensures
        r@ == walk_actions(lines@),
{
    let mut actions: Vec<WalkAction> = Vec::new();
    let mut i: usize = 0;
    while i < lines.len()
        invariant
            i <= lines@.len(),
            actions@ == walk_actions(lines@.take(i as int)),
        decreases lines@.len() - i,
    {
        let line = lines[i];
        proof {
            assert(lines@.take(i + 1).drop_last() =~= lines@.take(i as int));
            assert(lines@.take(i + 1).last() == line);
        }
        let ghost before = actions@;
        match line.report {
            EntryReport::Continued { .. } => {
                assert(line_actions(line) =~= Seq::<WalkAction>::empty());
            },
            EntryReport::Shown { skipped, descend } => {
                if skipped > 0 {
                    actions.push(WalkAction::ShowSkipped(skipped));
                }
                actions.push(WalkAction::Show(line));
                match descend {
                    Some(t) => {
                        actions.push(WalkAction::Descend(t));
                    },
                    None => {},
                }
                assert(actions@ =~= before + line_actions(line));
            },
        }
        i = i + 1;
    }
    proof {
        assert(lines@.take(i as int) =~= lines@);
    }
    actions
}

} // verus!

verus! {

/// One entry of a level-1 table covers a 4 KiB page, and each level up
/// covers 512 times as much: an entry of a table at `level` spans
/// `1 << (12 + 9 * (level - 1))` bytes.
pub proof fn lemma_entry_span_per_level(level: u64)
    requires
        1 <= level <= 4,
    ensures
        level == 1 ==> entry_span(level) == 4096,
        level > 1 ==> entry_span(level) == 512 * entry_span((level - 1) as u64),
        entry_span(level) == (1u64 << ((12 + 9 * (level - 1)) as u64)),
{
    if level == 1 {
        assert(1u64 << 12u64 == 4096u64) by (bit_vector);
    } else if level == 2 {
        assert(1u64 << 21u64 == 0x20_0000u64) by (bit_vector);
    } else if level == 3 {
        assert(1u64 << 30u64 == 0x4000_0000u64) by (bit_vector);
    } else {
        assert(1u64 << 39u64 == 0x80_0000_0000u64) by (bit_vector);
    }
}

/// The line a walk gives for entry `i` names that entry: its index, its
/// raw value, the slot it is stored in (8 bytes per entry from the table's
/// start) and the virtual address it maps from (the table's own plus `i`
/// times `1 << (12 + 9 * (level - 1))`).
pub proof fn lemma_walk_line_addresses(
    virtual_address: u64,
    physical_address: u64,
    level: u64,
    entries: Seq<u64>,
    i: nat,
)
    requires
        1 <= level <= 4,
        entries.len() == 512,
        i < 512,
        virtual_address + 511 * (1u64 << ((12 + 9 * (level - 1)) as u64)) <= u64::MAX,
        physical_address + 511 * 8 <= u64::MAX,
    ensures
        ({
            let line = entry_line(virtual_address, physical_address, level, entries, i);
            &&& line.index == i
            &&& line.entry == entries[i as int]
            &&& line.slot_address == physical_address + 8 * i
            &&& line.virtual_address == virtual_address + i * (1u64 << ((12 + 9 * (level
                - 1)) as u64))
        }),
{
    lemma_entry_span_per_level(level);
    let span = entry_span(level);
    assert(i * span <= 511 * span) by (nonlinear_arith)
        requires
            i < 512,
    ;
}

/// Below the page-table level, an entry that is present and not a huge
/// page is never folded into a run: it is shown, after the count of the
/// entries folded before it, and the walk goes down into the table it
/// points to, one level lower, mapping from the entry's own virtual
/// address. Only level-1 entries, absent entries and huge pages are not
/// walked into.
pub proof fn lemma_present_directory_entry_is_walked_into(
    virtual_address: u64,
    entry: u64,
    index: u64,
    level: u64,
    previous: u64,
    skipped: nat,
)
    requires
        1 <= level <= 4,
    ensures
        (2 <= level && bit_set(entry, 0) && !bit_set(entry, 7)) ==> entry_report(
            virtual_address,
            entry,
            index,
            level,
            previous,
            skipped,
        ) == (EntryReport::Shown {
            skipped: skipped as u32,
            descend: Some(
                TableWalk {
                    virtual_address,
                    physical_address: entry & 0x000f_ffff_ffff_f000u64,
                    level: (level - 1) as u64,
                },
            ),
        }),
        (level == 1 || !bit_set(entry, 0) || bit_set(entry, 7)) ==> match entry_report(
            virtual_address,
            entry,
            index,
            level,
            previous,
            skipped,
        ) {
            EntryReport::Shown { descend, .. } => descend is None,
            EntryReport::Continued { .. } => true,
        },
{
}

} // verus!

verus! {

/// A flag bit is set exactly when the word shifted down by its position
/// is odd, and the physical address of an entry is the entry's value below
/// 2^52 with its low 12 bits cleared.
pub proof fn lemma_entry_bits(entry: u64, bit: u64)
    requires
        bit < 64,
    ensures
        bit_set(entry, bit) <==> (entry >> bit) % 2 == 1,
        address_of(entry) == entry % 0x10_0000_0000_0000 - entry % 4096,
{
    assert(entry & (1u64 << bit) != 0 <==> (entry >> bit) % 2 == 1) by (bit_vector)
        requires
            bit < 64,
    ;
    assert(entry & 0x000f_ffff_ffff_f000u64 == entry % 0x10_0000_0000_0000u64 - entry % 4096)
        by (bit_vector);
}

/// The first and the last entry of a table are never folded into a run,
/// and an entry that continues the one before, anywhere in between, is
/// folded when it maps a page (level 1 or a huge page) or is absent.
pub proof fn lemma_fold_positions(index: u64, level: u64, entry: u64, previous: u64)
    ensures
        (index == 0 || index >= 511) ==> !folds_into_run(index, level, entry, previous),
        (0 < index < 511 && (level == 1 || !bit_set(entry, 0) || bit_set(entry, 7))
            && continues(entry, previous)) ==> folds_into_run(index, level, entry, previous),
{
}

} // verus!

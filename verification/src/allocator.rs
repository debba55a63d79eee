use vstd::prelude::*;

verus! {

/// Where the kernel heap starts in virtual memory.
pub const HEAP_START_VIRT: u64 = 0x4444_0000_0000;

/// Size of a page.
pub const PAGE_SIZE: u64 = 4096;

/// The start of the 4 KiB page that holds `addr`.
pub open spec fn page_start(addr: u64) -> u64 {
    (addr - addr % 4096) as u64
}

/// `x86_64::structures::paging::Page::<Size4KiB>::containing_address` of
/// `VirtAddr::new(addr)`, taken by its start address: `addr` with its low
/// 12 bits cleared. `VirtAddr::new` panics on an address whose bits 48 to
/// 63 are not a sign extension, and sign-extends one with bit 47 set;
/// `requires` keeps to the lower half, where neither happens.
#[verifier::external_body]
fn page_containing(addr: u64) -> (r: u64)
    requires
        addr < 0x8000_0000_0000,
    ensures
        r == addr & 0xffff_ffff_ffff_f000u64,
{
    x86_64::structures::paging::Page::<x86_64::structures::paging::Size4KiB>::containing_address(
        x86_64::VirtAddr::new(addr),
    ).start_address().as_u64()
}

fn containing_page(addr: u64) -> (r: u64)
    requires
        addr < 0x8000_0000_0000,
    ensures
        r == page_start(addr),
{
    let r = page_containing(addr);
    assert(addr & 0xffff_ffff_ffff_f000u64 == addr - addr % 4096) by (bit_vector);
    r
}

/// The first and the last page of a heap of `heap_size` bytes at
/// `HEAP_START_VIRT`, by their start addresses. For an empty heap the last
/// page comes before the first and the range is empty.
pub fn heap_page_range(heap_size: usize) -> (r: (u64, u64))
    requires
        HEAP_START_VIRT + heap_size <= 0x8000_0000_0000,
    ensures
        r.0 == page_start(HEAP_START_VIRT),
        r.1 == page_start((HEAP_START_VIRT + heap_size - 1) as u64),
        r.0 == HEAP_START_VIRT,
        heap_size > 0 ==> r.0 <= r.1 && r.1 < HEAP_START_VIRT + heap_size <= r.1 + PAGE_SIZE,
        heap_size == 0 ==> r.1 + PAGE_SIZE == r.0,
{
    let heap_start = HEAP_START_VIRT;
    let heap_end = heap_start + heap_size as u64 - 1;
    let first = containing_page(heap_start);
    let last = containing_page(heap_end);
    (first, last)
}

} // verus!

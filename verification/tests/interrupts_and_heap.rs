use blog_os_verified::allocator::{heap_page_range, HEAP_START_VIRT, PAGE_SIZE};
use blog_os_verified::interrupts::{InterruptIndex, PIC_1_OFFSET, PIC_2_OFFSET};

#[test]
fn interrupt_lines_follow_the_primary_offset() {
    assert_eq!(InterruptIndex::Timer.as_u8(), 32);
    assert_eq!(InterruptIndex::Keyboard.as_u8(), 33);
    assert_eq!(InterruptIndex::Timer.as_usize(), 32);
    assert_eq!(InterruptIndex::Keyboard.as_usize(), 33);
    assert_eq!(PIC_1_OFFSET, 32);
    assert_eq!(PIC_2_OFFSET, 40);
}

#[test]
fn heap_of_256_kib_takes_64_pages() {
    let (first, last) = heap_page_range(256 * 1024);
    assert_eq!(first, HEAP_START_VIRT);
    assert_eq!(last, HEAP_START_VIRT + 63 * PAGE_SIZE);
}

#[test]
fn heap_page_range_edges() {
    assert_eq!(heap_page_range(1), (HEAP_START_VIRT, HEAP_START_VIRT));
    assert_eq!(heap_page_range(4095), (HEAP_START_VIRT, HEAP_START_VIRT));
    assert_eq!(heap_page_range(4096), (HEAP_START_VIRT, HEAP_START_VIRT));
    assert_eq!(heap_page_range(4097), (HEAP_START_VIRT, HEAP_START_VIRT + 4096));
    let (first, last) = heap_page_range(0);
    assert_eq!(first, HEAP_START_VIRT);
    assert_eq!(last + PAGE_SIZE, first);
}

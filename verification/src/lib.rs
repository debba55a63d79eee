//! A verified model of the kernel's pure logic: page-table entries and the
//! page-table walker's decisions, physical frame allocation from the boot
//! memory map, the VGA text writer, colour codes and interrupt numbering.

pub mod memory;
pub mod vga_buffer;
pub mod interrupts;
pub mod allocator;

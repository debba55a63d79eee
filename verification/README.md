# blog_os_verified

The logic of a small x86_64 hobby kernel, proved with Verus.

- `src/memory.rs`: page-table entries (flags, physical address, when one
  entry continues another), the page-table walker's per-entry decisions and
  per-table pass, the boot memory map and the frame allocator that hands
  out its usable frames.
- `src/vga_buffer.rs`: colours, colour codes and the VGA text writer, over
  a model of the 80x25 screen.
- `src/interrupts.rs`: interrupt numbering of the two interrupt controllers,
  and the keyboard interrupt's use of pc-keyboard's scancode decoder (what
  is proved of it: a release code never gives a key; which key a press
  gives is the decoder's own).
- `src/allocator.rs`: the pages of the kernel heap.
- `app/`: the kernel itself (boot, descriptor tables, interrupt handlers,
  serial port, the real screen memory, mapping the heap), which calls the
  library and does the hardware work.

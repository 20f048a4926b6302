# KizunaOS library

The decisions and computations of a small AArch64 kernel for the QEMU
`virt` machine, verified with Verus.

- `src/heap.rs`: the size-class free-list allocator over the 1 MiB arena.
  Its type invariant keeps the regions handed out or held free pairwise
  disjoint and inside the arena, and the counters in step with them.  The
  proved laws include: every call keeps the invariant and the arena base;
  over any sequence of calls each bin's free list behaves as a stack, so a
  freed chunk is handed out by the next request of its bin when no call of
  that bin came in between; a freed region without a bin is never handed
  out again; a failed request changes nothing; every result is aligned to
  its request.
- `src/serial.rs`: text as sent on the serial line (`\n` as `\r\n`) and
  64-bit values as `0x` and sixteen hex digits.
- `src/monitor.rs`: hex numbers, splitting a line into whitespace-separated
  words, the monitor commands, and the line editor that turns received bytes
  into actions.
- `src/trap.rs`: the trap frame, exception class and level decoding, class
  names, and the recovery decision.
- `src/ramfb.rs`: the big-endian fw_cfg DMA records, directory entry
  matching and the directory walk, and clearing the framebuffer.
- `app/`: the kernel itself (boot code, UART, exception vectors, global
  allocator, fw_cfg DMA, monitor loop), which does the device I/O.
- `tests/`: scenarios for each module.

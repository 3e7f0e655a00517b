# os_core

The logic of a small RISC-V kernel (batch system, round-robin multitasking,
buddy heap, 16550 UART console), written in Verus with its contracts proved.

- `src/` is the verified library. It never touches hardware: functions take the
  values the kernel read (timer ticks, trap causes, register contents) and
  return what the kernel has to do (register writes, bytes for the console,
  the task switch to make, the copies that load an application).
- `app/` is the kernel around it: the register and memory-mapped I/O, the
  global state behind locks, the allocator interface, and the entry points
  that the assembly glue (`__alltraps`, `__restore`, `__switch`) uses.
- `tests/` runs the library on concrete values.

The buddy heap's free lists are address stacks kept in vectors; the heap's
invariant (well-placed, pairwise disjoint free blocks, and every managed byte
either free or handed out) is proved to hold after every operation, and giving
back a block restores exactly the free bytes its allocation took. When the free
blocks are fully merged (no free block has its free buddy on the same list),
allocation and deallocation keep them so, and giving back the block an
allocation has just handed out restores the free lists exactly. The heap also
records, as ghost state, the bytes of the blocks it handed out and has not
taken back; none of them is ever free, so a new allocation never overlaps a
block still held.

`src/user.rs` holds the application side of the system calls: which call
number and arguments the user library's `read`, `write` and `exit` pass.

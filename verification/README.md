# Verified system call logic of a small RISC-V teaching kernel

`src/` holds the decisions of the kernel's system calls, with contracts
checked by Verus:

- `banker`: the deadlock safety test, proved to answer whether a safe
  sequence of threads exists.
- `resource`: per-kind bookkeeping of free, held and awaited units, with
  request (refused as a deadlock when unsafe) and release.
- `sync`: mutex, semaphore and condition variable system calls of a process.
- `mm`: SV39 addresses, page table entries, leaf mappings, user access
  checks and pointer translation.
- `frame_allocator`: a stack allocator of physical frames.
- `memory_set`: the areas of an address space and the page table that maps
  them; adding a framed area maps each page to a fresh frame, deleting it
  clears the entries and gives the frames back.
- `task`: task control blocks, system call counts, the task manager.
- `process`: exit, yield, time (byte by byte, so a buffer may cross a page
  boundary), trace, mmap, munmap and sbrk.

Work on the machine itself (reading and writing physical memory, blocking
and waking threads, switching tasks, boot-time set-up) is left to the
caller; `app/` shows that glue against small traits.

# easy_kernel

The core of a small teaching kernel for 64-bit RISC-V, with proofs: a file
system on a block device, virtual memory, processes, locks and the system calls
on them.

- `src/easy_fs`: the file system. A disk holds a super block, two bitmaps,
  inodes and data; contracts speak of the files by number, each with its size
  and bytes.
- `src/mm`: addresses, physical frames, three-level page tables, address spaces
  and user memory. Physical memory is a value that is passed along.
- `src/task`: processes, their contexts, and the ready queue.
- `src/sync`: mutexes, semaphores, condition variables.
- `src/fs`: open files.
- `src/syscall`: what the system calls do.
- `src/drivers`: memory for VirtIO queues.
- `app`: the hardware, the global state and the entry point.

Where a function asks for something that the caller may not know, such as room for
a program or a disk that is whole, another one tests it: `can_start`,
`kernel_has_room`, `is_intact`, `is_sound`, `has_free_run`.

What holds across several calls is stated in functions whose names begin with
`law_`. The calls that are trusted are `core::str::from_utf8`, and the reading of
ELF headers by `xmas_elf`.

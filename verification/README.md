# rcore_os

Verified core of a teaching operating-system kernel (rCore style): the
banker's-algorithm deadlock detection, the bookkeeping behind the
synchronization and process syscalls, the directory operations of the
easy-fs virtual filesystem layer, and the frame walk of a stack-trace
program.

- `src/sync/deadlock.rs` — growing the banker's vectors and matrices, and
  the safety check: its result is the greedy scan's, which with no negative
  holding answers whether some order lets every thread finish.
- `src/sync/renumber.rs` — the verdict does not depend on how threads are
  numbered.
- `src/syscall/sync.rs` — per-process mutex, semaphore and condition
  variable state; each syscall's effect on it, the refusal of unsafe
  requests, and laws on what the operations keep.
- `src/syscall/process.rs` — argument checks and decisions of the process
  syscalls (`trace`, `mmap`, `munmap`, `sbrk`, time, sleep).
- `src/fs/vfs.rs` — a directory as a list of named entries: find, create,
  list, link counting, link and unlink; cleared slots have no name and
  match nothing.
- `src/stacktrace.rs` — where to read the next frame record, and when to
  stop.
- `app/` — the kernel side: traits for the services the kernel provides,
  and the syscalls run in order around the library's decisions.
- `tests/` — scenarios on concrete values.

# ShellCore

The memory, process, scheduling and network logic of the ShellCore kernel, written in Verus.
Every function has a contract over mathematical models, and Verus proves that it keeps it.

## Layout

- `src/mm`: addresses, frames, page tables, areas and address spaces; loading of programs;
  the layout of memory at boot and the device tree; buffers and strings of users and the way to
  them; shared segments; and which processors have to forget a translation.
- `src/process`: threads and processes; clone, exec and exit; signals; timers; the queues of
  the scheduler, waiting, futexes and sleep.
- `src/net`: sockets, netlink, pairs of local sockets and packets that the machine sends to
  itself.
- `app`: what surrounds the library: devices, the network stack, the heap, registers of the
  processor, the loop in which it runs tasks, and the values behind the numbers of threads that
  start, make children, run other programs, touch memory and end.
- `tests`: examples for every module.

## Model

What threads share, such as address spaces, files and signal tables, is named by numbers; the
program around the library keeps the locks and the values behind them. Page tables live in
`PhysMemory`, which holds the frames of the machine and the entries of those that are tables, so
that mapping, forking and copying are proved against what a walk of the tables gives. Where a
step needs a device, a file or another processor, the function returns what is to be done and is
called again with what came of it.

A frame that is taken was free, has one user, and is on the list of those to be cleared before
their bytes are seen; `src/mm/memory_set/owned.rs` states who has which frame, and that frames of
two address spaces differ unless they are shared or inherited.

Page tables have the form of `riscv64`. Of the processors of `loongarch64`, which reach physical
memory through windows, the library has the addresses in a window, the token of an address space
and the search for the device tree; the form of their page table entries is not part of it.

Laws that relate several functions are proof functions whose names begin with `law_`.

## Outside crates

The library reads program files with `xmas-elf` and device trees with `fdt`. What it believes of
them is stated at the functions that call them, in `src/mm/elf.rs` and `src/mm/device_tree.rs`.

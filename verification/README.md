# rcore_os

The logic of a small RISC-V teaching kernel, written in Verus and verified:
every public function states in its contract what it does, and Verus proves
the code against it.

- `src/` is the verified library: Sv39 addresses, page tables over a model
  of physical memory (`address`, `page_table`), address spaces and their
  areas, including the loading of ELF64 images and the copy of an address
  space for a forked child (`memory_set`, `elf`), processes and their
  identifiers (`process`), stride scheduling and task
  contexts (`task`), traps and system-call decoding (`trap`, `syscall`),
  the system calls themselves on the calling process's state
  (`syscall::fs`, `syscall::process`), with their loads and stores of user
  memory (`syscall::user`), pipes (`pipe`), the root directory
  and open files (`fs`), locks, semaphores and condition variables
  (`sync`) over a banker's-style deadlock detector (`deadlock`), signals
  (`signal`) and timer arithmetic (`timer`). `laws` states properties that
  relate several operations.
- `tests/` runs the library on concrete values.
- `app/` is the glue to the machine: hardware registers, the global kernel
  state, console output and logging.

# virt-kernel

The logic of a small kernel that runs Linux programs such as BusyBox on a board with one
processor, written in Verus: every function of the library has a contract, and Verus
proves it.

## Layout

* `src/` is the library.
  * Data: `pipe`, `file`, `fs`, `task`, `region`, `vm`, `wq`; `kernel` is the state that
    they make up, with what always holds of it; `books` counts who uses which file, and
    `space` keeps the memory of a program.
  * Programs: `le`, `elf`, `stack`, `load`, `execv`.
  * Tasks: `sched`, `proc`, `fork`, `exit`.
  * System calls: `desc`, `path`, `calls`, `io`, `poll`, `mm`, `ident`.
* `tests/` runs the library on plain values.
* `app/` runs the kernel on a board that the host plays: a directory stands for the file
  server, and a script of traps for what programs do in user mode.

## How the kernel is modelled

A `Kernel` is one value, and a system call is a function on it that takes its arguments
from the registers of the current task. `Kernel::sound` holds between any two calls: the
use counts of the files agree with the descriptors of the tasks, the regions of a program
but its mapped memory lie apart, all of their pages have frames, and no page outside of the
regions has one. `space_full` says the same of the mapped memory too. It holds of a new
program and is kept, unless `mmap` cannot reach the page table; forking, starting another
program and ending need it.

Where a call needs a device it returns what the device is to do, and a second function
takes the answer (`openat` and `openat_done`, `close` and `close_done`). Where it has to
sleep it returns that the task leaves the processor, and a third goes on when the task is
back (`read_woken`, `wait_woken`). Starting a program is a chain of such steps, `Exec`.

The proof functions whose names begin with `law_` state what the functions promise
together: bytes leave a pipe in the order in which they came, closing undoes duplicating,
every page of a program that ends is freed, a forked program shares the pages of its
parent until one of them writes.

Only one thing is believed without proof: that `std::str::from_utf8` accepts exactly the
valid byte strings and gives back their text.

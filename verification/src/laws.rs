//! What the operations of the kernel do, told by what can be seen before and after a
//! call: the registers, the descriptors, the page table, the states of the tasks.
use vstd::prelude::*;

use crate::kernel::{slot_sound, space_sound, Kernel};
use crate::mm::lemma_heap_ends;
use crate::task::Task;
use crate::vm::Pte;

pub mod calls;
pub mod files;
pub mod memory;
pub mod pipes;
pub mod programs;
pub mod tables;
pub mod tasks;
pub mod turns;

verus! {

/// The task that the processor runs.
pub open spec fn me(k: Kernel) -> Task {
    k.tasks@[k.cpu.task_idx->0 as int]
}

/// A register of the program that the processor runs.
pub open spec fn reg(k: Kernel, i: int) -> u64 {
    me(k).frame.regs@[i]
}

/// Whether nothing has changed but the task that the processor runs.
pub open spec fn rest_kept(k: Kernel, old: Kernel) -> bool {
    &&& k.cpu == old.cpu
    &&& k.fs == old.fs
    &&& k.first == old.first
    &&& k.tasks@.len() == old.tasks@.len()
    &&& others_kept(k, old)
}

/// Whether the tasks that the processor does not run are as they were.
pub open spec fn others_kept(k: Kernel, old: Kernel) -> bool {
    forall|i: int|
        0 <= i < old.tasks@.len() && old.cpu.task_idx != Some(i as usize) ==> #[trigger] k.tasks@[i]
            == old.tasks@[i]
}

/// The frame behind a page, and what may be done with it.
pub open spec fn entry(t: Task, a: int) -> Pte {
    t.pt@[a as u64]
}

/// Whether an address lies in so many bytes from another on.
pub open spec fn within(v: int, from: int, len: int) -> bool {
    from <= v < from + len
}

/// What is known of the task that the processor runs.
pub proof fn lemma_me(k: Kernel)
    requires
        k.serving(),
    ensures
        k.tasks@.len() == 8,
        k.fs.files@.len() == 128,
        k.cpu.task_idx is Some,
        k.cpu.task_idx->0 < 8,
        k.cur() == me(k),
        k.at() == k.cpu.task_idx->0,
        me(k).state is Running,
        me(k).user_sp is Some,
        space_sound(me(k)),
        me(k).brk.vaddr == 0x8000_0000,
        me(k).brk.flags == 6,
        me(k).mmap.vaddr == 0x4000_0000,
        me(k).mmap.flags == 6,
        me(k).brk.len % 4096 == 0,
        me(k).mmap.len % 4096 == 0,
{
    assert(space_sound(k.tasks@[k.at()]));
    assert(slot_sound(k.tasks@[k.at()], k.at()));
    lemma_heap_ends(me(k));
}

} // verus!

//! The state of the kernel and what always holds of it.
use vstd::prelude::*;

use crate::books::{books, lemma_same_books, same_uses, task_sound};
use crate::file::File;
use crate::fs::{Fs, NFILES};
use crate::region::{all_pages, known_flags, sound_regions, Region};
use crate::task::{new_brk, new_mmap, user_stack_region, Cpu, Task};
use crate::task::{cpuid, NTASKS};
use crate::vm::Pte;

verus! {

pub struct Kernel {
    pub cpu: Cpu,
    pub tasks: Vec<Task>,
    pub fs: Fs,
    /// Whether the first program is still to be started.
    pub first: bool,
}

/// The regions of a task, in the order in which they are freed.
pub open spec fn regions(t: Task) -> Seq<Region> {
    t.program@ + seq![t.spel0, t.brk, t.mmap]
}

/// Whether the frames of a table lie in the physical address space.
pub open spec fn framed(m: Map<u64, Pte>) -> bool {
    forall|a: u64| #[trigger] m.contains_key(a) ==> m[a].p + 8192 <= u64::MAX
}

/// The regions of a task in which every page has a frame: all but the mapped memory.
pub open spec fn backed_regions(t: Task) -> Seq<Region> {
    t.program@ + seq![t.spel0, t.brk]
}

/// The address space of a task: its regions but the mapped memory lie apart, each page of
/// them has a frame, and no page outside of the regions has one. A task without a stack
/// has no memory at all.
#[verifier::opaque]
pub open spec fn space_sound(t: Task) -> bool {
    &&& t.spel0 == user_stack_region()
    &&& t.brk == (Region { len: t.brk.len, ..new_brk() })
    &&& t.mmap == (Region { len: t.mmap.len, ..new_mmap() })
    &&& if t.user_sp is Some {
        &&& sound_regions(backed_regions(t), t.pt@)
        &&& t.mmap.whole()
        &&& t.pt@.dom().subset_of(all_pages(regions(t)))
        &&& framed(t.pt@)
        &&& forall|i: int|
            0 <= i < t.program@.len() ==> known_flags((#[trigger] t.program@[i]).flags)
                && t.program@[i].granule == 0
    } else {
        &&& t.pt@ == Map::<u64, Pte>::empty()
        &&& t.program@.len() == 0
        &&& t.brk.len == 0
        &&& t.mmap.len == 0
    }
}

/// An address space from which nothing is missing: the mapped memory lies apart from the
/// other regions too, and each of its pages has a frame. That is so unless a call of
/// `mmap` could not reach the page table.
#[verifier::opaque]
pub open spec fn space_full(t: Task) -> bool {
    &&& space_sound(t)
    &&& t.user_sp is Some ==> {
        &&& sound_regions(regions(t), t.pt@)
        &&& t.pt@.dom() == all_pages(regions(t))
    }
}

/// Whether two tasks have the same address space.
pub open spec fn same_space(t: Task, u: Task) -> bool {
    &&& t.spel0 == u.spel0
    &&& t.brk == u.brk
    &&& t.mmap == u.mmap
    &&& t.user_sp == u.user_sp
    &&& t.pt == u.pt
    &&& t.program == u.program
}

pub proof fn lemma_same_space(t: Task, u: Task)
    requires
        same_space(t, u),
    ensures
        space_sound(t) == space_sound(u),
        space_full(t) == space_full(u),
{
    reveal(space_sound);
    reveal(space_full);
}

/// Whether the task has no program, or none any more.
pub open spec fn is_gone(t: Task) -> bool {
    t.state is Free || t.state is Zombie
}

/// What holds of the task in the slot `i`.
pub open spec fn slot_sound(t: Task, i: int) -> bool {
    &&& t.parent matches Some(p) ==> p < 8
    &&& t.user_sp is Some <==> !is_gone(t)
    &&& t.user_sp matches Some(p) ==> p + 16384 <= u64::MAX
    &&& !(t.state is Free) ==> t.user_pt is Some
    &&& if is_gone(t) {
        t.closed == 8 && t.loading is None
    } else {
        t.pid == i && t.trapframe != 0
    }
}

impl Kernel {
    /// What holds at all times.
    pub open spec fn sound(self) -> bool {
        &&& self.tasks@.len() == 8
        &&& self.fs.files@.len() == 128
        &&& !self.cpu.int_enable
        &&& self.cpu.task_idx matches Some(i) ==> i < 8
        &&& books(self.tasks@, self.fs.files@)
        &&& forall|i: int| 0 <= i < 8 ==> slot_sound(#[trigger] self.tasks@[i], i)
        &&& forall|i: int| 0 <= i < 8 ==> space_sound(#[trigger] self.tasks@[i])
    }

    /// The slot of the current task.
    pub open spec fn at(self) -> int {
        self.cpu.task_idx->0 as int
    }

    /// The current task.
    pub open spec fn cur(self) -> Task {
        self.tasks@[self.at()]
    }

    /// Whether no task is locked.
    pub open spec fn unlocked(self) -> bool {
        forall|i: int| 0 <= i < self.tasks@.len() ==> !(#[trigger] self.tasks@[i]).lock.held
    }

    /// Whether no task is locked but the one in the slot `i`.
    pub open spec fn only_locked(self, i: int) -> bool {
        forall|j: int|
            0 <= j < self.tasks@.len() ==> (#[trigger] self.tasks@[j]).lock.held == (i == j)
    }

    /// The kernel serves the current task, which holds no lock.
    pub open spec fn serving(self) -> bool {
        &&& self.sound()
        &&& self.unlocked()
        &&& self.cpu.int_disables == 0
        &&& self.cpu.task_idx is Some
        &&& self.cur().state is Running
    }

    /// The kernel serves a system call of the current task, which has all of its
    /// descriptors.
    pub open spec fn calling(self) -> bool {
        self.serving() && self.cur().closed == 0
    }

    /// The current task is about to leave the processor: it holds its own lock and no
    /// other, and does not run any more.
    pub open spec fn leaving(self) -> bool {
        &&& self.sound()
        &&& self.cpu.int_disables == 1
        &&& self.cpu.task_idx is Some
        &&& self.only_locked(self.at())
        &&& !(self.cur().state is Running)
        &&& !(self.cur().state is Free)
    }

    /// The current task has just got the processor, with its lock held.
    pub open spec fn entering(self) -> bool {
        &&& self.sound()
        &&& self.cpu.int_disables == 1
        &&& self.cpu.task_idx is Some
        &&& self.only_locked(self.at())
        &&& self.cur().state is Running
    }

    /// The scheduler runs, and no task is locked.
    pub open spec fn choosing(self) -> bool {
        &&& self.sound()
        &&& self.unlocked()
        &&& self.cpu.int_disables == 0
        &&& self.cpu.task_idx is None
    }

    /// The argument `i` of the current system call.
    pub open spec fn arg(self, i: int) -> u64 {
        self.cur().frame.regs@[i]
    }

    /// Whether this is the kernel `old` with another task in the slot `i`.
    pub open spec fn with_task(self, old: Kernel, i: int, t: Task) -> bool {
        &&& self == (Kernel { tasks: self.tasks, ..old })
        &&& self.tasks@ == old.tasks@.update(i, t)
    }
}

/// A change of a task that touches neither its files nor its memory keeps the kernel
/// sound.
pub proof fn lemma_with_task(k: Kernel, old: Kernel, i: int, t: Task)
    requires
        old.sound(),
        0 <= i < 8,
        k.with_task(old, i, t),
        same_uses(old.tasks@[i], t),
        same_space(old.tasks@[i], t),
        slot_sound(t, i),
    ensures
        k.sound(),
{
    lemma_same_books(old.tasks@, k.tasks@, k.fs.files@);
    lemma_same_space(old.tasks@[i], t);
}

/// Many such changes.
pub proof fn lemma_with_tasks(k: Kernel, old: Kernel)
    requires
        old.sound(),
        k == (Kernel { tasks: k.tasks, ..old }),
        k.tasks@.len() == 8,
        forall|i: int|
            0 <= i < 8 ==> same_uses(old.tasks@[i], #[trigger] k.tasks@[i]) && same_space(
                old.tasks@[i],
                k.tasks@[i],
            ) && slot_sound(k.tasks@[i], i),
    ensures
        k.sound(),
{
    assert forall|t: int| 0 <= t < old.tasks@.len() implies same_uses(
        #[trigger] old.tasks@[t],
        k.tasks@[t],
    ) by {
        let u = k.tasks@[t];
    }
    lemma_same_books(old.tasks@, k.tasks@, k.fs.files@);
    assert forall|i: int| 0 <= i < 8 implies space_sound(#[trigger] k.tasks@[i]) by {
        lemma_same_space(old.tasks@[i], k.tasks@[i]);
    }
}

/// This processor.
pub fn mycpu(k: &mut Kernel) -> (c: &mut Cpu)
    ensures
        *c == old(k).cpu,
        *final(k) == (Kernel { cpu: *final(c), ..*old(k) }),
{
    let _ = cpuid();
    &mut k.cpu
}

/// A kernel with no program yet.
pub fn boot() -> (k: Kernel)
    ensures
        k.choosing(),
        k.first,
        k.tasks@.len() == 8,
        forall|i: int| 0 <= i < 8 ==> (#[trigger] k.tasks@[i]).is_zeroed(),
        forall|i: int|
            0 <= i < 128 ==> (#[trigger] k.fs.files@[i]) == (File {
                kind: crate::file::FileKind::Unused,
                rc: 0,
                offt: 0,
                path: None,
            }),
{
    let mut tasks: Vec<Task> = Vec::new();
    let mut i: usize = 0;
    while i < NTASKS
        invariant
            i <= 8,
            tasks@.len() == i,
            forall|j: int| 0 <= j < i ==> (#[trigger] tasks@[j]).is_zeroed(),
        decreases 8 - i,
    {
        tasks.push(Task::zeroed());
        i += 1;
    }
    let mut files: Vec<File> = Vec::new();
    let mut i: usize = 0;
    while i < NFILES
        invariant
            i <= 128,
            files@.len() == i,
            forall|j: int|
                0 <= j < i ==> (#[trigger] files@[j]) == (File {
                    kind: crate::file::FileKind::Unused,
                    rc: 0,
                    offt: 0,
                    path: None,
                }),
        decreases 128 - i,
    {
        files.push(File::zeroed());
        i += 1;
    }
    let k = Kernel {
        cpu: Cpu { int_enable: false, int_disables: 0, task_idx: None, shed_ctx: [0u64; 15] },
        tasks,
        fs: Fs { files },
        first: true,
    };
    proof {
        assert forall|i: int| 0 <= i < 8 implies space_sound(#[trigger] k.tasks@[i]) by {
            reveal(space_sound);
            assert(k.tasks@[i].is_zeroed());
        }
        lemma_no_uses(k.tasks@);
        assert forall|t: int| 0 <= t < 8 implies task_sound(#[trigger] k.tasks@[t], k.fs.files@) by {
            assert(k.tasks@[t].is_zeroed());
        }
        assert forall|t: int| 0 <= t < 8 implies slot_sound(#[trigger] k.tasks@[t], t) by {
            assert(k.tasks@[t].is_zeroed());
        }
    }
    k
}

/// Tasks that have given up all their files use none.
proof fn lemma_no_uses(ts: Seq<Task>)
    requires
        forall|t: int|
            0 <= t < ts.len() ==> (#[trigger] ts[t]).closed == 8 && ts[t].loading is None,
    ensures
        forall|f: int, e: crate::books::End| #[trigger] crate::books::uses(ts, f, e) == 0,
    decreases ts.len(),
{
    if ts.len() > 0 {
        let init = ts.drop_last();
        assert forall|t: int| 0 <= t < init.len() implies (#[trigger] init[t]).closed == 8
            && init[t].loading is None by {
            assert(init[t] == ts[t]);
        }
        lemma_no_uses(init);
        let last = ts[ts.len() - 1];
        assert(last.closed == 8 && last.files@.len() == 8);
        assert forall|f: int, e: crate::books::End| #[trigger]
            crate::books::uses(ts, f, e) == 0 by {
            assert(crate::books::uses(init, f, e) == 0);
        }
    }
}

/// Gives every task its kernel stack.
pub fn init(k: &mut Kernel, stacks: &[u64; 8])
    requires
        old(k).choosing(),
    ensures
        final(k).choosing(),
        *final(k) == (Kernel { tasks: final(k).tasks, ..*old(k) }),
        final(k).tasks@ == Seq::new(
            8,
            |i: int| Task { sp_el1: stacks@[i], ..old(k).tasks@[i] },
        ),
{
    let mut i: usize = 0;
    let ghost ts = k.tasks@;
    while i < NTASKS
        invariant
            i <= 8,
            k.tasks@.len() == 8,
            ts.len() == 8,
            *k == (Kernel { tasks: k.tasks, ..*old(k) }),
            forall|j: int|
                0 <= j < i ==> #[trigger] k.tasks@[j] == (Task { sp_el1: stacks@[j], ..ts[j] }),
            forall|j: int| i <= j < 8 ==> #[trigger] k.tasks@[j] == ts[j],
        decreases 8 - i,
    {
        k.tasks[i].init(stacks[i]);
        i += 1;
    }
    proof {
        assert(k.tasks@ =~= Seq::new(8, |i: int| Task { sp_el1: stacks@[i], ..ts[i] }));
        assert forall|i: int| 0 <= i < 8 implies same_uses(old(k).tasks@[i], #[trigger] k.tasks@[i])
            && same_space(old(k).tasks@[i], k.tasks@[i]) && slot_sound(k.tasks@[i], i)
            && !k.tasks@[i].lock.held by {
            assert(slot_sound(ts[i], i));
            assert(!ts[i].lock.held);
        }
        lemma_with_tasks(*k, *old(k));
    }
}

} // verus!

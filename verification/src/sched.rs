//! Who runs: sleeping, waking, and handing the processor over.
//!
//! A task that leaves the processor does so in two halves. The first half prepares it
//! and ends where the processor goes back to the scheduler; the second half goes on
//! once the task has been chosen again.
use vstd::prelude::*;

use crate::kernel::{lemma_with_task, lemma_with_tasks, same_space, slot_sound, Kernel};
use crate::books::same_uses;
use crate::task::{Cpu, Lock, State, Task, NTASKS};

verus! {

/// What a parent sleeps on while it waits for a child.
pub open spec fn task_chan(i: int) -> u64 {
    i as u64
}

/// What the readers of the pipe in the file `f` sleep on.
pub open spec fn read_chan(f: int) -> u64 {
    (8 + 2 * f) as u64
}

/// What the writers of the pipe in the file `f` sleep on.
pub open spec fn write_chan(f: int) -> u64 {
    (9 + 2 * f) as u64
}

/// No two things to sleep on are mixed up.
pub proof fn law_channels_differ(i: int, j: int, f: int, g: int)
    requires
        0 <= i < 8,
        0 <= j < 8,
        0 <= f < 128,
        0 <= g < 128,
    ensures
        task_chan(i) == task_chan(j) ==> i == j,
        read_chan(f) == read_chan(g) ==> f == g,
        write_chan(f) == write_chan(g) ==> f == g,
        task_chan(i) != read_chan(f),
        task_chan(i) != write_chan(f),
        read_chan(f) != write_chan(g),
{
}

/// Takes the lock of the task `i`.
pub(crate) fn lock(k: &mut Kernel, i: usize)
    requires
        i < old(k).tasks@.len(),
        !old(k).tasks@[i as int].lock.held,
        old(k).cpu.int_disables < u32::MAX,
        !old(k).cpu.int_enable,
    ensures
        *final(k) == (Kernel {
            cpu: Cpu { int_disables: (old(k).cpu.int_disables + 1) as u32, ..old(k).cpu },
            tasks: final(k).tasks,
            ..*old(k)
        }),
        final(k).tasks@ == old(k).tasks@.update(
            i as int,
            Task { lock: Lock { held: true }, ..old(k).tasks@[i as int] },
        ),
{
    proof {
        crate::task::law_interrupts_stay_off(0);
    }
    let _ = k.cpu.disable_intr(0);
    k.tasks[i].lock = Lock { held: true };
}

/// Gives the lock of the task `i` back.
pub(crate) fn unlock(k: &mut Kernel, i: usize)
    requires
        i < old(k).tasks@.len(),
        old(k).tasks@[i as int].lock.held,
        old(k).cpu.int_disables > 0,
    ensures
        *final(k) == (Kernel {
            cpu: Cpu { int_disables: (old(k).cpu.int_disables - 1) as u32, ..old(k).cpu },
            tasks: final(k).tasks,
            ..*old(k)
        }),
        final(k).tasks@ == old(k).tasks@.update(
            i as int,
            Task { lock: Lock { held: false }, ..old(k).tasks@[i as int] },
        ),
{
    let _ = k.cpu.enable_intr();
    k.tasks[i].lock = Lock { held: false };
}

/// A task after everything that sleeps on `chan` has been woken.
pub open spec fn woken_task(t: Task, chan: u64) -> Task {
    if t.state is Sleeping && t.chan == Some(chan) {
        Task { state: State::Ready, ..t }
    } else {
        t
    }
}

/// The tasks after everything that sleeps on `chan` has been woken.
pub open spec fn woken(ts: Seq<Task>, chan: u64) -> Seq<Task> {
    ts.map_values(|t: Task| woken_task(t, chan))
}

/// Wakes what sleeps on `chan`. The lock of every task is taken in turn.
pub fn wakeup(k: &mut Kernel, chan: u64)
    requires
        old(k).sound(),
        old(k).unlocked(),
    ensures
        final(k).sound(),
        final(k).unlocked(),
        old(k).serving() ==> final(k).serving(),
        *final(k) == (Kernel { tasks: final(k).tasks, ..*old(k) }),
        final(k).tasks@ == woken(old(k).tasks@, chan),
{
    let mut i: usize = 0;
    let ghost ts = k.tasks@;
    while i < NTASKS
        invariant
            i <= 8,
            ts.len() == 8,
            k.tasks@.len() == 8,
            *k == (Kernel { tasks: k.tasks, ..*old(k) }),
            forall|j: int| 0 <= j < i ==> #[trigger] k.tasks@[j] == woken_task(ts[j], chan),
            forall|j: int| i <= j < 8 ==> #[trigger] k.tasks@[j] == ts[j],
        decreases 8 - i,
    {
        if k.tasks[i].state == State::Sleeping {
            if let Some(c) = k.tasks[i].chan {
                if c == chan {
                    k.tasks[i].state = State::Ready;
                }
            }
        }
        i += 1;
    }
    proof {
        assert(k.tasks@ =~= woken(ts, chan));
        assert forall|i: int| 0 <= i < 8 implies same_uses(old(k).tasks@[i], #[trigger] k.tasks@[i])
            && same_space(old(k).tasks@[i], k.tasks@[i]) && slot_sound(k.tasks@[i], i) by {
            assert(slot_sound(ts[i], i));
        }
        lemma_with_tasks(*k, *old(k));
        assert forall|i: int| 0 <= i < 8 implies !(#[trigger] k.tasks@[i]).lock.held by {
            assert(!ts[i].lock.held);
        }
    }
}

/// A task that sleeps on a channel is ready once the channel is woken, and other tasks
/// are as they were.
pub proof fn law_wakeup_wakes(ts: Seq<Task>, i: int, chan: u64)
    requires
        0 <= i < ts.len(),
    ensures
        ts[i].state is Sleeping && ts[i].chan == Some(chan) ==> woken(ts, chan)[i].state is Ready,
        !(ts[i].state is Sleeping && ts[i].chan == Some(chan)) ==> woken(ts, chan)[i] == ts[i],
{
}

/// The current task, locked and asleep on `chan`, or on nothing.
pub open spec fn asleep(t: Task, chan: Option<u64>) -> Task {
    Task { state: State::Sleeping, chan, lock: Lock { held: true }, ..t }
}

/// Puts the current task, which is not locked, to sleep; where the caller holds a lock
/// it is given back meanwhile. The processor then goes to the scheduler.
pub(crate) fn fall_asleep(k: &mut Kernel, chan: Option<u64>, outer: bool)
    requires
        old(k).sound(),
        old(k).unlocked(),
        old(k).cpu.int_disables == if outer {
            1u32
        } else {
            0u32
        },
        old(k).cpu.task_idx is Some,
        old(k).cur().state is Running,
    ensures
        final(k).leaving(),
        *final(k) == (Kernel {
            cpu: Cpu { int_disables: 1, ..old(k).cpu },
            tasks: final(k).tasks,
            ..*old(k)
        }),
        final(k).tasks@ == old(k).tasks@.update(old(k).at(), asleep(old(k).cur(), chan)),
{
    let i: usize = k.cpu.task_idx.unwrap();
    lock(k, i);
    if outer {
        let _ = k.cpu.enable_intr();
    }
    k.tasks[i].state = State::Sleeping;
    k.tasks[i].chan = chan;
    proof {
        let t = asleep(old(k).cur(), chan);
        assert(k.tasks@ =~= old(k).tasks@.update(i as int, t));
        lemma_moved(*k, *old(k), i as int, t);
    }
}

/// Soundness does not depend on how often interrupts are off or who runs.
pub proof fn lemma_moved(k: Kernel, old: Kernel, i: int, t: Task)
    requires
        old.sound(),
        0 <= i < 8,
        k == (Kernel { cpu: k.cpu, tasks: k.tasks, ..old }),
        k.tasks@ == old.tasks@.update(i, t),
        same_uses(old.tasks@[i], t),
        same_space(old.tasks@[i], t),
        slot_sound(t, i),
        !k.cpu.int_enable,
        k.cpu.task_idx matches Some(j) ==> j < 8,
    ensures
        k.sound(),
{
    let mid = Kernel { cpu: old.cpu, ..k };
    assert(mid.with_task(old, i, t));
    lemma_with_task(mid, old, i, t);
}

/// Puts the current task to sleep on `chan`. The caller holds another lock, which is
/// free while the task sleeps.
pub fn sleep(k: &mut Kernel, chan: u64)
    requires
        old(k).sound(),
        old(k).unlocked(),
        old(k).cpu.int_disables == 1,
        old(k).cpu.task_idx is Some,
        old(k).cur().state is Running,
    ensures
        final(k).leaving(),
        *final(k) == (Kernel { tasks: final(k).tasks, ..*old(k) }),
        final(k).tasks@ == old(k).tasks@.update(old(k).at(), asleep(old(k).cur(), Some(chan))),
{
    fall_asleep(k, Some(chan), true);
}

/// A task that has the processor again and is not locked any more.
pub open spec fn awake(t: Task) -> Task {
    Task { chan: None, lock: Lock { held: false }, ..t }
}

/// The second half of `sleep`: the caller has its lock back.
pub fn slept(k: &mut Kernel)
    requires
        old(k).entering(),
    ensures
        final(k).sound(),
        final(k).unlocked(),
        *final(k) == (Kernel { tasks: final(k).tasks, ..*old(k) }),
        final(k).tasks@ == old(k).tasks@.update(old(k).at(), awake(old(k).cur())),
{
    let i: usize = k.cpu.task_idx.unwrap();
    k.tasks[i].chan = None;
    let _ = k.cpu.disable_intr(0);
    unlock(k, i);
    proof {
        crate::task::law_interrupts_stay_off(0);
        let t = awake(old(k).cur());
        assert(k.tasks@ =~= old(k).tasks@.update(i as int, t));
        lemma_moved(*k, *old(k), i as int, t);
    }
}

/// Puts the current task to sleep on nothing, where `cond` says so: returns whether
/// the processor goes to the scheduler.
pub fn sleep_if(k: &mut Kernel, cond: bool) -> (r: bool)
    requires
        old(k).serving(),
    ensures
        r == cond,
        !cond ==> final(k).serving() && *final(k) == *old(k),
        cond ==> {
            &&& final(k).leaving()
            &&& *final(k) == (Kernel {
                cpu: Cpu { int_disables: 1, ..old(k).cpu },
                tasks: final(k).tasks,
                ..*old(k)
            })
            &&& final(k).tasks@ == old(k).tasks@.update(old(k).at(), asleep(old(k).cur(), None))
        },
{
    if !cond {
        return false;
    }
    fall_asleep(k, None, false);
    true
}

/// The second half of `sleep_if`.
pub fn slept_if(k: &mut Kernel)
    requires
        old(k).entering(),
    ensures
        final(k).serving(),
        *final(k) == (Kernel {
            cpu: Cpu { int_disables: 0, ..old(k).cpu },
            tasks: final(k).tasks,
            ..*old(k)
        }),
        final(k).tasks@ == old(k).tasks@.update(old(k).at(), awake(old(k).cur())),
{
    let i: usize = k.cpu.task_idx.unwrap();
    k.tasks[i].chan = None;
    unlock(k, i);
    proof {
        let t = awake(old(k).cur());
        assert(k.tasks@ =~= old(k).tasks@.update(i as int, t));
        lemma_moved(*k, *old(k), i as int, t);
    }
}

/// Gives the processor up; the current task stays ready.
pub fn yild(k: &mut Kernel)
    requires
        old(k).serving(),
    ensures
        final(k).leaving(),
        *final(k) == (Kernel {
            cpu: Cpu { int_disables: 1, ..old(k).cpu },
            tasks: final(k).tasks,
            ..*old(k)
        }),
        final(k).tasks@ == old(k).tasks@.update(
            old(k).at(),
            Task { state: State::Ready, lock: Lock { held: true }, ..old(k).cur() },
        ),
{
    let i: usize = k.cpu.task_idx.unwrap();
    lock(k, i);
    k.tasks[i].state = State::Ready;
    proof {
        let t = Task { state: State::Ready, lock: Lock { held: true }, ..old(k).cur() };
        assert(k.tasks@ =~= old(k).tasks@.update(i as int, t));
        lemma_moved(*k, *old(k), i as int, t);
    }
}

/// The second half of `yild`.
pub fn yielded(k: &mut Kernel)
    requires
        old(k).entering(),
    ensures
        final(k).serving(),
        *final(k) == (Kernel {
            cpu: Cpu { int_disables: 0, ..old(k).cpu },
            tasks: final(k).tasks,
            ..*old(k)
        }),
        final(k).tasks@ == old(k).tasks@.update(
            old(k).at(),
            Task { lock: Lock { held: false }, ..old(k).cur() },
        ),
{
    let i: usize = k.cpu.task_idx.unwrap();
    unlock(k, i);
    proof {
        let t = Task { lock: Lock { held: false }, ..old(k).cur() };
        lemma_moved(*k, *old(k), i as int, t);
    }
}

/// What the translation base register holds for the task `task_idx`, whose page table
/// stands at `pt`.
pub open spec fn ttbr0(task_idx: u64, pt: u64) -> u64 {
    (task_idx << 48) | pt
}

/// What goes into the translation base register.
pub fn restore_ttbr0(task_idx: u64, pt: u64) -> (v: u64)
    ensures
        v == ttbr0(task_idx, pt),
{
    (task_idx << 48) | pt
}

/// The task that goes back to the scheduler.
pub fn sched(k: &Kernel) -> (i: usize)
    requires
        k.leaving(),
    ensures
        i == k.at(),
{
    k.cpu.task_idx.unwrap()
}

/// The second half of `sched`: what goes into the translation base register once the
/// current task has the processor again.
pub fn resumed(k: &Kernel) -> (v: u64)
    requires
        k.entering(),
    ensures
        v == ttbr0(k.cur().pid as u64, k.cur().user_pt->0),
{
    let i: usize = k.cpu.task_idx.unwrap();
    assert(slot_sound(k.tasks@[i as int], i as int));
    restore_ttbr0(k.tasks[i].pid as u64, k.tasks[i].user_pt.unwrap())
}

/// Where the scheduler is in its pass over the tasks, and whether the pass has found
/// one to run.
#[derive(Clone, Copy, Debug, PartialEq, Eq, Structural)]
pub struct Pass {
    pub next: usize,
    pub found: bool,
}

/// What the scheduler does next.
#[derive(Clone, Copy, Debug, PartialEq, Eq, Structural)]
pub enum Choice {
    /// Hand the processor to the task in this slot.
    Run(usize),
    /// Start another pass.
    Again,
    /// Wait for an interrupt, and start another pass.
    Idle,
}

/// Whether `i` is the first task from `from` on that is ready.
pub open spec fn is_next_ready(ts: Seq<Task>, from: int, i: int) -> bool {
    &&& from <= i < ts.len()
    &&& ts[i].state is Ready
    &&& forall|j: int| from <= j < i ==> !((#[trigger] ts[j]).state is Ready)
}

pub open spec fn none_ready(ts: Seq<Task>, from: int) -> bool {
    forall|j: int| from <= j < ts.len() ==> !((#[trigger] ts[j]).state is Ready)
}

/// Goes on with a pass over the tasks: locks the next one that is ready and makes it
/// the current task.
pub fn scheduler(k: &mut Kernel, pass: &mut Pass) -> (c: Choice)
    requires
        old(k).choosing(),
        old(pass).next <= 8,
    ensures
        match c {
            Choice::Run(i) => {
                &&& is_next_ready(old(k).tasks@, old(pass).next as int, i as int)
                &&& *final(pass) == (Pass { next: (i + 1) as usize, found: true })
                &&& final(k).entering()
                &&& *final(k) == (Kernel {
                    cpu: Cpu { int_disables: 1, task_idx: Some(i), ..old(k).cpu },
                    tasks: final(k).tasks,
                    ..*old(k)
                })
                &&& final(k).tasks@ == old(k).tasks@.update(
                    i as int,
                    Task {
                        state: State::Running,
                        lock: Lock { held: true },
                        ..old(k).tasks@[i as int]
                    },
                )
            },
            Choice::Again => {
                &&& none_ready(old(k).tasks@, old(pass).next as int)
                &&& old(pass).found
                &&& *final(pass) == (Pass { next: 0, found: false })
                &&& *final(k) == *old(k)
            },
            Choice::Idle => {
                &&& none_ready(old(k).tasks@, old(pass).next as int)
                &&& !old(pass).found
                &&& *final(pass) == (Pass { next: 0, found: false })
                &&& *final(k) == *old(k)
            },
        },
{
    let mut i: usize = pass.next;
    while i < NTASKS
        invariant
            old(pass).next <= i <= 8,
            k.choosing(),
            *k == *old(k),
            *pass == *old(pass),
            forall|j: int|
                old(pass).next <= j < i ==> !((#[trigger] old(k).tasks@[j]).state is Ready),
        decreases 8 - i,
    {
        if k.tasks[i].state == State::Ready {
            lock(k, i);
            k.tasks[i].state = State::Running;
            k.cpu.task_idx = Some(i);
            *pass = Pass { next: i + 1, found: true };
            proof {
                let t = Task {
                    state: State::Running,
                    lock: Lock { held: true },
                    ..old(k).tasks@[i as int]
                };
                assert(k.tasks@ =~= old(k).tasks@.update(i as int, t));
                assert(slot_sound(old(k).tasks@[i as int], i as int));
                lemma_moved(*k, *old(k), i as int, t);
            }
            return Choice::Run(i);
        }
        i += 1;
    }
    let found = pass.found;
    *pass = Pass { next: 0, found: false };
    if found {
        Choice::Again
    } else {
        Choice::Idle
    }
}

/// Goes on with the scheduler once the current task has left the processor; returns
/// what goes into the translation base register.
pub fn switched(k: &mut Kernel) -> (v: u64)
    requires
        old(k).leaving(),
    ensures
        v == ttbr0(old(k).cur().pid as u64, old(k).cur().user_pt->0),
        final(k).choosing(),
        *final(k) == (Kernel {
            cpu: Cpu { int_disables: 0, task_idx: None, ..old(k).cpu },
            tasks: final(k).tasks,
            ..*old(k)
        }),
        final(k).tasks@ == old(k).tasks@.update(
            old(k).at(),
            Task { lock: Lock { held: false }, ..old(k).cur() },
        ),
{
    let i: usize = k.cpu.task_idx.unwrap();
    assert(slot_sound(k.tasks@[i as int], i as int));
    let v: u64 = restore_ttbr0(k.tasks[i].pid as u64, k.tasks[i].user_pt.unwrap());
    k.cpu.task_idx = None;
    unlock(k, i);
    proof {
        let t = Task { lock: Lock { held: false }, ..old(k).cur() };
        lemma_moved(*k, *old(k), i as int, t);
    }
    v
}

/// Every ready task that a pass has not reached yet gets the processor in that pass:
/// the task chosen next is that one or one before it.
pub proof fn law_pass_reaches_ready(ts: Seq<Task>, from: int, i: int, j: int)
    requires
        0 <= from <= j < ts.len(),
        ts[j].state is Ready,
    ensures
        !none_ready(ts, from),
        is_next_ready(ts, from, i) ==> i <= j,
{
    let t = ts[j];
}

} // verus!

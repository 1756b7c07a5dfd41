//! The end of a process, and waiting for it.
use vstd::prelude::*;

use crate::books::{books, fd_sound, held, lemma_fd_used, lemma_fds_bound, lemma_let_go, lets_go};
use crate::books::{lemma_same_books, lemma_uses_update, same_uses, task_sound, task_uses, uses};
use crate::books::{counted, End};
use crate::desc::{lemma_sound, pipe_woken, wake_pipe, CloseOut, FAIL};
use crate::file::{CloseStep, File};
use crate::kernel::{lemma_same_space, lemma_with_task, regions, slot_sound, space_full, space_sound};
use crate::kernel::Kernel;
use crate::region::{all_blocks, Block};
use crate::sched::{asleep, awake, fall_asleep, lock, slept_if, task_chan, wakeup};
use crate::sched::woken;
use crate::space::{free_space, is_bare};
use crate::task::{Cpu, Lock, State, Task, NTASKS};

verus! {

/// Starts the end of the current process, which is not the first one: keeps its exit
/// code. Its descriptors are then given up one by one, and its memory last.
pub fn exit(k: &mut Kernel)
    requires
        old(k).calling(),
        old(k).cur().pid != 0,
    ensures
        final(k).calling(),
        final(k).with_task(
            *old(k),
            old(k).at(),
            Task { exit_code: old(k).arg(0), ..old(k).cur() },
        ),
{
    let i: usize = k.cpu.task_idx.unwrap();
    k.tasks[i].exit_code = k.tasks[i].frame.regs[0];
    proof {
        let t = k.tasks@[i as int];
        assert(k.tasks@ =~= old(k).tasks@.update(i as int, t));
        assert(slot_sound(old(k).tasks@[i as int], i as int));
        lemma_with_task(*k, *old(k), i as int, t);
    }
}

/// Like `exit`: a process has one thread.
pub fn exit_group(k: &mut Kernel)
    requires
        old(k).calling(),
        old(k).cur().pid != 0,
    ensures
        final(k).calling(),
        final(k).with_task(
            *old(k),
            old(k).at(),
            Task { exit_code: old(k).arg(0), ..old(k).cur() },
        ),
{
    exit(k)
}

/// The task with one descriptor more given up for good.
pub open spec fn one_closed(t: Task) -> Task {
    Task { closed: (t.closed + 1) as usize, ..t }
}

/// Gives up the next descriptor of the current task for good. Where the server has to
/// close the file, what it says makes no difference to the task.
pub fn close_next(k: &mut Kernel) -> (r: CloseOut)
    requires
        old(k).serving(),
        old(k).cur().closed < 8,
    ensures
        final(k).serving(),
        *final(k) == (Kernel { tasks: final(k).tasks, fs: final(k).fs, ..*old(k) }),
        final(k).cur() == one_closed(old(k).cur()),
        ({
            let next = old(k).tasks@.update(old(k).at(), one_closed(old(k).cur()));
            match old(k).cur().files@[old(k).cur().closed as int] {
                None => {
                    &&& r == CloseOut::Done(0)
                    &&& final(k).tasks@ == next
                    &&& final(k).fs == old(k).fs
                },
                Some(d) => {
                    let f = d.file as int;
                    let file = old(k).fs.files@[f];
                    &&& final(k).fs.files@[f].is_let_go(file, d.read)
                    &&& final(k).fs.files@ == old(k).fs.files@.update(f, final(k).fs.files@[f])
                    &&& match file.close_step() {
                        CloseStep::P9(fid) => {
                            &&& r == (CloseOut::P9 { file: d.file, fid })
                            &&& final(k).tasks@ == next
                            &&& uses(next, f, End::Any) == 0
                        },
                        CloseStep::Wake => {
                            &&& r == CloseOut::Done(0)
                            &&& final(k).tasks@ == pipe_woken(next, f)
                        },
                        CloseStep::Done => r == CloseOut::Done(0) && final(k).tasks@ == next,
                    }
                },
            }
        }),
{
    let i: usize = k.cpu.task_idx.unwrap();
    let n: usize = k.tasks[i].closed;
    let ghost ts = k.tasks@;
    let ghost fs0 = k.fs.files@;
    let ghost t0 = ts[i as int];
    proof {
        assert(slot_sound(t0, i as int));
        assert(task_sound(t0, fs0));
    }
    match k.tasks[i].files[n] {
        None => {
            k.tasks[i].closed = n + 1;
            proof {
                let t = k.tasks@[i as int];
                assert(k.tasks@ =~= ts.update(i as int, t));
                lemma_skipped(ts, fs0, i as int, t);
                lemma_sound(*k, *old(k), t);
            }
            CloseOut::Done(0)
        },
        Some(d) => {
            let ghost f = d.file as int;
            proof {
                lemma_fd_used(ts, fs0, i as int, n as int);
            }
            let s = k.fs.files[d.file].close(d.read, d.write);
            k.tasks[i].closed = n + 1;
            proof {
                let t = k.tasks@[i as int];
                let file = k.fs.files@[f];
                assert(k.tasks@ =~= ts.update(i as int, t));
                assert(k.fs.files@ =~= fs0.update(f, file));
                lemma_given_up(ts, fs0, i as int, t, file);
                lemma_sound(*k, *old(k), t);
                if fs0[f].close_step() is P9 {
                    assert(counted(
                        fs0[f],
                        uses(ts, f, End::Any),
                        uses(ts, f, End::Read),
                        uses(ts, f, End::Write),
                    ));
                    lemma_uses_update(ts, i as int, t, f, End::Any);
                    assert(held(Some(d), f, End::Any) == 1);
                }
            }
            match s {
                CloseStep::P9(fid) => CloseOut::P9 { file: d.file, fid },
                CloseStep::Wake => {
                    wake_pipe(k, d.file);
                    CloseOut::Done(0)
                },
                CloseStep::Done => CloseOut::Done(0),
            }
        },
    }
}

/// A number without a descriptor is passed over: the books stay right.
proof fn lemma_skipped(ts: Seq<Task>, files: Seq<File>, i: int, t: Task)
    requires
        books(ts, files),
        0 <= i < ts.len(),
        files.len() > 0,
        ts[i].closed < 8,
        ts[i].files@[ts[i].closed as int] is None,
        t == one_closed(ts[i]),
    ensures
        books(ts.update(i, t), files),
{
    assert(task_sound(ts[i], files));
    assert forall|g: int, e: End| #[trigger] task_uses(t, g, e) == task_uses(ts[i], g, e) by {
        assert(t.files@.len() == 8);
    }
    assert(counted(
        files[0],
        uses(ts, 0, End::Any),
        uses(ts, 0, End::Read),
        uses(ts, 0, End::Write),
    ));
    assert(task_uses(t, 0, End::Any) == task_uses(ts[i], 0, End::Any));
    assert(task_uses(t, 0, End::Read) == task_uses(ts[i], 0, End::Read));
    assert(task_uses(t, 0, End::Write) == task_uses(ts[i], 0, End::Write));
    assert(files.update(0, files[0]) =~= files);
    crate::books::lemma_books(ts, files, i, t, 0, files[0]);
}

/// A descriptor is given up for good and its file counts one less: the books stay
/// right.
proof fn lemma_given_up(ts: Seq<Task>, files: Seq<File>, i: int, t: Task, file: File)
    requires
        books(ts, files),
        0 <= i < ts.len() <= 8,
        ts[i].closed < 8,
        ts[i].files@[ts[i].closed as int] is Some,
        t == one_closed(ts[i]),
        ({
            let d = ts[i].files@[ts[i].closed as int]->0;
            file.is_let_go(files[d.file as int], d.read)
        }),
    ensures
        ({
            let d = ts[i].files@[ts[i].closed as int]->0;
            &&& books(ts.update(i, t), files.update(d.file as int, file))
            &&& lets_go(t, ts[i], d)
        }),
{
    let n = ts[i].closed as int;
    let d = ts[i].files@[n]->0;
    let f = d.file as int;
    assert(task_sound(ts[i], files));
    assert(fd_sound(ts[i].files@[n], files));
    assert forall|g: int, e: End| #[trigger] task_uses(t, g, e) == task_uses(ts[i], g, e) - held(
        Some(d),
        g,
        e,
    ) by {
        assert(t.files@.len() == 8);
    }
    lemma_fds_bound(t.files@, t.closed as int, f, End::Any);
    lemma_fds_bound(t.files@, t.closed as int, f, End::Read);
    lemma_fds_bound(t.files@, t.closed as int, f, End::Write);
    lemma_let_go(ts, files, i, t, d, file);
}

/// What a process leaves behind: the blocks of memory to be freed, and the frame of
/// its page table.
#[derive(Debug)]
pub struct Freed {
    pub blocks: Vec<Block>,
    pub table: u64,
}

/// Ends the current process once all of its descriptors are given up: its memory is
/// taken away, its parent is woken, and it is left for its parent to find.
pub fn free_task(k: &mut Kernel) -> (r: Freed)
    requires
        old(k).serving(),
        old(k).cur().closed == 8,
        old(k).cur().loading is None,
        space_full(old(k).cur()),
    ensures
        final(k).leaving(),
        r.blocks@ == all_blocks(regions(old(k).cur()), old(k).cur().pt@),
        r.table == old(k).cur().user_pt->0,
        *final(k) == (Kernel {
            cpu: Cpu { int_disables: 1, ..old(k).cpu },
            tasks: final(k).tasks,
            ..*old(k)
        }),
        is_bare(
            final(k).cur(),
            Task { state: State::Zombie, lock: Lock { held: true }, ..old(k).cur() },
        ),
        final(k).tasks@ == (match old(k).cur().parent {
            Some(p) => woken(old(k).tasks@, task_chan(p as int)),
            None => old(k).tasks@,
        }).update(old(k).at(), final(k).cur()),
{
    let i: usize = k.cpu.task_idx.unwrap();
    let ghost t0 = k.tasks@[i as int];
    proof {
        assert(slot_sound(t0, i as int));
    }
    if let Some(p) = k.tasks[i].parent {
        wakeup(k, p as u64);
    }
    let ghost ts = k.tasks@;
    let blocks: Vec<Block> = free_space(&mut k.tasks[i]);
    let table: u64 = k.tasks[i].user_pt.unwrap();
    lock(k, i);
    k.tasks[i].state = State::Zombie;
    proof {
        let t = k.tasks@[i as int];
        assert(ts[i as int] == t0);
        assert(k.tasks@ =~= ts.update(i as int, t));
        assert forall|j: int| 0 <= j < ts.len() implies same_uses(
            #[trigger] ts[j],
            k.tasks@[j],
        ) by {}
        lemma_same_books(ts, k.tasks@, k.fs.files@);
        lemma_same_space(t, Task { state: t0.state, lock: t0.lock, ..t });
    }
    Freed { blocks, table }
}

/// How waiting for a child ends: with a result, and an address at which four bytes are
/// to be set to zero, or asleep until a child ends.
#[derive(Clone, Copy, Debug, PartialEq, Eq, Structural)]
pub enum WaitStep {
    Done { ret: u64, clear: Option<u64> },
    Switch,
}

/// Whether the task in a slot is a child of the task `parent`.
pub open spec fn is_child(t: Task, parent: int) -> bool {
    t.parent matches Some(p) && p == parent
}

/// Whether `i` is the first child of the task `parent` that has ended.
pub open spec fn is_first_zombie(ts: Seq<Task>, parent: int, i: int) -> bool {
    &&& 0 <= i < ts.len()
    &&& is_child(ts[i], parent)
    &&& ts[i].state is Zombie
    &&& forall|j: int|
        0 <= j < i ==> !(is_child(#[trigger] ts[j], parent) && ts[j].state is Zombie)
}

pub open spec fn no_zombie(ts: Seq<Task>, parent: int) -> bool {
    forall|j: int|
        0 <= j < ts.len() ==> !(is_child(#[trigger] ts[j], parent) && ts[j].state is Zombie)
}

pub open spec fn no_child(ts: Seq<Task>, parent: int) -> bool {
    forall|j: int| 0 <= j < ts.len() ==> !is_child(#[trigger] ts[j], parent)
}

/// The slot of a child that has ended, free again.
pub open spec fn reaped(t: Task) -> Task {
    Task { state: State::Free, parent: None, tid: None, ..t }
}

/// Waits for a child to end, and makes its slot free; returns its process id. It is
/// called again, as `wait_woken`, after each sleep.
pub fn wait(k: &mut Kernel) -> (s: WaitStep)
    requires
        old(k).calling(),
    ensures
        waited(s, *final(k), *old(k), old(k).tasks@),
{
    let t: usize = k.cpu.task_idx.unwrap();
    let mut has_child: bool = false;
    let mut i: usize = 0;
    while i < NTASKS
        invariant
            i <= 8,
            old(k).calling(),
            *k == *old(k),
            t == old(k).at(),
            forall|j: int|
                0 <= j < i ==> !(is_child(#[trigger] k.tasks@[j], t as int)
                    && k.tasks@[j].state is Zombie),
            !has_child ==> forall|j: int|
                0 <= j < i ==> !is_child(#[trigger] k.tasks@[j], t as int),
            has_child ==> exists|j: int|
                0 <= j < i && is_child(#[trigger] k.tasks@[j], t as int),
        decreases 8 - i,
    {
        if let Some(p) = k.tasks[i].parent {
            if p == t {
                has_child = true;
                assert(is_child(k.tasks@[i as int], t as int));
                if k.tasks[i].state == State::Zombie {
                    let clear = k.tasks[i].tid;
                    k.tasks[i].state = State::Free;
                    k.tasks[i].parent = None;
                    k.tasks[i].tid = None;
                    proof {
                        let z = old(k).tasks@[i as int];
                        assert(k.tasks@ =~= old(k).tasks@.update(i as int, reaped(z)));
                        assert(slot_sound(z, i as int));
                        lemma_with_task(*k, *old(k), i as int, reaped(z));
                        assert(i != t);
                        assert(is_first_zombie(old(k).tasks@, t as int, i as int));
                        assert(!no_child(old(k).tasks@, t as int));
                    }
                    return WaitStep::Done { ret: k.tasks[i].pid as u64, clear };
                }
            }
        }
        i += 1;
    }
    if !has_child {
        return WaitStep::Done { ret: FAIL, clear: None };
    }
    fall_asleep(k, Some(t as u64), false);
    WaitStep::Switch
}

/// What `wait` does where the tasks are `ts`.
pub open spec fn waited(s: WaitStep, k: Kernel, old: Kernel, ts: Seq<Task>) -> bool {
    let at = old.at();
    &&& k == (Kernel { cpu: k.cpu, tasks: k.tasks, ..old })
    &&& k.cpu == (Cpu {
        int_disables: if s is Switch {
            1
        } else {
            0
        },
        ..old.cpu
    })
    &&& match s {
        WaitStep::Done { ret, clear } => {
            &&& k.calling()
            &&& if no_child(ts, at) {
                &&& ret == FAIL
                &&& clear is None
                &&& k.tasks@ == ts
            } else {
                exists|i: int|
                    {
                        &&& #[trigger] is_first_zombie(ts, at, i)
                        &&& ret == ts[i].pid
                        &&& clear == ts[i].tid
                        &&& k.tasks@ == ts.update(i, reaped(ts[i]))
                    }
            }
        },
        WaitStep::Switch => {
            &&& k.leaving()
            &&& !no_child(ts, at)
            &&& no_zombie(ts, at)
            &&& k.tasks@ == ts.update(at, asleep(ts[at], Some(task_chan(at))))
        },
    }
}

/// Goes on waiting after a sleep.
pub fn wait_woken(k: &mut Kernel) -> (s: WaitStep)
    requires
        old(k).entering(),
        old(k).cur().closed == 0,
    ensures
        waited(s, *final(k), *old(k), old(k).tasks@.update(old(k).at(), awake(old(k).cur()))),
{
    slept_if(k);
    wait(k)
}

/// Like `wait`: whichever child ends first.
pub fn wait4(k: &mut Kernel) -> (s: WaitStep)
    requires
        old(k).calling(),
    ensures
        waited(s, *final(k), *old(k), old(k).tasks@),
{
    wait(k)
}

/// A parent that sleeps in `wait` is woken when a child ends, and finds it.
pub proof fn law_ending_child_wakes_parent(
    before: Seq<Task>,
    after: Seq<Task>,
    child: int,
    parent: int,
)
    requires
        0 <= child < before.len(),
        0 <= parent < before.len(),
        child != parent,
        is_child(before[child], parent),
        before[parent].state is Sleeping,
        before[parent].chan == Some(task_chan(parent)),
        is_child(after[child], parent),
        after[child].state is Zombie,
        after == woken(before, task_chan(parent)).update(child, after[child]),
    ensures
        after[parent].state is Ready,
        !no_child(after, parent),
        !no_zombie(after, parent),
        exists|i: int| #[trigger] is_first_zombie(after, parent, i) && i <= child,
{
    let x = after[child];
    lemma_first_zombie(after, parent, child);
}

proof fn lemma_first_zombie(ts: Seq<Task>, parent: int, i: int)
    requires
        0 <= i < ts.len(),
        is_child(ts[i], parent),
        ts[i].state is Zombie,
    ensures
        exists|j: int| #[trigger] is_first_zombie(ts, parent, j) && j <= i,
    decreases i,
{
    if forall|j: int| 0 <= j < i ==> !(is_child(#[trigger] ts[j], parent) && ts[j].state is Zombie) {
        assert(is_first_zombie(ts, parent, i));
    } else {
        let j = choose|j: int|
            0 <= j < i && is_child(#[trigger] ts[j], parent) && ts[j].state is Zombie;
        lemma_first_zombie(ts, parent, j);
    }
}

/// A process that has ended, and a slot that is free, use no file and have no memory.
pub proof fn law_ended_process_has_nothing(k: Kernel, t: int, f: int, e: End)
    requires
        k.sound(),
        0 <= t < 8,
        k.tasks@[t].state is Free || k.tasks@[t].state is Zombie,
    ensures
        task_uses(k.tasks@[t], f, e) == 0,
        k.tasks@[t].pt@ == Map::<u64, crate::vm::Pte>::empty(),
        k.tasks@[t].program@.len() == 0,
        k.tasks@[t].brk.len == 0,
        k.tasks@[t].mmap.len == 0,
{
    let task = k.tasks@[t];
    assert(slot_sound(task, t));
    assert(space_sound(task));
    reveal(space_sound);
    assert(task.files@.len() == 8);
}

} // verus!

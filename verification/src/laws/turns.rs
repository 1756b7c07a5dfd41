//! How the tasks take turns: who gets the processor, who sleeps and who is woken, and
//! how a process ends and its parent learns of it.
use vstd::prelude::*;

use crate::exit::{exit, exit_group, free_task, wait, wait4, wait_woken, Freed, WaitStep};
use crate::kernel::{boot, init, mycpu, regions, space_full, Kernel};
use crate::laws::{lemma_me, me, others_kept, reg, rest_kept, within};
use crate::load::{forkret, Start};
use crate::proc::{alloc_user_task, create_user_task, Seed};
use crate::region::{all_blocks, lemma_blocks, Block, Region};
use crate::sched::{restore_ttbr0, resumed, sched, scheduler, sleep, sleep_if, slept};
use crate::sched::{slept_if, switched, wakeup, yielded, yild, Choice, Pass};
use crate::task::{cpuid, Cpu, Frame, Lock, State, Task, FD};
use crate::vm::{Perm, Pte};
use crate::wq::Wq;

verus! {

/// Waking a channel makes the tasks that sleep on it ready, and changes no other.
pub proof fn law_wakeup_wakes_sleepers(k: &mut Kernel, chan: u64)
    requires
        old(k).sound(),
        call_ensures(wakeup, (k, chan), ()),
    ensures
        final(k).cpu == old(k).cpu,
        final(k).fs == old(k).fs,
        final(k).first == old(k).first,
        final(k).tasks@.len() == 8,
        forall|i: int|
            0 <= i < 8 && old(k).tasks@[i].state is Sleeping && old(k).tasks@[i].chan == Some(
                chan,
            ) ==> (#[trigger] final(k).tasks@[i]).state is Ready,
        forall|i: int|
            0 <= i < 8 && !(old(k).tasks@[i].state is Sleeping && old(k).tasks@[i].chan == Some(
                chan,
            )) ==> (#[trigger] final(k).tasks@[i]) == old(k).tasks@[i],
        forall|i: int|
            0 <= i < 8 ==> (#[trigger] final(k).tasks@[i]) == (Task {
                state: final(k).tasks@[i].state,
                ..old(k).tasks@[i]
            }),
{
}

/// A task that goes to sleep on a channel is ready again when another task wakes the
/// channel, and stays asleep when it wakes a different one.
pub proof fn law_sleeper_is_woken(k: &mut Kernel, chan: u64, l: &mut Kernel, other: u64)
    requires
        old(k).sound(),
        old(k).cpu.task_idx is Some,
        call_ensures(sleep, (k, chan), ()),
        old(l).sound(),
        ({
            let i = old(k).cpu.task_idx->0 as int;
            &&& old(l).tasks@[i].state == final(k).tasks@[i].state
            &&& old(l).tasks@[i].chan == final(k).tasks@[i].chan
        }),
        call_ensures(wakeup, (l, other), ()),
    ensures
        ({
            let i = old(k).cpu.task_idx->0 as int;
            &&& final(k).tasks@[i].state is Sleeping
            &&& other == chan ==> final(l).tasks@[i].state is Ready
            &&& other != chan ==> final(l).tasks@[i].state is Sleeping
        }),
{
}

/// A task that goes to sleep holds its lock until the processor has left it, and keeps
/// all else.
pub proof fn law_sleeper_keeps_its_lock(k: &mut Kernel, chan: u64)
    requires
        old(k).sound(),
        old(k).cpu.task_idx is Some,
        call_ensures(sleep, (k, chan), ()),
    ensures
        me(*final(k)).state is Sleeping,
        me(*final(k)).chan == Some(chan),
        me(*final(k)).lock.held,
        me(*final(k)) == (Task {
            state: me(*final(k)).state,
            chan: me(*final(k)).chan,
            lock: me(*final(k)).lock,
            ..me(*old(k))
        }),
        rest_kept(*final(k), *old(k)),
{
}

/// A task that goes on after sleeping sleeps on nothing, and has given up its lock.
pub proof fn law_sleeper_goes_on(k: &mut Kernel)
    requires
        old(k).entering(),
        call_ensures(slept, (k,), ()),
    ensures
        me(*final(k)).state is Running,
        me(*final(k)).chan is None,
        !me(*final(k)).lock.held,
        me(*final(k)) == (Task {
            chan: me(*final(k)).chan,
            lock: me(*final(k)).lock,
            ..me(*old(k))
        }),
        rest_kept(*final(k), *old(k)),
{
}

/// A task sleeps on a condition only where the condition holds, and on no channel.
pub proof fn law_sleep_if_asks_first(k: &mut Kernel, cond: bool, r: bool)
    requires
        old(k).serving(),
        call_ensures(sleep_if, (k, cond), r),
    ensures
        r == cond,
        !cond ==> *final(k) == *old(k),
        cond ==> {
            let t = me(*final(k));
            &&& t.state is Sleeping
            &&& t.chan is None
            &&& t.lock.held
            &&& t == (Task { state: t.state, chan: t.chan, lock: t.lock, ..me(*old(k)) })
            &&& final(k).cpu.int_disables == 1
            &&& final(k).cpu.task_idx == old(k).cpu.task_idx
            &&& others_kept(*final(k), *old(k))
            &&& final(k).fs == old(k).fs
        },
{
    lemma_me(*old(k));
}

/// A task that goes on after sleeping on a condition serves its program again.
pub proof fn law_sleep_if_ends(k: &mut Kernel)
    requires
        old(k).entering(),
        call_ensures(slept_if, (k,), ()),
    ensures
        me(*final(k)).state is Running,
        me(*final(k)).chan is None,
        !me(*final(k)).lock.held,
        final(k).cpu.int_disables == 0,
        final(k).cpu.task_idx == old(k).cpu.task_idx,
        others_kept(*final(k), *old(k)),
        final(k).fs == old(k).fs,
        me(*final(k)) == (Task {
            chan: me(*final(k)).chan,
            lock: me(*final(k)).lock,
            ..me(*old(k))
        }),
{
}

/// A task that gives up its turn can run again, and goes on as it was.
pub proof fn law_yield_and_back(k: &mut Kernel, l: &mut Kernel)
    requires
        old(k).serving(),
        call_ensures(yild, (k,), ()),
        old(l).entering(),
        old(l).cpu.task_idx == old(k).cpu.task_idx,
        me(*old(l)) == (Task { state: State::Running, ..me(*final(k)) }),
        call_ensures(yielded, (l,), ()),
    ensures
        me(*final(k)).state is Ready,
        me(*final(k)).lock.held,
        others_kept(*final(k), *old(k)),
        me(*final(l)) == me(*old(k)),
        others_kept(*final(l), *old(l)),
        final(l).cpu.int_disables == 0,
{
    lemma_me(*old(k));
    assert(!old(k).tasks@[old(k).at()].lock.held);
    assert(me(*final(l)).lock == me(*old(k)).lock);
}

/// The scheduler hands the processor to the next task that can run. A task that can run
/// is passed over by none.
pub proof fn law_scheduler_runs_next_ready(k: &mut Kernel, pass: &mut Pass, c: Choice)
    requires
        old(k).choosing(),
        old(pass).next <= 8,
        call_ensures(scheduler, (k, pass), c),
    ensures
        (exists|i: int|
            old(pass).next <= i < 8 && (#[trigger] old(k).tasks@[i]).state is Ready) <==> c is Run,
        match c {
            Choice::Run(i) => {
                &&& old(pass).next <= i < 8
                &&& old(k).tasks@[i as int].state is Ready
                &&& forall|j: int|
                    old(pass).next <= j < i ==> !((#[trigger] old(k).tasks@[j]).state is Ready)
                &&& final(k).cpu.task_idx == Some(i)
                &&& final(k).tasks@[i as int].state is Running
                &&& final(k).tasks@[i as int].lock.held
                &&& final(k).tasks@[i as int] == (Task {
                    state: final(k).tasks@[i as int].state,
                    lock: final(k).tasks@[i as int].lock,
                    ..old(k).tasks@[i as int]
                })
                &&& forall|j: int|
                    0 <= j < 8 && j != i ==> #[trigger] final(k).tasks@[j] == old(k).tasks@[j]
                &&& final(pass).next == i + 1
                &&& final(pass).found
            },
            Choice::Again => old(pass).found && final(pass).next == 0 && !final(pass).found
                && *final(k) == *old(k),
            Choice::Idle => !old(pass).found && final(pass).next == 0 && !final(pass).found
                && *final(k) == *old(k),
        },
{
}

/// When a task has left the processor it has given up its lock, nobody has the
/// processor, and the page table is still the task's.
pub proof fn law_left_task_is_unlocked(k: &mut Kernel, v: u64)
    requires
        old(k).leaving(),
        call_ensures(switched, (k,), v),
    ensures
        final(k).cpu.task_idx is None,
        final(k).cpu.int_disables == 0,
        ({
            let i = old(k).cpu.task_idx->0 as int;
            &&& !final(k).tasks@[i].lock.held
            &&& final(k).tasks@[i] == (Task { lock: final(k).tasks@[i].lock, ..me(*old(k)) })
            &&& forall|j: int|
                0 <= j < 8 && j != i ==> #[trigger] final(k).tasks@[j] == old(k).tasks@[j]
        }),
        v == ((me(*old(k)).pid as u64) << 48) | me(*old(k)).user_pt->0,
        final(k).fs == old(k).fs,
{
}

/// A task that gets the processor gets its own page table, under its process number.
pub proof fn law_page_table_is_the_tasks(k: &Kernel, v: u64, i: usize)
    requires
        k.entering(),
        call_ensures(resumed, (k,), v),
        call_ensures(sched, (k,), i),
    ensures
        v == ((me(*k).pid as u64) << 48) | me(*k).user_pt->0,
        Some(i) == k.cpu.task_idx,
{
}

/// The first task that runs starts the first program, and no other does.
pub proof fn law_first_program_starts_once(k: &mut Kernel, s: Start)
    requires
        old(k).entering(),
        call_ensures(forkret, (k,), s),
    ensures
        s.launch == old(k).first,
        !final(k).first,
        s.ttbr0 == ((me(*old(k)).pid as u64) << 48) | me(*old(k)).user_pt->0,
        !me(*final(k)).lock.held,
        me(*final(k)) == (Task { lock: me(*final(k)).lock, ..me(*old(k)) }),
        others_kept(*final(k), *old(k)),
        final(k).cpu.task_idx == old(k).cpu.task_idx,
        final(k).cpu.int_disables == 0,
        final(k).fs == old(k).fs,
{
}

/// A process that ends keeps the code that it ends with, and nothing else has changed
/// yet. It makes no difference which of the two calls it makes.
pub proof fn law_exit_code_is_kept(k: &mut Kernel, l: &mut Kernel)
    requires
        old(k).calling(),
        *old(l) == *old(k),
        call_ensures(exit, (k,), ()),
        call_ensures(exit_group, (l,), ()),
    ensures
        me(*final(k)).exit_code == reg(*old(k), 0),
        me(*final(k)) == (Task { exit_code: me(*final(k)).exit_code, ..me(*old(k)) }),
        rest_kept(*final(k), *old(k)),
        me(*final(l)) == me(*final(k)),
        rest_kept(*final(l), *old(l)),
{
    lemma_me(*old(k));
}

/// A process that has ended has no memory left, keeps its code and its parent, and has
/// woken its parent.
pub proof fn law_ended_process_wakes_its_parent(k: &mut Kernel, r: Freed)
    requires
        old(k).serving(),
        call_ensures(free_task, (k,), r),
    ensures
        ({
            let (t, t0) = (me(*final(k)), me(*old(k)));
            &&& t.state is Zombie
            &&& t.lock.held
            &&& t.exit_code == t0.exit_code
            &&& t.pid == t0.pid
            &&& t.parent == t0.parent
            &&& t.tid == t0.tid
            &&& t.user_sp is None
            &&& t.program@.len() == 0
            &&& t.brk.len == 0
            &&& t.mmap.len == 0
            &&& forall|a: u64| !#[trigger] t.pt@.contains_key(a)
            &&& t.files == t0.files
            &&& r.table == t0.user_pt->0
            &&& final(k).cpu.int_disables == 1
            &&& final(k).cpu.task_idx == old(k).cpu.task_idx
            &&& final(k).fs == old(k).fs
        }),
        forall|i: int|
            0 <= i < 8 && old(k).cpu.task_idx != Some(i as usize)
                ==> (#[trigger] final(k).tasks@[i]) == (Task {
                state: if old(k).tasks@[i].state is Sleeping && me(*old(k)).parent is Some
                    && old(k).tasks@[i].chan == Some(me(*old(k)).parent->0 as u64) {
                    State::Ready
                } else {
                    old(k).tasks@[i].state
                },
                ..old(k).tasks@[i]
            }),
{
    lemma_me(*old(k));
}

/// Every frame of a process that has ended is given back.
pub proof fn law_ended_process_gives_back_frames(k: &mut Kernel, r: Freed, a: u64)
    requires
        old(k).serving(),
        space_full(me(*old(k))),
        a % 4096 == 0,
        ({
            let t = me(*old(k));
            ||| within(a as int, t.brk.vaddr as int, t.brk.len as int)
            ||| within(a as int, t.mmap.vaddr as int, t.mmap.len as int)
            ||| exists|i: int|
                0 <= i < t.program@.len() && within(
                    a as int,
                    (#[trigger] t.program@[i]).vaddr as int,
                    t.program@[i].len as int,
                )
        }),
        call_ensures(free_task, (k,), r),
    ensures
        r.blocks@.contains(Block { p: me(*old(k)).pt@[a].p, size: 4096 }),
{
    lemma_me(*old(k));
    let t = me(*old(k));
    let rs = regions(t);
    let n = t.program@.len() as int;
    reveal(space_full);
    reveal(crate::kernel::space_sound);
    lemma_blocks();
    assert(rs[n + 1] == t.brk && rs[n + 2] == t.mmap);
    let j = if within(a as int, t.brk.vaddr as int, t.brk.len as int) {
        n + 1
    } else if within(a as int, t.mmap.vaddr as int, t.mmap.len as int) {
        n + 2
    } else {
        choose|i: int|
            0 <= i < t.program@.len() && within(
                a as int,
                (#[trigger] t.program@[i]).vaddr as int,
                t.program@[i].len as int,
            )
    };
    assert(rs[j].granule == 0) by {
        if j < n {
            assert(rs[j] == t.program@[j]);
            assert(t.program@[j].granule == 0);
        }
    }
    assert(rs[j].whole());
    lemma_block_is_freed(rs, t.pt@, j, a);
}

/// The frame behind each page of a region is among its blocks.
pub proof fn lemma_block_is_freed(rs: Seq<Region>, m: Map<u64, Pte>, j: int, a: u64)
    requires
        0 <= j < rs.len(),
        rs[j].granule == 0,
        rs[j].vaddr % 4096 == 0,
        rs[j].len % 4096 == 0,
        a % 4096 == 0,
        within(a as int, rs[j].vaddr as int, rs[j].len as int),
    ensures
        all_blocks(rs, m).contains(Block { p: m[a].p, size: 4096 }),
    decreases rs.len(),
{
    lemma_blocks();
    let init = rs.drop_last();
    let last = rs.last().blocks(m);
    let b = Block { p: m[a].p, size: 4096 };
    if j < init.len() {
        lemma_block_is_freed(init, m, j, a);
        let x = choose|x: int| 0 <= x < all_blocks(init, m).len() && all_blocks(init, m)[x] == b;
        assert(all_blocks(rs, m)[x] == b);
    } else {
        let r = rs[j];
        assert(r.blk() == 4096);
        let x = (a - r.vaddr) / 4096;
        assert(r.vaddr + x * 4096 == a);
        assert(x < r.len / 4096);
        assert(last[x] == b);
        assert(all_blocks(rs, m)[all_blocks(init, m).len() + x] == b);
    }
}

/// The bytes that regions have together.
pub open spec fn bytes_of(rs: Seq<Region>) -> int
    decreases rs.len(),
{
    if rs.len() == 0 {
        0
    } else {
        bytes_of(rs.drop_last()) + rs.last().len
    }
}

pub proof fn lemma_all_blocks_len(rs: Seq<Region>, m: Map<u64, Pte>)
    requires
        forall|i: int|
            0 <= i < rs.len() ==> (#[trigger] rs[i]).granule == 0 && rs[i].len % 4096 == 0,
    ensures
        4096 * all_blocks(rs, m).len() == bytes_of(rs),
    decreases rs.len(),
{
    lemma_blocks();
    if rs.len() > 0 {
        let r = rs[rs.len() - 1];
        assert(r.granule == 0 && r.len % 4096 == 0);
        assert(r.blk() == 4096);
        lemma_all_blocks_len(rs.drop_last(), m);
    }
}

/// A process that has ended gives back a block for each page of its program, its heap
/// and its mapped memory, one block for its stack, and no more.
pub proof fn law_ended_process_gives_back_no_more(k: &mut Kernel, r: Freed)
    requires
        old(k).serving(),
        space_full(me(*old(k))),
        call_ensures(free_task, (k,), r),
    ensures
        ({
            let t = me(*old(k));
            &&& 4096 * (r.blocks@.len() - 1) == bytes_of(t.program@) + t.brk.len + t.mmap.len
            &&& r.blocks@.contains(Block { p: t.pt@[0x2_0000_0000].p, size: 8192 })
        }),
{
    lemma_me(*old(k));
    let t = me(*old(k));
    let m = t.pt@;
    reveal(space_full);
    reveal(crate::kernel::space_sound);
    lemma_blocks();
    let rs = regions(t);
    let n = t.program@.len() as int;
    let (a, b, c) = (t.program@.push(t.spel0), t.program@.push(t.spel0).push(t.brk), rs);
    assert(c.drop_last() =~= b && c.last() == t.mmap);
    assert(b.drop_last() =~= a && b.last() == t.brk);
    assert(a.drop_last() =~= t.program@ && a.last() == t.spel0);
    assert forall|i: int| 0 <= i < n implies (#[trigger] t.program@[i]).granule == 0
        && t.program@[i].len % 4096 == 0 by {
        assert(rs[i] == t.program@[i]);
        assert(rs[i].whole());
    }
    lemma_all_blocks_len(t.program@, m);
    assert(rs[n + 1].whole() && rs[n + 2].whole());
    assert(t.brk.blk() == 4096 && t.mmap.blk() == 4096);
    assert(t.spel0.blk() == 8192);
    assert(t.spel0.blocks(m).len() == 1);
    let x = all_blocks(t.program@, m).len() as int;
    assert(t.spel0.blocks(m)[0] == (Block { p: m[0x2_0000_0000].p, size: 8192 }));
    assert(all_blocks(a, m)[x] == t.spel0.blocks(m)[0]);
    assert(all_blocks(b, m)[x] == t.spel0.blocks(m)[0]);
    assert(all_blocks(c, m)[x] == t.spel0.blocks(m)[0]);
}

/// A process that waits gets the first of its children that has ended, whose slot is
/// free then; where it has children and none has ended, it sleeps; where it has none, it
/// is told so.
pub open spec fn has_waited(s: WaitStep, k: Kernel, ts: Seq<Task>, at: int) -> bool {
    &&& k.tasks@.len() == 8
    &&& k.cpu.task_idx == Some(at as usize)
    &&& k.cpu.int_disables == if s is Switch {
        1u32
    } else {
        0
    }
    &&& match s {
        WaitStep::Done { ret, clear } => {
            ||| {
                &&& forall|i: int| 0 <= i < 8 ==> (#[trigger] ts[i]).parent != Some(at as usize)
                &&& ret == 0xffff_ffff_ffff_ffff
                &&& clear is None
                &&& k.tasks@ == ts
            }
            ||| exists|i: int|
                {
                    &&& 0 <= i < 8
                    &&& (#[trigger] ts[i]).state is Zombie
                    &&& ts[i].parent == Some(at as usize)
                    &&& forall|j: int|
                        0 <= j < i ==> !((#[trigger] ts[j]).state is Zombie && ts[j].parent == Some(
                            at as usize,
                        ))
                    &&& ret == ts[i].pid
                    &&& clear == ts[i].tid
                    &&& k.tasks@[i].state is Free
                    &&& k.tasks@[i].parent is None
                    &&& k.tasks@[i].tid is None
                    &&& k.tasks@[i] == (Task {
                        state: k.tasks@[i].state,
                        parent: k.tasks@[i].parent,
                        tid: k.tasks@[i].tid,
                        ..ts[i]
                    })
                    &&& forall|j: int| 0 <= j < 8 && j != i ==> #[trigger] k.tasks@[j] == ts[j]
                }
        },
        WaitStep::Switch => {
            &&& exists|i: int| 0 <= i < 8 && (#[trigger] ts[i]).parent == Some(at as usize)
            &&& forall|i: int|
                0 <= i < 8 && (#[trigger] ts[i]).parent == Some(at as usize) ==> !(
                ts[i].state is Zombie)
            &&& k.tasks@[at].state is Sleeping
            &&& k.tasks@[at].chan == Some(at as u64)
            &&& k.tasks@[at].lock.held
            &&& k.tasks@[at] == (Task {
                state: k.tasks@[at].state,
                chan: k.tasks@[at].chan,
                lock: k.tasks@[at].lock,
                ..ts[at]
            })
            &&& forall|j: int| 0 <= j < 8 && j != at ==> #[trigger] k.tasks@[j] == ts[j]
        },
    }
}

/// Waiting gives the first child that has ended.
pub proof fn law_wait_finds_ended_child(k: &mut Kernel, l: &mut Kernel, s: WaitStep, u: WaitStep)
    requires
        old(k).calling(),
        *old(l) == *old(k),
        call_ensures(wait, (k,), s),
        call_ensures(wait4, (l,), u),
    ensures
        has_waited(s, *final(k), old(k).tasks@, old(k).cpu.task_idx->0 as int),
        has_waited(u, *final(l), old(l).tasks@, old(l).cpu.task_idx->0 as int),
        final(k).fs == old(k).fs,
        final(l).fs == old(l).fs,
{
    lemma_me(*old(k));
    lemma_waited(s, *final(k), *old(k), old(k).tasks@);
    lemma_waited(u, *final(l), *old(l), old(l).tasks@);
}

/// Waiting that has been woken looks again.
pub proof fn law_woken_wait_looks_again(k: &mut Kernel, s: WaitStep)
    requires
        old(k).entering(),
        call_ensures(wait_woken, (k,), s),
    ensures
        ({
            let at = old(k).cpu.task_idx->0 as int;
            has_waited(
                s,
                *final(k),
                old(k).tasks@.update(
                    at,
                    Task { chan: None, lock: Lock { held: false }, ..me(*old(k)) },
                ),
                at,
            )
        }),
{
    let at = old(k).cpu.task_idx->0 as int;
    let ts = old(k).tasks@.update(
        at,
        Task { chan: None, lock: Lock { held: false }, ..me(*old(k)) },
    );
    lemma_waited(s, *final(k), *old(k), ts);
}

#[verifier::rlimit(40)]
proof fn lemma_waited(s: WaitStep, k: Kernel, old: Kernel, ts: Seq<Task>)
    requires
        crate::exit::waited(s, k, old, ts),
        ts.len() == 8,
        old.cpu.task_idx is Some,
        old.cpu.task_idx->0 < 8,
    ensures
        has_waited(s, k, ts, old.cpu.task_idx->0 as int),
{
    let at = old.cpu.task_idx->0 as int;
    match s {
        WaitStep::Done { ret, clear } => {
            if crate::exit::no_child(ts, at) {
                assert forall|i: int| 0 <= i < 8 implies (#[trigger] ts[i]).parent != Some(
                    at as usize,
                ) by {
                    assert(!crate::exit::is_child(ts[i], at));
                }
            } else {
                let i = choose|i: int|
                    {
                        &&& #[trigger] crate::exit::is_first_zombie(ts, at, i)
                        &&& ret == ts[i].pid
                        &&& clear == ts[i].tid
                        &&& k.tasks@ == ts.update(i, crate::exit::reaped(ts[i]))
                    };
                assert(ts[i].state is Zombie);
                assert forall|j: int| 0 <= j < i implies !((#[trigger] ts[j]).state is Zombie
                    && ts[j].parent == Some(at as usize)) by {
                    assert(!(crate::exit::is_child(ts[j], at) && ts[j].state is Zombie));
                }
            }
        },
        WaitStep::Switch => {
            let i = choose|i: int| 0 <= i < ts.len() && crate::exit::is_child(#[trigger] ts[i], at);
            assert(ts[i].parent == Some(at as usize));
            assert forall|i: int|
                0 <= i < 8 && (#[trigger] ts[i]).parent == Some(at as usize) implies !(
            ts[i].state is Zombie) by {
                assert(!(crate::exit::is_child(ts[i], at) && ts[i].state is Zombie));
            }
        },
    }
}

/// A parent that sleeps until a child ends is ready again when one of its children has
/// ended.
pub proof fn law_waiting_parent_is_woken(k: &mut Kernel, l: &mut Kernel, r: Freed)
    requires
        old(k).calling(),
        call_ensures(wait, (k,), WaitStep::Switch),
        old(l).serving(),
        old(l).cpu.task_idx != old(k).cpu.task_idx,
        me(*old(l)).parent == old(k).cpu.task_idx,
        ({
            let i = old(k).cpu.task_idx->0 as int;
            &&& old(l).tasks@[i].state == final(k).tasks@[i].state
            &&& old(l).tasks@[i].chan == final(k).tasks@[i].chan
        }),
        call_ensures(free_task, (l,), r),
    ensures
        final(k).tasks@[old(k).cpu.task_idx->0 as int].state is Sleeping,
        final(l).tasks@[old(k).cpu.task_idx->0 as int].state is Ready,
        me(*final(l)).state is Zombie,
{
    lemma_me(*old(k));
    lemma_me(*old(l));
}

/// Whether a task has been set up in a slot: it has its own page table, a stack to be
/// read and written, and goes on in the kernel where it is told to.
pub open spec fn is_new(t: Task, was: Task, i: int, seed: Seed) -> bool {
    &&& t.pid == i
    &&& t.user_pt == Some(seed.user_pt)
    &&& t.user_sp == Some(seed.user_sp)
    &&& t.sp_el1 == was.sp_el1
    &&& t.trapframe == was.sp_el1 + 8192 - 272
    &&& t.ctx@[12] == t.trapframe
    &&& t.ctx@[13] == seed.forkret
    &&& t.frame.pstate == 0
    &&& t.closed == 0
    &&& t.parent == was.parent
    &&& t.brk == was.brk
    &&& t.mmap == was.mmap
    &&& t.pt@.contains_key(0x2_0000_0000)
    &&& t.pt@[0x2_0000_0000].p == seed.user_sp
    &&& t.pt@[0x2_0000_0000].perm == Perm::PrPwUrUw
    &&& t.pt@.contains_key(0x2_0000_1000)
    &&& t.pt@[0x2_0000_1000].p == seed.user_sp + 4096
    &&& t.pt@[0x2_0000_1000].perm == Perm::PrPwUrUw
    &&& forall|a: u64| #[trigger]
        t.pt@.contains_key(a) ==> a == 0x2_0000_0000 || a == 0x2_0000_1000
}

proof fn lemma_new_task(t: Task, was: Task, old: Task, i: int, seed: Seed, files: Seq<Option<FD>>)
    requires
        t.is_set_up(old, seed.user_pt, seed.user_sp, seed.forkret, files),
        old.pid == i,
        old == (Task { pid: old.pid, state: old.state, lock: old.lock, ..was }),
        was.sp_el1 + 8192 <= u64::MAX,
        seed.user_sp + 8192 <= u64::MAX,
    ensures
        is_new(t, was, i, seed),
{
    let m = t.pt@;
    assert(crate::vm::in_pages(0x2_0000_0000, 0x2_0000_0000, 8192));
    assert(crate::vm::in_pages(0x2_0000_1000, 0x2_0000_0000, 8192));
    assert forall|a: u64| #[trigger] m.contains_key(a) implies a == 0x2_0000_0000 || a
        == 0x2_0000_1000 by {
        assert(crate::vm::in_pages(a, 0x2_0000_0000, 8192));
    }
}

/// A new task is made in the first free slot, unless there is none.
pub proof fn law_new_task_takes_first_slot(k: &mut Kernel, seed: Seed, r: Option<usize>)
    requires
        old(k).sound(),
        forall|i: int| 0 <= i < 8 ==> (#[trigger] old(k).tasks@[i]).sp_el1 + 8192 <= u64::MAX,
        seed.user_sp + 8192 <= u64::MAX,
        call_ensures(alloc_user_task, (k, seed), r),
    ensures
        match r {
            Some(c) => {
                let t = final(k).tasks@[c as int];
                &&& c < 8
                &&& old(k).tasks@[c as int].state is Free
                &&& forall|j: int| 0 <= j < c ==> !((#[trigger] old(k).tasks@[j]).state is Free)
                &&& t.state is Used
                &&& t.lock.held
                &&& is_new(t, old(k).tasks@[c as int], c as int, seed)
                &&& forall|j: int| 0 <= j < 8 ==> (#[trigger] t.files@[j]) is None
                &&& forall|j: int|
                    0 <= j < 8 && j != c ==> #[trigger] final(k).tasks@[j] == old(k).tasks@[j]
                &&& final(k).fs == old(k).fs
            },
            None => {
                &&& forall|j: int| 0 <= j < 8 ==> !((#[trigger] old(k).tasks@[j]).state is Free)
                &&& *final(k) == *old(k)
            },
        },
{
    if r is Some {
        let c = r->0 as int;
        let was = old(k).tasks@[c];
        lemma_new_task(
            final(k).tasks@[c],
            was,
            Task { state: State::Used, pid: c as u16, lock: Lock { held: true }, ..was },
            c,
            seed,
            crate::task::no_files(),
        );
    }
}

/// The first process has its three standard descriptors on three files of its own, each
/// on a console, and can run.
pub proof fn law_first_process_has_consoles(
    k: &mut Kernel,
    seed: Seed,
    cons: [u32; 3],
    r: (usize, [usize; 3]),
)
    requires
        old(k).choosing(),
        forall|i: int| 0 <= i < 8 ==> (#[trigger] old(k).tasks@[i]).sp_el1 + 8192 <= u64::MAX,
        seed.user_sp + 8192 <= u64::MAX,
        call_ensures(create_user_task, (k, seed, cons), r),
    ensures
        ({
            let c = r.0 as int;
            let t = final(k).tasks@[c];
            &&& 0 <= c < 8
            &&& old(k).tasks@[c].state is Free
            &&& forall|j: int| 0 <= j < c ==> !((#[trigger] old(k).tasks@[j]).state is Free)
            &&& t.state is Ready
            &&& is_new(t, old(k).tasks@[c], c, seed)
            &&& forall|j: int|
                0 <= j < 8 && j != c ==> #[trigger] final(k).tasks@[j] == old(k).tasks@[j]
            &&& forall|j: int|
                0 <= j < 3 ==> {
                    let f = #[trigger] r.1@[j] as int;
                    &&& t.files@[j] == Some(FD { file: r.1@[j], read: true, write: true })
                    &&& 0 <= f < 128
                    &&& old(k).fs.files@[f].kind is Unused
                    &&& final(k).fs.files@[f].kind == crate::file::FileKind::Cons(cons@[j])
                    &&& final(k).fs.files@[f].rc == 1
                }
            &&& r.1@[0] < r.1@[1] < r.1@[2]
            &&& forall|j: int| 3 <= j < 8 ==> (#[trigger] t.files@[j]) is None
            &&& forall|f: int|
                0 <= f < 128 && f != r.1@[0] && f != r.1@[1] && f != r.1@[2]
                    ==> #[trigger] final(k).fs.files@[f] == old(k).fs.files@[f]
        }),
{
    let c = r.0 as int;
    let was = old(k).tasks@[c];
    lemma_new_task(
        final(k).tasks@[c],
        was,
        Task { state: State::Ready, pid: c as u16, ..was },
        c,
        seed,
        final(k).tasks@[c].files@,
    );
}

/// A task that sleeps in a queue is ready again when the queue is woken, after which the
/// queue is empty. A task that is not in the queue sleeps on.
pub proof fn law_queue_wakes_its_sleepers(
    q: &mut Wq,
    k: &mut Kernel,
    p: &mut Wq,
    l: &mut Kernel,
    j: int,
)
    requires
        old(q).sound(),
        old(k).sound(),
        old(k).cpu.task_idx is Some,
        call_ensures(Wq::sleep, (q, k), ()),
        *old(p) == *final(q),
        old(l).sound(),
        ({
            let i = old(k).cpu.task_idx->0 as int;
            old(l).tasks@[i].state == final(k).tasks@[i].state
        }),
        0 <= j < 8,
        call_ensures(Wq::wake_all, (p, l), ()),
    ensures
        ({
            let i = old(k).cpu.task_idx->0 as int;
            &&& final(k).tasks@[i].state is Sleeping
            &&& final(l).tasks@[i].state is Ready
        }),
        final(p).count == 0,
        (forall|x: int| 0 <= x < old(q).count ==> (#[trigger] old(q).tasks@[x]) != Some(
            j as usize,
        )) && old(k).cpu.task_idx != Some(j as usize) ==> final(l).tasks@[j] == old(l).tasks@[j],
        (exists|x: int| 0 <= x < old(q).count && (#[trigger] old(q).tasks@[x]) == Some(j as usize))
            && old(l).tasks@[j].state is Sleeping ==> final(l).tasks@[j].state is Ready,
{
    let i = old(k).cpu.task_idx->0;
    let w = old(q).waiting();
    let v = old(p).waiting();
    assert(v.contains(i)) by {
        if !w.contains(i) {
            assert(v[w.len() as int] == i);
        }
    }
    if exists|x: int| 0 <= x < old(q).count && (#[trigger] old(q).tasks@[x]) == Some(j as usize) {
        let x = choose|x: int|
            0 <= x < old(q).count && (#[trigger] old(q).tasks@[x]) == Some(j as usize);
        assert(w[x] == j as usize);
        assert(v[x] == j as usize);
    }
    if (forall|x: int|
        0 <= x < old(q).count ==> (#[trigger] old(q).tasks@[x]) != Some(j as usize))
        && old(k).cpu.task_idx != Some(j as usize) {
        if v.contains(j as usize) {
            let y = choose|y: int| 0 <= y < v.len() && v[y] == j as usize;
            if y < w.len() {
                assert(w[y] == v[y]);
                assert(old(q).tasks@[y] is Some);
                assert(old(q).tasks@[y] == Some(w[y]));
            }
        }
    }
}

/// A kernel that starts has free slots for tasks and files only, nobody on the processor
/// and the first program still to be started; then each slot gets its stack.
pub proof fn law_kernel_starts_empty(k: Kernel, l: &mut Kernel, stacks: &[u64; 8])
    requires
        call_ensures(boot, (), k),
        *old(l) == k,
        call_ensures(init, (l, stacks), ()),
    ensures
        k.first,
        k.cpu.task_idx is None,
        k.cpu.int_disables == 0,
        forall|i: int|
            0 <= i < 8 ==> {
                let t = #[trigger] k.tasks@[i];
                &&& t.state is Free
                &&& t.parent is None
                &&& !t.lock.held
                &&& t.user_sp is None
                &&& t.loading is None
                &&& t.cwd is None
                &&& t.umask == 777
                &&& t.program@.len() == 0
                &&& t.brk.vaddr == 0x8000_0000 && t.brk.len == 0 && t.brk.flags == 6
                &&& t.mmap.vaddr == 0x4000_0000 && t.mmap.len == 0 && t.mmap.flags == 6
                &&& t.spel0.vaddr == 0x2_0000_0000 && t.spel0.len == 8192 && t.spel0.flags == 6
                &&& forall|j: int| 0 <= j < 8 ==> (#[trigger] t.files@[j]) is None
                &&& forall|a: u64| !#[trigger] t.pt@.contains_key(a)
            },
        forall|f: int|
            0 <= f < 128 ==> (#[trigger] k.fs.files@[f]).kind is Unused && k.fs.files@[f].rc == 0,
        forall|i: int|
            0 <= i < 8 ==> (#[trigger] final(l).tasks@[i]) == (Task {
                sp_el1: stacks@[i],
                ..k.tasks@[i]
            }),
        final(l).fs == k.fs,
        final(l).cpu == k.cpu,
        final(l).first == k.first,
{
}

/// A slot for a task that has never been used is free, and its registers are zero.
pub proof fn law_new_slot_is_free(t: Task, f: Frame, u: &mut Task, sp: u64)
    requires
        call_ensures(Task::zeroed, (), t),
        call_ensures(Frame::zeroed, (), f),
        call_ensures(Task::init, (u, sp), ()),
    ensures
        t.state is Free,
        t.pid == 0,
        t.parent is None,
        t.chan is None,
        t.user_pt is None,
        t.frame.pc == 0 && t.frame.sp_el0 == 0 && t.frame.pstate == 0,
        forall|i: int| 0 <= i < 31 ==> #[trigger] t.frame.regs@[i] == 0,
        forall|i: int| 0 <= i < 15 ==> #[trigger] t.ctx@[i] == 0,
        f.pc == 0 && f.sp_el0 == 0 && f.pstate == 0,
        forall|i: int| 0 <= i < 31 ==> #[trigger] f.regs@[i] == 0,
        final(u).sp_el1 == sp,
        *final(u) == (Task { sp_el1: sp, ..*old(u) }),
{
}

/// A task that is set up for a program has its trap frame at the top of its kernel stack.
pub proof fn law_task_is_set_up(t: &mut Task, pt: u64, sp: u64, start: u64, f: Option<&Frame>)
    requires
        old(t).sp_el1 + 8192 <= u64::MAX,
        sp + 8192 <= u64::MAX,
        call_ensures(Task::init_user, (t, pt, sp, start), ()),
        call_ensures(Task::get_trap_frame, (&*final(t),), f),
    ensures
        is_new(
            *final(t),
            *old(t),
            old(t).pid as int,
            Seed { user_pt: pt, user_sp: sp, forkret: start },
        ),
        final(t).state == old(t).state,
        forall|j: int| 0 <= j < 8 ==> (#[trigger] final(t).files@[j]) is None,
        final(t).trapframe != 0 ==> f == Some(&final(t).frame),
        final(t).trapframe == 0 ==> f is None,
{
    lemma_new_task(
        *final(t),
        *old(t),
        *old(t),
        old(t).pid as int,
        Seed { user_pt: pt, user_sp: sp, forkret: start },
        crate::task::no_files(),
    );
}

/// The page table of a task stands in the low bits of the translation base register, and
/// the task's number in the high ones.
pub proof fn law_table_and_number_are_put_together(i: u64, pt: u64, v: u64)
    requires
        i < 0x1_0000,
        pt < 0x1_0000_0000_0000,
        call_ensures(restore_ttbr0, (i, pt), v),
    ensures
        v == i * 0x1_0000_0000_0000 + pt,
{
    assert((i << 48) | pt == i * 0x1_0000_0000_0000 + pt) by (bit_vector)
        requires
            i < 0x1_0000,
            pt < 0x1_0000_0000_0000,
    ;
}

/// A new queue is empty, and a task that goes on after sleeping in one has given up its
/// lock.
pub proof fn law_new_queue_is_empty(q: Wq, k: &mut Kernel)
    requires
        call_ensures(Wq::new, (), q),
        old(k).entering(),
        call_ensures(Wq::slept, (k,), ()),
    ensures
        q.count == 0,
        forall|i: int| 0 <= i < 8 ==> (#[trigger] q.tasks@[i]) is None,
        !me(*final(k)).lock.held,
        me(*final(k)) == (Task { lock: me(*final(k)).lock, ..me(*old(k)) }),
        rest_kept(*final(k), *old(k)),
{
}

/// The kernel runs on one processor, which tells its task; a lock tells whether it is
/// held.
pub proof fn law_processor_tells_its_task(
    n: usize,
    c: &mut Cpu,
    daif: u64,
    t: Option<usize>,
    l: Lock,
    b: bool,
)
    requires
        call_ensures(cpuid, (), n),
        old(c).int_disables < u32::MAX,
        call_ensures(Cpu::get_task, (c, daif), t),
        call_ensures(Lock::holding, (&l,), b),
    ensures
        n == 0,
        t == old(c).task_idx,
        final(c).task_idx == old(c).task_idx,
        final(c).int_disables == old(c).int_disables,
        b == l.held,
{
}

/// A task that goes to sleep in a queue holds its lock until the processor has left it,
/// and sleeps on no channel.
pub proof fn law_queued_task_sleeps(q: &mut Wq, k: &mut Kernel)
    requires
        old(q).sound(),
        old(k).sound(),
        old(k).cpu.task_idx is Some,
        call_ensures(Wq::sleep, (q, k), ()),
    ensures
        ({
            let t = me(*final(k));
            &&& t.state is Sleeping
            &&& t.chan is None
            &&& t.lock.held
            &&& t == (Task { state: t.state, chan: t.chan, lock: t.lock, ..me(*old(k)) })
            &&& rest_kept(*final(k), *old(k))
        }),
        exists|i: int|
            0 <= i < final(q).count && (#[trigger] final(q).tasks@[i]) == old(k).cpu.task_idx,
        forall|i: int|
            0 <= i < old(q).count ==> #[trigger] final(q).tasks@[i] == old(q).tasks@[i],
{
    let w = old(q).waiting();
    let t = old(k).cpu.task_idx->0;
    if w.contains(t) {
        let i = choose|i: int| 0 <= i < w.len() && w[i] == t;
        assert(old(q).tasks@[i] is Some);
        assert(final(q).tasks@[i] == Some(t));
    } else {
        assert(final(q).tasks@[old(q).count as int] == Some(t));
    }
}

/// What is done to the processor that the kernel hands out is done to the kernel's own.
pub proof fn law_processor_is_the_kernels(k: &mut Kernel, c: &mut Cpu)
    requires
        call_ensures(mycpu, (k,), c),
    ensures
        *old(c) == old(k).cpu,
        final(k).cpu == *final(c),
        final(k).tasks == old(k).tasks,
        final(k).fs == old(k).fs,
        final(k).first == old(k).first,
{
}

} // verus!

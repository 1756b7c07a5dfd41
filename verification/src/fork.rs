//! How a process makes another like itself.
use vstd::prelude::*;

use crate::books::{books, fd_sound, fds, held, lemma_added, lemma_fd_used, lemma_take};
use crate::books::{lemma_same_books, same_uses, task_sound, End};
use crate::desc::{settled, with_fds, FAIL};
use crate::file::{File, FileKind};
use crate::kernel::{lemma_same_space, slot_sound, space_full, space_sound, Kernel};
use crate::pipe::PipeView;
use crate::proc::{alloc_user_task, is_first_slot, no_slot, stacked, Seed};
use crate::region::{all_blocks, child_table, parent_table, Block, RTree};
use crate::sched::unlock;
use crate::space::{lemma_child_space, share_space, shared_regions, stack_table};
use crate::task::{no_files, Frame, Lock, State, Task, FD, FRAME_SIZE, NFDS, STACKSIZE};
use crate::vm::{copy_pm, PageTable};

verus! {

pub const SIGCHLD: u32 = 17;

pub const CLONE_VM: u32 = 0x100;

pub const CLONE_FS: u32 = 0x200;

pub const CLONE_FILES: u32 = 0x400;

pub const CLONE_SIGHAND: u32 = 0x800;

pub const CLONE_PIDFD: u32 = 0x1000;

pub const CLONE_PTRACE: u32 = 0x2000;

pub const CLONE_VFORK: u32 = 0x4000;

pub const CLONE_PARENT: u32 = 0x8000;

pub const CLONE_THREAD: u32 = 0x1_0000;

pub const CLONE_NEWNS: u32 = 0x2_0000;

pub const CLONE_SYSVSEM: u32 = 0x4_0000;

pub const CLONE_SETTLS: u32 = 0x8_0000;

pub const CLONE_PARENT_SETTID: u32 = 0x10_0000;

pub const CLONE_CHILD_CLEARTID: u32 = 0x20_0000;

pub const CLONE_DETACHED: u32 = 0x40_0000;

pub const CLONE_UNTRACED: u32 = 0x80_0000;

pub const CLONE_CHILD_SETTID: u32 = 0x100_0000;

pub const CLONE_NEWCGROUP: u32 = 0x200_0000;

pub const CLONE_NEWUTS: u32 = 0x400_0000;

pub const CLONE_NEWIPC: u32 = 0x800_0000;

pub const CLONE_NEWUSER: u32 = 0x1000_0000;

pub const CLONE_NEWPID: u32 = 0x2000_0000;

pub const CLONE_NEWNET: u32 = 0x4000_0000;

pub const CLONE_IO: u32 = 0x8000_0000;

pub const CLONE_CLEAR_SIGHAND: u64 = 0x1_0000_0000;

pub const CLONE_INTO_CGROUP: u64 = 0x2_0000_0000;

pub const CLONE_NEWTIME: u32 = 0x80;

pub const CLONE_ARGS_SIZE_VER0: u32 = 64;

pub const CLONE_ARGS_SIZE_VER1: u32 = 80;

pub const CLONE_ARGS_SIZE_VER2: u32 = 88;

/// The flags that cannot be asked for.
pub const CLONE_UNSUPPORTED: u64 = 0x3_fedf_ff80;

/// Every flag is unsupported but the two that tell where the child's id goes.
pub proof fn law_supported_flags(flags: u64)
    ensures
        flags & CLONE_UNSUPPORTED == 0 <==> {
            &&& flags & (CLONE_NEWTIME as u64) == 0
            &&& flags & (CLONE_VM as u64) == 0
            &&& flags & (CLONE_FS as u64) == 0
            &&& flags & (CLONE_FILES as u64) == 0
            &&& flags & (CLONE_SIGHAND as u64) == 0
            &&& flags & (CLONE_PIDFD as u64) == 0
            &&& flags & (CLONE_PTRACE as u64) == 0
            &&& flags & (CLONE_VFORK as u64) == 0
            &&& flags & (CLONE_PARENT as u64) == 0
            &&& flags & (CLONE_THREAD as u64) == 0
            &&& flags & (CLONE_NEWNS as u64) == 0
            &&& flags & (CLONE_SYSVSEM as u64) == 0
            &&& flags & (CLONE_SETTLS as u64) == 0
            &&& flags & (CLONE_PARENT_SETTID as u64) == 0
            &&& flags & (CLONE_DETACHED as u64) == 0
            &&& flags & (CLONE_UNTRACED as u64) == 0
            &&& flags & (CLONE_NEWCGROUP as u64) == 0
            &&& flags & (CLONE_NEWUTS as u64) == 0
            &&& flags & (CLONE_NEWIPC as u64) == 0
            &&& flags & (CLONE_NEWUSER as u64) == 0
            &&& flags & (CLONE_NEWPID as u64) == 0
            &&& flags & (CLONE_NEWNET as u64) == 0
            &&& flags & (CLONE_IO as u64) == 0
            &&& flags & CLONE_CLEAR_SIGHAND == 0
            &&& flags & CLONE_INTO_CGROUP == 0
        },
{
    assert(flags & 0x3_fedf_ff80 == 0 <==> {
        &&& flags & 0x80 == 0
        &&& flags & 0x100 == 0
        &&& flags & 0x200 == 0
        &&& flags & 0x400 == 0
        &&& flags & 0x800 == 0
        &&& flags & 0x1000 == 0
        &&& flags & 0x2000 == 0
        &&& flags & 0x4000 == 0
        &&& flags & 0x8000 == 0
        &&& flags & 0x1_0000 == 0
        &&& flags & 0x2_0000 == 0
        &&& flags & 0x4_0000 == 0
        &&& flags & 0x8_0000 == 0
        &&& flags & 0x10_0000 == 0
        &&& flags & 0x40_0000 == 0
        &&& flags & 0x80_0000 == 0
        &&& flags & 0x200_0000 == 0
        &&& flags & 0x400_0000 == 0
        &&& flags & 0x800_0000 == 0
        &&& flags & 0x1000_0000 == 0
        &&& flags & 0x2000_0000 == 0
        &&& flags & 0x4000_0000 == 0
        &&& flags & 0x8000_0000 == 0
        &&& flags & 0x1_0000_0000 == 0
        &&& flags & 0x2_0000_0000 == 0
    }) by (bit_vector);
}

/// Whether a process can be made with these flags.
pub fn fork_supported(flags: u64) -> (b: bool)
    ensures
        b == (flags & CLONE_UNSUPPORTED == 0),
{
    flags & CLONE_UNSUPPORTED == 0
}

/// A file after `n` more uses of it have been taken, `r` of its read end and `w` of its
/// write end.
pub open spec fn is_shared(file: File, old: File, n: int, r: int, w: int) -> bool {
    &&& file.rc == old.rc + n
    &&& file.offt == old.offt
    &&& file.path == old.path
    &&& match old.kind {
        FileKind::Pipe(p) => file.kind is Pipe && file.kind->Pipe_0@ == (PipeView {
            readers: (p@.readers + r) as nat,
            writers: (p@.writers + w) as nat,
            ..p@
        }),
        kind => file.kind == kind,
    }
}

/// The files after a task has taken every file of these descriptors once more.
pub open spec fn all_shared(files: Seq<File>, old: Seq<File>, table: Seq<Option<FD>>) -> bool {
    &&& files.len() == old.len()
    &&& forall|f: int|
        0 <= f < old.len() ==> is_shared(
            #[trigger] files[f],
            old[f],
            fds(table, 0, f, End::Any),
            fds(table, 0, f, End::Read),
            fds(table, 0, f, End::Write),
        )
}

pub proof fn lemma_fds_push(s: Seq<Option<FD>>, x: Option<FD>, from: int, f: int, e: End)
    requires
        0 <= from <= s.len(),
    ensures
        fds(s.push(x), from, f, e) == fds(s, from, f, e) + held(x, f, e),
    decreases s.len() - from,
{
    if from < s.len() {
        lemma_fds_push(s, x, from + 1, f, e);
    } else {
        assert(fds(s.push(x), from + 1, f, e) == 0);
    }
}

/// Gives the task `c` the files of the task `i`.
fn share_files(k: &mut Kernel, i: usize, c: usize)
    requires
        books(old(k).tasks@, old(k).fs.files@),
        old(k).tasks@.len() == 8,
        old(k).fs.files@.len() == 128,
        i < 8,
        c < 8,
        i != c,
        old(k).tasks@[i as int].closed == 0,
        old(k).tasks@[c as int].closed == 0,
        old(k).tasks@[c as int].files@ == no_files(),
        forall|j: int|
            0 <= j < 8 ==> settled(#[trigger] old(k).tasks@[i as int].files@[j], old(k).fs.files@),
    ensures
        *final(k) == (Kernel { tasks: final(k).tasks, fs: final(k).fs, ..*old(k) }),
        books(final(k).tasks@, final(k).fs.files@),
        with_fds(
            final(k).tasks@[c as int],
            old(k).tasks@[c as int],
            old(k).tasks@[i as int].files@,
        ),
        final(k).tasks@ == old(k).tasks@.update(c as int, final(k).tasks@[c as int]),
        all_shared(
            final(k).fs.files@,
            old(k).fs.files@,
            old(k).tasks@[i as int].files@,
        ),
{
    let ghost ts = k.tasks@;
    let ghost fs0 = k.fs.files@;
    let ghost table = ts[i as int].files@;
    let mut j: usize = 0;
    proof {
        assert(k.tasks@[c as int].files@ =~= table.take(0) + no_files().skip(0));
        assert(ts.update(c as int, ts[c as int]) =~= ts);
    }
    while j < NFDS
        invariant
            j <= 8,
            i < 8,
            c < 8,
            i != c,
            ts.len() == 8,
            fs0.len() == 128,
            table == ts[i as int].files@,
            ts[i as int].closed == 0,
            ts[c as int].closed == 0,
            forall|x: int| 0 <= x < 8 ==> settled(#[trigger] table[x], fs0),
            *k == (Kernel { tasks: k.tasks, fs: k.fs, ..*old(k) }),
            books(k.tasks@, k.fs.files@),
            k.tasks@ == ts.update(c as int, k.tasks@[c as int]),
            with_fds(
                k.tasks@[c as int],
                ts[c as int],
                table.take(j as int) + no_files().skip(j as int),
            ),
            all_shared(k.fs.files@, fs0, table.take(j as int)),
        decreases 8 - j,
    {
        let ghost ts1 = k.tasks@;
        let ghost fs1 = k.fs.files@;
        let ghost c0 = ts1[c as int];
        proof {
            assert(table.take(j + 1) =~= table.take(j as int).push(table[j as int]));
        }
        if k.tasks[i].files[j].is_some() {
            proof {
                lemma_fd_used(ts1, fs1, i as int, j as int);
            }
            let d = k.tasks[i].dup_file(&mut k.fs, j);
            k.tasks[c].files[j] = Some(d);
            proof {
                let f = d.file as int;
                let t = k.tasks@[c as int];
                let file = k.fs.files@[f];
                assert(k.tasks@ =~= ts1.update(c as int, t));
                assert(t.files@ =~= c0.files@.update(j as int, Some(d)));
                assert(is_shared(
                    fs1[f],
                    fs0[f],
                    fds(table.take(j as int), 0, f, End::Any),
                    fds(table.take(j as int), 0, f, End::Read),
                    fds(table.take(j as int), 0, f, End::Write),
                ));
                assert(settled(table[j as int], fs0));
                crate::books::lemma_fds_bound(table.take(j as int), 0, f, End::Any);
                lemma_added(t, c0, j as int, d);
                assert(task_sound(ts1[i as int], fs1));
                assert(fd_sound(ts1[i as int].files@[j as int], fs1));
                assert(task_sound(c0, fs1));
                assert forall|x: int| t.closed <= x < 8 implies fd_sound(
                    #[trigger] t.files@[x],
                    fs1,
                ) by {
                    assert(fd_sound(c0.files@[x], fs1));
                }
                lemma_take(ts1, fs1, c as int, t, d, file);
                assert forall|g: int| 0 <= g < 128 implies is_shared(
                    #[trigger] k.fs.files@[g],
                    fs0[g],
                    fds(table.take(j + 1), 0, g, End::Any),
                    fds(table.take(j + 1), 0, g, End::Read),
                    fds(table.take(j + 1), 0, g, End::Write),
                ) by {
                    lemma_fds_push(table.take(j as int), table[j as int], 0, g, End::Any);
                    lemma_fds_push(table.take(j as int), table[j as int], 0, g, End::Read);
                    lemma_fds_push(table.take(j as int), table[j as int], 0, g, End::Write);
                    crate::books::lemma_fds_bound(table.take(j as int), 0, g, End::Read);
                    crate::books::lemma_fds_bound(table.take(j as int), 0, g, End::Write);
                    assert(is_shared(
                        fs1[g],
                        fs0[g],
                        fds(table.take(j as int), 0, g, End::Any),
                        fds(table.take(j as int), 0, g, End::Read),
                        fds(table.take(j as int), 0, g, End::Write),
                    ));
                }
            }
        } else {
            proof {
                assert forall|g: int| 0 <= g < 128 implies is_shared(
                    #[trigger] k.fs.files@[g],
                    fs0[g],
                    fds(table.take(j + 1), 0, g, End::Any),
                    fds(table.take(j + 1), 0, g, End::Read),
                    fds(table.take(j + 1), 0, g, End::Write),
                ) by {
                    lemma_fds_push(table.take(j as int), table[j as int], 0, g, End::Any);
                    lemma_fds_push(table.take(j as int), table[j as int], 0, g, End::Read);
                    lemma_fds_push(table.take(j as int), table[j as int], 0, g, End::Write);
                }
            }
        }
        proof {
            assert(k.tasks@[c as int].files@ =~= table.take(j + 1) + no_files().skip(j + 1));
            assert(k.tasks@ =~= ts.update(c as int, k.tasks@[c as int]));
        }
        j += 1;
    }
    proof {
        assert(table.take(8) =~= table);
        assert(table.take(8) + no_files().skip(8) =~= table);
    }
}

/// What making a process gives: its result, the blocks of memory that have one more
/// user, the copies of pages to be made, and where the child's id goes.
#[derive(Debug)]
pub struct Forked {
    pub ret: u64,
    pub shared: Vec<Block>,
    pub copies: Vec<(u64, u64)>,
    pub tid: Option<(u64, u32)>,
}

/// The frame of a child: that of its parent, but for the result of the call.
pub open spec fn child_frame(f: Frame, parent: Frame) -> bool {
    &&& f.regs@ == parent.regs@.update(0, 0)
    &&& f == (Frame { regs: f.regs, ..parent })
}

/// Whether `t` is the child of the task `parent` in the slot `at`, made in the slot `c`
/// of the task `old`.
pub open spec fn is_made(
    t: Task,
    old: Task,
    c: int,
    parent: Task,
    at: int,
    seed: Seed,
    tpidr: u64,
    flags: u64,
) -> bool {
    let tf = (old.sp_el1 + STACKSIZE - FRAME_SIZE) as u64;
    &&& t.files@ == parent.files@
    &&& t.program@ == parent.program@
    &&& t.pt@ == child_table(shared_regions(parent), parent.pt@, stack_table(seed.user_sp))
    &&& t.ctx@ == old.ctx@.update(12, tf).update(13, seed.forkret).update(14, tpidr)
    &&& child_frame(t.frame, parent.frame)
    &&& t == (Task {
        state: State::Ready,
        pid: c as u16,
        user_pt: Some(seed.user_pt),
        user_sp: Some(seed.user_sp),
        trapframe: tf,
        closed: 0,
        brk: parent.brk,
        mmap: parent.mmap,
        cwd: parent.cwd,
        parent: Some(at as usize),
        tid: if flags & (CLONE_CHILD_CLEARTID as u64) != 0 {
            Some(parent.frame.regs@[4])
        } else {
            old.tid
        },
        files: t.files,
        program: t.program,
        pt: t.pt,
        ctx: t.ctx,
        frame: t.frame,
        ..old
    })
}

/// Whether `t` is the parent `old` after it has made a child.
pub open spec fn is_parent(t: Task, old: Task, tpidr: u64) -> bool {
    &&& t.pt@ == parent_table(shared_regions(old), old.pt@)
    &&& t.ctx@ == old.ctx@.update(14, tpidr)
    &&& t == (Task { pt: t.pt, ctx: t.ctx, ..old })
}

/// Makes a process like the current one in the first free slot. Parent and child share
/// all memory but the stack, which is copied, and all open files. `tpidr` is the
/// program's thread pointer. The child's process id is returned, and the child gets 0.
pub fn fork(k: &mut Kernel, seed: Seed, tpidr: u64) -> (r: Forked)
    requires
        old(k).calling(),
        old(k).arg(0) & CLONE_UNSUPPORTED == 0,
        stacked(old(k).tasks@),
        seed.usable(),
        !no_slot(old(k).tasks@) ==> old(k).cur().cwd is Some && space_full(old(k).cur()),
        forall|j: int|
            0 <= j < 8 ==> settled(#[trigger] old(k).cur().files@[j], old(k).fs.files@),
    ensures
        final(k).calling(),
        no_slot(old(k).tasks@) ==> {
            &&& r.ret == FAIL
            &&& r.shared@.len() == 0 && r.copies@.len() == 0 && r.tid is None
            &&& *final(k) == *old(k)
        },
        !no_slot(old(k).tasks@) ==> {
            let c = r.ret as int;
            let at = old(k).at();
            let p = old(k).cur();
            let flags = old(k).arg(0);
            &&& is_first_slot(old(k).tasks@, c)
            &&& *final(k) == (Kernel { tasks: final(k).tasks, fs: final(k).fs, ..*old(k) })
            &&& final(k).tasks@ == old(k).tasks@.update(c, final(k).tasks@[c]).update(
                at,
                final(k).cur(),
            )
            &&& is_made(final(k).tasks@[c], old(k).tasks@[c], c, p, at, seed, tpidr, flags)
            &&& is_parent(final(k).cur(), p, tpidr)
            &&& space_full(final(k).tasks@[c]) && space_full(final(k).cur())
            &&& all_shared(final(k).fs.files@, old(k).fs.files@, p.files@)
            &&& r.shared@ == all_blocks(shared_regions(p), p.pt@)
            &&& r.copies@ == seq![
                (p.user_sp->0, seed.user_sp),
                ((p.user_sp->0 + 4096) as u64, (seed.user_sp + 4096) as u64),
            ]
            &&& r.tid == if flags & (CLONE_CHILD_SETTID as u64) != 0 {
                Some((old(k).arg(4), c as u32))
            } else {
                None
            }
        },
{
    let i: usize = k.cpu.task_idx.unwrap();
    let flags: u64 = k.tasks[i].frame.regs[0];
    let ghost ts = k.tasks@;
    let ghost p0 = ts[i as int];
    proof {
        assert(slot_sound(p0, i as int));
        assert(space_sound(p0));
    }
    let c: usize = match alloc_user_task(k, seed) {
        Some(c) => c,
        None => {
            return Forked { ret: FAIL, shared: Vec::new(), copies: Vec::new(), tid: None };
        },
    };
    let ghost c0 = ts[c as int];
    let ghost c1 = k.tasks@[c as int];
    proof {
        assert(i != c);
        assert(!no_slot(ts)) by {
            let x = ts[c as int];
        }
        assert(slot_sound(c0, c as int));
        assert(space_sound(c1));
        assert(slot_sound(c1, c as int));
    }
    share_files(k, i, c);
    let ghost ts1 = k.tasks@;
    let mut to: RTree = Vec::new();
    let mut to_pt: PageTable = PageTable::new();
    std::mem::swap(&mut to_pt, &mut k.tasks[c].pt);
    assert(k.tasks@[i as int] == p0);
    let shared: Vec<Block> = share_space(
        &mut k.tasks[i],
        &mut to,
        &mut to_pt,
        Ghost(seed.user_sp),
    );
    let cwd = k.tasks[i].cwd.clone();
    let brk = k.tasks[i].brk;
    let mmap = k.tasks[i].mmap;
    let user_sp: u64 = k.tasks[i].user_sp.unwrap();
    let mut frame = k.tasks[i].frame;
    frame.regs[0] = 0;
    let copies: Vec<(u64, u64)> = copy_pm(user_sp, seed.user_sp, 2);
    k.tasks[c].cwd = cwd;
    k.tasks[c].program = to;
    k.tasks[c].pt = to_pt;
    k.tasks[c].brk = brk;
    k.tasks[c].mmap = mmap;
    k.tasks[c].frame = frame;
    k.tasks[c].ctx[14] = tpidr;
    k.tasks[i].ctx[14] = tpidr;
    k.tasks[c].state = State::Ready;
    k.tasks[c].parent = Some(i);
    let tidptr: u64 = k.tasks[i].frame.regs[4];
    let tid: Option<(u64, u32)> = if flags & (CLONE_CHILD_SETTID as u64) != 0 {
        Some((tidptr, k.tasks[c].pid as u32))
    } else {
        None
    };
    if flags & (CLONE_CHILD_CLEARTID as u64) != 0 {
        k.tasks[c].tid = Some(tidptr);
    }
    unlock(k, c);
    proof {
        let t = k.tasks@[c as int];
        let p = k.tasks@[i as int];
        assert(k.tasks@ =~= ts.update(c as int, t).update(i as int, p));
        assert(copies@ =~= seq![
            (p0.user_sp->0, seed.user_sp),
            ((p0.user_sp->0 + 4096) as u64, (seed.user_sp + 4096) as u64),
        ]);
        assert(c0.lock == (Lock { held: false })) by {
            assert(!c0.lock.held);
        }
        assert(is_made(t, c0, c as int, p0, i as int, seed, tpidr, flags));
        assert(is_parent(p, p0, tpidr));
        assert forall|j: int| 0 <= j < 8 implies same_uses(#[trigger] ts1[j], k.tasks@[j]) by {}
        lemma_same_books(ts1, k.tasks@, k.fs.files@);
        reveal(space_sound);
        lemma_child_space(t, p0, seed.user_sp);
        lemma_same_space(p, Task { ctx: p0.ctx, ..p });
        assert forall|j: int| 0 <= j < 8 implies slot_sound(#[trigger] k.tasks@[j], j)
            && !k.tasks@[j].lock.held by {
            assert(slot_sound(ts[j], j));
            assert(!ts[j].lock.held);
        }
        assert forall|j: int| 0 <= j < 8 implies space_sound(#[trigger] k.tasks@[j]) by {
            assert(space_sound(ts[j]));
        }
    }
    Forked { ret: c as u64, shared, copies, tid }
}

/// Parent and child have the same descriptors, and every file counts the child's too.
pub proof fn law_fork_shares_files(k: Kernel, old: Kernel, c: int)
    requires
        0 <= c < 8,
        old.calling(),
        k.tasks@[c].files@ == old.cur().files@,
        all_shared(k.fs.files@, old.fs.files@, old.cur().files@),
    ensures
        forall|j: int|
            0 <= j < 8 && (#[trigger] old.cur().files@[j]) is Some ==> {
                let f = old.cur().files@[j]->0.file as int;
                &&& k.tasks@[c].files@[j] == old.cur().files@[j]
                &&& k.fs.files@[f].rc > old.fs.files@[f].rc
            },
{
    assert forall|j: int| 0 <= j < 8 && (#[trigger] old.cur().files@[j]) is Some implies {
        let f = old.cur().files@[j]->0.file as int;
        &&& k.tasks@[c].files@[j] == old.cur().files@[j]
        &&& k.fs.files@[f].rc > old.fs.files@[f].rc
    } by {
        let f = old.cur().files@[j]->0.file as int;
        lemma_fd_used(old.tasks@, old.fs.files@, old.at(), j);
        crate::books::lemma_fds_has(old.cur().files@, 0, j, f, End::Any);
        assert(is_shared(
            k.fs.files@[f],
            old.fs.files@[f],
            fds(old.cur().files@, 0, f, End::Any),
            fds(old.cur().files@, 0, f, End::Read),
            fds(old.cur().files@, 0, f, End::Write),
        ));
    }
}

} // verus!

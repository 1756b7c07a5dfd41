//! Processes: how they come to be, end, and are waited for.
use vstd::prelude::*;

use crate::books::{books, fd_sound, fds, held, same_uses, task_sound, task_uses, uses};
use crate::books::{counted, lemma_books, lemma_same_books, End};
use crate::desc::{lemma_unused, with_fds};
use crate::file::{File, FileKind};
use crate::fs::{is_first_unused, open_cons};
use crate::kernel::{is_gone, lemma_same_space, regions};
use crate::kernel::{slot_sound, space_full, space_sound, Kernel};
use crate::region::all_pages;
use crate::sched::{lock, unlock};
use crate::space::lemma_full;
use crate::task::{no_files, user_stack_region, Cpu, Lock, State, Task, FD, NTASKS, STACKSIZE};

verus! {

/// Whether `i` is the first task slot that is free.
pub open spec fn is_first_slot(ts: Seq<Task>, i: int) -> bool {
    &&& 0 <= i < ts.len()
    &&& ts[i].state is Free
    &&& forall|j: int| 0 <= j < i ==> !((#[trigger] ts[j]).state is Free)
}

pub open spec fn no_slot(ts: Seq<Task>) -> bool {
    forall|j: int| 0 <= j < ts.len() ==> !((#[trigger] ts[j]).state is Free)
}

/// What a new task needs: a frame for its page table, frames for its stack, and the
/// address where it starts.
#[derive(Clone, Copy, Debug, PartialEq, Eq, Structural)]
pub struct Seed {
    pub user_pt: u64,
    pub user_sp: u64,
    pub forkret: u64,
}

impl Seed {
    /// Whether the stack lies in the physical address space.
    pub open spec fn usable(self) -> bool {
        self.user_sp + 16384 <= u64::MAX
    }
}

/// Whether this is the slot `old` taken for a new task, which is locked.
pub open spec fn is_born(t: Task, old: Task, i: int, seed: Seed) -> bool {
    t.is_set_up(
        Task { state: State::Used, pid: i as u16, lock: Lock { held: true }, ..old },
        seed.user_pt,
        seed.user_sp,
        seed.forkret,
        no_files(),
    )
}

/// Whether every task has room for a trap frame on its kernel stack.
pub open spec fn stacked(ts: Seq<Task>) -> bool {
    forall|i: int| 0 <= i < ts.len() ==> (#[trigger] ts[i]).sp_el1 + STACKSIZE <= u64::MAX
}

/// A task with nothing but its stack is sound.
proof fn lemma_born(t: Task, old: Task, i: int, seed: Seed)
    requires
        is_born(t, old, i, seed),
        old.state is Free,
        slot_sound(old, i),
        space_sound(old),
        seed.usable(),
        old.sp_el1 + STACKSIZE <= u64::MAX,
        0 <= i < 8,
    ensures
        slot_sound(t, i),
        space_sound(t),
        space_full(t),
        forall|f: int, e: End| #[trigger] task_uses(t, f, e) == 0,
        forall|f: int, e: End| #[trigger] task_uses(old, f, e) == 0,
{
    reveal(space_sound);
    crate::region::lemma_blocks();
    let rs = regions(t);
    let stack = user_stack_region();
    assert(t.program@ == old.program@);
    assert(rs =~= seq![stack, t.brk, t.mmap]);
    assert forall|i: int| 0 <= i < rs.len() implies (#[trigger] rs[i]).whole() by {}
    assert forall|a: u64| #[trigger] t.pt@.contains_key(a) == stack.pages().contains(a) by {}
    assert forall|a: u64| t.pt@.dom().contains(a) == all_pages(rs).contains(a) by {
        if t.pt@.contains_key(a) {
            assert(rs[0].pages().contains(a));
        }
        if all_pages(rs).contains(a) {
            let x = choose|x: int| 0 <= x < rs.len() && #[trigger] rs[x].pages().contains(a);
            assert(x == 0);
        }
    }
    assert(t.pt@.dom() =~= all_pages(rs));
    lemma_full(t);
    assert forall|f: int, e: End| #[trigger] task_uses(t, f, e) == 0 by {
        lemma_no_fds(t.files@, 0, f, e);
    }
    assert(old.files@.len() == 8);
}

proof fn lemma_no_fds(files: Seq<Option<FD>>, from: int, f: int, e: End)
    requires
        forall|i: int| 0 <= i < files.len() ==> (#[trigger] files[i]) is None,
        0 <= from,
    ensures
        fds(files, from, f, e) == 0,
    decreases files.len() - from,
{
    if from < files.len() {
        lemma_no_fds(files, from + 1, f, e);
    }
}

/// A task that uses no file takes the place of one that uses none: the books stay
/// right.
proof fn lemma_quiet(ts: Seq<Task>, files: Seq<File>, i: int, t: Task)
    requires
        books(ts, files),
        0 <= i < ts.len(),
        files.len() > 0,
        forall|f: int, e: End| #[trigger] task_uses(t, f, e) == 0,
        forall|f: int, e: End| #[trigger] task_uses(ts[i], f, e) == 0,
        task_sound(t, files),
    ensures
        books(ts.update(i, t), files),
{
    assert(counted(
        files[0],
        uses(ts, 0, End::Any),
        uses(ts, 0, End::Read),
        uses(ts, 0, End::Write),
    ));
    assert(files.update(0, files[0]) =~= files);
    assert(task_uses(t, 0, End::Any) == 0 && task_uses(ts[i], 0, End::Any) == 0);
    assert(task_uses(t, 0, End::Read) == 0 && task_uses(ts[i], 0, End::Read) == 0);
    assert(task_uses(t, 0, End::Write) == 0 && task_uses(ts[i], 0, End::Write) == 0);
    lemma_books(ts, files, i, t, 0, files[0]);
}

/// Takes the first free task slot and sets up a task in it; the task is locked.
pub fn alloc_user_task(k: &mut Kernel, seed: Seed) -> (r: Option<usize>)
    requires
        old(k).sound(),
        old(k).unlocked(),
        old(k).cpu.int_disables < u32::MAX,
        stacked(old(k).tasks@),
        seed.usable(),
    ensures
        final(k).sound(),
        match r {
            Some(c) => {
                let t = final(k).tasks@[c as int];
                &&& is_first_slot(old(k).tasks@, c as int)
                &&& is_born(t, old(k).tasks@[c as int], c as int, seed)
                &&& space_full(t)
                &&& final(k).tasks@ == old(k).tasks@.update(c as int, t)
                &&& *final(k) == (Kernel {
                    cpu: Cpu {
                        int_disables: (old(k).cpu.int_disables + 1) as u32,
                        ..old(k).cpu
                    },
                    tasks: final(k).tasks,
                    ..*old(k)
                })
            },
            None => no_slot(old(k).tasks@) && *final(k) == *old(k),
        },
{
    let mut i: usize = 0;
    while i < NTASKS
        invariant
            i <= 8,
            old(k).sound(),
            old(k).unlocked(),
            old(k).cpu.int_disables < u32::MAX,
            stacked(old(k).tasks@),
            seed.usable(),
            *k == *old(k),
            forall|j: int| 0 <= j < i ==> !((#[trigger] k.tasks@[j]).state is Free),
        decreases 8 - i,
    {
        if k.tasks[i].state == State::Free {
            let ghost t0 = k.tasks@[i as int];
            proof {
                assert(slot_sound(t0, i as int));
                assert(space_sound(t0));
                reveal(space_sound);
            }
            lock(k, i);
            k.tasks[i].state = State::Used;
            k.tasks[i].pid = i as u16;
            k.tasks[i].init_user(seed.user_pt, seed.user_sp, seed.forkret);
            proof {
                let t = k.tasks@[i as int];
                let ts = old(k).tasks@;
                assert(k.tasks@ =~= ts.update(i as int, t));
                lemma_born(t, t0, i as int, seed);
                assert(task_sound(t0, k.fs.files@));
                assert(task_sound(t, k.fs.files@)) by {
                    assert forall|j: int| t.closed <= j < 8 implies fd_sound(
                        #[trigger] t.files@[j],
                        k.fs.files@,
                    ) by {}
                }
                lemma_quiet(ts, k.fs.files@, i as int, t);
            }
            return Some(i);
        }
        i += 1;
    }
    None
}

/// Opens a console for a descriptor number of the task `c` that is free.
fn attach_console(k: &mut Kernel, c: usize, fd: usize, cons: u32) -> (f: usize)
    requires
        old(k).sound(),
        c < 8,
        fd < 8,
        !is_gone(old(k).tasks@[c as int]),
        old(k).tasks@[c as int].closed == 0,
        old(k).tasks@[c as int].files@[fd as int] is None,
        exists|x: int| 0 <= x < 128 && (#[trigger] old(k).fs.files@[x]).kind is Unused,
    ensures
        final(k).sound(),
        *final(k) == (Kernel { tasks: final(k).tasks, fs: final(k).fs, ..*old(k) }),
        is_first_unused(old(k).fs.files@, f as int),
        final(k).fs.files@ == old(k).fs.files@.update(
            f as int,
            File { kind: FileKind::Cons(cons), rc: 1, ..old(k).fs.files@[f as int] },
        ),
        final(k).tasks@ == old(k).tasks@.update(c as int, final(k).tasks@[c as int]),
        with_fds(
            final(k).tasks@[c as int],
            old(k).tasks@[c as int],
            old(k).tasks@[c as int].files@.update(
                fd as int,
                Some(FD { file: f, read: true, write: true }),
            ),
        ),
{
    let ghost ts = k.tasks@;
    let ghost fs0 = k.fs.files@;
    let f: usize = open_cons(&mut k.fs, cons).unwrap();
    let d = FD { file: f, read: true, write: true };
    k.tasks[c].files[fd] = Some(d);
    proof {
        let t0 = ts[c as int];
        let t = k.tasks@[c as int];
        assert(k.tasks@ =~= ts.update(c as int, t));
        assert(t.files@ =~= t0.files@.update(fd as int, Some(d)));
        lemma_unused(ts, fs0, f as int);
        crate::books::lemma_added(t, t0, fd as int, d);
        assert forall|g: int, e: End| 0 <= g < fs0.len() && g != f implies #[trigger] task_uses(
            t,
            g,
            e,
        ) == task_uses(ts[c as int], g, e) by {
            assert(held(Some(d), g, e) == 0);
        }
        assert(task_uses(ts[c as int], f as int, End::Any) == 0);
        assert(task_uses(t, f as int, End::Any) == 1);
        assert(task_uses(ts[c as int], f as int, End::Read) == 0);
        assert(task_uses(t, f as int, End::Read) == 1);
        assert(task_uses(ts[c as int], f as int, End::Write) == 0);
        assert(task_uses(t, f as int, End::Write) == 1);
        assert(task_sound(t0, fs0));
        assert forall|j: int| t.closed <= j < 8 implies fd_sound(
            #[trigger] t.files@[j],
            k.fs.files@,
        ) by {
            assert(fd_sound(t0.files@[j], fs0));
        }
        lemma_books(ts, fs0, c as int, t, f as int, k.fs.files@[f as int]);
        lemma_same_space(t0, t);
        assert(slot_sound(t0, c as int));
    }
    f
}

/// Whether three file slots, at least, are free.
pub open spec fn three_unused(files: Seq<File>) -> bool {
    exists|x: int, y: int, z: int|
        #![trigger files[x], files[y], files[z]]
        0 <= x < y < z < files.len() && files[x].kind is Unused && files[y].kind is Unused
            && files[z].kind is Unused
}

/// The slots of the three consoles that the first task has open: the first three that
/// are free.
pub open spec fn console_slots(files: Seq<File>, x: int, y: int, z: int) -> bool {
    &&& is_first_unused(files, x)
    &&& x < y < z < files.len()
    &&& files[y].kind is Unused
    &&& files[z].kind is Unused
    &&& forall|j: int| x < j < z && j != y ==> !((#[trigger] files[j]).kind is Unused)
}

/// A console, opened in the slot `file`.
pub open spec fn console(file: File, cons: u32) -> File {
    File { kind: FileKind::Cons(cons), rc: 1, ..file }
}

/// Makes the first task, with the console as its first three files, where the handles
/// `cons` stand for the console.
pub fn create_user_task(k: &mut Kernel, seed: Seed, cons: [u32; 3]) -> (r: (usize, [usize; 3]))
    requires
        old(k).choosing(),
        stacked(old(k).tasks@),
        seed.usable(),
        !no_slot(old(k).tasks@),
        three_unused(old(k).fs.files@),
    ensures
        final(k).choosing(),
        *final(k) == (Kernel { tasks: final(k).tasks, fs: final(k).fs, ..*old(k) }),
        ({
            let c = r.0 as int;
            let fs = old(k).fs.files@;
            let (x, y, z) = (r.1@[0] as int, r.1@[1] as int, r.1@[2] as int);
            &&& is_first_slot(old(k).tasks@, c)
            &&& console_slots(fs, x, y, z)
            &&& final(k).fs.files@ == fs.update(x, console(fs[x], cons@[0])).update(
                y,
                console(fs[y], cons@[1]),
            ).update(z, console(fs[z], cons@[2]))
            &&& final(k).tasks@ == old(k).tasks@.update(c, final(k).tasks@[c])
            &&& space_full(final(k).tasks@[c])
            &&& final(k).tasks@[c].is_set_up(
                Task { state: State::Ready, pid: c as u16, ..old(k).tasks@[c] },
                seed.user_pt,
                seed.user_sp,
                seed.forkret,
                no_files().update(0, Some(FD { file: r.1@[0], read: true, write: true })).update(
                    1,
                    Some(FD { file: r.1@[1], read: true, write: true }),
                ).update(2, Some(FD { file: r.1@[2], read: true, write: true })),
            )
        }),
{
    let ghost fs0 = k.fs.files@;
    let ghost (a, b, e) = choose|x: int, y: int, z: int|
        #![trigger fs0[x], fs0[y], fs0[z]]
        0 <= x < y < z < fs0.len() && fs0[x].kind is Unused && fs0[y].kind is Unused
            && fs0[z].kind is Unused;
    assert(!old(k).tasks@[0].lock.held);
    let c: usize = alloc_user_task(k, seed).unwrap();
    let ghost t1 = k.tasks@[c as int];
    let x: usize = attach_console(k, c, 0, cons[0]);
    let ghost fs1 = k.fs.files@;
    proof {
        assert(k.fs.files@[b].kind is Unused);
        assert(k.fs.files@[e].kind is Unused);
    }
    let y: usize = attach_console(k, c, 1, cons[1]);
    let ghost fs2 = k.fs.files@;
    proof {
        assert(k.fs.files@[e].kind is Unused);
    }
    let z: usize = attach_console(k, c, 2, cons[2]);
    let ghost mid = *k;
    k.tasks[c].state = State::Ready;
    unlock(k, c);
    proof {
        let t = k.tasks@[c as int];
        assert(k.tasks@ =~= old(k).tasks@.update(c as int, t));
        assert(old(k).tasks@[c as int].lock == (Lock { held: false })) by {
            assert(!old(k).tasks@[c as int].lock.held);
        }
        assert forall|i: int| 0 <= i < mid.tasks@.len() implies same_uses(
            #[trigger] mid.tasks@[i],
            k.tasks@[i],
        ) by {}
        lemma_same_books(mid.tasks@, k.tasks@, k.fs.files@);
        lemma_same_space(t1, t);
        assert(slot_sound(t1, c as int));
        assert forall|i: int| 0 <= i < 8 implies slot_sound(#[trigger] k.tasks@[i], i) by {
            assert(slot_sound(old(k).tasks@[i], i));
        }
        assert forall|i: int| 0 <= i < 8 implies space_sound(#[trigger] k.tasks@[i]) by {
            assert(space_sound(old(k).tasks@[i]));
        }
        assert(x < y) by {
            assert(fs1[y as int].kind is Unused);
            if y < x {
                assert(!(fs0[y as int].kind is Unused));
            }
        }
        assert(y < z) by {
            assert(fs2[z as int].kind is Unused);
            if z < y {
                assert(!(fs1[z as int].kind is Unused));
            }
        }
        assert forall|j: int| x < j < z && j != y implies !((#[trigger] fs0[j]).kind is Unused) by {
            assert(fs1[j] == fs0[j] && fs2[j] == fs0[j]);
        }
        assert(t.files@ =~= no_files().update(
            0,
            Some(FD { file: x, read: true, write: true }),
        ).update(1, Some(FD { file: y, read: true, write: true })).update(
            2,
            Some(FD { file: z, read: true, write: true }),
        ));
    }
    (c, [x, y, z])
}

} // verus!

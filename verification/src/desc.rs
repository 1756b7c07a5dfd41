//! Descriptors: how a task gives its files up, shares them, and makes pipes.
use vstd::prelude::*;

use crate::books::{books, fd_sound, held, task_sound, task_uses, End};
use crate::books::{lemma_added, lemma_books, lemma_fd_used, lemma_fds_bound, lemma_let_go};
use crate::books::{lemma_fds_update, lemma_removed, lemma_take, lemma_uses_bound, uses};
use crate::file::{CloseStep, File, FileKind};
use crate::fs::{is_first_unused, new_pipe, none_unused, open_pipe, Fs, O};
use crate::kernel::{lemma_same_space, slot_sound, Kernel};
use crate::pipe::PipeStep;
use crate::sched::{read_chan, wakeup, woken, write_chan};
use crate::task::{Task, FD};

verus! {

/// What a system call gives that fails without saying why.
pub const FAIL: u64 = 0xffff_ffff_ffff_ffff;

/// Whether this is the task `old` with these descriptors.
pub open spec fn with_fds(t: Task, old: Task, files: Seq<Option<FD>>) -> bool {
    t.files@ == files && t == (Task { files: t.files, ..old })
}

/// The tasks after everything that sleeps at either end of the pipe in `f` has been
/// woken.
pub open spec fn pipe_woken(ts: Seq<Task>, f: int) -> Seq<Task> {
    woken(woken(ts, write_chan(f)), read_chan(f))
}

/// Wakes everything that sleeps at either end of the pipe in `f`.
pub(crate) fn wake_pipe(k: &mut Kernel, f: usize)
    requires
        old(k).sound(),
        old(k).unlocked(),
        f < 128,
    ensures
        final(k).sound(),
        final(k).unlocked(),
        old(k).serving() ==> final(k).serving() && final(k).cur() == old(k).cur(),
        *final(k) == (Kernel { tasks: final(k).tasks, ..*old(k) }),
        final(k).tasks@ == pipe_woken(old(k).tasks@, f as int),
{
    wakeup(k, 9 + 2 * (f as u64));
    wakeup(k, 8 + 2 * (f as u64));
}

impl Task {
    /// Takes one more use of the file of the descriptor `idx`; returns another
    /// descriptor for it.
    pub fn dup_file(&self, fs: &mut Fs, idx: usize) -> (fd: FD)
        requires
            idx < 8,
            self.files@[idx as int] is Some,
            self.files@[idx as int]->0.file < old(fs).files@.len(),
            ({
                let d = self.files@[idx as int]->0;
                old(fs).files@[d.file as int].kind matches FileKind::Pipe(p) ==> d.read != d.write
                    && p.readers < usize::MAX && p.writers < usize::MAX
            }),
        ensures
            fd == self.files@[idx as int]->0,
            final(fs).files@.len() == old(fs).files@.len(),
            final(fs).files@[fd.file as int].is_duped(old(fs).files@[fd.file as int], fd.read),
            final(fs).files@ == old(fs).files@.update(
                fd.file as int,
                final(fs).files@[fd.file as int],
            ),
    {
        let f = self.files[idx].unwrap();
        fs.files[f.file].dup(f.read, f.write);
        assert(fs.files@ =~= old(fs).files@.update(f.file as int, fs.files@[f.file as int]));
        f
    }

    /// Gives the descriptor `idx` up, whatever becomes of its file; returns the file
    /// and what it asks for. The task is locked meanwhile, so the file is no pipe:
    /// waking the sleepers of a pipe takes the lock of every task.
    pub fn close_file(&mut self, fs: &mut Fs, idx: usize) -> (r: Option<(usize, CloseStep)>)
        requires
            idx < 8,
            old(self).files@[idx as int] matches Some(d) ==> d.file < old(fs).files@.len() && (old(
                fs,
            ).files@[d.file as int].kind is P9 || old(fs).files@[d.file as int].kind is Cons),
        ensures
            match old(self).files@[idx as int] {
                Some(d) => {
                    let f = d.file as int;
                    &&& r == Some((d.file, old(fs).files@[f].close_step()))
                    &&& with_fds(*final(self), *old(self), old(self).files@.update(idx as int, None))
                    &&& final(fs).files@[f].is_let_go(old(fs).files@[f], d.read)
                    &&& final(fs).files@ == old(fs).files@.update(f, final(fs).files@[f])
                },
                None => r is None && *final(self) == *old(self) && *final(fs) == *old(fs),
            },
    {
        match self.files[idx] {
            Some(d) => {
                let s = fs.files[d.file].close(d.read, d.write);
                self.files[idx] = None;
                assert(fs.files@ =~= old(fs).files@.update(d.file as int, fs.files@[d.file as int]));
                Some((d.file, s))
            },
            None => None,
        }
    }
}

/// Kernels whose books are right and whose tasks have kept their slots and memory are
/// sound.
pub proof fn lemma_sound(k: Kernel, old: Kernel, t: Task)
    requires
        old.serving(),
        k == (Kernel { tasks: k.tasks, fs: k.fs, ..old }),
        k.tasks@ == old.tasks@.update(old.at(), t),
        k.fs.files@.len() == 128,
        books(k.tasks@, k.fs.files@),
        slot_sound(t, old.at()),
        crate::kernel::same_space(old.cur(), t),
        !t.lock.held,
        t.state is Running,
    ensures
        k.serving(),
{
    lemma_same_space(old.cur(), t);
}

/// How giving up a descriptor ends: with a result, or with a request to the server to
/// close the file.
#[derive(Clone, Copy, Debug, PartialEq, Eq, Structural)]
pub enum CloseOut {
    Done(u64),
    P9 { file: usize, fid: u32 },
}

/// The descriptor that a number stands for, if any.
pub open spec fn fd_of(t: Task, fd: u64) -> Option<FD> {
    t.file_at(fd as int)
}

/// Gives a descriptor up. A file of the server that nothing else uses keeps its
/// descriptor until the server has closed it.
pub fn close(k: &mut Kernel) -> (r: CloseOut)
    requires
        old(k).calling(),
        old(k).arg(0) != 8,
    ensures
        final(k).calling(),
        *final(k) == (Kernel { tasks: final(k).tasks, fs: final(k).fs, ..*old(k) }),
        match fd_of(old(k).cur(), old(k).arg(0)) {
            None => r == CloseOut::Done(FAIL) && *final(k) == *old(k),
            Some(d) => {
                let f = d.file as int;
                let file = old(k).fs.files@[f];
                let without = old(k).tasks@.update(old(k).at(), final(k).cur());
                &&& final(k).fs.files@[f].is_let_go(file, d.read)
                &&& final(k).fs.files@ == old(k).fs.files@.update(f, final(k).fs.files@[f])
                &&& match file.close_step() {
                    CloseStep::P9(fid) => {
                        &&& r == (CloseOut::P9 { file: d.file, fid })
                        &&& final(k).tasks@ == old(k).tasks@
                    },
                    s => {
                        &&& r == CloseOut::Done(0)
                        &&& with_fds(
                            final(k).cur(),
                            old(k).cur(),
                            old(k).cur().files@.update(old(k).arg(0) as int, None),
                        )
                        &&& final(k).tasks@ == if s is Wake {
                            pipe_woken(without, f)
                        } else {
                            without
                        }
                    },
                }
            },
        },
{
    let i: usize = k.cpu.task_idx.unwrap();
    let num: u64 = k.tasks[i].frame.regs[0];
    if num > 8 {
        return CloseOut::Done(FAIL);
    }
    let fd: usize = num as usize;
    let d = match k.tasks[i].files[fd] {
        None => return CloseOut::Done(FAIL),
        Some(d) => d,
    };
    let ghost ts = k.tasks@;
    let ghost fs0 = k.fs.files@;
    let ghost f = d.file as int;
    proof {
        lemma_fd_used(ts, fs0, i as int, fd as int);
    }
    let s = k.fs.files[d.file].close(d.read, d.write);
    let ghost file = k.fs.files@[f];
    assert(k.fs.files@ =~= fs0.update(f, file));
    if let CloseStep::P9(fid) = s {
        proof {
            lemma_pending(*k, *old(k), fd as int);
        }
        return CloseOut::P9 { file: d.file, fid };
    }
    k.tasks[i].files[fd] = None;
    let ghost t = k.tasks@[i as int];
    proof {
        lemma_gone(ts, fs0, i as int, t, fd as int, file);
        lemma_sound(*k, *old(k), t);
    }
    if let CloseStep::Wake = s {
        wake_pipe(k, d.file);
    }
    CloseOut::Done(0)
}

/// A descriptor goes and its file counts one less: the books stay right.
pub proof fn lemma_gone(ts: Seq<Task>, files: Seq<File>, i: int, t: Task, j: int, file: File)
    requires
        books(ts, files),
        0 <= i < ts.len() <= 8,
        ts[i].closed <= j < 8,
        ts[i].files@[j] is Some,
        with_fds(t, ts[i], ts[i].files@.update(j, None)),
        file.is_let_go(files[ts[i].files@[j]->0.file as int], ts[i].files@[j]->0.read),
    ensures
        books(ts.update(i, t), files.update(ts[i].files@[j]->0.file as int, file)),
{
    let d = ts[i].files@[j]->0;
    let f = d.file as int;
    assert(task_sound(ts[i], files));
    assert(fd_sound(ts[i].files@[j], files));
    lemma_removed(t, ts[i], j);
    assert forall|x: int| t.closed <= x < 8 implies fd_sound(#[trigger] t.files@[x], files) by {
        assert(fd_sound(ts[i].files@[x], files));
    }
    lemma_fds_bound(t.files@, t.closed as int, f, End::Any);
    lemma_fds_bound(t.files@, t.closed as int, f, End::Read);
    lemma_fds_bound(t.files@, t.closed as int, f, End::Write);
    lemma_let_go(ts, files, i, t, d, file);
}

/// A file that the server is about to close keeps its one descriptor.
proof fn lemma_pending(k: Kernel, old: Kernel, j: int)
    requires
        old.calling(),
        0 <= j < 8,
        old.cur().files@[j] is Some,
        k == (Kernel { fs: k.fs, ..old }),
        ({
            let d = old.cur().files@[j]->0;
            let f = d.file as int;
            &&& old.fs.files@[f].close_step() is P9
            &&& k.fs.files@[f].is_let_go(old.fs.files@[f], d.read)
            &&& k.fs.files@ == old.fs.files@.update(f, k.fs.files@[f])
        }),
    ensures
        k.calling(),
{
    let ts = old.tasks@;
    let f = old.cur().files@[j]->0.file as int;
    lemma_fd_used(ts, old.fs.files@, old.at(), j);
    assert(crate::books::counted(
        old.fs.files@[f],
        uses(ts, f, End::Any),
        uses(ts, f, End::Read),
        uses(ts, f, End::Write),
    ));
    lemma_books(ts, old.fs.files@, old.at(), old.cur(), f, k.fs.files@[f]);
    assert(ts.update(old.at(), old.cur()) =~= ts);
}

/// Whether the server is closing the file of the descriptor `fd`.
pub open spec fn closing(k: Kernel, fd: u64) -> bool {
    &&& fd < 8
    &&& k.cur().files@[fd as int] matches Some(d) && {
        &&& k.fs.files@[d.file as int].kind is P9
        &&& k.fs.files@[d.file as int].rc == 0
    }
}

/// Ends `close` where the server was asked to close the file.
pub fn close_done(k: &mut Kernel, ok: bool) -> (r: u64)
    requires
        old(k).calling(),
        closing(*old(k), old(k).arg(0)),
    ensures
        final(k).calling(),
        *final(k) == (Kernel { tasks: final(k).tasks, fs: final(k).fs, ..*old(k) }),
        ({
            let fd = old(k).arg(0) as int;
            let f = old(k).cur().files@[fd]->0.file as int;
            let file = old(k).fs.files@[f];
            if ok {
                &&& r == 0
                &&& with_fds(final(k).cur(), old(k).cur(), old(k).cur().files@.update(fd, None))
                &&& final(k).tasks@ == old(k).tasks@.update(old(k).at(), final(k).cur())
                &&& final(k).fs.files@ == old(k).fs.files@.update(
                    f,
                    File { kind: FileKind::Unused, path: None, ..file },
                )
            } else {
                &&& r == FAIL
                &&& final(k).tasks@ == old(k).tasks@
                &&& final(k).fs.files@ == old(k).fs.files@.update(f, File { rc: 1, ..file })
            }
        }),
{
    let i: usize = k.cpu.task_idx.unwrap();
    let fd: usize = k.tasks[i].frame.regs[0] as usize;
    let d = k.tasks[i].files[fd].unwrap();
    let ghost ts = k.tasks@;
    let ghost fs0 = k.fs.files@;
    let ghost f = d.file as int;
    proof {
        lemma_fd_used(ts, fs0, i as int, fd as int);
        assert(crate::books::counted(
            fs0[f],
            uses(ts, f, End::Any),
            uses(ts, f, End::Read),
            uses(ts, f, End::Write),
        ));
        lemma_some_fd(ts, fs0, i as int, fd as int);
    }
    let r = k.fs.files[d.file].closed(ok);
    let ghost file = k.fs.files@[f];
    assert(k.fs.files@ =~= fs0.update(f, file));
    if r.is_ok() {
        k.tasks[i].files[fd] = None;
        proof {
            let t = k.tasks@[i as int];
            lemma_removed(t, ts[i as int], fd as int);
            assert(task_sound(ts[i as int], fs0));
            assert forall|x: int| t.closed <= x < 8 implies fd_sound(
                #[trigger] t.files@[x],
                k.fs.files@,
            ) by {
                assert(fd_sound(ts[i as int].files@[x], fs0));
            }
            lemma_only_loading(ts, fs0, i as int, fd as int);
            lemma_books(ts, fs0, i as int, t, f, file);
            lemma_sound(*k, *old(k), t);
        }
        0
    } else {
        proof {
            let t = ts[i as int];
            assert(task_sound(t, fs0));
            assert forall|x: int| t.closed <= x < 8 implies fd_sound(
                #[trigger] t.files@[x],
                k.fs.files@,
            ) by {
                assert(fd_sound(t.files@[x], fs0));
            }
            lemma_books(ts, fs0, i as int, t, f, file);
            assert(ts.update(i as int, t) =~= ts);
            lemma_sound(*k, *old(k), t);
        }
        FAIL
    }
}

/// The task of a descriptor has at least that use.
proof fn lemma_some_fd(ts: Seq<Task>, files: Seq<File>, i: int, j: int)
    requires
        books(ts, files),
        0 <= i < ts.len() <= 8,
        ts[i].closed <= j < 8,
        ts[i].files@[j] is Some,
    ensures
        ({
            let f = ts[i].files@[j]->0.file as int;
            1 <= task_uses(ts[i], f, End::Any) <= uses(ts, f, End::Any)
        }),
{
    let f = ts[i].files@[j]->0.file as int;
    assert forall|k: int| 0 <= k < ts.len() implies (#[trigger] ts[k]).closed <= 8 by {
        assert(task_sound(ts[k], files));
    }
    crate::books::lemma_fds_has(ts[i].files@, ts[i].closed as int, j, f, End::Any);
    crate::books::lemma_uses_has(ts, i, f, End::Any);
}

/// Where a file has one use, and a descriptor is that use, no program is loaded from it.
proof fn lemma_only_loading(ts: Seq<Task>, files: Seq<File>, i: int, j: int)
    requires
        books(ts, files),
        0 <= i < ts.len() <= 8,
        ts[i].closed <= j < 8,
        ts[i].files@[j] is Some,
        uses(ts, ts[i].files@[j]->0.file as int, End::Any) == 1,
    ensures
        ts[i].loading != Some(ts[i].files@[j]->0.file),
        task_uses(ts[i], ts[i].files@[j]->0.file as int, End::Any) == 1,
{
    let f = ts[i].files@[j]->0.file as int;
    lemma_some_fd(ts, files, i, j);
    assert(task_sound(ts[i], files));
    crate::books::lemma_fds_has(ts[i].files@, ts[i].closed as int, j, f, End::Any);
}

/// Ends giving up a file of the server whose descriptor is gone already.
pub fn file_closed(k: &mut Kernel, f: usize, ok: bool) -> (r: Result<(), ()>)
    requires
        old(k).serving(),
        f < 128,
        old(k).fs.files@[f as int].kind is P9,
        old(k).fs.files@[f as int].rc == 0,
        uses(old(k).tasks@, f as int, End::Any) == 0,
    ensures
        r is Ok <==> ok,
        final(k).serving(),
        *final(k) == (Kernel { fs: final(k).fs, ..*old(k) }),
        final(k).fs.files@ == old(k).fs.files@.update(
            f as int,
            if ok {
                File { kind: FileKind::Unused, path: None, ..old(k).fs.files@[f as int] }
            } else {
                File { rc: 1, ..old(k).fs.files@[f as int] }
            },
        ),
{
    let r = k.fs.files[f].closed(ok);
    proof {
        let ts = old(k).tasks@;
        let fs0 = old(k).fs.files@;
        let i = old(k).at();
        let file = k.fs.files@[f as int];
        assert(k.fs.files@ =~= fs0.update(f as int, file));
        assert forall|x: int| 0 <= x < ts.len() implies (#[trigger] ts[x]).closed <= 8 by {
            assert(task_sound(ts[x], fs0));
        }
        crate::books::lemma_uses_has(ts, i, f as int, End::Any);
        lemma_uses_bound(ts, f as int, End::Read);
        lemma_uses_bound(ts, f as int, End::Write);
        let t = ts[i];
        assert(task_sound(t, fs0));
        assert(task_sound(t, k.fs.files@)) by {
            assert forall|x: int| t.closed <= x < 8 implies fd_sound(
                #[trigger] t.files@[x],
                k.fs.files@,
            ) by {
                assert(fd_sound(t.files@[x], fs0));
            }
            lemma_fds_bound(t.files@, t.closed as int, f as int, End::Any);
        }
        lemma_books(ts, fs0, i, t, f as int, file);
        assert(ts.update(i, t) =~= ts);
        lemma_sound(*k, *old(k), t);
    }
    r
}

/// Whether the file of this descriptor counts it: the server is not about to close it.
pub open spec fn settled(fd: Option<FD>, files: Seq<File>) -> bool {
    fd matches Some(d) ==> files[d.file as int].rc > 0
}

/// Whether this is the file `old` after a use of one end of it has replaced another.
pub open spec fn is_swapped(file: File, old: File, taken: bool, given: bool) -> bool {
    &&& file.rc == old.rc
    &&& file.offt == old.offt
    &&& file.path == old.path
    &&& if old.kind is Pipe {
        file.kind is Pipe && file.kind->Pipe_0@ == old.kind->Pipe_0@.more(taken).less(given)
    } else {
        file.kind == old.kind
    }
}

/// The books when a descriptor replaces another of the same file.
proof fn lemma_swapped(
    ts: Seq<Task>,
    files: Seq<File>,
    i: int,
    mid: Task,
    t: Task,
    from: int,
    to: int,
    file: File,
)
    requires
        books(ts, files),
        0 <= i < ts.len() <= 8,
        ts[i].closed == 0,
        0 <= from < 8,
        0 <= to < 8,
        from != to,
        ts[i].files@[from] is Some,
        ts[i].files@[to] is Some,
        ts[i].files@[from]->0.file == ts[i].files@[to]->0.file,
        with_fds(mid, ts[i], ts[i].files@.update(to, None)),
        with_fds(t, ts[i], ts[i].files@.update(to, ts[i].files@[from])),
        is_swapped(
            file,
            files[ts[i].files@[from]->0.file as int],
            ts[i].files@[from]->0.read,
            ts[i].files@[to]->0.read,
        ),
    ensures
        books(ts.update(i, t), files.update(ts[i].files@[from]->0.file as int, file)),
{
    let d = ts[i].files@[from]->0;
    let x = ts[i].files@[to]->0;
    let f = d.file as int;
    lemma_fd_used(ts, files, i, from);
    lemma_fd_used(ts, files, i, to);
    assert(t.files@ =~= mid.files@.update(to, Some(d)));
    lemma_removed(mid, ts[i], to);
    lemma_added(t, mid, to, d);
    assert(crate::books::counted(
        files[f],
        uses(ts, f, End::Any),
        uses(ts, f, End::Read),
        uses(ts, f, End::Write),
    ));
    let gs = files.update(f, file);
    assert(task_sound(ts[i], files));
    assert forall|y: int| t.closed <= y < 8 implies fd_sound(#[trigger] t.files@[y], gs) by {
        assert(fd_sound(ts[i].files@[y], files));
        assert(fd_sound(ts[i].files@[from], files));
    }
    assert forall|g: int, e: End| 0 <= g < files.len() && g != f implies #[trigger] task_uses(t, g, e)
        == task_uses(ts[i], g, e) by {
        assert(task_uses(mid, g, e) == task_uses(ts[i], g, e) - held(Some(x), g, e));
    }
    assert(task_uses(mid, f, End::Any) == task_uses(ts[i], f, End::Any) - 1);
    assert(task_uses(mid, f, End::Read) == task_uses(ts[i], f, End::Read) - held(
        Some(x),
        f,
        End::Read,
    ));
    assert(task_uses(mid, f, End::Write) == task_uses(ts[i], f, End::Write) - held(
        Some(x),
        f,
        End::Write,
    ));
    lemma_books(ts, files, i, t, f, file);
}

/// The descriptor number that `dup3` fills, and the file it takes, where it has work to
/// do.
pub open spec fn dup3_works(k: Kernel) -> bool {
    k.cur().files@[k.arg(0) as int] is Some && k.arg(0) != k.arg(1)
}

/// Makes one descriptor number stand for the file of another. Where a file of the
/// server is replaced that nothing else uses, the server is to close it, and
/// `dup3_done` ends the call.
pub fn dup3(k: &mut Kernel) -> (r: CloseOut)
    requires
        old(k).calling(),
        old(k).arg(0) < 8,
        dup3_works(*old(k)) ==> old(k).arg(1) < 8 && settled(
            old(k).cur().files@[old(k).arg(0) as int],
            old(k).fs.files@,
        ),
    ensures
        final(k).calling(),
        *final(k) == (Kernel { tasks: final(k).tasks, fs: final(k).fs, ..*old(k) }),
        old(k).cur().files@[old(k).arg(0) as int] is None ==> r == CloseOut::Done(FAIL)
            && *final(k) == *old(k),
        old(k).cur().files@[old(k).arg(0) as int] is Some && old(k).arg(0) == old(k).arg(1) ==> r
            == CloseOut::Done(old(k).arg(0)) && *final(k) == *old(k),
        dup3_works(*old(k)) ==> {
            let from = old(k).arg(0) as int;
            let to = old(k).arg(1) as int;
            let d = old(k).cur().files@[from]->0;
            let f = d.file as int;
            let fs0 = old(k).fs.files@;
            let fs1 = final(k).fs.files@;
            let with = old(k).tasks@.update(old(k).at(), final(k).cur());
            &&& with_fds(final(k).cur(), old(k).cur(), old(k).cur().files@.update(to, Some(d)))
            &&& match old(k).cur().files@[to] {
                None => {
                    &&& r == CloseOut::Done(to as u64)
                    &&& final(k).tasks@ == with
                    &&& fs1[f].is_duped(fs0[f], d.read)
                    &&& fs1 == fs0.update(f, fs1[f])
                },
                Some(x) => if x.file == d.file {
                    &&& r == CloseOut::Done(to as u64)
                    &&& is_swapped(fs1[f], fs0[f], d.read, x.read)
                    &&& fs1 == fs0.update(f, fs1[f])
                    &&& final(k).tasks@ == if fs0[f].kind is Pipe {
                        pipe_woken(with, f)
                    } else {
                        with
                    }
                } else {
                    let g = x.file as int;
                    &&& fs1[f].is_duped(fs0[f], d.read)
                    &&& fs1[g].is_let_go(fs0[g], x.read)
                    &&& fs1 == fs0.update(f, fs1[f]).update(g, fs1[g])
                    &&& match fs0[g].close_step() {
                        CloseStep::P9(fid) => {
                            &&& r == (CloseOut::P9 { file: x.file, fid })
                            &&& final(k).tasks@ == with
                            &&& uses(with, g, End::Any) == 0
                        },
                        s => {
                            &&& r == CloseOut::Done(to as u64)
                            &&& final(k).tasks@ == if s is Wake {
                                pipe_woken(with, g)
                            } else {
                                with
                            }
                        },
                    }
                },
            }
        },
{
    let i: usize = k.cpu.task_idx.unwrap();
    let from: usize = k.tasks[i].frame.regs[0] as usize;
    if k.tasks[i].files[from].is_none() {
        return CloseOut::Done(FAIL);
    }
    if k.tasks[i].frame.regs[0] == k.tasks[i].frame.regs[1] {
        return CloseOut::Done(k.tasks[i].frame.regs[0]);
    }
    let to: usize = k.tasks[i].frame.regs[1] as usize;
    let replaced = k.tasks[i].files[to];
    let ghost ts = k.tasks@;
    let ghost fs0 = k.fs.files@;
    let ghost old_t = ts[i as int];
    proof {
        lemma_fd_used(ts, fs0, i as int, from as int);
    }
    let d = k.tasks[i].dup_file(&mut k.fs, from);
    let ghost f = d.file as int;
    let ghost file_f = k.fs.files@[f];
    k.tasks[i].files[to] = None;
    let ghost mid = k.tasks@[i as int];
    k.tasks[i].files[to] = Some(d);
    let ghost t = k.tasks@[i as int];
    assert(with_fds(mid, old_t, old_t.files@.update(to as int, None)));
    assert(t.files@ =~= old_t.files@.update(to as int, Some(d)));
    assert(k.tasks@ =~= ts.update(i as int, t));
    assert(t.files@ =~= mid.files@.update(to as int, Some(d)));
    match replaced {
        None => {
            proof {
                assert(mid.files@ =~= old_t.files@);
                lemma_some_fd(ts, fs0, i as int, from as int);
                lemma_added(t, old_t, to as int, d);
                lemma_take_fd(ts, fs0, i as int, t, from as int, to as int, file_f);
                lemma_sound(*k, *old(k), t);
            }
            CloseOut::Done(to as u64)
        },
        Some(x) => {
            let ghost g = x.file as int;
            proof {
                lemma_fd_used(ts, fs0, i as int, to as int);
                lemma_two_uses(ts, fs0, i as int, from as int, to as int);
            }
            let s = k.fs.files[x.file].close(x.read, x.write);
            let ghost fs1 = k.fs.files@;
            proof {
                if g == f {
                    assert(is_swapped(fs1[f], fs0[f], d.read, x.read));
                    assert(fs1 =~= fs0.update(f, fs1[f]));
                    lemma_swapped(
                        ts,
                        fs0,
                        i as int,
                        mid,
                        t,
                        from as int,
                        to as int,
                        fs1[f],
                    );
                } else {
                    assert(fs1 =~= fs0.update(f, fs1[f]).update(g, fs1[g]));
                    let fs_mid = fs0.update(g, fs1[g]);
                    let ts_mid = ts.update(i as int, mid);
                    lemma_gone(ts, fs0, i as int, mid, to as int, fs1[g]);
                    lemma_some_fd(ts_mid, fs_mid, i as int, from as int);
                    lemma_added(t, mid, to as int, d);
                    lemma_take_fd(ts_mid, fs_mid, i as int, t, from as int, to as int, fs1[f]);
                    assert(ts_mid.update(i as int, t) =~= ts.update(i as int, t));
                    assert(fs_mid.update(f, fs1[f]) =~= fs1);
                    if fs0[g].close_step() is P9 {
                        lemma_counted(ts, fs0, g);
                        crate::books::lemma_uses_update(ts, i as int, t, g, End::Any);
                        lemma_removed(mid, old_t, to as int);
                        assert(task_uses(mid, g, End::Any) == task_uses(old_t, g, End::Any) - 1);
                        assert(task_uses(t, g, End::Any) == task_uses(mid, g, End::Any));
                    }
                }
                lemma_sound(*k, *old(k), t);
            }
            match s {
                CloseStep::P9(fid) => CloseOut::P9 { file: x.file, fid },
                CloseStep::Wake => {
                    wake_pipe(k, x.file);
                    CloseOut::Done(to as u64)
                },
                CloseStep::Done => CloseOut::Done(to as u64),
            }
        },
    }
}

/// Ends `dup3` where the server was asked to close the file that was replaced, and has
/// closed it; returns the new number.
pub fn dup3_done(k: &mut Kernel, file: usize) -> (n: u64)
    requires
        old(k).calling(),
        file < 128,
        old(k).fs.files@[file as int].kind is P9,
        old(k).fs.files@[file as int].rc == 0,
        uses(old(k).tasks@, file as int, End::Any) == 0,
    ensures
        n == old(k).arg(1),
        final(k).calling(),
        *final(k) == (Kernel { fs: final(k).fs, ..*old(k) }),
        final(k).fs.files@ == old(k).fs.files@.update(
            file as int,
            File { kind: FileKind::Unused, path: None, ..old(k).fs.files@[file as int] },
        ),
{
    let _ = file_closed(k, file, true);
    let i: usize = k.cpu.task_idx.unwrap();
    k.tasks[i].frame.regs[1]
}

proof fn lemma_counted(ts: Seq<Task>, files: Seq<File>, f: int)
    requires
        books(ts, files),
        0 <= f < files.len(),
    ensures
        crate::books::counted(
            files[f],
            uses(ts, f, End::Any),
            uses(ts, f, End::Read),
            uses(ts, f, End::Write),
        ),
{
    let file = files[f];
}

/// Two descriptors of one file are two uses of it.
proof fn lemma_two_uses(ts: Seq<Task>, files: Seq<File>, i: int, a: int, b: int)
    requires
        books(ts, files),
        0 <= i < ts.len() <= 8,
        ts[i].closed == 0,
        0 <= a < 8,
        0 <= b < 8,
        a != b,
        ts[i].files@[a] is Some,
        ts[i].files@[b] is Some,
    ensures
        ts[i].files@[a]->0.file == ts[i].files@[b]->0.file ==> {
            let file = files[ts[i].files@[a]->0.file as int];
            file.rc >= 2
        },
{
    let d = ts[i].files@[a]->0;
    let f = d.file as int;
    if ts[i].files@[b]->0.file == d.file {
        lemma_fd_used(ts, files, i, a);
        lemma_counted(ts, files, f);
        let less = ts[i].files@.update(a, None);
        lemma_fds_update(ts[i].files@, 0, a, None, f, End::Any);
        crate::books::lemma_fds_has(less, 0, b, f, End::Any);
        assert forall|k: int| 0 <= k < ts.len() implies (#[trigger] ts[k]).closed <= 8 by {
            assert(task_sound(ts[k], files));
        }
        crate::books::lemma_uses_has(ts, i, f, End::Any);
    }
}

/// A descriptor is copied to a free number: the books stay right.
pub proof fn lemma_take_fd(
    ts: Seq<Task>,
    files: Seq<File>,
    i: int,
    t: Task,
    from: int,
    to: int,
    file: File,
)
    requires
        books(ts, files),
        0 <= i < ts.len() <= 8,
        ts[i].closed == 0,
        0 <= from < 8,
        0 <= to < 8,
        ts[i].files@[from] is Some,
        ts[i].files@[to] is None,
        with_fds(t, ts[i], ts[i].files@.update(to, ts[i].files@[from])),
        files[ts[i].files@[from]->0.file as int].rc > 0,
        file.is_duped(
            files[ts[i].files@[from]->0.file as int],
            ts[i].files@[from]->0.read,
        ),
    ensures
        books(ts.update(i, t), files.update(ts[i].files@[from]->0.file as int, file)),
{
    let d = ts[i].files@[from]->0;
    lemma_fd_used(ts, files, i, from);
    lemma_added(t, ts[i], to, d);
    assert(task_sound(ts[i], files));
    assert forall|x: int| t.closed <= x < 8 implies fd_sound(#[trigger] t.files@[x], files) by {
        assert(fd_sound(ts[i].files@[x], files));
        assert(fd_sound(ts[i].files@[from], files));
    }
    assert(fd_sound(ts[i].files@[from], files));
    lemma_take(ts, files, i, t, d, file);
}

/// Whether two descriptor numbers, at least, are free.
pub open spec fn two_free(t: Task) -> bool {
    exists|a: int, b: int|
        0 <= a < b < 8 && (#[trigger] t.files@[a]) is None && (#[trigger] t.files@[b]) is None
}

/// The numbers `a` and `b` are the first two that are free.
pub open spec fn first_two(t: Task, a: int, b: int) -> bool {
    &&& t.is_first_free(a)
    &&& a < b < 8
    &&& t.files@[b] is None
    &&& forall|j: int| 0 <= j < b && j != a ==> (#[trigger] t.files@[j]) is Some
}

/// A file that is not open is not in use.
pub proof fn lemma_unused(ts: Seq<Task>, files: Seq<File>, f: int)
    requires
        books(ts, files),
        0 <= f < files.len(),
        !files[f].is_open(),
    ensures
        files[f].rc == 0,
        uses(ts, f, End::Any) == 0,
        uses(ts, f, End::Read) == 0,
        uses(ts, f, End::Write) == 0,
        forall|i: int, e: End|
            0 <= i < ts.len() ==> #[trigger] task_uses(ts[i], f, e) == 0,
        forall|i: int, j: int|
            0 <= i < ts.len() && ts[i].closed <= j < 8 && (#[trigger] ts[i].files@[j]) is Some
                ==> ts[i].files@[j]->0.file != f,
{
    lemma_counted(ts, files, f);
    assert forall|k: int| 0 <= k < ts.len() implies (#[trigger] ts[k]).closed <= 8 by {
        assert(task_sound(ts[k], files));
    }
    lemma_uses_bound(ts, f, End::Read);
    lemma_uses_bound(ts, f, End::Write);
    assert forall|i: int, e: End| 0 <= i < ts.len() implies #[trigger] task_uses(ts[i], f, e)
        == 0 by {
        crate::books::lemma_uses_has(ts, i, f, e);
        lemma_uses_bound(ts, f, e);
    }
    assert forall|i: int, j: int|
        0 <= i < ts.len() && ts[i].closed <= j < 8 && (#[trigger] ts[i].files@[j])
            is Some implies ts[i].files@[j]->0.file != f by {
        assert(task_sound(ts[i], files));
        crate::books::lemma_fds_has(ts[i].files@, ts[i].closed as int, j, f, End::Any);
        assert(task_uses(ts[i], f, End::Any) == 0);
    }
}

/// What `pipe2` gives: its result, and the two descriptor numbers that the program
/// gets.
#[derive(Clone, Copy, Debug, PartialEq, Eq)]
pub struct Pipe2 {
    pub ret: u64,
    pub fds: Option<(u32, u32)>,
}

/// Makes a pipe and gives the current task both ends of it.
pub fn pipe2(k: &mut Kernel) -> (r: Pipe2)
    requires
        old(k).calling(),
        !none_unused(old(k).fs.files@) ==> two_free(old(k).cur()),
    ensures
        final(k).calling(),
        *final(k) == (Kernel { tasks: final(k).tasks, fs: final(k).fs, ..*old(k) }),
        none_unused(old(k).fs.files@) ==> r == (Pipe2 { ret: FAIL, fds: None }) && *final(k)
            == *old(k),
        !none_unused(old(k).fs.files@) ==> {
            &&& r.ret == 0
            &&& r.fds matches Some((a, b)) && {
                let file = final(k).cur().files@[a as int]->0.file;
                let f = file as int;
                let made = final(k).fs.files@[f];
                &&& first_two(old(k).cur(), a as int, b as int)
                &&& with_fds(
                    final(k).cur(),
                    old(k).cur(),
                    old(k).cur().files@.update(
                        a as int,
                        Some(FD { file, read: true, write: false }),
                    ).update(b as int, Some(FD { file, read: false, write: true })),
                )
                &&& final(k).tasks@ == old(k).tasks@.update(old(k).at(), final(k).cur())
                &&& is_first_unused(old(k).fs.files@, f)
                &&& final(k).fs.files@ == old(k).fs.files@.update(f, made)
                &&& made == (File { kind: made.kind, rc: 2, offt: 0, path: None })
                &&& made.kind is Pipe
                &&& made.kind->Pipe_0@ == new_pipe(
                    old(k).arg(1) & (O::NONBLOCK as u64) != 0,
                ).more(false)
            }
        },
{
    let i: usize = k.cpu.task_idx.unwrap();
    let nonblock: bool = k.tasks[i].frame.regs[1] & (O::NONBLOCK as u64) != 0;
    let ghost ts = k.tasks@;
    let ghost fs0 = k.fs.files@;
    let file: usize = match open_pipe(&mut k.fs, nonblock) {
        Ok(f) => f,
        Err(_) => {
            return Pipe2 { ret: FAIL, fds: None };
        },
    };
    let ghost f = file as int;
    assert(!none_unused(fs0)) by {
        let x = fs0[f];
    }
    k.fs.files[file].dup(false, true);
    let ghost made = k.fs.files@[f];
    let ghost t0 = ts[i as int];
    let ghost (x, y) = choose|a: int, b: int|
        0 <= a < b < 8 && (#[trigger] t0.files@[a]) is None && (#[trigger] t0.files@[b]) is None;
    let fd1 = FD { file, read: true, write: false };
    let fd2 = FD { file, read: false, write: true };
    let a: usize = k.tasks[i].alloc_file(fd1).unwrap();
    let ghost t1 = k.tasks@[i as int];
    proof {
        let z = if a == x { y } else { x };
        assert(t1.files@[z] is None);
    }
    let b: usize = k.tasks[i].alloc_file(fd2).unwrap();
    proof {
        let t = k.tasks@[i as int];
        assert(k.tasks@ =~= ts.update(i as int, t));
        assert(k.fs.files@ =~= fs0.update(f, made));
        assert(a < b) by {
            assert(t1.files@[b as int] is None);
            if b < a {
                assert(t0.files@[b as int] is Some);
            }
        }
        assert forall|j: int| 0 <= j < b && j != a implies (#[trigger] t0.files@[j]) is Some by {
            assert(t1.files@[j] is Some);
        }
        lemma_unused(ts, fs0, f);
        lemma_added(t1, t0, a as int, fd1);
        lemma_added(t, t1, b as int, fd2);
        assert forall|g: int, e: End| 0 <= g < fs0.len() && g != f implies #[trigger] task_uses(
            t,
            g,
            e,
        ) == task_uses(ts[i as int], g, e) by {
            assert(task_uses(t1, g, e) == task_uses(t0, g, e) + held(Some(fd1), g, e));
        }
        assert(task_uses(t1, f, End::Any) == task_uses(t0, f, End::Any) + 1);
        assert(task_uses(t1, f, End::Read) == task_uses(t0, f, End::Read) + 1);
        assert(task_uses(t1, f, End::Write) == task_uses(t0, f, End::Write));
        assert(task_uses(t, f, End::Any) == 2);
        assert(task_uses(t, f, End::Read) == 1);
        assert(task_uses(t, f, End::Write) == 1);
        assert(task_sound(t0, fs0));
        assert forall|j: int| t.closed <= j < 8 implies fd_sound(
            #[trigger] t.files@[j],
            k.fs.files@,
        ) by {
            assert(fd_sound(t0.files@[j], fs0));
            assert(ts[i as int].files@[j] is Some ==> ts[i as int].files@[j]->0.file != f);
        }
        lemma_books(ts, fs0, i as int, t, f, made);
        lemma_sound(*k, *old(k), t);
    }
    Pipe2 { ret: 0, fds: Some((a as u32, b as u32)) }
}

/// Whatever a task has a descriptor for is an open file. It counts its users, unless
/// the server is about to close it.
pub proof fn law_descriptor_file_is_open(k: Kernel, t: int, j: int)
    requires
        k.sound(),
        0 <= t < 8,
        k.tasks@[t].closed <= j < 8,
        k.tasks@[t].files@[j] is Some,
    ensures
        ({
            let f = k.tasks@[t].files@[j]->0.file as int;
            let file = k.fs.files@[f];
            &&& 0 <= f < 128
            &&& file.is_open()
            &&& file.rc == uses(k.tasks@, f, End::Any) || (file.kind is P9 && file.rc == 0 && uses(
                k.tasks@,
                f,
                End::Any,
            ) == 1)
        }),
{
    lemma_fd_used(k.tasks@, k.fs.files@, t, j);
    lemma_counted(k.tasks@, k.fs.files@, k.tasks@[t].files@[j]->0.file as int);
}

/// A pipe has as many read ends and write ends as there are descriptors for them.
pub proof fn law_pipe_counts_its_ends(k: Kernel, f: int)
    requires
        k.sound(),
        0 <= f < 128,
        k.fs.files@[f].kind is Pipe,
    ensures
        k.fs.files@[f].kind->Pipe_0@.readers == uses(k.tasks@, f, End::Read),
        k.fs.files@[f].kind->Pipe_0@.writers == uses(k.tasks@, f, End::Write),
        k.fs.files@[f].rc == uses(k.tasks@, f, End::Any),
{
    lemma_counted(k.tasks@, k.fs.files@, f);
}

/// Giving up a use that was taken leaves a file as it was.
pub proof fn law_close_undoes_dup(old: File, duped: File, closed: File, r: bool)
    requires
        0 < old.rc < u16::MAX,
        duped.is_duped(old, r),
        closed.is_let_go(duped, r),
    ensures
        closed.rc == old.rc,
        closed.offt == old.offt,
        closed.path == old.path,
        if old.kind is Pipe {
            closed.kind is Pipe && closed.kind->Pipe_0@ == old.kind->Pipe_0@
        } else {
            closed.kind == old.kind
        },
        !(duped.close_step() is P9),
{
}

/// What is written to one end of a new pipe is read at the other, unchanged.
pub proof fn law_pipe_carries_bytes(nonblock: bool, data: Seq<u8>)
    requires
        data.len() <= 4096,
    ensures
        ({
            let p = new_pipe(nonblock).more(false);
            let run = p.write_run(data);
            let back = run.pipe.read_run(Seq::empty(), data.len() as int);
            &&& run.io.step == PipeStep::Done(data.len() as usize)
            &&& back.io.step == PipeStep::Done(data.len() as usize)
            &&& back.bytes == data
        }),
{
    let p = new_pipe(nonblock).more(false);
    crate::pipe::law_read_gives_back_write(p, data);
}

} // verus!

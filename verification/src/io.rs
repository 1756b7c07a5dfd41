//! System calls on descriptors: moving bytes, positions, and states.
//!
//! What a program writes is handed in, and what it reads is handed out, as bytes.
//! Where a device has to do the work, or the task has to sleep, a call says so, and
//! another call takes up what came of it.
use vstd::prelude::*;

use crate::books::{lemma_fd_used, lemma_file_kept, same_count};
use crate::calls::{Step, StepView};
use crate::desc::{lemma_sound, FAIL};
use crate::file::{bits64, low32, mod64, stepped, File, FileKind, FileStep, Seek, Send, Stat};
use crate::file::{lemma_total, total, StatStep, S_IFIFO};
use crate::fs::P9Ask;
use crate::kernel::Kernel;
use crate::pipe::{PipeIo, PipeStep};
use crate::sched::{asleep, awake, fall_asleep, read_chan, slept_if, wakeup, woken, write_chan};
use crate::task::{Cpu, Task, FD};

verus! {

/// There is no such position.
pub const ESPIPE: u64 = 0xffff_ffff_ffff_ffe3;

/// How moving bytes goes on.
#[derive(Clone, Copy, Debug, PartialEq, Eq)]
pub enum Io {
    /// So many bytes were moved, or it failed.
    Done(Result<usize, ()>),
    /// The server does it, from this position on.
    P9 { file: usize, fid: u32, offset: u64 },
    /// The console does it.
    Cons { file: usize, cons: u32 },
    /// The task sleeps; so many bytes have been moved.
    Switch(usize),
}

/// The result of a call that moves bytes.
pub open spec fn io_value(r: Result<usize, ()>) -> u64 {
    match r {
        Ok(n) => n as u64,
        Err(_) => FAIL,
    }
}

/// The result of a call that moves bytes.
pub fn io_ret(r: Result<usize, ()>) -> (n: u64)
    ensures
        n == io_value(r),
{
    match r {
        Ok(n) => n as u64,
        Err(_) => FAIL,
    }
}

/// The tasks after a transfer at the pipe in `f`: the other end is woken where the
/// transfer asks for it, and the current task sleeps where it has to wait.
pub open spec fn piped(ts: Seq<Task>, at: int, f: int, io: PipeIo, writing: bool) -> Seq<Task> {
    let (own, other) = if writing {
        (write_chan(f), read_chan(f))
    } else {
        (read_chan(f), write_chan(f))
    };
    let us = if io.wake {
        woken(ts, other)
    } else {
        ts
    };
    match io.step {
        PipeStep::Done(_) => us,
        PipeStep::Sleep(_) => us.update(at, asleep(us[at], Some(own))),
    }
}

/// Whether this is the kernel `old`, with the tasks `ts`, after a transfer at the pipe
/// in `f`.
pub open spec fn after_pipe(
    k: Kernel,
    old: Kernel,
    ts: Seq<Task>,
    f: int,
    io: PipeIo,
    writing: bool,
) -> bool {
    &&& k == (Kernel { cpu: k.cpu, tasks: k.tasks, fs: k.fs, ..old })
    &&& k.cpu == (Cpu {
        int_disables: if io.step is Sleep {
            1
        } else {
            0
        },
        ..old.cpu
    })
    &&& k.tasks@ == piped(ts, old.at(), f, io, writing)
    &&& k.fs.files@ == old.fs.files@.update(f, k.fs.files@[f])
    &&& k.fs.files@[f].with_pipe(old.fs.files@[f])
    &&& io.step is Done ==> k.calling()
    &&& io.step is Sleep ==> k.leaving()
}

/// Whether nothing has changed.
pub open spec fn unchanged(k: Kernel, old: Kernel) -> bool {
    &&& k == (Kernel { fs: k.fs, ..old })
    &&& k.fs.files@ == old.fs.files@
    &&& k.calling()
}

/// What a pipe's transfer means to the call.
pub open spec fn pipe_out(io: PipeIo) -> Io {
    match io.step {
        PipeStep::Done(n) => Io::Done(Ok(n)),
        PipeStep::Sleep(n) => Io::Switch(n),
    }
}

/// Wakes and sleeps as a transfer at the pipe in `f` asks for.
fn settle(k: &mut Kernel, f: usize, io: PipeIo, writing: bool) -> (r: Io)
    requires
        old(k).calling(),
        f < 128,
    ensures
        r == pipe_out(io),
        *final(k) == (Kernel { cpu: final(k).cpu, tasks: final(k).tasks, ..*old(k) }),
        final(k).cpu == (Cpu {
            int_disables: if io.step is Sleep {
                1
            } else {
                0
            },
            ..old(k).cpu
        }),
        final(k).tasks@ == piped(old(k).tasks@, old(k).at(), f as int, io, writing),
        io.step is Done ==> final(k).calling(),
        io.step is Sleep ==> final(k).leaving(),
{
    let r: u64 = 8 + 2 * (f as u64);
    let w: u64 = 9 + 2 * (f as u64);
    if io.wake {
        wakeup(k, if writing { r } else { w });
    }
    match io.step {
        PipeStep::Done(n) => Io::Done(Ok(n)),
        PipeStep::Sleep(n) => {
            fall_asleep(k, Some(if writing { w } else { r }), false);
            Io::Switch(n)
        },
    }
}

/// What goes on inside an open file keeps the kernel sound.
pub proof fn lemma_file_changed(k: Kernel, old: Kernel, f: int)
    requires
        old.serving(),
        0 <= f < 128,
        k == (Kernel { fs: k.fs, ..old }),
        k.fs.files@ == old.fs.files@.update(f, k.fs.files@[f]),
        same_count(k.fs.files@[f], old.fs.files@[f]),
    ensures
        k.serving(),
{
    lemma_file_kept(old.tasks@, old.fs.files@, f, k.fs.files@[f]);
    assert(old.tasks@.update(old.at(), old.cur()) =~= old.tasks@);
    lemma_sound(k, old, old.cur());
}

/// Starts writing to the file in `f`.
pub fn write_file(k: &mut Kernel, f: usize, buf: &[u8]) -> (r: Io)
    requires
        old(k).calling(),
        f < 128,
        old(k).fs.files@[f as int].is_open(),
    ensures
        ({
            let file = old(k).fs.files@[f as int];
            match file.kind {
                FileKind::Pipe(p) => if file.rc > 0 {
                    let run = p@.write_run(buf@);
                    &&& r == pipe_out(run.io)
                    &&& after_pipe(*final(k), *old(k), old(k).tasks@, f as int, run.io, true)
                    &&& final(k).fs.files@[f as int].kind->Pipe_0@ == run.pipe
                } else {
                    r == Io::Done(Err(())) && unchanged(*final(k), *old(k))
                },
                kind => {
                    &&& unchanged(*final(k), *old(k))
                    &&& r == if file.rc == 0 {
                        Io::Done(Err(()))
                    } else if let FileKind::P9(fid) = kind {
                        Io::P9 { file: f, fid, offset: file.offt }
                    } else {
                        Io::Cons { file: f, cons: kind->Cons_0 }
                    }
                },
            }
        }),
{
    let ghost fs0 = k.fs.files@;
    match k.fs.files[f].write(buf) {
        FileStep::Fail => {
            assert(k.fs.files@ =~= fs0);
            Io::Done(Err(()))
        },
        FileStep::P9 { fid, offset } => {
            assert(k.fs.files@ =~= fs0);
            Io::P9 { file: f, fid, offset }
        },
        FileStep::Cons(cons) => {
            assert(k.fs.files@ =~= fs0);
            Io::Cons { file: f, cons }
        },
        FileStep::Pipe(io) => {
            proof {
                fs0[f as int].kind->Pipe_0@.lemma_write_keeps_ends(buf@);
                assert(k.fs.files@ =~= fs0.update(f as int, k.fs.files@[f as int]));
                lemma_file_changed(*k, *old(k), f as int);
            }
            settle(k, f, io, true)
        },
    }
}

/// Starts reading from the file in `f` until `out` holds `want` bytes.
pub fn read_file(k: &mut Kernel, f: usize, out: &mut Vec<u8>, want: usize) -> (r: Io)
    requires
        old(k).calling(),
        f < 128,
        old(k).fs.files@[f as int].is_open(),
        old(out)@.len() <= want,
    ensures
        ({
            let file = old(k).fs.files@[f as int];
            match file.kind {
                FileKind::Pipe(p) => if file.rc > 0 {
                    let run = p@.read_run(old(out)@, want as int);
                    &&& r == pipe_out(run.io)
                    &&& final(out)@ == run.bytes
                    &&& after_pipe(*final(k), *old(k), old(k).tasks@, f as int, run.io, false)
                    &&& final(k).fs.files@[f as int].kind->Pipe_0@ == run.pipe
                } else {
                    &&& r == Io::Done(Err(()))
                    &&& unchanged(*final(k), *old(k))
                    &&& final(out)@ == old(out)@
                },
                kind => {
                    &&& unchanged(*final(k), *old(k))
                    &&& final(out)@ == old(out)@
                    &&& r == if file.rc == 0 {
                        Io::Done(Err(()))
                    } else if let FileKind::P9(fid) = kind {
                        Io::P9 { file: f, fid, offset: file.offt }
                    } else {
                        Io::Cons { file: f, cons: kind->Cons_0 }
                    }
                },
            }
        }),
{
    let ghost fs0 = k.fs.files@;
    match k.fs.files[f].read(out, want) {
        FileStep::Fail => {
            assert(k.fs.files@ =~= fs0);
            Io::Done(Err(()))
        },
        FileStep::P9 { fid, offset } => {
            assert(k.fs.files@ =~= fs0);
            Io::P9 { file: f, fid, offset }
        },
        FileStep::Cons(cons) => {
            assert(k.fs.files@ =~= fs0);
            Io::Cons { file: f, cons }
        },
        FileStep::Pipe(io) => {
            proof {
                fs0[f as int].kind->Pipe_0@.lemma_read_keeps_ends(old(out)@, want as int);
                assert(k.fs.files@ =~= fs0.update(f as int, k.fs.files@[f as int]));
                lemma_file_changed(*k, *old(k), f as int);
            }
            settle(k, f, io, false)
        },
    }
}

/// The tasks once the current one, which slept, goes on.
pub open spec fn back(k: Kernel) -> Seq<Task> {
    k.tasks@.update(k.at(), awake(k.cur()))
}

/// Whether the current task has come back to the pipe in `f`.
pub open spec fn at_pipe(k: Kernel, f: int) -> bool {
    &&& k.entering()
    &&& k.cur().closed == 0
    &&& 0 <= f < 128
    &&& k.fs.files@[f].kind is Pipe
    &&& k.fs.files@[f].rc > 0
}

/// Goes on writing to the pipe in `f` after a sleep; `rest` is what has not been
/// written.
pub fn write_woken(k: &mut Kernel, f: usize, rest: &[u8]) -> (r: Io)
    requires
        at_pipe(*old(k), f as int),
    ensures
        ({
            let run = old(k).fs.files@[f as int].kind->Pipe_0@.write_run(rest@);
            &&& r == pipe_out(run.io)
            &&& after_pipe(*final(k), *old(k), back(*old(k)), f as int, run.io, true)
            &&& final(k).fs.files@[f as int].kind->Pipe_0@ == run.pipe
        }),
{
    slept_if(k);
    write_file(k, f, rest)
}

/// Goes on reading from the pipe in `f` after a sleep.
pub fn read_woken(k: &mut Kernel, f: usize, out: &mut Vec<u8>, want: usize) -> (r: Io)
    requires
        at_pipe(*old(k), f as int),
        old(out)@.len() <= want,
    ensures
        ({
            let run = old(k).fs.files@[f as int].kind->Pipe_0@.read_on(old(out)@, want as int);
            &&& r == pipe_out(run.io)
            &&& final(out)@ == run.bytes
            &&& after_pipe(*final(k), *old(k), back(*old(k)), f as int, run.io, false)
            &&& final(k).fs.files@[f as int].kind->Pipe_0@ == run.pipe
        }),
{
    slept_if(k);
    let ghost k1 = *k;
    let ghost fs0 = k.fs.files@;
    match k.fs.files[f].read_woken(out, want) {
        FileStep::Pipe(io) => {
            proof {
                let p = fs0[f as int].kind->Pipe_0@;
                if p.writers != 0 {
                    p.lemma_read_keeps_ends(old(out)@, want as int);
                }
                assert(k.fs.files@ =~= fs0.update(f as int, k.fs.files@[f as int]));
                lemma_file_changed(*k, k1, f as int);
            }
            settle(k, f, io, false)
        },
        _ => Io::Done(Err(())),
    }
}

/// Ends a transfer that a device did to or from the file in `f`.
pub fn io_done(k: &mut Kernel, f: usize, r: Result<usize, ()>) -> (n: u64)
    requires
        old(k).calling(),
        f < 128,
        old(k).fs.files@[f as int].kind is P9 || old(k).fs.files@[f as int].kind is Cons,
    ensures
        n == io_value(r),
        final(k).calling(),
        *final(k) == (Kernel { fs: final(k).fs, ..*old(k) }),
        final(k).fs.files@ == old(k).fs.files@.update(
            f as int,
            if r is Ok && old(k).fs.files@[f as int].kind is P9 {
                File {
                    offt: mod64(old(k).fs.files@[f as int].offt + r->Ok_0) as u64,
                    ..old(k).fs.files@[f as int]
                }
            } else {
                old(k).fs.files@[f as int]
            },
        ),
{
    let n = io_ret(k.fs.files[f].moved(r));
    proof {
        assert(k.fs.files@ =~= old(k).fs.files@.update(f as int, k.fs.files@[f as int]));
        lemma_file_changed(*k, *old(k), f as int);
    }
    n
}

/// The descriptor of a call that moves bytes: there is one under its number, and the
/// program gave an address.
pub open spec fn io_fd(k: Kernel) -> Option<FD> {
    if k.arg(0) < 8 && k.arg(1) != 0 {
        k.cur().files@[k.arg(0) as int]
    } else {
        None
    }
}

/// The descriptor of a call that moves bytes.
fn find_fd(k: &Kernel) -> (r: Option<FD>)
    requires
        k.calling(),
    ensures
        r == io_fd(*k),
        r matches Some(d) ==> d.file < 128 && k.fs.files@[d.file as int].is_open(),
{
    let i: usize = k.cpu.task_idx.unwrap();
    let fd: u64 = k.tasks[i].frame.regs[0];
    if fd >= 8 {
        return None;
    }
    let d = match k.tasks[i].files[fd as usize] {
        None => return None,
        Some(d) => d,
    };
    if k.tasks[i].frame.regs[1] == 0 {
        return None;
    }
    proof {
        lemma_fd_used(k.tasks@, k.fs.files@, i as int, fd as int);
    }
    Some(d)
}

/// Writes the program's bytes to a file.
pub fn sys_write(k: &mut Kernel, buf: &[u8]) -> (r: Io)
    requires
        old(k).calling(),
        io_fd(*old(k)) is Some ==> buf@.len() == old(k).arg(2),
    ensures
        match io_fd(*old(k)) {
            None => r == Io::Done(Err(())) && *final(k) == *old(k) && final(k).calling(),
            Some(d) => {
                let file = old(k).fs.files@[d.file as int];
                match file.kind {
                    FileKind::Pipe(p) => {
                        let run = p@.write_run(buf@);
                        &&& r == pipe_out(run.io)
                        &&& after_pipe(
                            *final(k),
                            *old(k),
                            old(k).tasks@,
                            d.file as int,
                            run.io,
                            true,
                        )
                        &&& final(k).fs.files@[d.file as int].kind->Pipe_0@ == run.pipe
                    },
                    kind => {
                        &&& unchanged(*final(k), *old(k))
                        &&& r == device_io(file, d.file)
                    },
                }
            },
        },
{
    match find_fd(k) {
        None => Io::Done(Err(())),
        Some(d) => {
            proof {
                let i = old(k).at();
                lemma_fd_used(k.tasks@, k.fs.files@, i, k.arg(0) as int);
            }
            write_file(k, d.file, buf)
        },
    }
}

/// What a transfer to or from a file that is no pipe asks for.
pub open spec fn device_io(file: File, f: usize) -> Io {
    if file.rc == 0 {
        Io::Done(Err(()))
    } else if let FileKind::P9(fid) = file.kind {
        Io::P9 { file: f, fid, offset: file.offt }
    } else {
        Io::Cons { file: f, cons: file.kind->Cons_0 }
    }
}

/// Reads from a file; `out` gets the bytes for the program's buffer.
pub fn sys_read(k: &mut Kernel, out: &mut Vec<u8>) -> (r: Io)
    requires
        old(k).calling(),
        old(k).arg(2) <= usize::MAX,
        old(out)@.len() == 0,
    ensures
        match io_fd(*old(k)) {
            None => {
                &&& r == Io::Done(Err(()))
                &&& *final(k) == *old(k)
                &&& final(k).calling()
                &&& final(out)@ == old(out)@
            },
            Some(d) => {
                let file = old(k).fs.files@[d.file as int];
                match file.kind {
                    FileKind::Pipe(p) => {
                        let run = p@.read_run(Seq::empty(), old(k).arg(2) as int);
                        &&& r == pipe_out(run.io)
                        &&& final(out)@ == run.bytes
                        &&& after_pipe(
                            *final(k),
                            *old(k),
                            old(k).tasks@,
                            d.file as int,
                            run.io,
                            false,
                        )
                        &&& final(k).fs.files@[d.file as int].kind->Pipe_0@ == run.pipe
                    },
                    kind => {
                        &&& unchanged(*final(k), *old(k))
                        &&& final(out)@ == old(out)@
                        &&& r == device_io(file, d.file)
                    },
                }
            },
        },
{
    match find_fd(k) {
        None => Io::Done(Err(())),
        Some(d) => {
            let i: usize = k.cpu.task_idx.unwrap();
            let want: usize = k.tasks[i].frame.regs[2] as usize;
            proof {
                lemma_fd_used(k.tasks@, k.fs.files@, i as int, k.arg(0) as int);
                assert(out@ =~= Seq::<u8>::empty());
            }
            read_file(k, d.file, out, want)
        },
    }
}

/// A write of several buffers: the next one, and what the writes before it gave in all.
#[derive(Clone, Copy, Debug, PartialEq, Eq, Structural)]
pub struct Writev {
    pub file: usize,
    pub next: usize,
    pub written: u64,
}

/// How a write of several buffers goes on.
#[derive(Clone, Copy, Debug, PartialEq, Eq)]
pub enum WritevStep {
    Done(u64),
    /// The next buffer is being written.
    Io(Io),
}

/// Starts writing several buffers, where the descriptor can be used.
pub fn sys_writev(k: &Kernel) -> (r: Result<Writev, u64>)
    requires
        k.calling(),
    ensures
        match io_fd(*k) {
            None => r == Err::<Writev, u64>(FAIL),
            Some(d) => {
                &&& r == Ok::<Writev, u64>(Writev { file: d.file, next: 0, written: 0 })
                &&& d.file < 128
                &&& k.fs.files@[d.file as int].is_open()
            },
        },
{
    match find_fd(k) {
        None => Err(FAIL),
        Some(d) => Ok(Writev { file: d.file, next: 0, written: 0 }),
    }
}

/// Writes the next of the buffers, or ends where there is none.
pub fn writev_next(k: &mut Kernel, w: &Writev, bufs: &[Vec<u8>]) -> (r: WritevStep)
    requires
        old(k).calling(),
        w.file < 128,
        old(k).fs.files@[w.file as int].is_open(),
    ensures
        w.next >= bufs@.len() ==> {
            &&& r == WritevStep::Done(w.written)
            &&& *final(k) == *old(k)
            &&& final(k).calling()
        },
        w.next < bufs@.len() ==> {
            let file = old(k).fs.files@[w.file as int];
            let buf = bufs@[w.next as int]@;
            &&& r matches WritevStep::Io(io) && match file.kind {
                FileKind::Pipe(p) => if file.rc > 0 {
                    let run = p@.write_run(buf);
                    &&& io == pipe_out(run.io)
                    &&& after_pipe(
                        *final(k),
                        *old(k),
                        old(k).tasks@,
                        w.file as int,
                        run.io,
                        true,
                    )
                    &&& final(k).fs.files@[w.file as int].kind->Pipe_0@ == run.pipe
                } else {
                    io == Io::Done(Err(())) && unchanged(*final(k), *old(k))
                },
                kind => unchanged(*final(k), *old(k)) && io == device_io(file, w.file),
            }
        },
{
    if w.next >= bufs.len() {
        return WritevStep::Done(w.written);
    }
    WritevStep::Io(write_file(k, w.file, bufs[w.next].as_slice()))
}

impl Writev {
    /// How the call stands after a buffer has been written, or not, and its result where
    /// that ends it.
    pub open spec fn after(self, r: Result<usize, ()>) -> (Writev, Option<u64>) {
        match r {
            Ok(n) => (
                Writev {
                    next: (self.next + 1) as usize,
                    written: (self.written + n) as u64,
                    ..self
                },
                None,
            ),
            Err(_) => (self, Some(FAIL)),
        }
    }

    /// After a buffer has been written, or not: the result where that was all.
    pub fn wrote(&mut self, r: Result<usize, ()>) -> (done: Option<u64>)
        requires
            old(self).next < usize::MAX,
            r matches Ok(n) ==> old(self).written + n <= u64::MAX,
        ensures
            (*final(self), done) == old(self).after(r),
    {
        match r {
            Ok(n) => {
                self.written = self.written + n as u64;
                self.next = self.next + 1;
                None
            },
            Err(_) => Some(FAIL),
        }
    }
}

/// How a write of several buffers to the file in `file` stands after these writes, and
/// its result where one of them has ended it.
pub open spec fn writev_run(file: usize, rs: Seq<Result<usize, ()>>) -> (Writev, Option<u64>)
    decreases rs.len(),
{
    if rs.len() == 0 {
        (Writev { file, next: 0, written: 0 }, None)
    } else {
        let (w, done) = writev_run(file, rs.drop_last());
        if done is Some {
            (w, done)
        } else {
            w.after(rs.last())
        }
    }
}

/// Whether each of these writes was called for: the call had not ended, and there was a
/// buffer left.
pub open spec fn writes_called_for(file: usize, rs: Seq<Result<usize, ()>>, bufs: nat) -> bool {
    forall|i: int|
        0 <= i < rs.len() ==> {
            let (w, done) = writev_run(file, #[trigger] rs.take(i));
            done is None && w.next < bufs
        }
}

/// Several buffers are written in order, one write each: the `i`-th write is that of the
/// `i`-th buffer. The result, which is there once all are written, is the sum of what the
/// writes gave. The first write that fails ends the call with a failure, and no buffer
/// after it is written.
pub proof fn law_writev_writes_in_order(file: usize, rs: Seq<Result<usize, ()>>, bufs: nat)
    requires
        writes_called_for(file, rs, bufs),
        total(rs) <= u64::MAX,
        bufs <= usize::MAX,
    ensures
        rs.len() <= bufs,
        forall|i: int| 0 <= i < rs.len() ==> writev_run(file, #[trigger] rs.take(i)).0.next == i,
        ({
            let (w, done) = writev_run(file, rs);
            if done is None {
                &&& w == (Writev { file, next: rs.len() as usize, written: total(rs) as u64 })
                &&& forall|i: int| 0 <= i < rs.len() ==> (#[trigger] rs[i]) is Ok
            } else {
                &&& done == Some(FAIL)
                &&& rs.len() > 0 && rs.last() is Err
                &&& forall|i: int| 0 <= i < rs.len() - 1 ==> (#[trigger] rs[i]) is Ok
                &&& forall|r: Result<usize, ()>| !#[trigger] writes_called_for(
                    file,
                    rs.push(r),
                    bufs,
                )
            }
        }),
    decreases rs.len(),
{
    if rs.len() > 0 {
        let init = rs.drop_last();
        let n = rs.len() as int;
        assert(rs.take(n - 1) =~= init);
        assert forall|i: int| 0 <= i < init.len() implies {
            let (w, done) = writev_run(file, #[trigger] init.take(i));
            done is None && w.next < bufs
        } by {
            assert(init.take(i) =~= rs.take(i));
        }
        lemma_total(init);
        law_writev_writes_in_order(file, init, bufs);
        assert forall|i: int| 0 <= i < n implies writev_run(file, #[trigger] rs.take(i)).0.next
            == i by {
            if i < n - 1 {
                assert(init.take(i) =~= rs.take(i));
            }
        }
        assert forall|i: int| 0 <= i < n - 1 implies (#[trigger] rs[i]) is Ok by {
            assert(init[i] is Ok);
        }
        if writev_run(file, rs).1 is Some {
            assert forall|r: Result<usize, ()>| !#[trigger] writes_called_for(
                file,
                rs.push(r),
                bufs,
            ) by {
                assert(rs.push(r).take(n) =~= rs);
            }
        }
    }
}

/// Lists a directory: the file, its handle, and the position to go on from.
pub fn getdents64(k: &Kernel) -> (r: Result<(usize, u32, u64), u64>)
    requires
        k.calling(),
        io_fd(*k) matches Some(d) ==> k.fs.files@[d.file as int].kind is P9,
    ensures
        match io_fd(*k) {
            None => r == Err::<(usize, u32, u64), u64>(FAIL),
            Some(d) => {
                let file = k.fs.files@[d.file as int];
                r == Ok::<(usize, u32, u64), u64>((d.file, file.kind->P9_0, file.offt))
            },
        },
{
    match find_fd(k) {
        None => Err(FAIL),
        Some(d) => {
            let (fid, offset) = k.fs.files[d.file].getdents64();
            Ok((d.file, fid, offset))
        },
    }
}

/// Ends `getdents64`: `r` is how many bytes the server gave, and the position behind
/// them.
pub fn getdents64_done(k: &mut Kernel, f: usize, r: Result<(usize, u64), ()>) -> (n: u64)
    requires
        old(k).calling(),
        f < 128,
    ensures
        final(k).calling(),
        *final(k) == (Kernel { fs: final(k).fs, ..*old(k) }),
        match r {
            Ok((len, offt)) => {
                &&& n == len
                &&& final(k).fs.files@ == old(k).fs.files@.update(
                    f as int,
                    File { offt, ..old(k).fs.files@[f as int] },
                )
            },
            Err(_) => n == FAIL && final(k).fs.files@ == old(k).fs.files@,
        },
{
    let n = io_ret(k.fs.files[f].listed(r));
    proof {
        assert(k.fs.files@ =~= old(k).fs.files@.update(f as int, k.fs.files@[f as int]));
        lemma_file_changed(*k, *old(k), f as int);
    }
    n
}

/// The register as a signed number.
pub open spec fn signed(x: u64) -> int {
    if x < 0x8000_0000_0000_0000 {
        x as int
    } else {
        x - 0x1_0000_0000_0000_0000
    }
}

fn sign(x: u64) -> (r: i64)
    ensures
        r == signed(x),
{
    if x < 0x8000_0000_0000_0000 {
        x as i64
    } else {
        -((u64::MAX - x) as i64) - 1
    }
}

/// The position that `lseek` leads to.
pub open spec fn sought(file: File, offt: int, whence: u64, reported: u64) -> int {
    if whence == Seek::SET {
        bits64(offt)
    } else if whence == Seek::END {
        let size: int = if file.kind is P9 || file.kind is Cons {
            reported as int
        } else {
            0
        };
        mod64(size - offt)
    } else {
        stepped(file.offt as int, low32(offt))
    }
}

/// Moves the position of a file and returns it. `reported` is the size that the file's
/// device reports.
pub fn lseek(k: &mut Kernel, reported: u64) -> (n: u64)
    requires
        old(k).calling(),
        old(k).arg(0) < 8,
    ensures
        final(k).calling(),
        *final(k) == (Kernel { fs: final(k).fs, ..*old(k) }),
        match old(k).cur().files@[old(k).arg(0) as int] {
            None => n == crate::calls::ENOENT && *final(k) == *old(k),
            Some(d) => {
                let file = old(k).fs.files@[d.file as int];
                if old(k).arg(2) <= 2 {
                    &&& n == sought(file, signed(old(k).arg(1)), old(k).arg(2), reported)
                    &&& final(k).fs.files@ == old(k).fs.files@.update(
                        d.file as int,
                        File { offt: n, ..file },
                    )
                } else {
                    n == ESPIPE && final(k).fs.files@ == old(k).fs.files@
                }
            },
        },
{
    let i: usize = k.cpu.task_idx.unwrap();
    let fd: usize = k.tasks[i].frame.regs[0] as usize;
    let d = match k.tasks[i].files[fd] {
        None => return crate::calls::ENOENT,
        Some(d) => d,
    };
    proof {
        lemma_fd_used(k.tasks@, k.fs.files@, i as int, fd as int);
    }
    let offt: i64 = sign(k.tasks[i].frame.regs[1]);
    let whence: u64 = k.tasks[i].frame.regs[2];
    let r = k.fs.files[d.file].lseek(offt, whence, reported);
    proof {
        let f = d.file as int;
        assert(k.fs.files@ =~= old(k).fs.files@.update(f, k.fs.files@[f]));
        lemma_file_changed(*k, *old(k), f);
    }
    match r {
        Ok(at) => at,
        Err(_) => ESPIPE,
    }
}

/// Cuts a file to a length, where the file has a path.
pub fn ftruncate(k: &Kernel) -> (s: Step)
    requires
        k.calling(),
        k.arg(0) < 8,
    ensures
        s@ == match k.cur().files@[k.arg(0) as int] {
            None => StepView::Done(FAIL),
            Some(d) => match k.fs.files@[d.file as int].path {
                None => StepView::Done(FAIL),
                Some(p) => StepView::Ask {
                    req: P9Ask::Truncate { path: p@, size: k.arg(1) },
                    fail: FAIL,
                },
            },
        },
{
    let i: usize = k.cpu.task_idx.unwrap();
    let fd: usize = k.tasks[i].frame.regs[0] as usize;
    let d = match k.tasks[i].get_file(fd) {
        None => return Step::Done(FAIL),
        Some(d) => d,
    };
    proof {
        lemma_fd_used(k.tasks@, k.fs.files@, i as int, fd as int);
    }
    match &k.fs.files[d.file].path {
        None => Step::Done(FAIL),
        Some(p) => Step::Ask {
            req: crate::calls::truncate(p.as_str(), k.tasks[i].frame.regs[1]),
            fail: FAIL,
        },
    }
}

/// Asks for the state of an open file; that of a pipe is known here.
#[derive(Clone, Copy, Debug, PartialEq, Eq, Structural)]
pub enum FstatStep {
    /// The result; `stat` has been filled in where it is 0.
    Done(u64),
    P9(u32),
    Cons(u32),
}

/// Asks for the state of an open file. Where a device has it, `newfstat_done` ends the
/// call.
pub fn newfstat(k: &Kernel, stat: &mut Stat) -> (s: FstatStep)
    requires
        k.calling(),
        k.arg(0) < 8,
    ensures
        match k.cur().files@[k.arg(0) as int] {
            None => s == FstatStep::Done(FAIL) && *final(stat) == *old(stat),
            Some(d) => match k.fs.files@[d.file as int].kind {
                FileKind::P9(fid) => s == FstatStep::P9(fid) && *final(stat) == *old(stat),
                FileKind::Cons(c) => s == FstatStep::Cons(c) && *final(stat) == *old(stat),
                _ => s == FstatStep::Done(0) && *final(stat) == (Stat {
                    st_ino: 0,
                    st_size: 0,
                    st_nlink: 1,
                    st_mode: S_IFIFO,
                    ..*old(stat)
                }),
            },
        },
{
    let i: usize = k.cpu.task_idx.unwrap();
    let fd: usize = k.tasks[i].frame.regs[0] as usize;
    let d = match k.tasks[i].files[fd] {
        None => return FstatStep::Done(FAIL),
        Some(d) => d,
    };
    proof {
        lemma_fd_used(k.tasks@, k.fs.files@, i as int, fd as int);
    }
    match k.fs.files[d.file].fstat(stat) {
        StatStep::Done => FstatStep::Done(0),
        StatStep::P9(fid) => FstatStep::P9(fid),
        StatStep::Cons(c) => FstatStep::Cons(c),
    }
}

/// Ends `newfstat` where a device was asked, and has told the state or not.
pub fn newfstat_done(ok: bool) -> (n: u64)
    ensures
        n == if ok {
            0
        } else {
            FAIL
        },
{
    if ok {
        0
    } else {
        FAIL
    }
}

/// A copy between two open files.
#[derive(Clone, Copy, Debug, PartialEq, Eq, Structural)]
pub struct SendFile {
    pub from: usize,
    pub to: usize,
    pub send: Send,
}

/// The files that `sendfile64` copies between.
pub open spec fn send_fds(k: Kernel) -> Option<(FD, FD)> {
    match k.cur().files@[k.arg(1) as int] {
        None => None,
        Some(i) => match k.cur().files@[k.arg(0) as int] {
            None => None,
            Some(o) => Some((i, o)),
        },
    }
}

/// Starts copying from one open file to another. `at` is the position that the program
/// gave, where it gave the address of one.
pub fn sendfile64(k: &mut Kernel, at: u64) -> (r: Result<SendFile, u64>)
    requires
        old(k).calling(),
        old(k).arg(1) < 8,
        old(k).cur().files@[old(k).arg(1) as int] is Some ==> old(k).arg(0) < 8,
        old(k).arg(3) <= usize::MAX,
    ensures
        final(k).calling(),
        *final(k) == (Kernel { fs: final(k).fs, ..*old(k) }),
        match send_fds(*old(k)) {
            None => r == Err::<SendFile, u64>(FAIL) && *final(k) == *old(k),
            Some((i, o)) => {
                let n = old(k).arg(3) as usize;
                &&& r == Ok::<SendFile, u64>(
                    SendFile { from: i.file, to: o.file, send: Send { total: n, rem: n } },
                )
                &&& final(k).fs.files@ == if old(k).arg(2) != 0 {
                    old(k).fs.files@.update(
                        i.file as int,
                        File { offt: at, ..old(k).fs.files@[i.file as int] },
                    )
                } else {
                    old(k).fs.files@
                }
            },
        },
{
    let t: usize = k.cpu.task_idx.unwrap();
    let in_fd: usize = k.tasks[t].frame.regs[1] as usize;
    let i = match k.tasks[t].files[in_fd] {
        None => return Err(FAIL),
        Some(d) => d,
    };
    let out_fd: usize = k.tasks[t].frame.regs[0] as usize;
    let o = match k.tasks[t].files[out_fd] {
        None => return Err(FAIL),
        Some(d) => d,
    };
    proof {
        lemma_fd_used(k.tasks@, k.fs.files@, t as int, in_fd as int);
    }
    let n: usize = k.tasks[t].frame.regs[3] as usize;
    if k.tasks[t].frame.regs[2] != 0 {
        k.fs.files[i.file].seek_to(at);
        proof {
            let f = i.file as int;
            assert(k.fs.files@ =~= old(k).fs.files@.update(f, k.fs.files@[f]));
            lemma_file_changed(*k, *old(k), f);
        }
    }
    Ok(SendFile { from: i.file, to: o.file, send: File::send(n) })
}

/// Ends `sendfile64`: its result, and the position for the program, where it gave an
/// address for one and the copy did not fail.
pub fn sendfile64_done(k: &Kernel, s: &SendFile, r: Result<usize, ()>) -> (out: (u64, Option<u64>))
    requires
        k.calling(),
        s.from < 128,
    ensures
        out.0 == io_value(r),
        out.1 == if r is Ok && k.arg(2) != 0 {
            Some(k.fs.files@[s.from as int].offt)
        } else {
            None
        },
{
    let t: usize = k.cpu.task_idx.unwrap();
    match r {
        Ok(n) => {
            if k.tasks[t].frame.regs[2] != 0 {
                (n as u64, Some(k.fs.files[s.from].offt))
            } else {
                (n as u64, None)
            }
        },
        Err(_) => (FAIL, None),
    }
}

/// Requests to a terminal.
pub struct T;

impl T {
    pub const CGETS: u64 = 0x5401;

    pub const CSETS: u64 = 0x5402;

    pub const CSETSW: u64 = 0x5403;

    pub const CSETSF: u64 = 0x5404;

    pub const CGETA: u64 = 0x5405;

    pub const CSETA: u64 = 0x5406;

    pub const CSETAW: u64 = 0x5407;

    pub const CSETAF: u64 = 0x5408;

    pub const CSBRK: u64 = 0x5409;

    pub const CXONC: u64 = 0x540a;

    pub const CFLSH: u64 = 0x540b;

    pub const IOCEXCL: u64 = 0x540c;

    pub const IOCNXCL: u64 = 0x540d;

    pub const IOCSCTTY: u64 = 0x540e;

    pub const IOCGPGRP: u64 = 0x540f;

    pub const IOCSPGRP: u64 = 0x5410;

    pub const IOCOUTQ: u64 = 0x5411;

    pub const IOCSTI: u64 = 0x5412;

    pub const IOCGWINSZ: u64 = 0x5413;

    pub const IOCSWINSZ: u64 = 0x5414;

    pub const IOCMGET: u64 = 0x5415;

    pub const IOCMBIS: u64 = 0x5416;

    pub const IOCMBIC: u64 = 0x5417;

    pub const IOCMSET: u64 = 0x5418;

    pub const IOCGSOFTCAR: u64 = 0x5419;

    pub const IOCSSOFTCAR: u64 = 0x541a;

    pub const FIONREAD: u64 = 0x541b;

    pub const IOCINQ: u64 = 0x541b;

    pub const IOCLINUX: u64 = 0x541c;

    pub const IOCCONS: u64 = 0x541d;

    pub const IOCGSERIAL: u64 = 0x541e;

    pub const IOCSSERIAL: u64 = 0x541f;

    pub const IOCPKT: u64 = 0x5420;

    pub const FIONBIO: u64 = 0x5421;

    pub const IOCNOTTY: u64 = 0x5422;

    pub const IOCSETD: u64 = 0x5423;

    pub const IOCGETD: u64 = 0x5424;

    pub const CSBRKP: u64 = 0x5425;

    pub const IOCSBRK: u64 = 0x5427;

    pub const IOCCBRK: u64 = 0x5428;

    pub const IOCGSID: u64 = 0x5429;
}

/// What a request to a terminal asks for.
#[derive(Clone, Copy, Debug, PartialEq, Eq, Structural)]
pub enum Ioctl {
    Done(u64),
    /// The terminal writes its settings to this address.
    GetTermios(u64),
    /// The terminal takes its settings from this address.
    SetTermios(u64),
    /// The terminal writes its size to this address.
    GetWinsize(u64),
    /// The process id goes to this address, and the result is 0.
    PutPid { at: u64, pid: u32 },
}

/// Whether the terminal knows the request.
pub open spec fn known_ioctl(x: u64) -> bool {
    x == T::CGETS || x == T::CSETS || x == T::IOCGWINSZ || x == T::IOCGPGRP || x == T::IOCSPGRP
}

/// A request to the terminal.
pub fn ioctl(k: &Kernel) -> (r: Ioctl)
    requires
        k.calling(),
        known_ioctl(k.arg(1)),
    ensures
        r == if k.arg(1) == T::CGETS {
            Ioctl::GetTermios(k.arg(2))
        } else if k.arg(1) == T::CSETS {
            Ioctl::SetTermios(k.arg(2))
        } else if k.arg(1) == T::IOCGWINSZ {
            Ioctl::GetWinsize(k.arg(2))
        } else if k.arg(1) == T::IOCGPGRP {
            Ioctl::PutPid { at: k.arg(2), pid: k.cur().pid as u32 }
        } else {
            Ioctl::Done(0)
        },
{
    let i: usize = k.cpu.task_idx.unwrap();
    let req: u64 = k.tasks[i].frame.regs[1];
    let at: u64 = k.tasks[i].frame.regs[2];
    if req == T::CGETS {
        Ioctl::GetTermios(at)
    } else if req == T::CSETS {
        Ioctl::SetTermios(at)
    } else if req == T::IOCGWINSZ {
        Ioctl::GetWinsize(at)
    } else if req == T::IOCGPGRP {
        Ioctl::PutPid { at, pid: k.tasks[i].pid as u32 }
    } else {
        Ioctl::Done(0)
    }
}

/// A position that was set is the one that a step by nothing finds.
pub proof fn law_set_position_is_found(file: File, at: u64, reported: u64)
    ensures
        ({
            let set = sought(file, signed(at), Seek::SET, reported);
            let moved = File { offt: set as u64, ..file };
            &&& set == at
            &&& sought(moved, 0, Seek::CUR, reported) == at
        }),
{
}

} // verus!

//! System calls that name files by path. The file server does the work; a call says
//! what to ask it for and what its answer means to the program.
//!
//! The paths that a program gives are handed in as the bytes at their addresses.
use vstd::prelude::*;
use vstd::string::StringExecFns;
use vstd::utf8::{encode_utf8, valid_utf8};

use crate::books::{lemma_added, lemma_books, task_sound, fd_sound, End};
use crate::books::{held, task_uses};
use crate::desc::{lemma_sound, lemma_unused, with_fds, FAIL};
use crate::file::{File, FileKind};
use crate::fs::{is_first_unused, none_unused, open, opened, P9Ask, P9Request};
use crate::kernel::{lemma_with_task, Kernel};
use crate::path::{can_mean, cpystr, meant, real_path, text, text_of};
use crate::task::{Task, FD};

verus! {

/// No such file.
pub const ENOENT: u64 = 0xffff_ffff_ffff_fffe;

/// The current directory does not fit the buffer.
pub const ENAMETOOLONG: u64 = 0xffff_ffff_ffff_ffb2;

/// Links are followed.
pub const SYMLINK_FOLLOW: u64 = 0x400;

/// The last link is not followed.
pub const AT_SYMLINK_NOFOLLOW: u32 = 256;

/// How a call goes on: it has its result, or the server is asked, and the result is 0
/// where it says yes and `fail` where it says no.
#[derive(Debug)]
pub enum Step {
    Done(u64),
    Ask { req: P9Request, fail: u64 },
}

/// The mathematical value of a step.
pub enum StepView {
    Done(u64),
    Ask { req: P9Ask, fail: u64 },
}

impl View for Step {
    type V = StepView;

    open spec fn view(&self) -> StepView {
        match *self {
            Step::Done(n) => StepView::Done(n),
            Step::Ask { req, fail } => StepView::Ask { req: req@, fail },
        }
    }
}

/// The result of a call once the server has answered.
pub fn answered(fail: u64, ok: bool) -> (n: u64)
    ensures
        n == if ok {
            0
        } else {
            fail
        },
{
    if ok {
        0
    } else {
        fail
    }
}

pub fn symlink(linkname: &str, path: &str) -> (r: P9Request)
    ensures
        r@ == (P9Ask::Symlink { name: linkname@, path: path@ }),
{
    P9Request::Symlink { name: String::from_str(linkname), path: String::from_str(path) }
}

pub fn rename(from: &str, to: &str) -> (r: P9Request)
    ensures
        r@ == (P9Ask::Rename { from: from@, to: to@ }),
{
    P9Request::Rename { from: String::from_str(from), to: String::from_str(to) }
}

pub fn link(from: &str, to: &str, follow: bool) -> (r: P9Request)
    ensures
        r@ == (P9Ask::Link { from: from@, to: to@, follow }),
{
    P9Request::Link { from: String::from_str(from), to: String::from_str(to), follow }
}

pub fn exists_path(path: &str) -> (r: P9Request)
    ensures
        r@ == (P9Ask::Exists { path: path@ }),
{
    P9Request::Exists { path: String::from_str(path) }
}

pub fn remove(path: &str) -> (r: P9Request)
    ensures
        r@ == (P9Ask::Remove { path: path@ }),
{
    P9Request::Remove { path: String::from_str(path) }
}

pub fn mkdir(path: &str, mode: u32) -> (r: P9Request)
    ensures
        r@ == (P9Ask::Mkdir { path: path@, mode }),
{
    P9Request::Mkdir { path: String::from_str(path), mode }
}

pub fn fstat(path: &str, follow: bool) -> (r: P9Request)
    ensures
        r@ == (P9Ask::Stat { path: path@, follow }),
{
    P9Request::Stat { path: String::from_str(path), follow }
}

pub fn truncate(path: &str, size: u64) -> (r: P9Request)
    ensures
        r@ == (P9Ask::Truncate { path: path@, size }),
{
    P9Request::Truncate { path: String::from_str(path), size }
}

/// The low half of a register.
pub open spec fn low_word(x: u64) -> u32 {
    (x % 0x1_0000_0000) as u32
}

fn word(x: u64) -> (r: u32)
    ensures
        r == low_word(x),
{
    (x % 0x1_0000_0000) as u32
}

/// Whether a path that the program gave can be looked up.
pub open spec fn usable(k: Kernel, fd: u64, path: Seq<u8>) -> bool {
    valid_utf8(path) && can_mean(k, fd, text_of(path))
}

/// Removes a file.
pub fn unlinkat(k: &Kernel, path: &[u8]) -> (s: Step)
    requires
        k.calling(),
        usable(*k, k.arg(0), path@),
    ensures
        s@ == match meant(*k, k.arg(0), text_of(path@)) {
            Some(p) => StepView::Ask { req: P9Ask::Remove { path: p }, fail: ENOENT },
            None => StepView::Done(ENOENT),
        },
{
    let i: usize = k.cpu.task_idx.unwrap();
    match real_path(k, k.tasks[i].frame.regs[0], path) {
        Ok(p) => Step::Ask { req: remove(p.as_str()), fail: ENOENT },
        Err(_) => Step::Done(ENOENT),
    }
}

/// Makes a directory.
pub fn mkdirat(k: &Kernel, path: &[u8]) -> (s: Step)
    requires
        k.calling(),
        usable(*k, k.arg(0), path@),
    ensures
        s@ == match meant(*k, k.arg(0), text_of(path@)) {
            Some(p) => StepView::Ask {
                req: P9Ask::Mkdir { path: p, mode: low_word(k.arg(2)) },
                fail: FAIL,
            },
            None => StepView::Done(ENOENT),
        },
{
    let i: usize = k.cpu.task_idx.unwrap();
    match real_path(k, k.tasks[i].frame.regs[0], path) {
        Ok(p) => Step::Ask {
            req: mkdir(p.as_str(), word(k.tasks[i].frame.regs[2])),
            fail: FAIL,
        },
        Err(_) => Step::Done(ENOENT),
    }
}

/// Sets the times of a file; no more is done than to see whether the file is there.
pub fn utimensat(k: &Kernel, path: &[u8]) -> (s: Step)
    requires
        k.calling(),
        usable(*k, k.arg(0), path@),
    ensures
        s@ == match meant(*k, k.arg(0), text_of(path@)) {
            Some(p) => StepView::Ask { req: P9Ask::Exists { path: p }, fail: ENOENT },
            None => StepView::Done(ENOENT),
        },
{
    let i: usize = k.cpu.task_idx.unwrap();
    match real_path(k, k.tasks[i].frame.regs[0], path) {
        Ok(p) => Step::Ask { req: exists_path(p.as_str()), fail: ENOENT },
        Err(_) => Step::Done(ENOENT),
    }
}

/// Whether a file can be used: it can where it is there.
pub fn faccessat(k: &Kernel, path: &[u8]) -> (s: Step)
    requires
        k.calling(),
        usable(*k, k.arg(0), path@),
    ensures
        s@ == match meant(*k, k.arg(0), text_of(path@)) {
            Some(p) => StepView::Ask { req: P9Ask::Exists { path: p }, fail: ENOENT },
            None => StepView::Done(ENOENT),
        },
{
    utimensat(k, path)
}

/// Makes a link that holds a path, here `oldname`.
pub fn symlinkat(k: &Kernel, oldname: &[u8], path: &[u8]) -> (s: Step)
    requires
        k.calling(),
        valid_utf8(oldname@),
        usable(*k, k.arg(1), path@),
    ensures
        s@ == match meant(*k, k.arg(1), text_of(path@)) {
            Some(p) => StepView::Ask {
                req: P9Ask::Symlink { name: text_of(oldname@), path: p },
                fail: FAIL,
            },
            None => StepView::Done(ENOENT),
        },
{
    let i: usize = k.cpu.task_idx.unwrap();
    let name: String = text(oldname).unwrap();
    match real_path(k, k.tasks[i].frame.regs[1], path) {
        Ok(p) => Step::Ask { req: symlink(name.as_str(), p.as_str()), fail: FAIL },
        Err(_) => Step::Done(ENOENT),
    }
}

/// Moves a file.
pub fn renameat(k: &Kernel, oldpath: &[u8], newpath: &[u8]) -> (s: Step)
    requires
        k.calling(),
        usable(*k, k.arg(0), oldpath@),
        usable(*k, k.arg(2), newpath@),
    ensures
        s@ == match (
            meant(*k, k.arg(0), text_of(oldpath@)),
            meant(*k, k.arg(2), text_of(newpath@)),
        ) {
            (Some(p), Some(q)) => StepView::Ask {
                req: P9Ask::Rename { from: p, to: q },
                fail: ENOENT,
            },
            _ => StepView::Done(ENOENT),
        },
{
    let i: usize = k.cpu.task_idx.unwrap();
    let p: String = match real_path(k, k.tasks[i].frame.regs[0], oldpath) {
        Ok(p) => p,
        Err(_) => return Step::Done(ENOENT),
    };
    let q: String = match real_path(k, k.tasks[i].frame.regs[2], newpath) {
        Ok(p) => p,
        Err(_) => return Step::Done(ENOENT),
    };
    Step::Ask { req: rename(p.as_str(), q.as_str()), fail: ENOENT }
}

/// Gives a file another name.
pub fn linkat(k: &Kernel, oldpath: &[u8], newpath: &[u8]) -> (s: Step)
    requires
        k.calling(),
        usable(*k, k.arg(0), oldpath@),
        usable(*k, k.arg(2), newpath@),
    ensures
        s@ == match (
            meant(*k, k.arg(0), text_of(oldpath@)),
            meant(*k, k.arg(2), text_of(newpath@)),
        ) {
            (Some(p), Some(q)) => StepView::Ask {
                req: P9Ask::Link {
                    from: p,
                    to: q,
                    follow: k.arg(4) & SYMLINK_FOLLOW != 0,
                },
                fail: ENOENT,
            },
            _ => StepView::Done(ENOENT),
        },
{
    let i: usize = k.cpu.task_idx.unwrap();
    let p: String = match real_path(k, k.tasks[i].frame.regs[0], oldpath) {
        Ok(p) => p,
        Err(_) => return Step::Done(ENOENT),
    };
    let q: String = match real_path(k, k.tasks[i].frame.regs[2], newpath) {
        Ok(p) => p,
        Err(_) => return Step::Done(ENOENT),
    };
    let follow: bool = k.tasks[i].frame.regs[4] & SYMLINK_FOLLOW != 0;
    Step::Ask { req: link(p.as_str(), q.as_str(), follow), fail: ENOENT }
}

/// Asks for the state of a file by its path.
pub fn newfsstatat(k: &Kernel, path: &[u8]) -> (s: Step)
    requires
        k.calling(),
        usable(*k, k.arg(0), path@),
    ensures
        s@ == match meant(*k, k.arg(0), text_of(path@)) {
            Some(p) => StepView::Ask {
                req: P9Ask::Stat {
                    path: p,
                    follow: low_word(k.arg(3)) & AT_SYMLINK_NOFOLLOW == 0,
                },
                fail: ENOENT,
            },
            None => StepView::Done(ENOENT),
        },
{
    let i: usize = k.cpu.task_idx.unwrap();
    match real_path(k, k.tasks[i].frame.regs[0], path) {
        Ok(p) => {
            let follow: bool = word(k.tasks[i].frame.regs[3]) & AT_SYMLINK_NOFOLLOW == 0;
            Step::Ask { req: fstat(p.as_str(), follow), fail: ENOENT }
        },
        Err(_) => Step::Done(ENOENT),
    }
}

/// Changes the current directory, if there is such a file. The path is taken as it is.
pub fn chdir(k: &Kernel, path: &[u8]) -> (s: Step)
    requires
        k.calling(),
        valid_utf8(path@),
    ensures
        s@ == (StepView::Ask { req: P9Ask::Exists { path: text_of(path@) }, fail: ENOENT }),
{
    let p: String = text(path).unwrap();
    Step::Ask { req: exists_path(p.as_str()), fail: ENOENT }
}

/// Ends `chdir`.
pub fn chdir_done(k: &mut Kernel, path: &[u8], there: bool) -> (n: u64)
    requires
        old(k).calling(),
        valid_utf8(path@),
    ensures
        final(k).calling(),
        n == if there {
            0
        } else {
            ENOENT
        },
        !there ==> *final(k) == *old(k),
        there ==> {
            let t = final(k).cur();
            &&& final(k).with_task(*old(k), old(k).at(), t)
            &&& t == (Task { cwd: t.cwd, ..old(k).cur() })
            &&& t.cwd is Some && t.cwd->0@ == text_of(path@)
        },
{
    if there {
        let i: usize = k.cpu.task_idx.unwrap();
        k.tasks[i].cwd = text(path);
        proof {
            let t = k.tasks@[i as int];
            assert(k.tasks@ =~= old(k).tasks@.update(i as int, t));
            lemma_with_task(*k, *old(k), i as int, t);
        }
        0
    } else {
        ENOENT
    }
}

/// What `getcwd` gives: its result, and the bytes for the start of the buffer.
pub struct Getcwd {
    pub ret: u64,
    pub bytes: Vec<u8>,
}

/// The current directory, with a zero byte behind it where the buffer has room for it.
pub fn getcwd(k: &Kernel) -> (r: Getcwd)
    requires
        k.calling(),
        k.cur().cwd is Some,
        encode_utf8(k.cur().cwd->0@).len() <= k.arg(1) + 1,
    ensures
        ({
            let cwd = encode_utf8(k.cur().cwd->0@);
            if k.arg(1) > cwd.len() {
                r.ret == 0 && r.bytes@ == cwd.push(0)
            } else {
                r.ret == ENAMETOOLONG && r.bytes@ == cwd
            }
        }),
{
    let i: usize = k.cpu.task_idx.unwrap();
    let mut bytes: Vec<u8> = match &k.tasks[i].cwd {
        Some(c) => vstd::slice::slice_to_vec(c.as_str().as_bytes()),
        None => Vec::new(),
    };
    if k.tasks[i].frame.regs[1] > bytes.len() as u64 {
        bytes.push(0);
        Getcwd { ret: 0, bytes }
    } else {
        Getcwd { ret: ENAMETOOLONG, bytes }
    }
}

/// Sets the bits that new files do not get; returns those that were set.
pub fn umask(k: &mut Kernel) -> (n: u64)
    requires
        old(k).calling(),
    ensures
        n == old(k).cur().umask,
        final(k).calling(),
        final(k).with_task(
            *old(k),
            old(k).at(),
            Task { umask: low_word(old(k).arg(0)), ..old(k).cur() },
        ),
{
    let i: usize = k.cpu.task_idx.unwrap();
    let res: u32 = k.tasks[i].umask;
    k.tasks[i].umask = word(k.tasks[i].frame.regs[0]);
    proof {
        let t = k.tasks@[i as int];
        assert(k.tasks@ =~= old(k).tasks@.update(i as int, t));
        lemma_with_task(*k, *old(k), i as int, t);
    }
    res as u64
}

/// The link behind which the terminal stands.
pub const STDIN_LINK: &'static str = "/proc/self/fd/0";

/// What that link holds.
pub const STDIN_TTY: &'static str = "/dev/tty";

/// How reading a link goes on: so many bytes are in the buffer, or the server is asked.
#[derive(Debug)]
pub enum LinkStep {
    Done(usize),
    Ask(P9Request),
}

/// Reads what a link holds; what the terminal's link holds is known here.
pub fn readlink(path: &str, buf: &mut [u8]) -> (s: LinkStep)
    requires
        path@ == STDIN_LINK@ ==> encode_utf8(STDIN_TTY@).len() <= old(buf)@.len(),
    ensures
        if path@ == STDIN_LINK@ {
            let tty = encode_utf8(STDIN_TTY@);
            &&& s matches LinkStep::Done(n) && n == tty.len()
            &&& final(buf)@ == tty + old(buf)@.skip(tty.len() as int)
        } else {
            &&& s matches LinkStep::Ask(req) && req@ == (P9Ask::Readlink { path: path@ })
            &&& final(buf)@ == old(buf)@
        },
{
    let p: String = String::from_str(path);
    let q: String = String::from_str(STDIN_LINK);
    if p == q {
        return LinkStep::Done(cpystr(buf, STDIN_TTY));
    }
    LinkStep::Ask(P9Request::Readlink { path: p })
}

/// Ends `readlink`: `reply` is what the server says the link holds.
pub fn readlink_done(buf: &mut [u8], reply: Result<String, ()>) -> (r: Result<usize, ()>)
    requires
        reply matches Ok(s) ==> encode_utf8(s@).len() <= old(buf)@.len(),
    ensures
        match reply {
            Ok(s) => {
                let bytes = encode_utf8(s@);
                &&& r matches Ok(n) && n == bytes.len()
                &&& final(buf)@ == bytes + old(buf)@.skip(bytes.len() as int)
            },
            Err(_) => r == Err::<usize, ()>(()) && final(buf)@ == old(buf)@,
        },
{
    match reply {
        Ok(s) => Ok(cpystr(buf, s.as_str())),
        Err(_) => Err(()),
    }
}

/// How `readlinkat` goes on.
#[derive(Debug)]
pub enum ReadlinkStep {
    Done(u64),
    Ask(P9Request),
}

/// Reads what a link holds into the program's buffer.
pub fn readlinkat(k: &Kernel, path: &[u8], buf: &mut [u8]) -> (s: ReadlinkStep)
    requires
        k.calling(),
        usable(*k, k.arg(0), path@),
        meant(*k, k.arg(0), text_of(path@)) == Some(STDIN_LINK@) ==> encode_utf8(STDIN_TTY@).len()
            <= old(buf)@.len(),
    ensures
        match meant(*k, k.arg(0), text_of(path@)) {
            None => s == ReadlinkStep::Done(ENOENT) && final(buf)@ == old(buf)@,
            Some(p) => if p == STDIN_LINK@ {
                let tty = encode_utf8(STDIN_TTY@);
                &&& s matches ReadlinkStep::Done(n) && n == tty.len()
                &&& final(buf)@ == tty + old(buf)@.skip(tty.len() as int)
            } else {
                &&& s matches ReadlinkStep::Ask(req) && req@ == (P9Ask::Readlink { path: p })
                &&& final(buf)@ == old(buf)@
            },
        },
{
    let i: usize = k.cpu.task_idx.unwrap();
    let p: String = match real_path(k, k.tasks[i].frame.regs[0], path) {
        Ok(p) => p,
        Err(_) => return ReadlinkStep::Done(ENOENT),
    };
    match readlink(p.as_str(), buf) {
        LinkStep::Done(n) => ReadlinkStep::Done(n as u64),
        LinkStep::Ask(req) => ReadlinkStep::Ask(req),
    }
}

/// Ends `readlinkat`.
pub fn readlinkat_done(buf: &mut [u8], reply: Result<String, ()>) -> (n: u64)
    requires
        reply matches Ok(s) ==> encode_utf8(s@).len() <= old(buf)@.len(),
    ensures
        match reply {
            Ok(s) => {
                let bytes = encode_utf8(s@);
                &&& n == bytes.len()
                &&& final(buf)@ == bytes + old(buf)@.skip(bytes.len() as int)
            },
            Err(_) => n == ENOENT && final(buf)@ == old(buf)@,
        },
{
    match readlink_done(buf, reply) {
        Ok(n) => n as u64,
        Err(_) => ENOENT,
    }
}

/// How `openat` goes on: with a result, or with a request to the server to open a file
/// for the slot `file` and the descriptor number `fd`.
#[derive(Debug)]
pub enum OpenStep {
    Done(u64),
    Ask { req: P9Request, fd: usize, file: usize },
}

/// Opens a file: takes the first free descriptor number and the first free slot.
pub fn openat(k: &mut Kernel, path: &[u8]) -> (s: OpenStep)
    requires
        old(k).calling(),
        old(k).arg(1) != 0 ==> usable(*old(k), old(k).arg(0), path@),
    ensures
        final(k).calling(),
        *final(k) == (Kernel { fs: final(k).fs, ..*old(k) }),
        s is Done ==> *final(k) == *old(k),
        old(k).arg(1) == 0 ==> s == OpenStep::Done(FAIL),
        old(k).arg(1) != 0 ==> match meant(*old(k), old(k).arg(0), text_of(path@)) {
            None => s == OpenStep::Done(ENOENT),
            Some(p) => if old(k).cur().no_free_fd() || none_unused(old(k).fs.files@) {
                s == OpenStep::Done(FAIL)
            } else {
                &&& s matches OpenStep::Ask { req, fd, file } && {
                    &&& req@ == (P9Ask::Open { path: p, flags: low_word(old(k).arg(2)) })
                    &&& old(k).cur().is_first_free(fd as int)
                    &&& is_first_unused(old(k).fs.files@, file as int)
                    &&& final(k).fs.files@ == old(k).fs.files@.update(
                        file as int,
                        File { kind: FileKind::Used, ..old(k).fs.files@[file as int] },
                    )
                }
            },
        },
{
    let i: usize = k.cpu.task_idx.unwrap();
    if k.tasks[i].frame.regs[1] == 0 {
        return OpenStep::Done(FAIL);
    }
    let p: String = match real_path(k, k.tasks[i].frame.regs[0], path) {
        Ok(p) => p,
        Err(_) => return OpenStep::Done(ENOENT),
    };
    let fd: usize = match k.tasks[i].free_fd() {
        Some(fd) => fd,
        None => return OpenStep::Done(FAIL),
    };
    assert(!k.cur().no_free_fd()) by {
        let x = k.cur().files@[fd as int];
    }
    let flags: u32 = word(k.tasks[i].frame.regs[2]);
    let mode: u32 = word(k.tasks[i].frame.regs[3]);
    let ghost fs0 = k.fs.files@;
    match open(&mut k.fs, p.as_str(), flags, mode) {
        Ok((file, req)) => {
            proof {
                let x = fs0[file as int];
                lemma_slot_taken(*k, *old(k), file as int, k.fs.files@[file as int]);
            }
            OpenStep::Ask { req, fd, file }
        },
        Err(_) => OpenStep::Done(FAIL),
    }
}

/// A slot that was free and is taken, or the other way round, keeps the kernel sound.
pub proof fn lemma_slot_taken(k: Kernel, old: Kernel, f: int, file: File)
    requires
        old.serving(),
        0 <= f < 128,
        !old.fs.files@[f].is_open(),
        !file.is_open(),
        file.rc == old.fs.files@[f].rc,
        k == (Kernel { fs: k.fs, ..old }),
        k.fs.files@ == old.fs.files@.update(f, file),
    ensures
        k.serving(),
{
    let ts = old.tasks@;
    let fs0 = old.fs.files@;
    let t = old.cur();
    lemma_unused(ts, fs0, f);
    assert(task_uses(ts[old.at()], f, End::Any) == 0);
    assert(task_uses(ts[old.at()], f, End::Read) == 0);
    assert(task_uses(ts[old.at()], f, End::Write) == 0);
    assert(task_sound(t, fs0));
    assert forall|j: int| t.closed <= j < 8 implies fd_sound(#[trigger] t.files@[j], k.fs.files@) by {
        assert(fd_sound(t.files@[j], fs0));
    }
    lemma_books(ts, fs0, old.at(), t, f, file);
    assert(ts.update(old.at(), t) =~= ts);
    lemma_sound(k, old, t);
}

/// Ends `openat`: `reply` is the handle that the server gave for the path.
pub fn openat_done(
    k: &mut Kernel,
    path: &str,
    fd: usize,
    file: usize,
    reply: Result<u32, ()>,
) -> (n: u64)
    requires
        old(k).calling(),
        fd < 8,
        old(k).cur().files@[fd as int] is None,
        file < 128,
        old(k).fs.files@[file as int].kind is Used,
    ensures
        final(k).calling(),
        *final(k) == (Kernel { tasks: final(k).tasks, fs: final(k).fs, ..*old(k) }),
        match reply {
            Ok(fid) => {
                let f = final(k).fs.files@[file as int];
                &&& n == fd
                &&& with_fds(
                    final(k).cur(),
                    old(k).cur(),
                    old(k).cur().files@.update(
                        fd as int,
                        Some(FD { file, read: true, write: true }),
                    ),
                )
                &&& final(k).tasks@ == old(k).tasks@.update(old(k).at(), final(k).cur())
                &&& final(k).fs.files@ == old(k).fs.files@.update(file as int, f)
                &&& f == (File { kind: FileKind::P9(fid), rc: 1, offt: 0, path: f.path })
                &&& f.path is Some && f.path->0@ == path@
            },
            Err(_) => {
                &&& n == FAIL
                &&& final(k).tasks@ == old(k).tasks@
                &&& final(k).fs.files@ == old(k).fs.files@.update(
                    file as int,
                    File { kind: FileKind::Unused, ..old(k).fs.files@[file as int] },
                )
            },
        },
{
    let i: usize = k.cpu.task_idx.unwrap();
    let ghost ts = k.tasks@;
    let ghost fs0 = k.fs.files@;
    match opened(&mut k.fs, file, path, reply) {
        Ok(_) => {
            let d = FD { file, read: true, write: true };
            k.tasks[i].files[fd] = Some(d);
            proof {
                let f = file as int;
                let t0 = ts[i as int];
                let t = k.tasks@[i as int];
                assert(k.tasks@ =~= ts.update(i as int, t));
                assert(t.files@ =~= t0.files@.update(fd as int, Some(d)));
                lemma_unused(ts, fs0, f);
                lemma_added(t, t0, fd as int, d);
                assert forall|g: int, e: End|
                    0 <= g < fs0.len() && g != f implies #[trigger] task_uses(t, g, e)
                    == task_uses(ts[i as int], g, e) by {
                    assert(held(Some(d), g, e) == 0);
                }
                assert(task_uses(ts[i as int], f, End::Any) == 0);
                assert(task_uses(t, f, End::Any) == 1);
                assert(task_uses(ts[i as int], f, End::Read) == 0);
                assert(task_uses(t, f, End::Read) == 1);
                assert(task_uses(ts[i as int], f, End::Write) == 0);
                assert(task_uses(t, f, End::Write) == 1);
                assert(task_sound(t0, fs0));
                assert forall|j: int| t.closed <= j < 8 implies fd_sound(
                    #[trigger] t.files@[j],
                    k.fs.files@,
                ) by {
                    assert(fd_sound(t0.files@[j], fs0));
                }
                lemma_books(ts, fs0, i as int, t, f, k.fs.files@[f]);
                lemma_sound(*k, *old(k), t);
            }
            fd as u64
        },
        Err(_) => {
            proof {
                lemma_slot_taken(*k, *old(k), file as int, k.fs.files@[file as int]);
            }
            FAIL
        },
    }
}

/// The number of random bytes that were asked for.
pub fn getrandom(k: &Kernel) -> (n: u64)
    requires
        k.calling(),
    ensures
        n == k.arg(1),
{
    k.tasks[k.cpu.task_idx.unwrap()].frame.regs[1]
}

pub fn fcntl() -> (n: u64)
    ensures
        n == 0,
{
    0
}

/// An open that the server refuses leaves the files as they were: the slot that was
/// taken for it is free again.
pub proof fn law_refused_open_leaves_files(files: Seq<File>, i: int)
    requires
        is_first_unused(files, i),
    ensures
        ({
            let taken = files.update(i, File { kind: FileKind::Used, ..files[i] });
            taken.update(i, File { kind: FileKind::Unused, ..taken[i] }) == files
        }),
{
    let taken = files.update(i, File { kind: FileKind::Used, ..files[i] });
    assert(taken.update(i, File { kind: FileKind::Unused, ..taken[i] }) =~= files);
}

} // verus!

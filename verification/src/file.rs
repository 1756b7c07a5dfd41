//! Open files: a file of the file server, the console, or a pipe, with the number of
//! its users and its position.
use vstd::prelude::*;

use crate::pipe::{Pipe, PipeIo};

verus! {

/// What an open file stands for. Files of the server and consoles are known by a
/// handle.
pub enum FileKind {
    /// A free slot.
    Unused,
    /// A slot that is taken and not open yet.
    Used,
    P9(u32),
    Cons(u32),
    Pipe(Box<Pipe>),
}

/// An open file.
pub struct File {
    pub kind: FileKind,
    pub rc: u16,
    pub offt: u64,
    pub path: Option<String>,
}

pub struct Seek;

impl Seek {
    pub const SET: u64 = 0;

    pub const CUR: u64 = 1;

    pub const END: u64 = 2;
}

/// What is known of a file.
#[derive(Clone, Copy, Debug, Default, PartialEq, Eq, Structural)]
pub struct Stat {
    pub st_dev: u64,
    pub st_ino: u64,
    pub st_mode: u32,
    pub st_nlink: u32,
    pub st_uid: u32,
    pub st_gid: u32,
    pub st_rdev: u64,
    pub __pad1: u64,
    pub st_size: i64,
    pub st_blksize: i32,
    pub __pad2: i32,
    pub st_blocks: i64,
    pub st_atime: i64,
    pub st_atime_nsec: u64,
    pub st_mtime: i64,
    pub st_mtime_nsec: u64,
    pub st_ctime: i64,
    pub st_ctime_nsec: u64,
    pub __unused4: u32,
    pub __unused5: u32,
}

/// The mode of a pipe in `Stat`.
pub const S_IFIFO: u32 = 0x1000;

/// How a transfer goes on: it has failed, the device does it, or the pipe has done
/// what it could.
#[derive(Clone, Copy, Debug, PartialEq, Eq, Structural)]
pub enum FileStep {
    Fail,
    P9 { fid: u32, offset: u64 },
    Cons(u32),
    Pipe(PipeIo),
}

/// How giving up a file goes on: it is done, it is done and the sleepers at both ends
/// of the pipe are to be woken, or the server has to close the file.
#[derive(Clone, Copy, Debug, PartialEq, Eq, Structural)]
pub enum CloseStep {
    Done,
    Wake,
    P9(u32),
}

/// Who knows the state of a file: it is there already, or the device has it.
#[derive(Clone, Copy, Debug, PartialEq, Eq, Structural)]
pub enum StatStep {
    Done,
    P9(u32),
    Cons(u32),
}

/// How moving a whole buffer goes on.
#[derive(Clone, Copy, Debug, PartialEq, Eq, Structural)]
pub enum AllStep {
    /// So many bytes are still to be moved.
    More(usize),
    Done,
    Fail,
}

/// How moving a whole buffer of `len` bytes starts.
pub open spec fn first_step(len: usize) -> AllStep {
    if len == 0 {
        AllStep::Done
    } else {
        AllStep::More(len)
    }
}

/// How reading `left` bytes goes on once `got` has come. Nothing at all is the end of the
/// file.
pub open spec fn read_step(left: usize, got: Result<usize, ()>) -> AllStep {
    match got {
        Err(_) => AllStep::Fail,
        Ok(n) => if n == 0 || n == left {
            AllStep::Done
        } else {
            AllStep::More((left - n) as usize)
        },
    }
}

/// How writing `left` bytes goes on once `done` of them have been taken.
pub open spec fn write_step(left: usize, done: Result<usize, ()>) -> AllStep {
    match done {
        Err(_) => AllStep::Fail,
        Ok(n) => if n == left {
            AllStep::Done
        } else {
            AllStep::More((left - n) as usize)
        },
    }
}

/// How far moving a whole buffer of `len` bytes has come after these transfers.
pub open spec fn whole(len: usize, rs: Seq<Result<usize, ()>>, reading: bool) -> AllStep
    decreases rs.len(),
{
    if rs.len() == 0 {
        first_step(len)
    } else {
        match whole(len, rs.drop_last(), reading) {
            AllStep::More(left) => if reading {
                read_step(left, rs.last())
            } else {
                write_step(left, rs.last())
            },
            s => s,
        }
    }
}

/// Whether each of these transfers was called for, and moved no more than was asked.
pub open spec fn called_for(len: usize, rs: Seq<Result<usize, ()>>, reading: bool) -> bool {
    forall|i: int|
        0 <= i < rs.len() ==> {
            &&& whole(len, #[trigger] rs.take(i), reading) matches AllStep::More(left)
            &&& rs[i] matches Ok(n) ==> n <= left
        }
}

/// The bytes that these transfers moved.
pub open spec fn total(rs: Seq<Result<usize, ()>>) -> int
    decreases rs.len(),
{
    if rs.len() == 0 {
        0
    } else {
        total(rs.drop_last()) + match rs.last() {
            Ok(n) => n as int,
            Err(_) => 0,
        }
    }
}

/// The file after these transfers.
pub open spec fn moved_by_all(f: File, rs: Seq<Result<usize, ()>>) -> File
    decreases rs.len(),
{
    if rs.len() == 0 {
        f
    } else {
        moved_by_all(f, rs.drop_last()).moved_by(rs.last())
    }
}

/// How copying from one file to another goes on.
#[derive(Clone, Copy, Debug, PartialEq, Eq, Structural)]
pub enum SendStep {
    /// Read up to so many bytes.
    Read(usize),
    /// Write all of the bytes just read.
    Write(usize),
    /// So many bytes have been copied.
    Done(usize),
    Fail,
}

/// A copy of `total` bytes of which `rem` are still to come.
#[derive(Clone, Copy, Debug, PartialEq, Eq, Structural)]
pub struct Send {
    pub total: usize,
    pub rem: usize,
}

/// Bytes that a copy moves at a time.
pub const SEND_CHUNK: usize = 4096;

/// The 64 bits of `x` as an unsigned number.
pub open spec fn bits64(x: int) -> int {
    if x >= 0 {
        x
    } else {
        x + 0x1_0000_0000_0000_0000
    }
}

/// The low 32 bits of `x` as a signed number.
pub open spec fn low32(x: int) -> int {
    let m = x % 0x1_0000_0000;
    if m < 0x8000_0000 {
        m
    } else {
        m - 0x1_0000_0000
    }
}

/// `x` modulo 2^64.
pub open spec fn mod64(x: int) -> int {
    x % 0x1_0000_0000_0000_0000
}

fn bits(x: i64) -> (r: u64)
    ensures
        r == bits64(x as int),
{
    if x >= 0 {
        x as u64
    } else {
        u64::MAX - (-(x + 1)) as u64
    }
}

fn low(x: i64) -> (r: i32)
    ensures
        r == low32(x as int),
{
    let m: u64 = bits(x) % 0x1_0000_0000;
    if m < 0x8000_0000 {
        m as i32
    } else {
        (m as i64 - 0x1_0000_0000) as i32
    }
}

/// Where a step by `by` from `at` leads: forward by its size, whatever its sign.
pub open spec fn stepped(at: int, by: int) -> int {
    if by > 0 {
        mod64(at + by)
    } else {
        mod64(at - by)
    }
}

impl File {
    /// Whether the slot holds an open file.
    pub open spec fn is_open(self) -> bool {
        self.kind is P9 || self.kind is Cons || self.kind is Pipe
    }

    /// Whether nothing but the kind is different.
    pub open spec fn with_pipe(self, old: File) -> bool {
        &&& self.rc == old.rc
        &&& self.offt == old.offt
        &&& self.path == old.path
        &&& self.kind is Pipe
    }

    /// A free slot.
    pub fn zeroed() -> (f: File)
        ensures
            f == (File { kind: FileKind::Unused, rc: 0, offt: 0, path: None }),
    {
        File { kind: FileKind::Unused, rc: 0, offt: 0, path: None }
    }

    /// Starts reading until `out` holds `want` bytes.
    pub fn read(&mut self, out: &mut Vec<u8>, want: usize) -> (s: FileStep)
        requires
            old(self).rc > 0 ==> old(self).is_open(),
            old(out)@.len() <= want,
        ensures
            old(self).rc == 0 ==> s == FileStep::Fail,
            old(self).rc > 0 ==> match old(self).kind {
                FileKind::P9(fid) => s == (FileStep::P9 { fid, offset: old(self).offt }),
                FileKind::Cons(c) => s == FileStep::Cons(c),
                FileKind::Pipe(p) => {
                    let run = p@.read_run(old(out)@, want as int);
                    &&& final(self).with_pipe(*old(self))
                    &&& final(self).kind->Pipe_0@ == run.pipe
                    &&& final(out)@ == run.bytes
                    &&& s == FileStep::Pipe(run.io)
                },
                _ => true,
            },
            old(self).rc == 0 || !(old(self).kind is Pipe) ==> *final(self) == *old(self)
                && final(out)@ == old(out)@,
    {
        if self.rc == 0 {
            return FileStep::Fail;
        }
        match &mut self.kind {
            FileKind::P9(fid) => FileStep::P9 { fid: *fid, offset: self.offt },
            FileKind::Cons(c) => FileStep::Cons(*c),
            FileKind::Pipe(p) => FileStep::Pipe(p.read(out, want)),
            _ => FileStep::Fail,
        }
    }

    /// Goes on with a read that slept on a pipe.
    pub fn read_woken(&mut self, out: &mut Vec<u8>, want: usize) -> (s: FileStep)
        requires
            old(self).kind is Pipe,
            old(out)@.len() <= want,
        ensures
            ({
                let run = old(self).kind->Pipe_0@.read_on(old(out)@, want as int);
                &&& final(self).with_pipe(*old(self))
                &&& final(self).kind->Pipe_0@ == run.pipe
                &&& final(out)@ == run.bytes
                &&& s == FileStep::Pipe(run.io)
            }),
    {
        match &mut self.kind {
            FileKind::Pipe(p) => FileStep::Pipe(p.read_woken(out, want)),
            _ => FileStep::Fail,
        }
    }

    /// Starts writing `buf`.
    pub fn write(&mut self, buf: &[u8]) -> (s: FileStep)
        requires
            old(self).rc > 0 ==> old(self).is_open(),
        ensures
            old(self).rc == 0 ==> s == FileStep::Fail,
            old(self).rc > 0 ==> match old(self).kind {
                FileKind::P9(fid) => s == (FileStep::P9 { fid, offset: old(self).offt }),
                FileKind::Cons(c) => s == FileStep::Cons(c),
                FileKind::Pipe(p) => {
                    let run = p@.write_run(buf@);
                    &&& final(self).with_pipe(*old(self))
                    &&& final(self).kind->Pipe_0@ == run.pipe
                    &&& s == FileStep::Pipe(run.io)
                },
                _ => true,
            },
            old(self).rc == 0 || !(old(self).kind is Pipe) ==> *final(self) == *old(self),
    {
        if self.rc == 0 {
            return FileStep::Fail;
        }
        match &mut self.kind {
            FileKind::P9(fid) => FileStep::P9 { fid: *fid, offset: self.offt },
            FileKind::Cons(c) => FileStep::Cons(*c),
            FileKind::Pipe(p) => FileStep::Pipe(p.write(buf)),
            _ => FileStep::Fail,
        }
    }

    /// The file after a transfer with this result.
    pub open spec fn moved_by(self, r: Result<usize, ()>) -> File {
        if r is Ok && self.kind is P9 {
            File { offt: mod64(self.offt + r->Ok_0) as u64, ..self }
        } else {
            self
        }
    }

    /// Ends a transfer that a device did: the position in a file of the server moves
    /// on by what was moved.
    pub fn moved(&mut self, r: Result<usize, ()>) -> (n: Result<usize, ()>)
        ensures
            n == r,
            *final(self) == old(self).moved_by(r),
    {
        if let Ok(n) = r {
            if let FileKind::P9(_) = self.kind {
                self.offt = self.offt.wrapping_add(n as u64);
            }
        }
        r
    }

    /// Whether this is the file `old` after one use of it has been given up. `r` tells
    /// the ends of a pipe apart.
    pub open spec fn is_let_go(self, old: File, r: bool) -> bool {
        &&& self.rc == if old.rc == 0 {
            0int
        } else {
            old.rc - 1
        }
        &&& self.offt == old.offt
        &&& self.path == old.path
        &&& if old.rc > 0 && old.kind is Pipe {
            self.kind is Pipe && self.kind->Pipe_0@ == old.kind->Pipe_0@.less(r)
        } else {
            self.kind == old.kind
        }
    }

    /// What giving up one use asks for.
    pub open spec fn close_step(self) -> CloseStep {
        match self.kind {
            FileKind::Pipe(_) => if self.rc > 0 {
                CloseStep::Wake
            } else {
                CloseStep::Done
            },
            FileKind::P9(fid) => if self.rc == 1 {
                CloseStep::P9(fid)
            } else {
                CloseStep::Done
            },
            _ => CloseStep::Done,
        }
    }

    /// Gives up one use of the file. `r` and `w` tell the ends of a pipe apart.
    pub fn close(&mut self, r: bool, w: bool) -> (s: CloseStep)
        requires
            old(self).rc > 0 ==> match old(self).kind {
                FileKind::Pipe(p) => r != w && (r ==> p.readers > 0) && (w ==> p.writers > 0),
                FileKind::P9(_) => true,
                FileKind::Cons(_) => true,
                _ => old(self).rc > 1,
            },
        ensures
            final(self).is_let_go(*old(self), r),
            s == old(self).close_step(),
    {
        if self.rc == 0 {
            return CloseStep::Done;
        }
        let mut step = CloseStep::Done;
        match &mut self.kind {
            FileKind::Pipe(p) => {
                let _ = p.close(r);
                step = CloseStep::Wake;
            },
            _ => {},
        }
        if self.rc == 1 {
            self.rc = 0;
            if let FileKind::P9(fid) = self.kind {
                return CloseStep::P9(fid);
            }
        } else {
            self.rc = self.rc - 1;
        }
        step
    }

    /// Ends giving up a file of the server: where the server closed it the slot is
    /// free, else the file stays in use.
    pub fn closed(&mut self, ok: bool) -> (r: Result<(), ()>)
        ensures
            ok ==> r == Ok::<(), ()>(()) && *final(self) == (File {
                kind: FileKind::Unused,
                path: None,
                ..*old(self)
            }),
            !ok ==> r == Err::<(), ()>(()) && *final(self) == (File {
                rc: ((old(self).rc + 1) % 0x1_0000) as u16,
                ..*old(self)
            }),
    {
        if ok {
            self.kind = FileKind::Unused;
            self.path = None;
            Ok(())
        } else {
            self.rc = self.rc.wrapping_add(1);
            Err(())
        }
    }

    pub fn seek_to(&mut self, offt: u64)
        ensures
            *final(self) == (File { offt, ..*old(self) }),
    {
        self.offt = offt;
    }

    pub fn seek_by(&mut self, offt: i32)
        ensures
            *final(self) == (File {
                offt: stepped(old(self).offt as int, offt as int) as u64,
                ..*old(self)
            }),
    {
        self.offt = if offt > 0 {
            self.offt.wrapping_add(bits(offt as i64))
        } else {
            self.offt.wrapping_sub(bits(offt as i64))
        };
    }

    /// The size of the file, where `reported` is the size that its device reports.
    pub fn get_size(&self, reported: u64) -> (n: u64)
        ensures
            n == if self.kind is P9 || self.kind is Cons {
                reported
            } else {
                0
            },
    {
        match &self.kind {
            FileKind::P9(_) => reported,
            FileKind::Cons(_) => reported,
            _ => 0,
        }
    }

    /// Moves the position and returns it. `reported` is the size that the file's
    /// device reports.
    pub fn lseek(&mut self, offt: i64, whence: u64, reported: u64) -> (r: Result<u64, ()>)
        ensures
            r is Ok <==> whence <= 2,
            r is Err ==> *final(self) == *old(self),
            r matches Ok(at) ==> {
                &&& *final(self) == (File { offt: at, ..*old(self) })
                &&& at == if whence == Seek::SET {
                    bits64(offt as int)
                } else if whence == Seek::END {
                    let size: int = if old(self).kind is P9 || old(self).kind is Cons {
                        reported as int
                    } else {
                        0
                    };
                    mod64(size - offt)
                } else {
                    stepped(old(self).offt as int, low32(offt as int))
                }
            },
    {
        if whence == Seek::SET {
            self.seek_to(bits(offt));
        } else if whence == Seek::END {
            let at: u64 = self.get_size(reported).wrapping_sub(bits(offt));
            self.seek_to(at);
        } else if whence == Seek::CUR {
            self.seek_by(low(offt));
        } else {
            return Err(());
        }
        Ok(self.offt)
    }

    /// Whether this is the file `old` after one more use of it has been taken.
    pub open spec fn is_duped(self, old: File, r: bool) -> bool {
        &&& self.rc == (old.rc + 1) % 0x1_0000
        &&& self.offt == old.offt
        &&& self.path == old.path
        &&& if old.kind is Pipe {
            self.kind is Pipe && self.kind->Pipe_0@ == old.kind->Pipe_0@.more(r)
        } else {
            self.kind == old.kind
        }
    }

    /// Takes one more use of the file. `r` and `w` tell the ends of a pipe apart.
    pub fn dup(&mut self, r: bool, w: bool)
        requires
            old(self).kind matches FileKind::Pipe(p) ==> r != w && (r ==> p.readers < usize::MAX)
                && (w ==> p.writers < usize::MAX),
        ensures
            final(self).is_duped(*old(self), r),
    {
        self.rc = self.rc.wrapping_add(1);
        match &mut self.kind {
            FileKind::Pipe(p) => p.dup(r, w),
            _ => {},
        }
    }

    /// Whether moving a whole buffer of `len` bytes starts at all: for none, no transfer
    /// is made, and it has worked, whatever the file.
    pub fn all_start(len: usize) -> (s: AllStep)
        ensures
            s == first_step(len),
    {
        if len == 0 {
            AllStep::Done
        } else {
            AllStep::More(len)
        }
    }

    /// One step of reading a whole buffer: `left` bytes were asked for, and `got` is
    /// what came.
    pub fn read_all(left: usize, got: Result<usize, ()>) -> (s: AllStep)
        requires
            got matches Ok(n) ==> n <= left,
        ensures
            s == read_step(left, got),
    {
        match got {
            Err(_) => AllStep::Fail,
            Ok(n) => if n == 0 || n == left {
                AllStep::Done
            } else {
                AllStep::More(left - n)
            },
        }
    }

    /// One step of writing a whole buffer: `left` bytes were handed over, and `done`
    /// is how many were taken.
    pub fn write_all(left: usize, done: Result<usize, ()>) -> (s: AllStep)
        requires
            done matches Ok(n) ==> n <= left,
        ensures
            s == write_step(left, done),
    {
        match done {
            Err(_) => AllStep::Fail,
            Ok(n) => if n == left {
                AllStep::Done
            } else {
                AllStep::More(left - n)
            },
        }
    }

    /// Asks for the state of the file; that of a pipe is known here.
    pub fn fstat(&self, stat: &mut Stat) -> (s: StatStep)
        requires
            self.is_open(),
        ensures
            match self.kind {
                FileKind::P9(fid) => s == StatStep::P9(fid) && *final(stat) == *old(stat),
                FileKind::Cons(c) => s == StatStep::Cons(c) && *final(stat) == *old(stat),
                _ => s == StatStep::Done && *final(stat) == (Stat {
                    st_ino: 0,
                    st_size: 0,
                    st_nlink: 1,
                    st_mode: S_IFIFO,
                    ..*old(stat)
                }),
            },
    {
        match &self.kind {
            FileKind::P9(fid) => StatStep::P9(*fid),
            FileKind::Cons(c) => StatStep::Cons(*c),
            FileKind::Pipe(p) => {
                let _ = p.stat(stat);
                StatStep::Done
            },
            _ => StatStep::Done,
        }
    }

    /// The handle and the position from which a directory is listed on.
    pub fn getdents64(&self) -> (at: (u32, u64))
        requires
            self.kind is P9,
        ensures
            at == (self.kind->P9_0, self.offt),
    {
        match &self.kind {
            FileKind::P9(fid) => (*fid, self.offt),
            _ => (0, 0),
        }
    }

    /// Ends listing a directory: the bytes that came, and the position behind them.
    pub fn listed(&mut self, r: Result<(usize, u64), ()>) -> (n: Result<usize, ()>)
        ensures
            match r {
                Ok((len, offt)) => n == Ok::<usize, ()>(len) && *final(self) == (File {
                    offt,
                    ..*old(self)
                }),
                Err(_) => n == Err::<usize, ()>(()) && *final(self) == *old(self),
            },
    {
        match r {
            Ok((n, offt)) => {
                self.offt = offt;
                Ok(n)
            },
            Err(_) => Err(()),
        }
    }

    /// Starts copying `n` bytes to another file.
    pub fn send(n: usize) -> (s: Send)
        ensures
            s == (Send { total: n, rem: n }),
    {
        Send { total: n, rem: n }
    }

    /// Whether a read would find something, where `ready` says so of the console.
    pub fn readable(&self, ready: bool) -> (b: bool)
        requires
            !(self.kind is Pipe),
        ensures
            b == match self.kind {
                FileKind::P9(_) => true,
                FileKind::Cons(_) => ready,
                _ => false,
            },
    {
        match &self.kind {
            FileKind::P9(_) => true,
            FileKind::Cons(_) => ready,
            _ => false,
        }
    }

    pub fn writeable(&self) -> (b: bool)
        requires
            !(self.kind is Pipe),
        ensures
            b == (self.kind is P9 || self.kind is Cons),
    {
        match &self.kind {
            FileKind::P9(_) => true,
            FileKind::Cons(_) => true,
            _ => false,
        }
    }

    pub fn is_ok(&self) -> (b: bool)
        requires
            !(self.kind is Pipe),
        ensures
            b == (self.kind is P9 || self.kind is Cons),
    {
        match &self.kind {
            FileKind::P9(_) => true,
            FileKind::Cons(_) => true,
            _ => false,
        }
    }

    pub fn hanged_up(&self) -> (b: bool)
        ensures
            !b,
    {
        false
    }

    /// The console that is to wake the current task when it has something to read.
    pub fn wait4readable(&self) -> (c: Option<u32>)
        requires
            self.kind is P9 || self.kind is Cons,
        ensures
            c == match self.kind {
                FileKind::Cons(c) => Some(c),
                _ => None,
            },
    {
        match &self.kind {
            FileKind::Cons(c) => Some(*c),
            _ => None,
        }
    }

    pub fn is_pipe(&self) -> (b: bool)
        ensures
            b == (self.kind is Pipe),
    {
        match &self.kind {
            FileKind::Pipe(_) => true,
            _ => false,
        }
    }
}

impl Pipe {
    /// Fills in what is known of a pipe.
    pub fn stat(&self, stat: &mut Stat) -> (r: Result<(), ()>)
        ensures
            r == Ok::<(), ()>(()),
            *final(stat) == (Stat {
                st_ino: 0,
                st_size: 0,
                st_nlink: 1,
                st_mode: S_IFIFO,
                ..*old(stat)
            }),
    {
        stat.st_ino = 0;
        stat.st_size = 0;
        stat.st_nlink = 1;
        stat.st_mode = S_IFIFO;
        Ok(())
    }
}

impl Send {
    /// What is still to come is no more than there was.
    pub open spec fn sound(self) -> bool {
        self.rem <= self.total
    }

    /// What the copy asks for next.
    pub open spec fn spec_next(self) -> SendStep {
        if self.rem == 0 {
            SendStep::Done(self.total)
        } else if self.rem <= 4096 {
            SendStep::Read(self.rem)
        } else {
            SendStep::Read(4096)
        }
    }

    /// What follows a read.
    pub open spec fn spec_got(self, r: Result<usize, ()>) -> SendStep {
        match r {
            Err(_) => SendStep::Fail,
            Ok(n) => if n == 0 {
                SendStep::Done((self.total - self.rem) as usize)
            } else {
                SendStep::Write(n)
            },
        }
    }

    /// How the copy stands after the `n` bytes read were written, or not, and what follows.
    pub open spec fn spec_sent(self, n: usize, ok: bool) -> (Send, SendStep) {
        if ok {
            let s = Send { rem: (self.rem - n) as usize, ..self };
            (s, s.spec_next())
        } else {
            (self, SendStep::Fail)
        }
    }

    /// What comes next.
    pub fn next(&self) -> (s: SendStep)
        ensures
            s == self.spec_next(),
    {
        if self.rem == 0 {
            SendStep::Done(self.total)
        } else if self.rem <= SEND_CHUNK {
            SendStep::Read(self.rem)
        } else {
            SendStep::Read(SEND_CHUNK)
        }
    }

    /// After a read.
    pub fn got(&self, r: Result<usize, ()>) -> (s: SendStep)
        requires
            self.sound(),
        ensures
            s == self.spec_got(r),
    {
        match r {
            Err(_) => SendStep::Fail,
            Ok(n) => if n == 0 {
                SendStep::Done(self.total - self.rem)
            } else {
                SendStep::Write(n)
            },
        }
    }

    /// After all of the `n` bytes read were written, or not.
    pub fn sent(&mut self, n: usize, ok: bool) -> (s: SendStep)
        requires
            old(self).sound(),
            n <= old(self).rem,
        ensures
            final(self).sound(),
            (*final(self), s) == old(self).spec_sent(n, ok),
    {
        if !ok {
            return SendStep::Fail;
        }
        self.rem = self.rem - n;
        self.next()
    }
}

/// A whole buffer moves to or from a file of the server in order, no byte skipped or
/// moved twice: the next transfer takes the buffer up where the last one left it, and the
/// position in the file has moved by as much. It fails as soon as a transfer does, and
/// only then. Otherwise it ends when all bytes have been moved or, in reading, at the end
/// of the file. An empty buffer takes no transfer.
pub proof fn law_whole_buffer_moves_in_order(
    f: File,
    len: usize,
    rs: Seq<Result<usize, ()>>,
    reading: bool,
)
    requires
        f.kind is P9,
        called_for(len, rs, reading),
    ensures
        moved_by_all(f, rs) == (File { offt: mod64(f.offt + total(rs)) as u64, ..f }),
        0 <= total(rs) <= len,
        len == 0 ==> rs.len() == 0,
        match whole(len, rs, reading) {
            AllStep::More(left) => {
                &&& 0 < left == len - total(rs)
                &&& forall|i: int| 0 <= i < rs.len() ==> (#[trigger] rs[i]) is Ok
            },
            AllStep::Done => {
                &&& total(rs) == len || (reading && rs.len() > 0 && rs.last()
                    == Ok::<usize, ()>(0))
                &&& forall|i: int| 0 <= i < rs.len() ==> (#[trigger] rs[i]) is Ok
            },
            AllStep::Fail => {
                &&& rs.len() > 0 && rs.last() is Err
                &&& forall|i: int| 0 <= i < rs.len() - 1 ==> (#[trigger] rs[i]) is Ok
            },
        },
    decreases rs.len(),
{
    if rs.len() > 0 {
        let init = rs.drop_last();
        assert(rs.take(0) =~= Seq::empty());
        assert(rs.take(rs.len() - 1) =~= init);
        assert forall|i: int| 0 <= i < init.len() implies {
            &&& whole(len, #[trigger] init.take(i), reading) matches AllStep::More(left)
            &&& init[i] matches Ok(n) ==> n <= left
        } by {
            assert(init.take(i) =~= rs.take(i));
        }
        law_whole_buffer_moves_in_order(f, len, init, reading);
        assert forall|i: int| 0 <= i < rs.len() - 1 implies (#[trigger] rs[i]) is Ok by {
            assert(init[i] is Ok);
        }
    }
}

/// What transfers move is no less than nothing.
pub proof fn lemma_total(rs: Seq<Result<usize, ()>>)
    ensures
        0 <= total(rs),
    decreases rs.len(),
{
    if rs.len() > 0 {
        lemma_total(rs.drop_last());
    }
}

/// One chunk of a copy: what its read gave, and what the writes of these bytes gave.
pub struct Chunk {
    pub read: Result<usize, ()>,
    pub writes: Seq<Result<usize, ()>>,
}

/// How a copy of `n` bytes stands after these chunks, and what follows.
pub open spec fn copied(n: usize, cs: Seq<Chunk>) -> (Send, SendStep)
    decreases cs.len(),
{
    if cs.len() == 0 {
        let s = Send { total: n, rem: n };
        (s, s.spec_next())
    } else {
        let (s, step) = copied(n, cs.drop_last());
        if step is Read {
            match s.spec_got(cs.last().read) {
                SendStep::Write(m) => s.spec_sent(m, whole(m, cs.last().writes, false) is Done),
                next => (s, next),
            }
        } else {
            (s, step)
        }
    }
}

/// Whether a chunk is one that was called for: the copy asked to read `want` bytes, no more
/// were read, and all that were read were written or a write failed.
pub open spec fn chunk_called_for(c: Chunk, step: SendStep) -> bool {
    &&& step matches SendStep::Read(want)
    &&& match c.read {
        Ok(m) => if m > 0 {
            &&& m <= want
            &&& called_for(m, c.writes, false)
            &&& !(whole(m, c.writes, false) is More)
        } else {
            c.writes.len() == 0
        },
        Err(_) => c.writes.len() == 0,
    }
}

/// Whether all of these chunks were called for.
pub open spec fn chunks_called_for(n: usize, cs: Seq<Chunk>) -> bool {
    forall|i: int|
        0 <= i < cs.len() ==> chunk_called_for(cs[i], copied(n, #[trigger] cs.take(i)).1)
}

/// The file that these chunks were read from.
pub open spec fn read_from(f: File, cs: Seq<Chunk>) -> File
    decreases cs.len(),
{
    if cs.len() == 0 {
        f
    } else {
        read_from(f, cs.drop_last()).moved_by(cs.last().read)
    }
}

/// The file that these chunks were written to.
pub open spec fn written_to(f: File, cs: Seq<Chunk>) -> File
    decreases cs.len(),
{
    if cs.len() == 0 {
        f
    } else {
        moved_by_all(written_to(f, cs.drop_last()), cs.last().writes)
    }
}

/// Whether the read of this chunk or one of its writes has failed.
pub open spec fn has_failed(c: Chunk) -> bool {
    c.read is Err || exists|i: int| 0 <= i < c.writes.len() && (#[trigger] c.writes[i]) is Err
}

/// All but the last of the chunks that were called for were called for.
proof fn lemma_chunks_before(n: usize, cs: Seq<Chunk>)
    requires
        chunks_called_for(n, cs),
        cs.len() > 0,
    ensures
        chunks_called_for(n, cs.drop_last()),
        chunk_called_for(cs.last(), copied(n, cs.drop_last()).1),
{
    let init = cs.drop_last();
    assert(cs.take(cs.len() - 1) =~= init);
    assert forall|i: int| 0 <= i < init.len() implies chunk_called_for(
        init[i],
        copied(n, #[trigger] init.take(i)).1,
    ) by {
        assert(init.take(i) =~= cs.take(i));
    }
}

/// A write of a whole chunk has failed where one of its writes has.
proof fn lemma_chunk_failed(m: usize, ws: Seq<Result<usize, ()>>)
    requires
        called_for(m, ws, false),
    ensures
        whole(m, ws, false) is Fail <==> exists|i: int|
            0 <= i < ws.len() && (#[trigger] ws[i]) is Err,
{
    let any = File { kind: FileKind::P9(0), rc: 0, offt: 0, path: None };
    law_whole_buffer_moves_in_order(any, m, ws, false);
    if whole(m, ws, false) is Fail {
        assert(ws[ws.len() - 1] is Err);
    }
}

/// How a copy goes, but for the positions.
proof fn lemma_copy(n: usize, cs: Seq<Chunk>)
    requires
        chunks_called_for(n, cs),
    ensures
        n == 0 ==> cs.len() == 0,
        copied(n, cs).0.total == n,
        copied(n, cs).0.sound(),
        !(copied(n, cs).1 is Write),
        copied(n, cs).1 is Fail <==> cs.len() > 0 && has_failed(cs.last()),
        copied(n, cs).1 matches SendStep::Read(want) ==> 0 < want <= copied(n, cs).0.rem,
        copied(n, cs).1 matches SendStep::Done(k) ==> {
            &&& k == n - copied(n, cs).0.rem
            &&& k < n ==> cs.len() > 0 && cs.last().read == Ok::<usize, ()>(0)
        },
    decreases cs.len(),
{
    if cs.len() > 0 {
        lemma_chunks_before(n, cs);
        lemma_copy(n, cs.drop_last());
        if cs.last().read is Ok && cs.last().read->Ok_0 > 0 {
            lemma_chunk_failed(cs.last().read->Ok_0, cs.last().writes);
        }
    }
}

/// No chunk but the last can have failed.
proof fn lemma_only_last_failed(n: usize, cs: Seq<Chunk>)
    requires
        chunks_called_for(n, cs),
    ensures
        forall|i: int| 0 <= i < cs.len() - 1 ==> !has_failed(#[trigger] cs[i]),
    decreases cs.len(),
{
    if cs.len() > 0 {
        let init = cs.drop_last();
        lemma_chunks_before(n, cs);
        lemma_copy(n, init);
        lemma_only_last_failed(n, init);
        assert forall|i: int| 0 <= i < cs.len() - 1 implies !has_failed(#[trigger] cs[i]) by {
            assert(cs[i] == init[i]);
            if i == init.len() - 1 {
                assert(init.last() == cs[i]);
            }
        }
    }
}

proof fn lemma_mod64_add(a: int, b: int, c: int)
    ensures
        mod64(mod64(a + b) + c) == mod64(a + (b + c)),
{
}

/// Where the positions are after a copy.
proof fn lemma_copy_positions(from: File, to: File, n: usize, cs: Seq<Chunk>)
    requires
        from.kind is P9,
        to.kind is P9,
        chunks_called_for(n, cs),
        !(copied(n, cs).1 is Fail),
    ensures
        ({
            let k = n - copied(n, cs).0.rem;
            &&& read_from(from, cs) == (File { offt: mod64(from.offt + k) as u64, ..from })
            &&& written_to(to, cs) == (File { offt: mod64(to.offt + k) as u64, ..to })
        }),
    decreases cs.len(),
{
    if cs.len() > 0 {
        let init = cs.drop_last();
        let c = cs.last();
        lemma_chunks_before(n, cs);
        lemma_copy(n, init);
        lemma_copy_positions(from, to, n, init);
        let k = n - copied(n, init).0.rem;
        let m = c.read->Ok_0;
        lemma_mod64_add(from.offt as int, k, m as int);
        if m > 0 {
            law_whole_buffer_moves_in_order(written_to(to, init), m, c.writes, false);
            lemma_mod64_add(to.offt as int, k, m as int);
        }
    }
}

/// A copy between two files of the server moves no more bytes than asked for, and both
/// positions by as many. It fails as soon as a read or a write does, and only then.
/// Otherwise it ends when all bytes are copied or, with fewer, after a read that gave
/// nothing. A copy of no bytes makes no transfer.
pub proof fn law_whole_copy(from: File, to: File, n: usize, cs: Seq<Chunk>)
    requires
        from.kind is P9,
        to.kind is P9,
        chunks_called_for(n, cs),
    ensures
        n == 0 ==> cs.len() == 0,
        copied(n, cs).0.total == n,
        copied(n, cs).0.sound(),
        !(copied(n, cs).1 is Write),
        forall|i: int| 0 <= i < cs.len() - 1 ==> !has_failed(#[trigger] cs[i]),
        copied(n, cs).1 is Fail <==> cs.len() > 0 && has_failed(cs.last()),
        !(copied(n, cs).1 is Fail) ==> {
            let k = n - copied(n, cs).0.rem;
            &&& read_from(from, cs) == (File { offt: mod64(from.offt + k) as u64, ..from })
            &&& written_to(to, cs) == (File { offt: mod64(to.offt + k) as u64, ..to })
        },
        copied(n, cs).1 matches SendStep::Done(k) ==> {
            &&& k == n - copied(n, cs).0.rem
            &&& k < n ==> cs.len() > 0 && cs.last().read == Ok::<usize, ()>(0)
        },
{
    lemma_copy(n, cs);
    lemma_only_last_failed(n, cs);
    if !(copied(n, cs).1 is Fail) {
        lemma_copy_positions(from, to, n, cs);
    }
}

} // verus!

//! The table of open files, and the requests that the file server answers.
use vstd::prelude::*;

use crate::file::{File, FileKind};
use crate::pipe::{Pipe, PipeView};

verus! {

/// Slots for open files.
pub const NFILES: usize = 128;

/// Flags of an open file.
pub struct O;

impl O {
    pub const RDONLY: u32 = 0;

    pub const WRONLY: u32 = 0x1;

    pub const RDWR: u32 = 0x2;

    pub const CREAT: u32 = 0x40;

    pub const EXCL: u32 = 0x80;

    pub const NOCTTY: u32 = 0x100;

    pub const TRUNC: u32 = 0x200;

    pub const APPEND: u32 = 0x400;

    pub const NONBLOCK: u32 = 0x800;

    pub const DSYNC: u32 = 0x1000;

    pub const ASYNC: u32 = 0x2000;

    pub const DIRECTORY: u32 = 0x4000;

    pub const NOFOLLOW: u32 = 0x8000;

    pub const DIRECT: u32 = 0x1_0000;

    pub const LARGEFILE: u32 = 0x2_0000;

    pub const NOATIME: u32 = 0x4_0000;

    pub const CLOEXEC: u32 = 0x8_0000;

    pub const SYNC: u32 = 0x10_0000;

    pub const PATH: u32 = 0x20_0000;

    pub const TMPFILE: u32 = 0x40_0000;
}

/// What the file server is asked for.
#[derive(Debug)]
pub enum P9Request {
    Open { path: String, flags: u32 },
    Exists { path: String },
    Remove { path: String },
    Mkdir { path: String, mode: u32 },
    Symlink { name: String, path: String },
    Readlink { path: String },
    Rename { from: String, to: String },
    Link { from: String, to: String, follow: bool },
    Stat { path: String, follow: bool },
    Truncate { path: String, size: u64 },
}

/// The mathematical value of a request.
pub enum P9Ask {
    Open { path: Seq<char>, flags: u32 },
    Exists { path: Seq<char> },
    Remove { path: Seq<char> },
    Mkdir { path: Seq<char>, mode: u32 },
    Symlink { name: Seq<char>, path: Seq<char> },
    Readlink { path: Seq<char> },
    Rename { from: Seq<char>, to: Seq<char> },
    Link { from: Seq<char>, to: Seq<char>, follow: bool },
    Stat { path: Seq<char>, follow: bool },
    Truncate { path: Seq<char>, size: u64 },
}

impl View for P9Request {
    type V = P9Ask;

    open spec fn view(&self) -> P9Ask {
        match *self {
            P9Request::Open { path, flags } => P9Ask::Open { path: path@, flags },
            P9Request::Exists { path } => P9Ask::Exists { path: path@ },
            P9Request::Remove { path } => P9Ask::Remove { path: path@ },
            P9Request::Mkdir { path, mode } => P9Ask::Mkdir { path: path@, mode },
            P9Request::Symlink { name, path } => P9Ask::Symlink { name: name@, path: path@ },
            P9Request::Readlink { path } => P9Ask::Readlink { path: path@ },
            P9Request::Rename { from, to } => P9Ask::Rename { from: from@, to: to@ },
            P9Request::Link { from, to, follow } => P9Ask::Link { from: from@, to: to@, follow },
            P9Request::Stat { path, follow } => P9Ask::Stat { path: path@, follow },
            P9Request::Truncate { path, size } => P9Ask::Truncate { path: path@, size },
        }
    }
}

/// The table of open files.
pub struct Fs {
    pub files: Vec<File>,
}

/// Whether `i` is the first free slot.
pub open spec fn is_first_unused(files: Seq<File>, i: int) -> bool {
    &&& 0 <= i < files.len()
    &&& files[i].kind is Unused
    &&& forall|j: int| 0 <= j < i ==> !((#[trigger] files[j]).kind is Unused)
}

pub open spec fn none_unused(files: Seq<File>) -> bool {
    forall|j: int| 0 <= j < files.len() ==> !((#[trigger] files[j]).kind is Unused)
}

/// Takes the first free slot.
pub fn alloc_file(fs: &mut Fs) -> (r: Option<usize>)
    ensures
        match r {
            Some(i) => is_first_unused(old(fs).files@, i as int) && final(fs).files@
                == old(fs).files@.update(
                i as int,
                File { kind: FileKind::Used, ..old(fs).files@[i as int] },
            ),
            None => none_unused(old(fs).files@) && *final(fs) == *old(fs),
        },
{
    let mut i: usize = 0;
    while i < fs.files.len()
        invariant
            i <= fs.files@.len(),
            *fs == *old(fs),
            forall|j: int| 0 <= j < i ==> !((#[trigger] fs.files@[j]).kind is Unused),
        decreases fs.files@.len() - i,
    {
        if let FileKind::Unused = fs.files[i].kind {
            fs.files[i].kind = FileKind::Used;
            return Some(i);
        }
        i += 1;
    }
    None
}

/// Gives a slot back.
pub fn free_file(fs: &mut Fs, idx: usize)
    requires
        idx < old(fs).files@.len(),
    ensures
        final(fs).files@ == old(fs).files@.update(
            idx as int,
            File { kind: FileKind::Unused, ..old(fs).files@[idx as int] },
        ),
{
    fs.files[idx].kind = FileKind::Unused;
}

/// Starts opening a file of the server: takes a slot, and says what to ask for.
pub fn open(fs: &mut Fs, path: &str, flags: u32, _mode: u32) -> (r: Result<(usize, P9Request), ()>)
    ensures
        match r {
            Ok((i, ask)) => {
                &&& is_first_unused(old(fs).files@, i as int)
                &&& final(fs).files@ == old(fs).files@.update(
                    i as int,
                    File { kind: FileKind::Used, ..old(fs).files@[i as int] },
                )
                &&& ask@ == (P9Ask::Open { path: path@, flags })
            },
            Err(_) => none_unused(old(fs).files@) && *final(fs) == *old(fs),
        },
{
    match alloc_file(fs) {
        Some(i) => Ok((i, P9Request::Open { path: String::from_str(path), flags })),
        None => Err(()),
    }
}

/// Ends opening a file of the server: `reply` is the handle that it gave.
pub fn opened(fs: &mut Fs, idx: usize, path: &str, reply: Result<u32, ()>) -> (r: Result<usize, ()>)
    requires
        idx < old(fs).files@.len(),
    ensures
        match reply {
            Ok(fid) => {
                let f = final(fs).files@[idx as int];
                &&& r == Ok::<usize, ()>(idx)
                &&& final(fs).files@ == old(fs).files@.update(idx as int, f)
                &&& f.path is Some && f.path->0@ == path@
                &&& f == (File { kind: FileKind::P9(fid), rc: 1, offt: 0, path: f.path })
            },
            Err(_) => {
                &&& r == Err::<usize, ()>(())
                &&& final(fs).files@ == old(fs).files@.update(
                    idx as int,
                    File { kind: FileKind::Unused, ..old(fs).files@[idx as int] },
                )
            },
        },
{
    match reply {
        Ok(fid) => {
            fs.files[idx] = File {
                kind: FileKind::P9(fid),
                rc: 1,
                offt: 0,
                path: Some(String::from_str(path)),
            };
            Ok(idx)
        },
        Err(_) => {
            free_file(fs, idx);
            Err(())
        },
    }
}

/// A pipe that has just been made: one read end and no write end.
pub open spec fn new_pipe(nonblock: bool) -> PipeView {
    PipeView {
        readers: 1,
        writers: 0,
        rpos: 0,
        wpos: 0,
        empty: true,
        full: false,
        nonblock,
        buf: Seq::new(4096, |i: int| 0u8),
    }
}

/// Makes a pipe, with its read end in use.
pub fn open_pipe(fs: &mut Fs, nonblock: bool) -> (r: Result<usize, ()>)
    ensures
        match r {
            Ok(i) => {
                let f = final(fs).files@[i as int];
                &&& is_first_unused(old(fs).files@, i as int)
                &&& final(fs).files@ == old(fs).files@.update(i as int, f)
                &&& f.kind is Pipe && f.kind->Pipe_0@ == new_pipe(nonblock)
                &&& f == (File { kind: f.kind, rc: 1, offt: 0, path: None })
            },
            Err(_) => none_unused(old(fs).files@) && *final(fs) == *old(fs),
        },
{
    match alloc_file(fs) {
        Some(i) => {
            fs.files[i] = File {
                kind: FileKind::Pipe(Box::new(Pipe::new(nonblock))),
                rc: 1,
                offt: 0,
                path: None,
            };
            Ok(i)
        },
        None => Err(()),
    }
}

/// Opens a console, known by the handle `cons`. The slot keeps its position and path.
pub fn open_cons(fs: &mut Fs, cons: u32) -> (r: Result<usize, ()>)
    ensures
        match r {
            Ok(i) => is_first_unused(old(fs).files@, i as int) && final(fs).files@
                == old(fs).files@.update(
                i as int,
                File { kind: FileKind::Cons(cons), rc: 1, ..old(fs).files@[i as int] },
            ),
            Err(_) => none_unused(old(fs).files@) && *final(fs) == *old(fs),
        },
{
    match alloc_file(fs) {
        Some(i) => {
            fs.files[i].kind = FileKind::Cons(cons);
            fs.files[i].rc = 1;
            Ok(i)
        },
        None => Err(()),
    }
}

} // verus!

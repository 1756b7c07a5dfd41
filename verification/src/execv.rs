//! How a process starts another program.
//!
//! The file server opens and reads the program's file, so starting a program goes in
//! stages: the file is opened, its header is looked at, the old program goes, the
//! segments of the new one come one by one, the stack and the registers are set, and
//! the file is given up. Each stage says what is to be done next, and the stage after
//! it takes up what came of it.
use vstd::prelude::*;
use vstd::string::StringExecFns;
use vstd::utf8::valid_utf8;

use crate::books::{uses, End};
use crate::calls::lemma_slot_taken;
use crate::desc::{file_closed, CloseOut, FAIL};
use crate::elf::{runnable, Elf, Elf64Phdr, PhIter, PT_LOAD};
use crate::file::{mod64, File, FileKind};
use crate::fs::{is_first_unused, none_unused, open, P9Ask, P9Request, O};
use crate::kernel::{lemma_same_space, space_full, Kernel};
use crate::load::{clear_space, drop_file, enter, file_opened, frames_fit, has_room, is_cleared};
use crate::load::{is_dropped, is_entered, is_load, is_loading, is_placed, is_sealed, is_sought};
use crate::load::{loadable, place_segment, seal_segment, seek_file, segment_frames};
use crate::load::{is_start, segment_region, Entered, Failed, Segment};
use crate::path::{text, text_of};
use crate::region::{Block, Region};
use crate::stack::{kept, spoiled_image, stack_fits, stack_image, stack_start, strings};
use crate::task::Task;
use crate::vm::all_mapped;

verus! {

/// Bytes in the headers of a file and of a segment.
const HEADER: usize = 64;

const SEGMENT_HEADER: usize = 56;

/// How far starting a program has come.
#[derive(Debug)]
pub enum Stage {
    /// The server opens the file.
    Opening { file: usize, path: String },
    /// The header of the file is read.
    Header,
    /// The header of a segment is read.
    Next(PhIter),
    /// Memory is found for a segment.
    Room { it: PhIter, ph: Elf64Phdr },
    /// A segment gets its contents.
    Filling { it: PhIter, ph: Elf64Phdr },
    /// The server closes the file, and this is the result.
    Closing { file: usize, result: Result<Entered, Failed> },
    Done,
}

/// A program that is being started, with its arguments and its environment.
#[derive(Debug)]
pub struct Exec {
    pub argv: Vec<Vec<u8>>,
    pub envp: Vec<Vec<u8>>,
    pub stage: Stage,
}

/// What is to be done next.
#[derive(Debug)]
pub enum Act {
    /// Read up to so many bytes of the file from a position on.
    Read { fid: u32, offset: u64, len: usize },
    /// Find so many frames.
    Frames(u64),
    /// Fill a segment: with bytes of the file from its position on, and zeros.
    Fill(Segment),
    /// Close the file.
    Close(u32),
    /// The program can start, or could not be started.
    Done(Result<Entered, Failed>),
}

/// Whether the position of the next segment header can be told.
pub open spec fn walkable(it: PhIter) -> bool {
    it.idx < it.elf.header.phnum ==> it.elf.header.phoff + 56 * it.idx <= u64::MAX
}

/// What holds between the stages.
pub open spec fn holds(k: Kernel, x: Exec) -> bool {
    &&& k.serving()
    &&& match x.stage {
        Stage::Opening { file, path } => {
            &&& k.cur().loading is None
            &&& file < 128
            &&& k.fs.files@[file as int].kind is Used
        },
        Stage::Header => k.cur().loading is Some,
        Stage::Next(it) => k.cur().loading is Some && walkable(it),
        Stage::Room { it, ph } => {
            &&& k.cur().loading is Some
            &&& walkable(it)
            &&& loadable(ph)
            &&& has_room(k, ph)
        },
        Stage::Filling { it, ph } => {
            let r = segment_region(ph);
            &&& k.cur().loading is Some
            &&& walkable(it)
            &&& loadable(ph)
            &&& all_mapped(k.cur().pt@, r.vaddr as int, r.len as int)
        },
        Stage::Closing { file, result } => {
            &&& k.cur().loading is None
            &&& file < 128
            &&& k.fs.files@[file as int].kind is P9
            &&& k.fs.files@[file as int].rc == 0
            &&& uses(k.tasks@, file as int, End::Any) == 0
        },
        Stage::Done => k.cur().loading is None,
    }
}

/// The handle of the file that the current task's program comes from.
pub open spec fn loading_fid(k: Kernel) -> u32 {
    k.fs.files@[k.cur().loading->0 as int].kind->P9_0
}

/// Whether the position in the file of the program has moved by what was read.
pub open spec fn is_advanced(k: Kernel, old: Kernel, read: Result<Vec<u8>, ()>) -> bool {
    match read {
        Ok(s) => {
            let f = old.cur().loading->0 as int;
            is_sought(k, old, mod64(old.fs.files@[f].offt + s@.len()) as u64)
        },
        Err(_) => k == old,
    }
}

/// How giving the file up ends a start with the result `r`.
pub open spec fn is_outcome(stage: Stage, act: Act, c: CloseOut, r: Result<Entered, Failed>) -> bool {
    match c {
        CloseOut::P9 { file, fid } => {
            &&& act == Act::Close(fid)
            &&& stage == (Stage::Closing { file, result: r })
        },
        CloseOut::Done(_) => act == Act::Done(r) && stage == Stage::Done,
    }
}

/// Whether the file has been given up, with the result `r`.
pub open spec fn gives_up(
    k: Kernel,
    x: Exec,
    act: Act,
    old: Kernel,
    r: Result<Entered, Failed>,
) -> bool {
    exists|c: CloseOut| #[trigger] is_dropped(k, old, c) && is_outcome(x.stage, act, c, r)
}

/// Whether the stack and the registers have been set and the file been given up.
pub open spec fn finishes(k: Kernel, x: Exec, act: Act, old: Kernel, elf: Elf) -> bool {
    exists|mid: Kernel, r: Result<Entered, Failed>| #[trigger]
        is_entered(mid, old, elf, x.argv@, x.envp@, r) && gives_up(k, x, act, mid, r)
}

/// Whether the next segment header is read, or the start ends where there is none.
pub open spec fn goes_on(k: Kernel, x: Exec, act: Act, old: Kernel, it: PhIter) -> bool {
    if it.idx >= it.elf.header.phnum {
        finishes(k, x, act, old, it.elf)
    } else {
        let offset = (it.elf.header.phoff + 56 * it.idx) as u64;
        &&& is_sought(k, old, offset)
        &&& x.stage == Stage::Next(it)
        &&& act == (Act::Read { fid: loading_fid(old), offset, len: 56 })
    }
}

/// Starts another program in the place of the current one: says what to open.
pub fn execv_inner(k: &mut Kernel, path: &str, argv: Vec<Vec<u8>>, envp: Vec<Vec<u8>>) -> (r:
    Result<(Exec, P9Request), ()>)
    requires
        old(k).serving(),
        old(k).cur().loading is None,
    ensures
        *final(k) == (Kernel { fs: final(k).fs, ..*old(k) }),
        match r {
            Ok((x, ask)) => {
                &&& holds(*final(k), x)
                &&& x.argv == argv && x.envp == envp
                &&& x.stage matches Stage::Opening { file, path: p } && {
                    &&& p@ == path@
                    &&& is_first_unused(old(k).fs.files@, file as int)
                    &&& final(k).fs.files@ == old(k).fs.files@.update(
                        file as int,
                        File { kind: FileKind::Used, ..old(k).fs.files@[file as int] },
                    )
                }
                &&& ask@ == (P9Ask::Open { path: path@, flags: O::RDONLY })
            },
            Err(_) => {
                &&& none_unused(old(k).fs.files@)
                &&& *final(k) == *old(k)
                &&& final(k).serving()
            },
        },
{
    match open(&mut k.fs, path, O::RDONLY, 0) {
        Ok((file, ask)) => {
            proof {
                let x = old(k).fs.files@[file as int];
                lemma_slot_taken(*k, *old(k), file as int, k.fs.files@[file as int]);
            }
            let stage = Stage::Opening { file, path: String::from_str(path) };
            Ok((Exec { argv, envp, stage }, ask))
        },
        Err(_) => Err(()),
    }
}

/// Starts another program by the path that the program gave, if it is text.
pub fn execve(k: &mut Kernel, path: &[u8], argv: Vec<Vec<u8>>, envp: Vec<Vec<u8>>) -> (r: Result<
    (Exec, P9Request),
    u64,
>)
    requires
        old(k).calling(),
        old(k).cur().loading is None,
    ensures
        *final(k) == (Kernel { fs: final(k).fs, ..*old(k) }),
        final(k).calling(),
        match r {
            Ok((x, ask)) => {
                &&& valid_utf8(path@)
                &&& holds(*final(k), x)
                &&& x.argv == argv && x.envp == envp
                &&& x.stage matches Stage::Opening { file, path: p } && {
                    &&& p@ == text_of(path@)
                    &&& is_first_unused(old(k).fs.files@, file as int)
                    &&& final(k).fs.files@ == old(k).fs.files@.update(
                        file as int,
                        File { kind: FileKind::Used, ..old(k).fs.files@[file as int] },
                    )
                }
                &&& ask@ == (P9Ask::Open { path: text_of(path@), flags: O::RDONLY })
            },
            Err(e) => {
                &&& e == FAIL
                &&& !valid_utf8(path@) || none_unused(old(k).fs.files@)
                &&& *final(k) == *old(k)
            },
        },
{
    match text(path) {
        None => Err(FAIL),
        Some(p) => match execv_inner(k, p.as_str(), argv, envp) {
            Ok(x) => Ok(x),
            Err(_) => Err(FAIL),
        },
    }
}

/// The result of `execve` once the start has ended.
pub fn execve_ret(r: &Result<Entered, Failed>) -> (n: u64)
    ensures
        n == if r is Ok {
            0
        } else {
            FAIL
        },
{
    if r.is_ok() {
        0
    } else {
        FAIL
    }
}

impl Exec {
    /// After the server has opened the file, or not.
    pub fn opened(&mut self, k: &mut Kernel, reply: Result<u32, ()>) -> (act: Act)
        requires
            holds(*old(k), *old(self)),
            old(self).stage is Opening,
        ensures
            holds(*final(k), *final(self)),
            space_full(old(k).cur()) ==> space_full(final(k).cur()),
            final(self).argv == old(self).argv && final(self).envp == old(self).envp,
            is_loading(
                *final(k),
                *old(k),
                old(self).stage->Opening_file,
                old(self).stage->Opening_path@,
                reply,
            ),
            match reply {
                Ok(fid) => {
                    &&& act == (Act::Read { fid, offset: 0, len: 64 })
                    &&& final(self).stage == Stage::Header
                },
                Err(_) => act == Act::Done(Err(Failed { stack: None })) && final(self).stage == Stage::Done,
            },
    {
        let mut stage = Stage::Done;
        std::mem::swap(&mut stage, &mut self.stage);
        if let Stage::Opening { file, path } = stage {
            if let Ok(fid) = reply {
                let _ = file_opened(k, file, path.as_str(), reply);
                proof {
                    lemma_same_space(old(k).cur(), k.cur());
                }
                self.stage = Stage::Header;
                return Act::Read { fid, offset: 0, len: HEADER };
            }
            let _ = file_opened(k, file, path.as_str(), reply);
        }
        Act::Done(Err(Failed { stack: None }))
    }

    /// Gives the file up and ends with the result `r`.
    fn give_up(&mut self, k: &mut Kernel, r: Result<Entered, Failed>) -> (act: Act)
        requires
            old(k).serving(),
            old(k).cur().loading is Some,
        ensures
            holds(*final(k), *final(self)),
            space_full(old(k).cur()) ==> space_full(final(k).cur()),
            final(self).argv == old(self).argv && final(self).envp == old(self).envp,
            gives_up(*final(k), *final(self), act, *old(k), r),
    {
        let ghost f = k.cur().loading->0;
        assert(crate::books::task_sound(k.tasks@[k.at()], k.fs.files@));
        let c = drop_file(k);
        proof {
            assert(is_dropped(*k, *old(k), c));
            lemma_same_space(old(k).cur(), k.cur());
        }
        match c {
            CloseOut::P9 { file, fid } => {
                self.stage = Stage::Closing { file, result: r };
                Act::Close(fid)
            },
            CloseOut::Done(_) => {
                self.stage = Stage::Done;
                Act::Done(r)
            },
        }
    }

    /// Sets the stack and the registers and gives the file up.
    fn finish(&mut self, k: &mut Kernel, elf: &Elf) -> (act: Act)
        requires
            old(k).serving(),
            old(k).cur().loading is Some,
        ensures
            holds(*final(k), *final(self)),
            space_full(old(k).cur()) ==> space_full(final(k).cur()),
            final(self).argv == old(self).argv && final(self).envp == old(self).envp,
            finishes(*final(k), *final(self), act, *old(k), *elf),
    {
        let r = enter(k, elf, self.argv.as_slice(), self.envp.as_slice());
        let ghost mid = *k;
        assert(is_entered(mid, *old(k), *elf, self.argv@, self.envp@, r));
        proof {
            lemma_same_space(old(k).cur(), mid.cur());
        }
        self.give_up(k, r)
    }

    /// Goes on to the next segment header, or ends where there is none.
    fn advance(&mut self, k: &mut Kernel, it: PhIter) -> (act: Act)
        requires
            old(k).serving(),
            old(k).cur().loading is Some,
            walkable(it),
        ensures
            holds(*final(k), *final(self)),
            space_full(old(k).cur()) ==> space_full(final(k).cur()),
            final(self).argv == old(self).argv && final(self).envp == old(self).envp,
            goes_on(*final(k), *final(self), act, *old(k), it),
    {
        match it.at() {
            None => self.finish(k, &it.elf),
            Some(offset) => {
                let fid: u32 = fid_of(k);
                seek_file(k, offset);
                self.stage = Stage::Next(it);
                Act::Read { fid, offset, len: SEGMENT_HEADER }
            },
        }
    }

    /// After the header of the file has been read, or not; returns the blocks of the old
    /// program, which are to be freed. A file that is no program for this machine ends
    /// the start, and leaves the old program as it is.
    pub fn header(&mut self, k: &mut Kernel, read: Result<Vec<u8>, ()>) -> (r: (Vec<Block>, Act))
        requires
            holds(*old(k), *old(self)),
            old(self).stage is Header,
            read matches Ok(s) ==> s@.len() <= 64,
            is_runnable(read) ==> space_full(old(k).cur()),
        ensures
            holds(*final(k), *final(self)),
            space_full(old(k).cur()) ==> space_full(final(k).cur()),
            final(self).argv == old(self).argv && final(self).envp == old(self).envp,
            after_header(*final(k), *final(self), r.1, r.0@, *old(k), read),
    {
        let file: usize = moved_by(k, &read);
        let ghost k1 = *k;
        let ghost read0 = read;
        assert(is_advanced(k1, *old(k), read0));
        match Elf::new(file, read) {
            Err(_) => {
                let act = self.give_up(k, Err(Failed { stack: None }));
                assert(header_read(*k, *self, act, Seq::empty(), k1, read0));
                (Vec::new(), act)
            },
            Ok(elf) => {
                let freed = clear_space(k);
                let ghost k2 = *k;
                proof {
                    assert(is_cleared(k2, k1, freed@));
                    assert(has_header(elf, read0));
                }
                let act = self.advance(k, PhIter::new(elf));
                proof {
                    assert(goes_on(*k, *self, act, k2, PhIter { elf, idx: 0 }));
                    assert(header_read(*k, *self, act, freed@, k1, read0));
                }
                (freed, act)
            },
        }
    }

    /// After the header of a segment has been read, or not. A header that could not be
    /// read is taken for the end of them.
    pub fn segment(&mut self, k: &mut Kernel, read: Result<Vec<u8>, ()>) -> (act: Act)
        requires
            holds(*old(k), *old(self)),
            old(self).stage is Next,
            read matches Ok(s) ==> s@.len() <= 56 && (s@.len() == 56 ==> {
                let it = old(self).stage->Next_0;
                &&& it.idx < it.elf.header.phnum ==> walkable(
                    PhIter { idx: (it.idx + 1) as u16, ..it },
                )
                &&& forall|p: Elf64Phdr| #[trigger]
                    p.is_at(s@) && p.kind == PT_LOAD ==> loadable(p) && has_room(*old(k), p)
            }),
        ensures
            holds(*final(k), *final(self)),
            space_full(old(k).cur()) ==> space_full(final(k).cur()),
            final(self).argv == old(self).argv && final(self).envp == old(self).envp,
            after_segment(*final(k), *final(self), act, *old(k), old(self).stage->Next_0, read),
    {
        let _ = moved_by(k, &read);
        let ghost k1 = *k;
        let ghost read0 = read;
        assert(is_advanced(k1, *old(k), read0));
        if let Stage::Next(it) = self.stage {
            let mut it = it;
            let ghost it0 = it;
            match it.next(read) {
                None => {
                    return self.finish(k, &it.elf);
                },
                Some(ph) => {
                    if !is_load(&ph) {
                        let act = self.advance(k, it);
                        assert(ph.is_at(read0->Ok_0@));
                        return act;
                    }
                    assert(ph.is_at(read0->Ok_0@));
                    self.stage = Stage::Room { it, ph };
                    return Act::Frames(segment_frames(&ph));
                },
            }
        }
        Act::Done(Err(Failed { stack: None }))
    }

    /// After memory has been found for a segment.
    pub fn room(&mut self, k: &mut Kernel, frames: &[u64]) -> (act: Act)
        requires
            holds(*old(k), *old(self)),
            old(self).stage is Room,
            frames_fit(old(self).stage->Room_ph, frames@),
        ensures
            holds(*final(k), *final(self)),
            space_full(old(k).cur()) ==> space_full(final(k).cur()),
            final(self).argv == old(self).argv && final(self).envp == old(self).envp,
            after_room(
                *final(k),
                *final(self),
                act,
                *old(k),
                old(self).stage->Room_it,
                old(self).stage->Room_ph,
                frames@,
            ),
    {
        if let Stage::Room { it, ph } = self.stage {
            place_segment(k, &ph, frames);
            self.stage = Stage::Filling { it, ph };
            return Act::Fill(
                Segment { at: ph.vaddr, filesz: ph.filesz, zeros: ph.memsz - ph.filesz },
            );
        }
        Act::Done(Err(Failed { stack: None }))
    }

    /// After a segment has got its contents.
    pub fn filled(&mut self, k: &mut Kernel) -> (act: Act)
        requires
            holds(*old(k), *old(self)),
            old(self).stage is Filling,
        ensures
            holds(*final(k), *final(self)),
            space_full(old(k).cur()) ==> space_full(final(k).cur()),
            final(self).argv == old(self).argv && final(self).envp == old(self).envp,
            after_filled(
                *final(k),
                *final(self),
                act,
                *old(k),
                old(self).stage->Filling_it,
                old(self).stage->Filling_ph,
            ),
    {
        if let Stage::Filling { it, ph } = self.stage {
            seal_segment(k, &ph);
            let ghost k1 = *k;
            assert(is_sealed(k1, *old(k), old(self).stage->Filling_ph));
            return self.advance(k, it);
        }
        Act::Done(Err(Failed { stack: None }))
    }

    /// After the server has closed the file, or not, which makes no difference.
    pub fn closed(&mut self, k: &mut Kernel, ok: bool) -> (act: Act)
        requires
            holds(*old(k), *old(self)),
            old(self).stage is Closing,
        ensures
            holds(*final(k), *final(self)),
            space_full(old(k).cur()) ==> space_full(final(k).cur()),
            final(self).stage == Stage::Done,
            act == Act::Done(old(self).stage->Closing_result),
            *final(k) == (Kernel { fs: final(k).fs, ..*old(k) }),
            ({
                let f = old(self).stage->Closing_file as int;
                let file = old(k).fs.files@[f];
                final(k).fs.files@ == old(k).fs.files@.update(
                    f,
                    if ok {
                        File { kind: FileKind::Unused, path: None, ..file }
                    } else {
                        File { rc: 1, ..file }
                    },
                )
            }),
    {
        let mut stage = Stage::Done;
        std::mem::swap(&mut stage, &mut self.stage);
        if let Stage::Closing { file, result } = stage {
            let _ = file_closed(k, file, ok);
            return Act::Done(result);
        }
        Act::Done(Err(Failed { stack: None }))
    }
}

/// Whether this is the program whose header was read.
pub open spec fn has_header(elf: Elf, read: Result<Vec<u8>, ()>) -> bool {
    match read {
        Ok(s) => elf.header.is_at(s@),
        Err(_) => elf.header.is_zeroed(),
    }
}

/// Whether what was read is the header of a program that can be run. A read that
/// failed is taken for one.
pub open spec fn is_runnable(read: Result<Vec<u8>, ()>) -> bool {
    read matches Ok(s) ==> s@.len() == 64 && runnable(s@)
}

/// What the header of a file leads to.
pub open spec fn header_read(
    k: Kernel,
    x: Exec,
    act: Act,
    freed: Seq<Block>,
    old: Kernel,
    read: Result<Vec<u8>, ()>,
) -> bool {
    if is_runnable(read) {
        exists|mid: Kernel, elf: Elf|
            #![trigger is_cleared(mid, old, freed), has_header(elf, read)]
            {
                &&& is_cleared(mid, old, freed)
                &&& has_header(elf, read)
                &&& elf.file == old.cur().loading->0
                &&& goes_on(k, x, act, mid, PhIter { elf, idx: 0 })
            }
    } else {
        freed.len() == 0 && gives_up(k, x, act, old, Err(Failed { stack: None }))
    }
}

/// What the header of a segment leads to.
pub open spec fn segment_read(
    k: Kernel,
    x: Exec,
    act: Act,
    old: Kernel,
    it: PhIter,
    read: Result<Vec<u8>, ()>,
) -> bool {
    if it.idx < it.elf.header.phnum && (read matches Ok(s) && s@.len() == 56) {
        let next = PhIter { idx: (it.idx + 1) as u16, ..it };
        exists|ph: Elf64Phdr| #[trigger]
            ph.is_at(read->Ok_0@) && if ph.kind == PT_LOAD {
                &&& k == old
                &&& x.stage == (Stage::Room { it: next, ph })
                &&& act matches Act::Frames(n) && 4096 * n == segment_region(ph).len
            } else {
                goes_on(k, x, act, old, next)
            }
    } else {
        finishes(k, x, act, old, it.elf)
    }
}

/// How a start stands once the header of the file has been read, or not.
pub open spec fn after_header(
    k: Kernel,
    x: Exec,
    act: Act,
    freed: Seq<Block>,
    old: Kernel,
    read: Result<Vec<u8>, ()>,
) -> bool {
    exists|k1: Kernel| #[trigger]
        is_advanced(k1, old, read) && header_read(k, x, act, freed, k1, read)
}

/// How a start stands once the header of a segment has been read, or not.
pub open spec fn after_segment(
    k: Kernel,
    x: Exec,
    act: Act,
    old: Kernel,
    it: PhIter,
    read: Result<Vec<u8>, ()>,
) -> bool {
    exists|k1: Kernel| #[trigger]
        is_advanced(k1, old, read) && segment_read(k, x, act, k1, it, read)
}

/// How a start stands once memory has been found for a segment.
pub open spec fn after_room(
    k: Kernel,
    x: Exec,
    act: Act,
    old: Kernel,
    it: PhIter,
    ph: Elf64Phdr,
    frames: Seq<u64>,
) -> bool {
    &&& is_placed(k, old, ph, frames)
    &&& x.stage == (Stage::Filling { it, ph })
    &&& act == Act::Fill(
        Segment { at: ph.vaddr, filesz: ph.filesz, zeros: (ph.memsz - ph.filesz) as u64 },
    )
}

/// How a start stands once a segment has got its contents.
pub open spec fn after_filled(
    k: Kernel,
    x: Exec,
    act: Act,
    old: Kernel,
    it: PhIter,
    ph: Elf64Phdr,
) -> bool {
    exists|k1: Kernel| #[trigger] is_sealed(k1, old, ph) && goes_on(k, x, act, k1, it)
}

/// How a start stands at some point, and what is to be done next.
pub struct Point {
    pub k: Kernel,
    pub x: Exec,
    pub act: Act,
}

/// What came of what was to be done.
pub enum Answer {
    /// The header of a segment was read, or could not be.
    Segment(Result<Vec<u8>, ()>),
    /// Memory was found for a segment.
    Frames(Seq<u64>),
    /// A segment got its contents.
    Filled,
}

/// Whether a start that stood at `q` stands at `p` after this answer.
pub open spec fn follows(p: Point, q: Point, a: Answer) -> bool {
    match a {
        Answer::Segment(read) => {
            &&& q.x.stage matches Stage::Next(it)
            &&& after_segment(p.k, p.x, p.act, q.k, it, read)
        },
        Answer::Frames(frames) => {
            &&& q.x.stage matches Stage::Room { it, ph }
            &&& after_room(p.k, p.x, p.act, q.k, it, ph, frames)
        },
        Answer::Filled => {
            &&& q.x.stage matches Stage::Filling { it, ph }
            &&& after_filled(p.k, p.x, p.act, q.k, it, ph)
        },
    }
}

/// Whether a start went through these points with these answers.
pub open spec fn is_course(ps: Seq<Point>, answers: Seq<Answer>) -> bool {
    &&& ps.len() == answers.len() + 1
    &&& forall|i: int|
        0 <= i < answers.len() ==> follows(ps[i + 1], ps[i], #[trigger] answers[i])
}

/// The segment header in these bytes.
pub open spec fn header_in(s: Seq<u8>) -> Elf64Phdr {
    choose|p: Elf64Phdr| #[trigger] p.is_at(s)
}

/// Whether these bytes are a whole segment header.
pub open spec fn is_whole_header(read: Result<Vec<u8>, ()>) -> bool {
    read matches Ok(s) && s@.len() == 56
}

/// The headers read once this answer has come.
pub open spec fn headers_with(phs: Seq<Elf64Phdr>, a: Answer) -> Seq<Elf64Phdr> {
    match a {
        Answer::Segment(read) => if is_whole_header(read) {
            phs.push(header_in(read->Ok_0@))
        } else {
            phs
        },
        _ => phs,
    }
}

/// The segment headers that were read, in order.
pub open spec fn headers(answers: Seq<Answer>) -> Seq<Elf64Phdr>
    decreases answers.len(),
{
    if answers.len() == 0 {
        Seq::empty()
    } else {
        headers_with(headers(answers.drop_last()), answers.last())
    }
}

/// The regions that these segments make up: one for each that goes into memory.
pub open spec fn load_regions(phs: Seq<Elf64Phdr>) -> Seq<Region>
    decreases phs.len(),
{
    if phs.len() == 0 {
        Seq::empty()
    } else {
        let init = load_regions(phs.drop_last());
        if phs.last().kind == PT_LOAD {
            init.push(segment_region(phs.last()))
        } else {
            init
        }
    }
}

/// Whether the memory of the current task is that of a program with these regions, and
/// nothing more.
pub open spec fn has_only(k: Kernel, rs: Seq<Region>) -> bool {
    &&& k.cur().program@ == rs
    &&& k.cur().brk.len == 0
    &&& k.cur().mmap.len == 0
}

/// What a start has done once it has read the headers `phs` of the program `elf`.
pub open spec fn has_loaded(p: Point, elf: Elf, phs: Seq<Elf64Phdr>) -> bool {
    match p.x.stage {
        Stage::Next(it) => {
            &&& it.elf == elf && it.idx == phs.len() && it.idx < elf.header.phnum
            &&& has_only(p.k, load_regions(phs))
        },
        Stage::Room { it, ph } => {
            &&& it.elf == elf && it.idx == phs.len() <= elf.header.phnum
            &&& phs.len() > 0 && ph == phs.last() && ph.kind == PT_LOAD
            &&& has_only(p.k, load_regions(phs.drop_last()))
        },
        Stage::Filling { it, ph } => {
            &&& it.elf == elf && it.idx == phs.len() <= elf.header.phnum
            &&& has_only(p.k, load_regions(phs))
        },
        _ => has_only(p.k, load_regions(phs)) && phs.len() <= elf.header.phnum,
    }
}

/// A header is the only one in its bytes.
proof fn lemma_header_in(p: Elf64Phdr, s: Seq<u8>)
    requires
        p.is_at(s),
    ensures
        header_in(s) == p,
{
    assert(header_in(s).is_at(s));
}

/// What the end of a start leaves in memory.
proof fn lemma_finishes(k: Kernel, x: Exec, act: Act, old: Kernel, elf: Elf, rs: Seq<Region>)
    requires
        old.serving(),
        finishes(k, x, act, old, elf),
        has_only(old, rs),
    ensures
        has_only(k, rs),
        x.stage is Closing || x.stage is Done,
{
}

/// What going on to the next segment leaves in memory.
proof fn lemma_goes_on(
    p: Point,
    old: Kernel,
    it: PhIter,
    phs: Seq<Elf64Phdr>,
)
    requires
        old.serving(),
        goes_on(p.k, p.x, p.act, old, it),
        it.idx == phs.len() <= it.elf.header.phnum,
        has_only(old, load_regions(phs)),
    ensures
        has_loaded(p, it.elf, phs),
        p.x.stage is Closing || p.x.stage is Done ==> phs.len() == it.elf.header.phnum,
{
    if it.idx >= it.elf.header.phnum {
        lemma_finishes(p.k, p.x, p.act, old, it.elf, load_regions(phs));
    }
}

/// One step of a start.
proof fn lemma_follows(p: Point, q: Point, a: Answer, elf: Elf, phs: Seq<Elf64Phdr>)
    requires
        q.k.serving(),
        follows(p, q, a),
        has_loaded(q, elf, phs),
    ensures
        p.k.serving(),
        has_loaded(p, elf, headers_with(phs, a)),
        p.x.stage is Closing || p.x.stage is Done ==> headers_with(phs, a).len()
            == elf.header.phnum || (a matches Answer::Segment(read) && !is_whole_header(read)),
{
    match a {
        Answer::Segment(read) => {
            let it = q.x.stage->Next_0;
            let k1 = choose|k1: Kernel| #[trigger]
                is_advanced(k1, q.k, read) && segment_read(p.k, p.x, p.act, k1, it, read);
            if is_whole_header(read) {
                let next = PhIter { idx: (it.idx + 1) as u16, ..it };
                let ph = choose|ph: Elf64Phdr| #[trigger]
                    ph.is_at(read->Ok_0@) && if ph.kind == PT_LOAD {
                        &&& p.k == k1
                        &&& p.x.stage == (Stage::Room { it: next, ph })
                        &&& p.act matches Act::Frames(n) && 4096 * n == segment_region(ph).len
                    } else {
                        goes_on(p.k, p.x, p.act, k1, next)
                    };
                lemma_header_in(ph, read->Ok_0@);
                let more = phs.push(ph);
                assert(more.drop_last() =~= phs);
                if ph.kind != PT_LOAD {
                    lemma_goes_on(p, k1, next, more);
                }
            } else {
                lemma_finishes(p.k, p.x, p.act, k1, elf, load_regions(phs));
            }
        },
        Answer::Frames(frames) => {},
        Answer::Filled => {
            let it = q.x.stage->Filling_it;
            let ph = q.x.stage->Filling_ph;
            let k1 = choose|k1: Kernel| #[trigger]
                is_sealed(k1, q.k, ph) && goes_on(p.k, p.x, p.act, k1, it);
            lemma_goes_on(p, k1, it, phs);
        },
    }
}

/// A program that has been started has in memory what its file says and nothing else: one
/// region for each header of a segment that is to be loaded, in the order of the headers,
/// and neither a heap nor mapped memory. All headers have been read by then, unless one
/// could not be.
pub proof fn law_started_program_has_its_segments(
    old: Kernel,
    read: Result<Vec<u8>, ()>,
    freed: Seq<Block>,
    ps: Seq<Point>,
    answers: Seq<Answer>,
) -> (elf: Elf)
    requires
        old.serving(),
        old.cur().loading is Some,
        is_runnable(read),
        is_course(ps, answers),
        after_header(ps[0].k, ps[0].x, ps[0].act, freed, old, read),
    ensures
        has_header(elf, read),
        ps.last().k.serving(),
        has_loaded(ps.last(), elf, headers(answers)),
        ps.last().x.stage is Closing || ps.last().x.stage is Done ==> {
            &&& has_only(ps.last().k, load_regions(headers(answers)))
            &&& headers(answers).len() == elf.header.phnum || (answers.len() > 0 && (
            answers.last() matches Answer::Segment(r) && !is_whole_header(r)))
        },
    decreases answers.len(),
{
    if answers.len() == 0 {
        let p = ps[0];
        let k1 = choose|k1: Kernel| #[trigger]
            is_advanced(k1, old, read) && header_read(p.k, p.x, p.act, freed, k1, read);
        let (mid, elf) = choose|mid: Kernel, elf: Elf|
            #![trigger is_cleared(mid, k1, freed), has_header(elf, read)]
            {
                &&& is_cleared(mid, k1, freed)
                &&& has_header(elf, read)
                &&& elf.file == k1.cur().loading->0
                &&& goes_on(p.k, p.x, p.act, mid, PhIter { elf, idx: 0 })
            };
        lemma_goes_on(p, mid, PhIter { elf, idx: 0 }, Seq::empty());
        elf
    } else {
        let n = answers.len() as int;
        let qs = ps.drop_last();
        let before = answers.drop_last();
        assert forall|i: int| 0 <= i < before.len() implies follows(
            qs[i + 1],
            qs[i],
            #[trigger] before[i],
        ) by {
            assert(before[i] == answers[i]);
        }
        let elf = law_started_program_has_its_segments(old, read, freed, qs, before);
        assert(follows(ps[n - 1 + 1], ps[n - 1], answers[n - 1]));
        lemma_follows(ps[n], ps[n - 1], answers[n - 1], elf, headers(before));
        elf
    }
}

/// A file that is no program for this machine leaves the process as it was: nothing is
/// freed, its memory, registers and descriptors stay, and the start fails.
pub proof fn law_refused_program_leaves_process(
    k: Kernel,
    x: Exec,
    act: Act,
    freed: Seq<Block>,
    old: Kernel,
    read: Result<Vec<u8>, ()>,
)
    requires
        old.serving(),
        old.cur().loading is Some,
        header_read(k, x, act, freed, old, read),
        !is_runnable(read),
    ensures
        freed.len() == 0,
        k.cur() == (Task { loading: None, ..old.cur() }),
        k.tasks@ == old.tasks@.update(old.at(), k.cur()),
        act == Act::Done(Err(Failed { stack: None })) || (act is Close && x.stage is Closing
            && x.stage->Closing_result == Err::<Entered, Failed>(Failed { stack: None })),
{
}

/// A program whose arguments and environment fit starts at the entry point that its
/// header names, on a stack with those strings, whatever the server answers when the
/// file is closed.
pub proof fn law_program_starts_at_entry(k: Kernel, x: Exec, act: Act, old: Kernel, elf: Elf)
    requires
        old.serving(),
        finishes(k, x, act, old, elf),
        stack_fits(kept(strings(x.argv@)), kept(strings(x.envp@))),
    ensures
        ({
            let args = kept(strings(x.argv@));
            let envs = kept(strings(x.envp@));
            let r = if act is Done {
                act->Done_0
            } else {
                x.stage->Closing_result
            };
            &&& act is Done || x.stage is Closing
            &&& k.cur().frame.pc == elf.header.entry
            &&& k.cur().frame.sp_el0 == 0x2_0000_0000 + stack_start(args, envs)
            &&& k.cur().frame.pstate == 0
            &&& is_start(
                k.cur().frame,
                elf.header.entry,
                (0x2_0000_0000int + stack_start(args, envs)) as u64,
            )
            &&& r matches Ok(e) && e.stack@ == stack_image(
                0x2_0000_0000,
                x.argv@.len() as int,
                args,
                envs,
            )
        }),
{
}

/// A program whose arguments and environment do not fit is not started. The registers
/// stay, and the stack is left with what there was room for.
pub proof fn law_overfull_stack_is_spoiled(k: Kernel, x: Exec, act: Act, old: Kernel, elf: Elf)
    requires
        old.serving(),
        finishes(k, x, act, old, elf),
        !stack_fits(kept(strings(x.argv@)), kept(strings(x.envp@))),
    ensures
        ({
            let r = if act is Done {
                act->Done_0
            } else {
                x.stage->Closing_result
            };
            &&& act is Done || x.stage is Closing
            &&& k.cur() == (Task { loading: None, ..old.cur() })
            &&& r matches Err(f) && f.stack matches Some(s) && s@ == spoiled_image(
                0x2_0000_0000,
                kept(strings(x.argv@)),
                kept(strings(x.envp@)),
            )
        }),
{
}

/// The handle of the file that the current task's program comes from.
fn fid_of(k: &Kernel) -> (fid: u32)
    requires
        k.serving(),
        k.cur().loading is Some,
    ensures
        fid == loading_fid(*k),
{
    let i: usize = k.cpu.task_idx.unwrap();
    let f: usize = k.tasks[i].loading.unwrap();
    assert(crate::books::task_sound(k.tasks@[i as int], k.fs.files@));
    match &k.fs.files[f].kind {
        FileKind::P9(fid) => *fid,
        _ => 0,
    }
}

/// Moves the position in the file of the program by what was read; returns the file's
/// slot.
fn moved_by(k: &mut Kernel, read: &Result<Vec<u8>, ()>) -> (f: usize)
    requires
        old(k).serving(),
        old(k).cur().loading is Some,
    ensures
        is_advanced(*final(k), *old(k), *read),
        f == old(k).cur().loading->0,
{
    let i: usize = k.cpu.task_idx.unwrap();
    let f: usize = k.tasks[i].loading.unwrap();
    assert(crate::books::task_sound(k.tasks@[i as int], k.fs.files@));
    if let Ok(s) = read {
        let to: u64 = k.fs.files[f].offt.wrapping_add(s.len() as u64);
        seek_file(k, to);
    }
    f
}

} // verus!

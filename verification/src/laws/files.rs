//! What becomes of open files and of the descriptors that name them.
use vstd::prelude::*;

use crate::desc::{close, close_done, dup3, dup3_done, file_closed, pipe2, CloseOut, Pipe2};
use crate::exit::close_next;
use crate::file::{AllStep, CloseStep, File, FileKind, FileStep, Send, SendStep, Stat, StatStep};
use crate::fs::{alloc_file, free_file, open, open_cons, open_pipe, opened, Fs, P9Ask, P9Request};
use crate::kernel::Kernel;
use crate::laws::{lemma_me, me, others_kept, reg};
use crate::pipe::{Pipe, PipeIo};
use crate::task::{State, Task, FD};

verus! {

/// Whether a pipe is as it was but for the numbers of its ends, which have changed by
/// these.
pub open spec fn ends_moved(p: Pipe, was: Pipe, r: int, w: int) -> bool {
    &&& p.readers == was.readers + r
    &&& p.writers == was.writers + w
    &&& p.rpos == was.rpos
    &&& p.wpos == was.wpos
    &&& p.empty == was.empty
    &&& p.full == was.full
    &&& p.nonblock == was.nonblock
    &&& p.buf@ == was.buf@
}

/// Whether a file is as it was but for the number of its uses, which have changed by
/// `n`, and by `r` and `w` those of the ends of a pipe.
pub open spec fn uses_moved(file: File, was: File, n: int, r: int, w: int) -> bool {
    &&& file.rc == was.rc + n
    &&& file.offt == was.offt
    &&& file.path == was.path
    &&& !(was.kind is Pipe) ==> file.kind == was.kind
    &&& was.kind is Pipe ==> file.kind is Pipe && ends_moved(
        *file.kind->Pipe_0,
        *was.kind->Pipe_0,
        r,
        w,
    )
}

/// One where it holds, and else zero.
pub open spec fn one(b: bool) -> int {
    if b {
        1
    } else {
        0
    }
}

/// A further use of a file is counted, and giving it up takes it back.
pub proof fn law_uses_are_counted(f: &mut File, g: &mut File, r: bool, s: CloseStep)
    requires
        old(f).rc < u16::MAX,
        call_ensures(File::dup, (f, r, !r), ()),
        *old(g) == *final(f),
        old(f).kind is Pipe ==> old(f).kind->Pipe_0.readers < usize::MAX
            && old(f).kind->Pipe_0.writers < usize::MAX,
        call_ensures(File::close, (g, r, !r), s),
    ensures
        uses_moved(*final(f), *old(f), 1, one(r), one(!r)),
        uses_moved(*final(g), *final(f), -1, -one(r), -one(!r)),
        uses_moved(*final(g), *old(f), 0, 0, 0),
        s is P9 <==> old(f).kind is P9 && old(f).rc == 0,
        s is P9 ==> s->P9_0 == old(f).kind->P9_0,
        s is Wake <==> old(f).kind is Pipe,
{
}

/// The last use of a file of the server is not given up before the server says so.
pub proof fn law_server_closes_last_use(f: &mut File, r: bool, w: bool, s: CloseStep)
    requires
        call_ensures(File::close, (f, r, w), s),
    ensures
        old(f).kind is P9 && old(f).rc == 1 ==> s == CloseStep::P9(old(f).kind->P9_0),
        old(f).kind is P9 && old(f).rc != 1 ==> s is Done,
        old(f).kind is Cons ==> s is Done,
        old(f).kind is Pipe ==> (s is Wake <==> old(f).rc > 0) && !(s is P9),
        final(f).rc == old(f).rc - one(old(f).rc > 0),
        final(f).offt == old(f).offt,
        final(f).path == old(f).path,
{
}

/// A file that the server has closed can be used anew; one that it could not close is
/// still in use.
pub proof fn law_server_has_closed(f: &mut File, ok: bool, r: Result<(), ()>)
    requires
        old(f).rc < u16::MAX,
        call_ensures(File::closed, (f, ok), r),
    ensures
        r is Ok <==> ok,
        ok ==> final(f).kind is Unused && final(f).path is None && final(f).rc == old(f).rc,
        !ok ==> uses_moved(*final(f), *old(f), 1, 0, 0) && final(f).kind == old(f).kind,
{
}

/// Reading and writing a file of the server start at its position and move it by the
/// bytes that were moved, so that the next transfer starts where this one ended.
pub proof fn law_transfers_follow_each_other(
    f: &mut File,
    buf: &[u8],
    s: FileStep,
    g: &mut File,
    r: Result<usize, ()>,
    n: Result<usize, ()>,
    h: &mut File,
    out: &mut Vec<u8>,
    want: usize,
    t: FileStep,
)
    requires
        old(f).kind is P9,
        old(f).rc > 0,
        call_ensures(File::write, (f, buf), s),
        *old(g) == *final(f),
        call_ensures(File::moved, (g, r), n),
        *old(h) == *final(g),
        call_ensures(File::read, (h, out, want), t),
    ensures
        s matches FileStep::P9 { fid, offset } && fid == old(f).kind->P9_0 && offset == old(f).offt,
        n == r,
        t matches FileStep::P9 { fid, offset } && {
            &&& fid == old(f).kind->P9_0
            &&& offset == match r {
                Ok(m) => (old(f).offt + m) % 0x1_0000_0000_0000_0000,
                Err(_) => old(f).offt as int,
            }
        },
        final(h).kind == old(f).kind,
        final(h).rc == old(f).rc,
        final(h).path == old(f).path,
        final(out)@ == old(out)@,
{
}

/// A file that nobody uses can be neither read nor written, and a console has no
/// position.
pub proof fn law_console_has_no_position(
    f: &mut File,
    buf: &[u8],
    s: FileStep,
    g: &mut File,
    r: Result<usize, ()>,
    n: Result<usize, ()>,
)
    requires
        old(f).kind is Cons,
        call_ensures(File::write, (f, buf), s),
        *old(g) == *final(f),
        call_ensures(File::moved, (g, r), n),
    ensures
        old(f).rc == 0 ==> s is Fail,
        old(f).rc > 0 ==> s == FileStep::Cons(old(f).kind->Cons_0),
        *final(g) == *old(f),
        n == r,
{
}

/// Where a position is set it is found, counted from the start, from where it is, or
/// back from the end; steps back from where it is go forward as far.
pub proof fn law_position_is_set(
    f: &mut File,
    offt: i64,
    whence: u64,
    reported: u64,
    r: Result<u64, ()>,
)
    requires
        call_ensures(File::lseek, (f, offt, whence, reported), r),
    ensures
        whence > 2 ==> r is Err && *final(f) == *old(f),
        whence <= 2 ==> r == Ok::<u64, ()>(final(f).offt) && *final(f) == (File {
            offt: final(f).offt,
            ..*old(f)
        }),
        whence == 0 && offt >= 0 ==> final(f).offt == offt,
        whence == 0 && offt < 0 ==> final(f).offt == offt + 0x1_0000_0000_0000_0000,
        whence == 1 && 0 <= offt < 0x8000_0000 ==> final(f).offt == (old(f).offt + offt)
            % 0x1_0000_0000_0000_0000,
        whence == 1 && -0x8000_0000 <= offt < 0 ==> final(f).offt == (old(f).offt - offt)
            % 0x1_0000_0000_0000_0000,
        whence == 1 ==> {
            let m = (offt as int) % 0x1_0000_0000;
            final(f).offt == (old(f).offt + if m < 0x8000_0000 {
                m
            } else {
                0x1_0000_0000 - m
            }) % 0x1_0000_0000_0000_0000
        },
        whence == 2 && (old(f).kind is P9 || old(f).kind is Cons) ==> final(f).offt == (reported
            - offt) % 0x1_0000_0000_0000_0000,
        whence == 2 && old(f).kind is Pipe ==> final(f).offt == (0 - offt)
            % 0x1_0000_0000_0000_0000,
{
}

/// A transfer of a whole buffer goes on with what is left, until nothing is.
pub proof fn law_whole_transfer_goes_on(
    len: usize,
    left: usize,
    n: usize,
    a: AllStep,
    r: AllStep,
    w: AllStep,
    e: AllStep,
    x: AllStep,
)
    requires
        n <= left,
        call_ensures(File::all_start, (len,), a),
        call_ensures(File::read_all, (left, Ok(n)), r),
        call_ensures(File::write_all, (left, Ok(n)), w),
        call_ensures(File::read_all, (left, Err(())), e),
        call_ensures(File::write_all, (left, Err(())), x),
    ensures
        len == 0 ==> a is Done,
        len > 0 ==> a == AllStep::More(len),
        n == left ==> r is Done && w is Done,
        0 < n < left ==> r == AllStep::More((left - n) as usize),
        n < left ==> w == AllStep::More((left - n) as usize),
        n == 0 ==> r is Done,
        e is Fail,
        x is Fail,
{
}

/// Copying reads a page at most at a time, writes what was read, and is finished when
/// all is copied or nothing is left to be read. Its result is what was copied.
pub proof fn law_copy_goes_on(
    n: usize,
    c: Send,
    s: Send,
    next: SendStep,
    m: usize,
    got: SendStep,
    end: SendStep,
    d: &mut Send,
    sent: SendStep,
    ok: bool,
)
    requires
        call_ensures(File::send, (n,), c),
        s.rem <= s.total,
        call_ensures(Send::next, (&s,), next),
        0 < m <= s.rem,
        call_ensures(Send::got, (&s, Ok(m)), got),
        call_ensures(Send::got, (&s, Ok(0)), end),
        *old(d) == s,
        call_ensures(Send::sent, (d, m, ok), sent),
    ensures
        c.total == n,
        c.rem == n,
        s.rem == 0 ==> next == SendStep::Done(s.total),
        0 < s.rem <= 4096 ==> next == SendStep::Read(s.rem),
        s.rem > 4096 ==> next == SendStep::Read(4096),
        got == SendStep::Write(m),
        end == SendStep::Done((s.total - s.rem) as usize),
        !ok ==> sent is Fail,
        ok ==> final(d).total == s.total && final(d).rem == s.rem - m,
        ok && m == s.rem ==> sent == SendStep::Done(s.total),
        ok && m < s.rem ==> sent == SendStep::Read(
            if s.rem - m <= 4096 {
                (s.rem - m) as usize
            } else {
                4096
            },
        ),
{
}

/// The slot for a file that is handed out is the first free one, and is not free then.
pub proof fn law_first_free_file_is_taken(fs: &mut Fs, r: Option<usize>)
    requires
        call_ensures(alloc_file, (fs,), r),
    ensures
        match r {
            Some(i) => {
                &&& i < old(fs).files@.len()
                &&& old(fs).files@[i as int].kind is Unused
                &&& final(fs).files@[i as int].kind is Used
                &&& forall|j: int|
                    0 <= j < i ==> !((#[trigger] old(fs).files@[j]).kind is Unused)
                &&& final(fs).files@.len() == old(fs).files@.len()
                &&& forall|j: int|
                    0 <= j < old(fs).files@.len() && j != i ==> #[trigger] final(fs).files@[j]
                        == old(fs).files@[j]
            },
            None => {
                &&& forall|j: int|
                    0 <= j < old(fs).files@.len() ==> !((#[trigger] old(fs).files@[j]).kind
                        is Unused)
                &&& *final(fs) == *old(fs)
            },
        },
{
}

/// A slot for a file that is given back is handed out again, unless one before it is
/// free.
pub proof fn law_freed_file_is_taken_again(
    fs: &mut Fs,
    idx: usize,
    gs: &mut Fs,
    r: Option<usize>,
)
    requires
        idx < old(fs).files@.len(),
        call_ensures(free_file, (fs, idx), ()),
        old(gs).files@ == final(fs).files@,
        call_ensures(alloc_file, (gs,), r),
    ensures
        final(fs).files@[idx as int].kind is Unused,
        final(fs).files@.len() == old(fs).files@.len(),
        forall|j: int|
            0 <= j < old(fs).files@.len() && j != idx ==> #[trigger] final(fs).files@[j] == old(
                fs,
            ).files@[j],
        r matches Some(i) && i <= idx,
{
}

/// A file that the server has opened is used once, from its start, and has its path.
pub proof fn law_opened_file_starts_at_zero(
    fs: &mut Fs,
    path: &str,
    flags: u32,
    mode: u32,
    idx: usize,
    ask: P9Request,
    gs: &mut Fs,
    fid: u32,
    r: Result<usize, ()>,
)
    requires
        call_ensures(open, (fs, path, flags, mode), Ok((idx, ask))),
        old(gs).files@ == final(fs).files@,
        call_ensures(opened, (gs, idx, path, Ok(fid)), r),
    ensures
        ask@ == (P9Ask::Open { path: path@, flags }),
        old(fs).files@[idx as int].kind is Unused,
        r == Ok::<usize, ()>(idx),
        ({
            let f = final(gs).files@[idx as int];
            &&& f.kind == FileKind::P9(fid)
            &&& f.rc == 1
            &&& f.offt == 0
            &&& f.path is Some && f.path->0@ == path@
        }),
        forall|j: int|
            0 <= j < old(fs).files@.len() && j != idx ==> #[trigger] final(gs).files@[j] == old(
                fs,
            ).files@[j],
{
}

/// A file that the server could not open takes no slot.
pub proof fn law_unopened_file_takes_no_slot(
    fs: &mut Fs,
    path: &str,
    flags: u32,
    mode: u32,
    idx: usize,
    ask: P9Request,
    gs: &mut Fs,
    r: Result<usize, ()>,
)
    requires
        call_ensures(open, (fs, path, flags, mode), Ok((idx, ask))),
        old(gs).files@ == final(fs).files@,
        call_ensures(opened, (gs, idx, path, Err(())), r),
    ensures
        r is Err,
        final(gs).files@ == old(fs).files@,
{
    assert(final(gs).files@ =~= old(fs).files@);
}

/// A new pipe is read by one descriptor and written by none yet; a new console file is
/// used once. Each takes the first free slot.
pub proof fn law_new_files_are_used_once(
    fs: &mut Fs,
    nonblock: bool,
    i: usize,
    gs: &mut Fs,
    cons: u32,
    j: usize,
)
    requires
        call_ensures(open_pipe, (fs, nonblock), Ok(i)),
        call_ensures(open_cons, (gs, cons), Ok(j)),
    ensures
        ({
            let f = final(fs).files@[i as int];
            &&& i < old(fs).files@.len()
            &&& old(fs).files@[i as int].kind is Unused
            &&& forall|x: int| 0 <= x < i ==> !((#[trigger] old(fs).files@[x]).kind is Unused)
            &&& f.rc == 1
            &&& f.offt == 0
            &&& f.path is None
            &&& f.kind is Pipe
            &&& f.kind->Pipe_0.readers == 1
            &&& f.kind->Pipe_0.writers == 0
            &&& f.kind->Pipe_0.empty && !f.kind->Pipe_0.full
            &&& f.kind->Pipe_0.rpos == f.kind->Pipe_0.wpos
            &&& f.kind->Pipe_0.nonblock == nonblock
            &&& forall|x: int|
                0 <= x < old(fs).files@.len() && x != i ==> #[trigger] final(fs).files@[x] == old(
                    fs,
                ).files@[x]
        }),
        ({
            let f = final(gs).files@[j as int];
            &&& j < old(gs).files@.len()
            &&& old(gs).files@[j as int].kind is Unused
            &&& forall|x: int| 0 <= x < j ==> !((#[trigger] old(gs).files@[x]).kind is Unused)
            &&& f.rc == 1
            &&& f.kind == FileKind::Cons(cons)
            &&& forall|x: int|
                0 <= x < old(gs).files@.len() && x != j ==> #[trigger] final(gs).files@[x] == old(
                    gs,
                ).files@[x]
        }),
{
}

/// A descriptor number that is handed out is the lowest free one.
pub proof fn law_lowest_descriptor_is_taken(t: &mut Task, d: FD, r: Option<usize>, f: Option<usize>)
    requires
        call_ensures(Task::free_fd, (&*old(t),), f),
        call_ensures(Task::alloc_file, (t, d), r),
    ensures
        f == r,
        match r {
            Some(i) => {
                &&& i < 8
                &&& old(t).files@[i as int] is None
                &&& forall|j: int| 0 <= j < i ==> (#[trigger] old(t).files@[j]) is Some
                &&& final(t).files@[i as int] == Some(d)
                &&& forall|j: int|
                    0 <= j < 8 && j != i ==> #[trigger] final(t).files@[j] == old(t).files@[j]
                &&& *final(t) == (Task { files: final(t).files, ..*old(t) })
            },
            None => {
                &&& forall|j: int| 0 <= j < 8 ==> (#[trigger] old(t).files@[j]) is Some
                &&& *final(t) == *old(t)
            },
        },
{
    if f is Some && r is Some {
        if f->0 < r->0 {
            assert(old(t).files@[f->0 as int] is Some);
        }
        if r->0 < f->0 {
            assert(old(t).files@[r->0 as int] is Some);
        }
    } else if f is Some {
        assert(old(t).files@[f->0 as int] is Some);
    } else if r is Some {
        assert(old(t).files@[r->0 as int] is Some);
    }
}

/// The tasks after both ends of a pipe have been woken: whoever slept on one is ready.
pub open spec fn both_woken(ts: Seq<Task>, was: Seq<Task>, f: int, at: int) -> bool {
    forall|i: int|
        0 <= i < 8 && i != at ==> (#[trigger] ts[i]) == (Task {
            state: if was[i].state is Sleeping && (was[i].chan == Some((8 + 2 * f) as u64)
                || was[i].chan == Some((9 + 2 * f) as u64)) {
                State::Ready
            } else {
                was[i].state
            },
            ..was[i]
        })
}

/// Closing a descriptor frees its number, takes a use from its file, and wakes whoever
/// sleeps on a pipe. Where it was the last use of a file of the server, the server closes
/// it first.
pub proof fn law_close_gives_up_descriptor(k: &mut Kernel, r: CloseOut)
    requires
        old(k).calling(),
        call_ensures(close, (k,), r),
    ensures
        ({
            let fd = reg(*old(k), 0);
            let (t, t0) = (me(*final(k)), me(*old(k)));
            if fd >= 8 || t0.files@[fd as int] is None {
                r == CloseOut::Done(0xffff_ffff_ffff_ffff) && *final(k) == *old(k)
            } else {
                let d = t0.files@[fd as int]->0;
                let f = d.file as int;
                let (file, was) = (final(k).fs.files@[f], old(k).fs.files@[f]);
                &&& was.rc > 0 ==> uses_moved(file, was, -1, -one(d.read), -one(!d.read))
                &&& forall|g: int|
                    0 <= g < 128 && g != f ==> #[trigger] final(k).fs.files@[g]
                        == old(k).fs.files@[g]
                &&& final(k).cpu == old(k).cpu
                &&& if was.kind is P9 && was.rc == 1 {
                    &&& r == (CloseOut::P9 { file: d.file, fid: was.kind->P9_0 })
                    &&& t == t0
                    &&& others_kept(*final(k), *old(k))
                } else {
                    &&& r == CloseOut::Done(0)
                    &&& t.files@[fd as int] is None
                    &&& forall|j: int|
                        0 <= j < 8 && j != fd ==> #[trigger] t.files@[j] == t0.files@[j]
                    &&& t == (Task { files: t.files, ..t0 })
                    &&& was.kind is Pipe && was.rc > 0 ==> both_woken(
                        final(k).tasks@,
                        old(k).tasks@,
                        f,
                        old(k).cpu.task_idx->0 as int,
                    )
                    &&& !(was.kind is Pipe) ==> others_kept(*final(k), *old(k))
                }
            }
        }),
{
    lemma_me(*old(k));
    let fd = reg(*old(k), 0);
    let t0 = me(*old(k));
    if fd < 8 && t0.files@[fd as int] is Some {
        lemma_pipe_use(*old(k), fd as int);
    }
}

/// A use of a pipe is counted by the pipe.
proof fn lemma_pipe_use(k: Kernel, j: int)
    requires
        k.serving(),
        me(k).closed <= j < 8,
        me(k).files@[j] is Some,
    ensures
        ({
            let d = me(k).files@[j]->0;
            let file = k.fs.files@[d.file as int];
            &&& d.file < 128
            &&& file.kind is P9 || file.kind is Cons || file.kind is Pipe
            &&& file.kind is Pipe ==> file.rc > 0 && d.read != d.write
            &&& file.kind is Pipe && d.read ==> file.kind->Pipe_0.readers > 0
            &&& file.kind is Pipe && d.write ==> file.kind->Pipe_0.writers > 0
        }),
{
    lemma_me(k);
    crate::books::lemma_fd_used(k.tasks@, k.fs.files@, k.at(), j);
}

/// When the server has closed the file of a descriptor, the number is free and so is the
/// slot of the file. Where it could not, the descriptor uses the file as before.
pub proof fn law_close_waits_for_the_server(
    k: &mut Kernel,
    file: usize,
    fid: u32,
    l: &mut Kernel,
    ok: bool,
    r: u64,
)
    requires
        old(k).calling(),
        call_ensures(close, (k,), CloseOut::P9 { file, fid }),
        *old(l) == *final(k),
        call_ensures(close_done, (l, ok), r),
    ensures
        ({
            let fd = reg(*old(k), 0) as int;
            let (t, t0) = (me(*final(l)), me(*old(k)));
            let (f, was) = (final(l).fs.files@[file as int], old(k).fs.files@[file as int]);
            &&& 0 <= fd < 8
            &&& t0.files@[fd] is Some && t0.files@[fd]->0.file == file
            &&& was.kind == FileKind::P9(fid)
            &&& others_kept(*final(l), *old(k))
            &&& final(l).cpu == old(k).cpu
            &&& forall|g: int|
                0 <= g < 128 && g != file ==> #[trigger] final(l).fs.files@[g]
                    == old(k).fs.files@[g]
            &&& if ok {
                &&& r == 0
                &&& t.files@[fd] is None
                &&& forall|j: int| 0 <= j < 8 && j != fd ==> #[trigger] t.files@[j] == t0.files@[j]
                &&& t == (Task { files: t.files, ..t0 })
                &&& f.kind is Unused
                &&& f.path is None
                &&& f.rc == 0
            } else {
                &&& r == 0xffff_ffff_ffff_ffff
                &&& t == t0
                &&& f == was
            }
        }),
{
    lemma_me(*old(k));
    let fd = reg(*old(k), 0);
    if fd < 8 && me(*old(k)).files@[fd as int] is Some {
        lemma_pipe_use(*old(k), fd as int);
    }
}

/// A file that no task uses is free when the server has closed it, and else counts a use
/// again.
pub proof fn law_unused_file_is_closed(k: &mut Kernel, f: usize, ok: bool, r: Result<(), ()>)
    requires
        old(k).serving(),
        f < 128,
        call_ensures(file_closed, (k, f, ok), r),
    ensures
        r is Ok <==> ok,
        ok ==> final(k).fs.files@[f as int].kind is Unused && final(k).fs.files@[f as int].path
            is None,
        !ok ==> final(k).fs.files@[f as int] == (File { rc: 1, ..old(k).fs.files@[f as int] }),
        forall|g: int|
            0 <= g < 128 && g != f ==> #[trigger] final(k).fs.files@[g] == old(k).fs.files@[g],
        final(k).tasks == old(k).tasks,
        final(k).cpu == old(k).cpu,
{
    lemma_me(*old(k));
}

/// A descriptor that is copied to another number names the same file under both, with
/// the same ends. The file that the other number named is given up.
pub proof fn law_descriptor_is_copied(k: &mut Kernel, r: CloseOut)
    requires
        old(k).calling(),
        reg(*old(k), 0) < 8,
        reg(*old(k), 1) < 8,
        reg(*old(k), 0) != reg(*old(k), 1),
        me(*old(k)).files@[reg(*old(k), 0) as int] is Some,
        call_ensures(dup3, (k,), r),
    ensures
        ({
            let (from, to) = (reg(*old(k), 0) as int, reg(*old(k), 1) as int);
            let (t, t0) = (me(*final(k)), me(*old(k)));
            let d = t0.files@[from]->0;
            let f = d.file as int;
            let (file, was) = (final(k).fs.files@[f], old(k).fs.files@[f]);
            let at = old(k).cpu.task_idx->0 as int;
            &&& t.files@[to] == Some(d)
            &&& forall|j: int| 0 <= j < 8 && j != to ==> #[trigger] t.files@[j] == t0.files@[j]
            &&& t == (Task { files: t.files, ..t0 })
            &&& final(k).cpu == old(k).cpu
            &&& match t0.files@[to] {
                None => {
                    &&& r == CloseOut::Done(reg(*old(k), 1))
                    &&& uses_moved(file, was, 1, one(d.read), one(!d.read))
                    &&& others_kept(*final(k), *old(k))
                    &&& forall|g: int|
                        0 <= g < 128 && g != f ==> #[trigger] final(k).fs.files@[g]
                            == old(k).fs.files@[g]
                },
                Some(x) => {
                    let g = x.file as int;
                    let (other, other_was) = (final(k).fs.files@[g], old(k).fs.files@[g]);
                    &&& forall|h: int|
                        0 <= h < 128 && h != f && h != g ==> #[trigger] final(k).fs.files@[h]
                            == old(k).fs.files@[h]
                    &&& f == g ==> {
                        &&& uses_moved(
                            file,
                            was,
                            0,
                            one(d.read) - one(x.read),
                            one(!d.read) - one(!x.read),
                        )
                        &&& r == CloseOut::Done(reg(*old(k), 1))
                    }
                    &&& f != g ==> {
                        &&& uses_moved(file, was, 1, one(d.read), one(!d.read))
                        &&& other_was.rc > 0 ==> uses_moved(
                            other,
                            other_was,
                            -1,
                            -one(x.read),
                            -one(!x.read),
                        )
                        &&& r == if other_was.kind is P9 && other_was.rc == 1 {
                            CloseOut::P9 { file: x.file, fid: other_was.kind->P9_0 }
                        } else {
                            CloseOut::Done(reg(*old(k), 1))
                        }
                    }
                    &&& other_was.kind is Pipe ==> both_woken(
                        final(k).tasks@,
                        old(k).tasks@,
                        g,
                        at,
                    )
                    &&& !(other_was.kind is Pipe) ==> others_kept(*final(k), *old(k))
                },
            }
        }),
{
    lemma_me(*old(k));
    lemma_pipe_use(*old(k), reg(*old(k), 0) as int);
    if me(*old(k)).files@[reg(*old(k), 1) as int] is Some {
        lemma_pipe_use(*old(k), reg(*old(k), 1) as int);
    }
    crate::books::lemma_fd_used(
        old(k).tasks@,
        old(k).fs.files@,
        old(k).at(),
        reg(*old(k), 0) as int,
    );
}

/// A number that names nothing cannot be copied, and copying a number to itself changes
/// nothing.
pub proof fn law_copy_to_itself_changes_nothing(k: &mut Kernel, r: CloseOut)
    requires
        old(k).calling(),
        reg(*old(k), 0) < 8,
        call_ensures(dup3, (k,), r),
    ensures
        me(*old(k)).files@[reg(*old(k), 0) as int] is None ==> r == CloseOut::Done(
            0xffff_ffff_ffff_ffff,
        ) && *final(k) == *old(k),
        me(*old(k)).files@[reg(*old(k), 0) as int] is Some && reg(*old(k), 0) == reg(*old(k), 1)
            ==> r == CloseOut::Done(reg(*old(k), 0)) && *final(k) == *old(k),
{
    lemma_me(*old(k));
}

/// When the server has closed the file that a copy replaced, the slot of the file is
/// free, and the result is the number that was copied to.
pub proof fn law_replaced_file_is_freed(k: &mut Kernel, file: usize, n: u64)
    requires
        old(k).calling(),
        file < 128,
        call_ensures(dup3_done, (k, file), n),
    ensures
        n == reg(*old(k), 1),
        final(k).fs.files@[file as int].kind is Unused,
        final(k).fs.files@[file as int].path is None,
        forall|g: int|
            0 <= g < 128 && g != file ==> #[trigger] final(k).fs.files@[g] == old(k).fs.files@[g],
        final(k).tasks == old(k).tasks,
        final(k).cpu == old(k).cpu,
{
    lemma_me(*old(k));
}

/// A pipe is made under the two lowest free numbers, of which the lower one reads and
/// the other one writes.
pub proof fn law_pipe_has_two_descriptors(k: &mut Kernel, r: Pipe2)
    requires
        old(k).calling(),
        exists|f: int| 0 <= f < 128 && (#[trigger] old(k).fs.files@[f]).kind is Unused,
        call_ensures(pipe2, (k,), r),
    ensures
        r.ret == 0,
        r.fds matches Some((a, b)) && {
            let (t, t0) = (me(*final(k)), me(*old(k)));
            let f = t.files@[a as int]->0.file;
            let file = final(k).fs.files@[f as int];
            &&& 0 <= a < b < 8
            &&& t0.files@[a as int] is None && t0.files@[b as int] is None
            &&& forall|j: int| 0 <= j < b && j != a ==> (#[trigger] t0.files@[j]) is Some
            &&& t.files@[a as int] == Some(FD { file: f, read: true, write: false })
            &&& t.files@[b as int] == Some(FD { file: f, read: false, write: true })
            &&& forall|j: int|
                0 <= j < 8 && j != a && j != b ==> #[trigger] t.files@[j] == t0.files@[j]
            &&& t == (Task { files: t.files, ..t0 })
            &&& f < 128
            &&& old(k).fs.files@[f as int].kind is Unused
            &&& file.rc == 2
            &&& file.kind is Pipe
            &&& file.kind->Pipe_0.readers == 1
            &&& file.kind->Pipe_0.writers == 1
            &&& file.kind->Pipe_0.empty && !file.kind->Pipe_0.full
            &&& file.kind->Pipe_0.rpos == file.kind->Pipe_0.wpos
            &&& file.kind->Pipe_0.nonblock == (reg(*old(k), 1) & 0x800 != 0)
            &&& forall|g: int|
                0 <= g < 128 && g != f ==> #[trigger] final(k).fs.files@[g] == old(k).fs.files@[g]
            &&& others_kept(*final(k), *old(k))
            &&& final(k).cpu == old(k).cpu
        },
{
    lemma_me(*old(k));
}

/// Where no file can be had, no pipe is made.
pub proof fn law_no_file_no_pipe(k: &mut Kernel, r: Pipe2)
    requires
        old(k).calling(),
        forall|f: int| 0 <= f < 128 ==> !((#[trigger] old(k).fs.files@[f]).kind is Unused),
        call_ensures(pipe2, (k,), r),
    ensures
        r.ret == 0xffff_ffff_ffff_ffff,
        r.fds is None,
        *final(k) == *old(k),
{
    lemma_me(*old(k));
}

/// A process that ends gives up its descriptors one after the other, each as closing it
/// does.
pub proof fn law_ending_process_closes_next(k: &mut Kernel, r: CloseOut)
    requires
        old(k).serving(),
        me(*old(k)).closed < 8,
        call_ensures(close_next, (k,), r),
    ensures
        ({
            let (t, t0) = (me(*final(k)), me(*old(k)));
            let at = old(k).cpu.task_idx->0 as int;
            &&& t.closed == t0.closed + 1
            &&& t == (Task { closed: t.closed, ..t0 })
            &&& final(k).cpu == old(k).cpu
            &&& match t0.files@[t0.closed as int] {
                None => {
                    &&& r == CloseOut::Done(0)
                    &&& final(k).fs == old(k).fs
                    &&& others_kept(*final(k), *old(k))
                },
                Some(d) => {
                    let f = d.file as int;
                    let (file, was) = (final(k).fs.files@[f], old(k).fs.files@[f]);
                    &&& was.rc > 0 ==> uses_moved(file, was, -1, -one(d.read), -one(!d.read))
                    &&& forall|g: int|
                        0 <= g < 128 && g != f ==> #[trigger] final(k).fs.files@[g]
                            == old(k).fs.files@[g]
                    &&& r == if was.kind is P9 && was.rc == 1 {
                        CloseOut::P9 { file: d.file, fid: was.kind->P9_0 }
                    } else {
                        CloseOut::Done(0)
                    }
                    &&& was.kind is Pipe ==> both_woken(final(k).tasks@, old(k).tasks@, f, at)
                    &&& !(was.kind is Pipe) ==> others_kept(*final(k), *old(k))
                },
            }
        }),
{
    lemma_me(*old(k));
    let t0 = me(*old(k));
    if t0.files@[t0.closed as int] is Some {
        lemma_pipe_use(*old(k), t0.closed as int);
    }
}

/// A task's own way to copy a descriptor counts one more use of its file, and its own
/// way to close one takes one.
pub proof fn law_task_copies_and_closes(
    t: &mut Task,
    fs: &mut Fs,
    idx: usize,
    d: FD,
    gs: &mut Fs,
    r: Option<(usize, CloseStep)>,
)
    requires
        idx < 8,
        old(t).files@[idx as int] is Some,
        old(t).files@[idx as int]->0.file < old(fs).files@.len(),
        old(fs).files@[old(t).files@[idx as int]->0.file as int].rc < u16::MAX,
        !(old(fs).files@[old(t).files@[idx as int]->0.file as int].kind is Pipe),
        call_ensures(Task::dup_file, (&*old(t), fs, idx), d),
        old(gs).files@ == final(fs).files@,
        call_ensures(Task::close_file, (t, gs, idx), r),
    ensures
        d == old(t).files@[idx as int]->0,
        ({
            let f = d.file as int;
            &&& uses_moved(final(fs).files@[f], old(fs).files@[f], 1, 0, 0)
            &&& uses_moved(final(gs).files@[f], old(fs).files@[f], 0, 0, 0)
            &&& r matches Some(x) && x.0 == d.file
            &&& final(t).files@[idx as int] is None
            &&& forall|j: int|
                0 <= j < 8 && j != idx ==> #[trigger] final(t).files@[j] == old(t).files@[j]
            &&& forall|g: int|
                0 <= g < old(fs).files@.len() && g != f ==> #[trigger] final(gs).files@[g] == old(
                    fs,
                ).files@[g]
        }),
{
}

/// A number is looked up in the table of descriptors.
pub proof fn law_descriptor_is_looked_up(t: &Task, idx: usize, r: Option<FD>)
    requires
        call_ensures(Task::get_file, (t, idx), r),
    ensures
        idx < 8 ==> r == t.files@[idx as int],
        idx > 8 ==> r is None,
{
}

/// A file that has never been used is free.
pub proof fn law_new_file_is_free(f: File)
    requires
        call_ensures(File::zeroed, (), f),
    ensures
        f.kind is Unused,
        f.rc == 0,
        f.offt == 0,
        f.path is None,
{
}

/// A position is set, or moved by a step whose sign does not count.
pub proof fn law_position_moves(f: &mut File, at: u64, g: &mut File, by: i32)
    requires
        call_ensures(File::seek_to, (f, at), ()),
        call_ensures(File::seek_by, (g, by), ()),
    ensures
        final(f).offt == at,
        *final(f) == (File { offt: at, ..*old(f) }),
        by >= 0 ==> final(g).offt == (old(g).offt + by) % 0x1_0000_0000_0000_0000,
        by < 0 ==> final(g).offt == (old(g).offt - by) % 0x1_0000_0000_0000_0000,
        *final(g) == (File { offt: final(g).offt, ..*old(g) }),
{
}

/// What the device says of the size of a file is its size; a pipe has none.
pub proof fn law_device_knows_the_size(f: &File, reported: u64, n: u64)
    requires
        call_ensures(File::get_size, (f, reported), n),
    ensures
        f.kind is P9 || f.kind is Cons ==> n == reported,
        f.kind is Pipe ==> n == 0,
{
}

/// The device knows the state of its files; the state of a pipe is that of a pipe.
pub proof fn law_state_of_a_file(
    f: &File,
    st: &mut Stat,
    s: StatStep,
    p: Pipe,
    sp: &mut Stat,
    r: Result<(), ()>,
)
    requires
        call_ensures(File::fstat, (f, st), s),
        call_ensures(Pipe::stat, (&p, sp), r),
    ensures
        f.kind is P9 ==> s == StatStep::P9(f.kind->P9_0) && *final(st) == *old(st),
        f.kind is Cons ==> s == StatStep::Cons(f.kind->Cons_0) && *final(st) == *old(st),
        f.kind is Pipe ==> {
            &&& s is Done
            &&& final(st).st_mode == 0x1000
            &&& final(st).st_nlink == 1
            &&& final(st).st_size == 0
            &&& final(st).st_ino == 0
        },
        r is Ok,
        final(sp).st_mode == 0x1000,
        final(sp).st_nlink == 1,
        final(sp).st_size == 0,
        final(sp).st_ino == 0,
        *final(sp) == (Stat {
            st_mode: final(sp).st_mode,
            st_nlink: final(sp).st_nlink,
            st_size: final(sp).st_size,
            st_ino: final(sp).st_ino,
            ..*old(sp)
        }),
{
}

/// A directory is listed from its position on, and then stands where the server says.
pub proof fn law_listing_moves_the_position(
    f: &mut File,
    at: (u32, u64),
    r: Result<(usize, u64), ()>,
    n: Result<usize, ()>,
)
    requires
        old(f).kind is P9,
        call_ensures(File::getdents64, (&*old(f),), at),
        call_ensures(File::listed, (f, r), n),
    ensures
        at.0 == old(f).kind->P9_0,
        at.1 == old(f).offt,
        r matches Ok((len, to)) ==> n == Ok::<usize, ()>(len) && *final(f) == (File {
            offt: to,
            ..*old(f)
        }),
        r is Err ==> n is Err && *final(f) == *old(f),
{
}

/// A file of the server can always be read, a console when something has come, and both
/// can be written. Only a console is waited for.
pub proof fn law_readiness_of_a_file(
    f: &File,
    ready: bool,
    r: bool,
    w: bool,
    ok: bool,
    h: bool,
    c: Option<u32>,
    p: bool,
)
    requires
        f.kind is P9 || f.kind is Cons,
        call_ensures(File::readable, (f, ready), r),
        call_ensures(File::writeable, (f,), w),
        call_ensures(File::is_ok, (f,), ok),
        call_ensures(File::hanged_up, (f,), h),
        call_ensures(File::wait4readable, (f,), c),
        call_ensures(File::is_pipe, (f,), p),
    ensures
        r == (f.kind is P9 || ready),
        w,
        ok,
        !h,
        !p,
        f.kind is P9 ==> c is None,
        f.kind is Cons ==> c == Some(f.kind->Cons_0),
{
}

/// A file that is free, or only taken yet, is not ready for anything.
pub proof fn law_free_file_is_not_ready(f: &File, ready: bool, r: bool, w: bool, ok: bool)
    requires
        f.kind is Unused || f.kind is Used,
        call_ensures(File::readable, (f, ready), r),
        call_ensures(File::writeable, (f,), w),
        call_ensures(File::is_ok, (f,), ok),
    ensures
        !r,
        !w,
        !ok,
{
}

/// A pipe behind a file is read and written as the pipe itself is, and the file keeps
/// all else.
pub proof fn law_file_passes_on_to_pipe(
    f: &mut File,
    out: &mut Vec<u8>,
    want: usize,
    s: FileStep,
    p: &mut Pipe,
    out2: &mut Vec<u8>,
    io: PipeIo,
    g: &mut File,
    buf: &[u8],
    t: FileStep,
    q: &mut Pipe,
    io2: PipeIo,
    h: &mut File,
    out3: &mut Vec<u8>,
    u: FileStep,
    z: &mut Pipe,
    out4: &mut Vec<u8>,
    io3: PipeIo,
)
    requires
        old(f).kind is Pipe,
        old(f).rc > 0,
        *old(g) == *old(f),
        *old(h) == *old(f),
        *old(p) == *old(f).kind->Pipe_0,
        *old(q) == *old(f).kind->Pipe_0,
        *old(z) == *old(f).kind->Pipe_0,
        old(out2)@ == old(out)@,
        old(out3)@ == old(out)@,
        old(out4)@ == old(out)@,
        call_ensures(File::read, (f, out, want), s),
        call_ensures(Pipe::read, (p, out2, want), io),
        call_ensures(File::write, (g, buf), t),
        call_ensures(Pipe::write, (q, buf), io2),
        call_ensures(File::read_woken, (h, out3, want), u),
        call_ensures(Pipe::read_woken, (z, out4, want), io3),
    ensures
        s == FileStep::Pipe(io),
        final(out)@ == final(out2)@,
        final(f).kind is Pipe && final(f).kind->Pipe_0@ == final(p)@,
        final(f).rc == old(f).rc && final(f).offt == old(f).offt && final(f).path == old(f).path,
        t == FileStep::Pipe(io2),
        final(g).kind is Pipe && final(g).kind->Pipe_0@ == final(q)@,
        final(g).rc == old(f).rc && final(g).offt == old(f).offt && final(g).path == old(f).path,
        u == FileStep::Pipe(io3),
        final(out3)@ == final(out4)@,
        final(h).kind is Pipe && final(h).kind->Pipe_0@ == final(z)@,
        final(h).rc == old(f).rc && final(h).offt == old(f).offt && final(h).path == old(f).path,
{
}

/// The stretches of a pipe's ring that can be written and read lie between its two
/// positions, and are at most two.
pub proof fn law_ring_is_divided(
    p: &Pipe,
    r: usize,
    w: usize,
    ws: (Option<(usize, usize)>, Option<(usize, usize)>),
    rs: (Option<(usize, usize)>, Option<(usize, usize)>),
)
    requires
        call_ensures(Pipe::get_r_pos, (p,), r),
        call_ensures(Pipe::get_w_pos, (p,), w),
        call_ensures(Pipe::get_write_space, (p,), ws),
        call_ensures(Pipe::get_read_space, (p,), rs),
    ensures
        r == p.rpos % 4096,
        w == p.wpos % 4096,
        p.full ==> ws.0 is None && ws.1 is None,
        !p.full && w >= r ==> ws.0 == Some((w, 4096usize)) && ws.1 == Some((0usize, r)),
        !p.full && w < r ==> ws.0 == Some((w, r)) && ws.1 is None,
        p.empty ==> rs.0 is None && rs.1 is None,
        !p.empty && r >= w ==> rs.0 == Some((r, 4096usize)) && rs.1 == Some((0usize, w)),
        !p.empty && r < w ==> rs.0 == Some((r, w)) && rs.1 is None,
{
}

/// A file cannot be opened where no slot is free, and only then.
pub proof fn law_no_slot_no_file(
    fs: &mut Fs,
    path: &str,
    flags: u32,
    mode: u32,
    r: Result<(usize, P9Request), ()>,
    gs: &mut Fs,
    nonblock: bool,
    p: Result<usize, ()>,
    hs: &mut Fs,
    cons: u32,
    c: Result<usize, ()>,
)
    requires
        *old(gs) == *old(fs),
        *old(hs) == *old(fs),
        call_ensures(open, (fs, path, flags, mode), r),
        call_ensures(open_pipe, (gs, nonblock), p),
        call_ensures(open_cons, (hs, cons), c),
    ensures
        ({
            let none = forall|j: int|
                0 <= j < old(fs).files@.len() ==> !((#[trigger] old(fs).files@[j]).kind is Unused);
            &&& r is Err <==> none
            &&& p is Err <==> none
            &&& c is Err <==> none
        }),
        r is Err ==> *final(fs) == *old(fs),
        p is Err ==> *final(gs) == *old(gs),
        c is Err ==> *final(hs) == *old(hs),
        r matches Ok((i, ask)) ==> {
            &&& old(fs).files@[i as int].kind is Unused
            &&& final(fs).files@[i as int].kind is Used
            &&& forall|j: int| 0 <= j < i ==> !((#[trigger] old(fs).files@[j]).kind is Unused)
        },
{
}

/// A copied descriptor of a pipe counts as one more use of the end that it is for.
pub proof fn law_task_copies_pipe_end(t: &Task, fs: &mut Fs, idx: usize, d: FD)
    requires
        idx < 8,
        t.files@[idx as int] is Some,
        t.files@[idx as int]->0.file < old(fs).files@.len(),
        ({
            let file = old(fs).files@[t.files@[idx as int]->0.file as int];
            &&& file.rc < u16::MAX
            &&& file.kind is Pipe
            &&& file.kind->Pipe_0.readers < usize::MAX
            &&& file.kind->Pipe_0.writers < usize::MAX
        }),
        call_ensures(Task::dup_file, (t, fs, idx), d),
    ensures
        d == t.files@[idx as int]->0,
        uses_moved(
            final(fs).files@[d.file as int],
            old(fs).files@[d.file as int],
            1,
            one(d.read),
            one(!d.read),
        ),
        forall|g: int|
            0 <= g < old(fs).files@.len() && g != d.file ==> #[trigger] final(fs).files@[g] == old(
                fs,
            ).files@[g],
{
}

} // verus!

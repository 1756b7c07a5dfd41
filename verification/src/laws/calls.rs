//! What the system calls ask of the server and the consoles, and what they answer.
use vstd::prelude::*;
use vstd::utf8::{decode_utf8_encode_utf8, encode_utf8, encode_utf8_decode_utf8, valid_utf8};

use crate::calls::{answered, chdir, chdir_done, faccessat, getcwd, getrandom, linkat, mkdirat};
use crate::calls::{newfsstatat, openat, openat_done, readlinkat, readlinkat_done, renameat};
use crate::calls::{exists_path, fcntl, fstat, link, mkdir, readlink, readlink_done, remove, rename};
use crate::calls::{symlink, symlinkat, truncate, umask, unlinkat, utimensat};
use crate::calls::{Getcwd, LinkStep, OpenStep, ReadlinkStep, Step};
use crate::file::{File, FileKind, Stat};
use crate::fs::P9Request;
use crate::ident::{getpid, getppid, gettid, rseq, settid, uname, OldUtsname};
use crate::io::{ftruncate, getdents64, getdents64_done, io_done, io_ret, ioctl, lseek};
use crate::io::{newfstat, newfstat_done, sendfile64, sendfile64_done, sys_read, sys_write};
use crate::io::{sys_writev, writev_next};
use crate::io::{FstatStep, Io, Ioctl, SendFile, Writev, WritevStep};
use crate::kernel::Kernel;
use crate::laws::pipes::{asks_for, only_pipe, pipe_at};
use crate::laws::{lemma_me, me, others_kept, reg, rest_kept};
use crate::load::launched;
use crate::mm::{mprotect, munmap};
use crate::path::{at_path, cpystr, text, text_of};
use crate::poll::{check_events, consoles, events, polled_all, ppoll, Checked, PollStep, Pollfd};
use crate::task::{Task, FD};

verus! {

/// A path that starts at the root means itself.
pub proof fn law_path_from_root_means_itself(
    k: &Kernel,
    fd: u64,
    path: String,
    r: Result<String, ()>,
)
    requires
        path@.len() > 0,
        path@[0] == '/',
        call_ensures(at_path, (k, fd, path), r),
    ensures
        r is Ok,
        r->Ok_0@ == path@,
{
}

/// Whether a path leads from a directory: there is one slash between the two, the
/// directory's own where it ends with one.
pub open spec fn leads_from(whole: Seq<char>, dir: Seq<char>, path: Seq<char>) -> bool {
    let n = if dir.len() > 0 && dir[dir.len() - 1] == '/' {
        dir.len()
    } else {
        dir.len() + 1
    };
    &&& whole.len() == n + path.len()
    &&& forall|i: int| 0 <= i < dir.len() ==> #[trigger] whole[i] == dir[i]
    &&& whole[n - 1] == '/'
    &&& forall|i: int| 0 <= i < path.len() ==> whole[n + i] == #[trigger] path[i]
}

/// Any other path leads from the directory that the descriptor names: the current one,
/// or that of an open file that has a path.
pub proof fn law_path_leads_from_directory(
    k: &Kernel,
    fd: u64,
    path: String,
    r: Result<String, ()>,
)
    requires
        k.calling(),
        path@.len() == 0 || path@[0] != '/',
        fd == 0xffff_ffff_ffff_ff9c ==> me(*k).cwd is Some,
        call_ensures(at_path, (k, fd, path), r),
    ensures
        fd == 0xffff_ffff_ffff_ff9c ==> r is Ok && leads_from(r->Ok_0@, me(*k).cwd->0@, path@),
        fd < 8 && me(*k).files@[fd as int] is Some ==> {
            let p = k.fs.files@[me(*k).files@[fd as int]->0.file as int].path;
            &&& r is Ok <==> p is Some
            &&& p is Some ==> leads_from(r->Ok_0@, p->0@, path@)
        },
        fd < 8 && me(*k).files@[fd as int] is None ==> r is Err,
        8 <= fd && fd != 0xffff_ffff_ffff_ff9c ==> r is Err,
{
    lemma_me(*k);
}

/// The bytes of a path are its text.
proof fn lemma_text(path: Seq<u8>, s: Seq<char>)
    requires
        encode_utf8(s) == path,
    ensures
        valid_utf8(path),
        text_of(path) == s,
{
    encode_utf8_decode_utf8(s);
    vstd::utf8::encode_utf8_valid_utf8(s);
}

/// A call on a path asks the server for what the path means: to remove it, to make a
/// directory there, whether it is there, or what is known of it.
pub proof fn law_server_is_asked_for_the_path(
    k: &Kernel,
    path: &[u8],
    s: String,
    p: String,
    rm: Step,
    mk: Step,
    ut: Step,
    fa: Step,
    st: Step,
)
    requires
        k.calling(),
        encode_utf8(s@) == path@,
        call_ensures(at_path, (k, reg(*k, 0), s), Ok(p)),
        call_ensures(unlinkat, (k, path), rm),
        call_ensures(mkdirat, (k, path), mk),
        call_ensures(utimensat, (k, path), ut),
        call_ensures(faccessat, (k, path), fa),
        call_ensures(newfsstatat, (k, path), st),
    ensures
        rm matches Step::Ask { req: P9Request::Remove { path: q }, fail } && q@ == p@ && fail
            == 0xffff_ffff_ffff_fffe,
        mk matches Step::Ask { req: P9Request::Mkdir { path: q, mode }, fail } && q@ == p@ && mode
            == reg(*k, 2) % 0x1_0000_0000 && fail == 0xffff_ffff_ffff_ffff,
        ut matches Step::Ask { req: P9Request::Exists { path: q }, fail } && q@ == p@ && fail
            == 0xffff_ffff_ffff_fffe,
        fa matches Step::Ask { req: P9Request::Exists { path: q }, fail } && q@ == p@ && fail
            == 0xffff_ffff_ffff_fffe,
        st matches Step::Ask { req: P9Request::Stat { path: q, follow }, fail } && q@ == p@
            && follow == (((reg(*k, 3) % 0x1_0000_0000) as u32) & 0x100 == 0) && fail
            == 0xffff_ffff_ffff_fffe,
{
    lemma_me(*k);
    lemma_text(path@, s@);
}

/// A call on a path that means nothing is told that there is no such file.
pub proof fn law_path_without_meaning_is_refused(
    k: &Kernel,
    path: &[u8],
    s: String,
    rm: Step,
    mk: Step,
    ut: Step,
    fa: Step,
    st: Step,
)
    requires
        k.calling(),
        encode_utf8(s@) == path@,
        call_ensures(at_path, (k, reg(*k, 0), s), Err(())),
        call_ensures(unlinkat, (k, path), rm),
        call_ensures(mkdirat, (k, path), mk),
        call_ensures(utimensat, (k, path), ut),
        call_ensures(faccessat, (k, path), fa),
        call_ensures(newfsstatat, (k, path), st),
    ensures
        rm matches Step::Done(n) && n == 0xffff_ffff_ffff_fffe,
        mk matches Step::Done(n) && n == 0xffff_ffff_ffff_fffe,
        ut matches Step::Done(n) && n == 0xffff_ffff_ffff_fffe,
        fa matches Step::Done(n) && n == 0xffff_ffff_ffff_fffe,
        st matches Step::Done(n) && n == 0xffff_ffff_ffff_fffe,
{
    lemma_me(*k);
    lemma_text(path@, s@);
}

/// A call on two paths asks the server for what both mean: the new name last.
pub proof fn law_server_is_asked_for_both_paths(
    k: &Kernel,
    from: &[u8],
    to: &[u8],
    s: String,
    t: String,
    p: String,
    q: String,
    mv: Step,
    ln: Step,
)
    requires
        k.calling(),
        encode_utf8(s@) == from@,
        encode_utf8(t@) == to@,
        call_ensures(at_path, (k, reg(*k, 0), s), Ok(p)),
        call_ensures(at_path, (k, reg(*k, 2), t), Ok(q)),
        call_ensures(renameat, (k, from, to), mv),
        call_ensures(linkat, (k, from, to), ln),
    ensures
        mv matches Step::Ask { req: P9Request::Rename { from: a, to: b }, fail } && a@ == p@ && b@
            == q@ && fail == 0xffff_ffff_ffff_fffe,
        ln matches Step::Ask { req: P9Request::Link { from: a, to: b, follow }, fail } && a@ == p@
            && b@ == q@ && follow == (reg(*k, 4) & 0x400 != 0) && fail == 0xffff_ffff_ffff_fffe,
{
    lemma_me(*k);
    lemma_text(from@, s@);
    lemma_text(to@, t@);
}

/// A link is made under what the second path means, and holds the first one as it is.
pub proof fn law_link_holds_its_name(
    k: &Kernel,
    name: &[u8],
    path: &[u8],
    s: String,
    t: String,
    p: String,
    ln: Step,
)
    requires
        k.calling(),
        encode_utf8(s@) == name@,
        encode_utf8(t@) == path@,
        call_ensures(at_path, (k, reg(*k, 1), t), Ok(p)),
        call_ensures(symlinkat, (k, name, path), ln),
    ensures
        ln matches Step::Ask { req: P9Request::Symlink { name: a, path: b }, fail } && a@ == s@
            && b@ == p@ && fail == 0xffff_ffff_ffff_ffff,
{
    lemma_me(*k);
    lemma_text(name@, s@);
    lemma_text(path@, t@);
}

/// A call that asked the server answers 0 where the server could, and else what the
/// call fails with.
pub proof fn law_server_answers(fail: u64, ok: u64, bad: u64)
    requires
        call_ensures(answered, (fail, true), ok),
        call_ensures(answered, (fail, false), bad),
    ensures
        ok == 0,
        bad == fail,
{
}

/// A directory that a process goes to, where it is there, is the one that it is told it
/// is in, with a zero byte behind it where there is room.
pub proof fn law_directory_is_told(
    k: &mut Kernel,
    path: &[u8],
    n: u64,
    l: &Kernel,
    r: Getcwd,
)
    requires
        old(k).calling(),
        valid_utf8(path@),
        call_ensures(chdir_done, (k, path, true), n),
        l.calling(),
        me(*l).cwd == me(*final(k)).cwd,
        call_ensures(getcwd, (l,), r),
    ensures
        n == 0,
        me(*final(k)) == (Task { cwd: me(*final(k)).cwd, ..me(*old(k)) }),
        rest_kept(*final(k), *old(k)),
        reg(*l, 1) > path@.len() ==> r.ret == 0 && r.bytes@ == path@.push(0),
        reg(*l, 1) <= path@.len() ==> r.ret == 0xffff_ffff_ffff_ffb2 && r.bytes@ == path@,
{
    lemma_me(*old(k));
    lemma_me(*l);
    decode_utf8_encode_utf8(path@);
}

/// A process asks whether a directory is there before it goes to it, and stays where it
/// is where it is not.
pub proof fn law_missing_directory_is_not_entered(
    k: &mut Kernel,
    path: &[u8],
    s: Step,
    n: u64,
)
    requires
        old(k).calling(),
        valid_utf8(path@),
        call_ensures(chdir, (&*old(k), path), s),
        call_ensures(chdir_done, (k, path, false), n),
    ensures
        s matches Step::Ask { req: P9Request::Exists { path: q }, fail } && encode_utf8(q@) == path@
            && fail == 0xffff_ffff_ffff_fffe,
        n == 0xffff_ffff_ffff_fffe,
        *final(k) == *old(k),
{
    decode_utf8_encode_utf8(path@);
}

/// A mask that is set is told when the next one is set.
pub proof fn law_mask_is_told(k: &mut Kernel, n: u64, l: &mut Kernel, m: u64)
    requires
        old(k).calling(),
        call_ensures(umask, (k,), n),
        old(l).calling(),
        me(*old(l)).umask == me(*final(k)).umask,
        call_ensures(umask, (l,), m),
    ensures
        n == me(*old(k)).umask,
        m == reg(*old(k), 0) % 0x1_0000_0000,
        me(*final(k)) == (Task { umask: me(*final(k)).umask, ..me(*old(k)) }),
        rest_kept(*final(k), *old(k)),
{
    lemma_me(*old(k));
    lemma_me(*old(l));
}

/// A file is opened under the lowest free number, in the first free slot, by the path
/// that is meant.
pub proof fn law_file_is_opened(
    k: &mut Kernel,
    path: &[u8],
    s: String,
    p: String,
    o: OpenStep,
)
    requires
        old(k).calling(),
        reg(*old(k), 1) != 0,
        encode_utf8(s@) == path@,
        call_ensures(at_path, (&*old(k), reg(*old(k), 0), s), Ok(p)),
        exists|j: int| 0 <= j < 8 && (#[trigger] me(*old(k)).files@[j]) is None,
        exists|f: int| 0 <= f < 128 && (#[trigger] old(k).fs.files@[f]).kind is Unused,
        call_ensures(openat, (k, path), o),
    ensures
        o matches OpenStep::Ask { req, fd, file } && {
            &&& req matches P9Request::Open { path: q, flags } && q@ == p@ && flags == reg(
                *old(k),
                2,
            ) % 0x1_0000_0000
            &&& fd < 8
            &&& me(*old(k)).files@[fd as int] is None
            &&& forall|j: int| 0 <= j < fd ==> (#[trigger] me(*old(k)).files@[j]) is Some
            &&& file < 128
            &&& old(k).fs.files@[file as int].kind is Unused
            &&& final(k).fs.files@[file as int].kind is Used
            &&& forall|f: int| 0 <= f < file ==> !((#[trigger] old(k).fs.files@[f]).kind is Unused)
            &&& forall|f: int|
                0 <= f < 128 && f != file ==> #[trigger] final(k).fs.files@[f]
                    == old(k).fs.files@[f]
        },
        final(k).tasks == old(k).tasks,
        final(k).cpu == old(k).cpu,
{
    lemma_me(*old(k));
    lemma_text(path@, s@);
}

/// A file cannot be opened without a path, or where there is no free number or no free
/// slot; a path that means nothing is told to be missing. Nothing changes then.
pub proof fn law_open_is_refused(
    k: &mut Kernel,
    path: &[u8],
    s: String,
    p: Result<String, ()>,
    o: OpenStep,
)
    requires
        old(k).calling(),
        encode_utf8(s@) == path@,
        call_ensures(at_path, (&*old(k), reg(*old(k), 0), s), p),
        call_ensures(openat, (k, path), o),
    ensures
        reg(*old(k), 1) == 0 ==> o == OpenStep::Done(0xffff_ffff_ffff_ffff),
        reg(*old(k), 1) != 0 && p is Err ==> o == OpenStep::Done(0xffff_ffff_ffff_fffe),
        reg(*old(k), 1) != 0 && p is Ok && (forall|j: int|
            0 <= j < 8 ==> (#[trigger] me(*old(k)).files@[j]) is Some)
            ==> o == OpenStep::Done(0xffff_ffff_ffff_ffff),
        reg(*old(k), 1) != 0 && p is Ok && (forall|f: int|
            0 <= f < 128 ==> !((#[trigger] old(k).fs.files@[f]).kind is Unused))
            ==> o == OpenStep::Done(0xffff_ffff_ffff_ffff),
        o is Done ==> *final(k) == *old(k),
{
    lemma_me(*old(k));
    lemma_text(path@, s@);
}

/// When the server has opened a file, the number names it, to be read and written, from
/// its start. Where it could not, the number stays free and so does the slot.
pub proof fn law_opened_file_has_its_number(
    k: &mut Kernel,
    path: &str,
    fd: usize,
    file: usize,
    reply: Result<u32, ()>,
    n: u64,
)
    requires
        old(k).calling(),
        fd < 8,
        file < 128,
        call_ensures(openat_done, (k, path, fd, file, reply), n),
    ensures
        ({
            let (t, t0) = (me(*final(k)), me(*old(k)));
            let f = final(k).fs.files@[file as int];
            match reply {
                Ok(fid) => {
                    &&& n == fd
                    &&& t.files@[fd as int] == Some(FD { file, read: true, write: true })
                    &&& forall|j: int|
                        0 <= j < 8 && j != fd ==> #[trigger] t.files@[j] == t0.files@[j]
                    &&& t == (Task { files: t.files, ..t0 })
                    &&& f.kind == FileKind::P9(fid)
                    &&& f.rc == 1
                    &&& f.offt == 0
                    &&& f.path is Some && f.path->0@ == path@
                },
                Err(_) => {
                    &&& n == 0xffff_ffff_ffff_ffff
                    &&& t == t0
                    &&& f.kind is Unused
                },
            }
        }),
        others_kept(*final(k), *old(k)),
        forall|g: int|
            0 <= g < 128 && g != file ==> #[trigger] final(k).fs.files@[g] == old(k).fs.files@[g],
        final(k).cpu == old(k).cpu,
{
    lemma_me(*old(k));
}

/// The terminal's link holds the terminal's name; what another link holds the server is
/// asked, and what it answers goes to the start of the buffer.
pub proof fn law_link_is_read(
    k: &Kernel,
    path: &[u8],
    s: String,
    p: String,
    buf: &mut [u8],
    r: ReadlinkStep,
    buf2: &mut [u8],
    held: String,
    n: u64,
)
    requires
        k.calling(),
        encode_utf8(s@) == path@,
        call_ensures(at_path, (k, reg(*k, 0), s), Ok(p)),
        call_ensures(readlinkat, (k, path, buf), r),
        encode_utf8(held@).len() <= old(buf2)@.len(),
        call_ensures(readlinkat_done, (buf2, Ok(held)), n),
    ensures
        p@ == "/proc/self/fd/0"@ ==> {
            let tty = encode_utf8("/dev/tty"@);
            &&& r matches ReadlinkStep::Done(m) && m == tty.len()
            &&& final(buf)@ == tty + old(buf)@.skip(tty.len() as int)
        },
        p@ != "/proc/self/fd/0"@ ==> {
            &&& r matches ReadlinkStep::Ask(req) && req matches P9Request::Readlink { path: q }
                && q@ == p@
            &&& final(buf)@ == old(buf)@
        },
        n == encode_utf8(held@).len(),
        final(buf2)@.len() == old(buf2)@.len(),
        forall|i: int| 0 <= i < n ==> #[trigger] final(buf2)@[i] == encode_utf8(held@)[i],
        forall|i: int| n <= i < old(buf2)@.len() ==> #[trigger] final(buf2)@[i] == old(buf2)@[i],
{
    lemma_me(*k);
    lemma_text(path@, s@);
}

/// A call that reads or writes a file of the server or a console hands the transfer to
/// the device: to the server from the file's position on. Nothing changes until the
/// device has answered. A file that is about to be closed can be neither read nor written.
pub proof fn law_device_is_handed_the_transfer(
    k: &mut Kernel,
    out: &mut Vec<u8>,
    r: Io,
    l: &mut Kernel,
    buf: &[u8],
    w: Io,
    f: usize,
)
    requires
        old(k).calling(),
        *old(l) == *old(k),
        asks_for(*old(k), f),
        !(old(k).fs.files@[f as int].kind is Pipe),
        call_ensures(sys_read, (k, out), r),
        call_ensures(sys_write, (l, buf), w),
    ensures
        r == w,
        ({
            let file = old(k).fs.files@[f as int];
            &&& file.rc == 0 ==> r == Io::Done(Err::<usize, ()>(()))
            &&& file.kind is P9 && file.rc > 0 ==> r == (Io::P9 {
                file: f,
                fid: file.kind->P9_0,
                offset: file.offt,
            })
            &&& file.kind is Cons && file.rc > 0 ==> r == (Io::Cons {
                file: f,
                cons: file.kind->Cons_0,
            })
        }),
        final(k).tasks == old(k).tasks,
        final(k).fs.files@ == old(k).fs.files@,
        final(k).cpu == old(k).cpu,
        final(l).tasks == old(l).tasks,
        final(l).fs.files@ == old(l).fs.files@,
        final(out)@ == old(out)@,
{
    lemma_me(*old(k));
    crate::books::lemma_fd_used(
        old(k).tasks@,
        old(k).fs.files@,
        old(k).at(),
        reg(*old(k), 0) as int,
    );
}

/// A call that names no open file, or has no buffer, fails and changes nothing.
pub proof fn law_transfer_without_file_fails(
    k: &mut Kernel,
    out: &mut Vec<u8>,
    r: Io,
    l: &mut Kernel,
    buf: &[u8],
    w: Io,
    v: Result<Writev, u64>,
    d: Result<(usize, u32, u64), u64>,
)
    requires
        old(k).calling(),
        *old(l) == *old(k),
        reg(*old(k), 0) >= 8 || reg(*old(k), 1) == 0 || me(*old(k)).files@[reg(
            *old(k),
            0,
        ) as int] is None,
        call_ensures(sys_read, (k, out), r),
        call_ensures(sys_write, (l, buf), w),
        call_ensures(sys_writev, (&*old(k),), v),
        call_ensures(getdents64, (&*old(k),), d),
    ensures
        r == Io::Done(Err::<usize, ()>(())),
        w == Io::Done(Err::<usize, ()>(())),
        v == Err::<Writev, u64>(0xffff_ffff_ffff_ffff),
        d == Err::<(usize, u32, u64), u64>(0xffff_ffff_ffff_ffff),
        *final(k) == *old(k),
        *final(l) == *old(l),
        final(out)@ == old(out)@,
{
    lemma_me(*old(k));
}

/// What a device has moved is the result of the call, and moves the position of a file
/// of the server by as much.
pub proof fn law_device_moves_the_position(k: &mut Kernel, f: usize, r: Result<usize, ()>, n: u64)
    requires
        old(k).calling(),
        f < 128,
        call_ensures(io_done, (k, f, r), n),
    ensures
        ({
            let (file, was) = (final(k).fs.files@[f as int], old(k).fs.files@[f as int]);
            &&& n == match r {
                Ok(m) => m as u64,
                Err(_) => 0xffff_ffff_ffff_ffff,
            }
            &&& r is Ok && was.kind is P9 ==> file.offt == (was.offt + r->Ok_0)
                % 0x1_0000_0000_0000_0000
            &&& r is Err || !(was.kind is P9) ==> file.offt == was.offt
            &&& file == (File { offt: file.offt, ..was })
        }),
        forall|g: int|
            0 <= g < 128 && g != f ==> #[trigger] final(k).fs.files@[g] == old(k).fs.files@[g],
        final(k).tasks == old(k).tasks,
        final(k).cpu == old(k).cpu,
{
    lemma_me(*old(k));
}

/// A call that writes several buffers writes the next one where its last write was
/// finished, counts what was written, and ends with the count; it ends at once where a
/// write fails.
pub proof fn law_buffers_are_written_in_turn(
    w: &mut Writev,
    r: Result<usize, ()>,
    done: Option<u64>,
)
    requires
        old(w).next < usize::MAX,
        r matches Ok(n) ==> old(w).written + n <= u64::MAX,
        call_ensures(Writev::wrote, (w, r), done),
    ensures
        final(w).file == old(w).file,
        r matches Ok(n) ==> done is None && final(w).next == old(w).next + 1 && final(w).written
            == old(w).written + n,
        r is Err ==> done == Some(0xffff_ffff_ffff_ffffu64) && *final(w) == *old(w),
{
}

/// The next buffer is written as a call that writes it alone does; where there is none
/// left, the call is finished.
pub proof fn law_next_buffer_is_written(
    k: &mut Kernel,
    w: Writev,
    bufs: &[Vec<u8>],
    r: WritevStep,
    l: &mut Kernel,
    buf: &[u8],
    io: Io,
)
    requires
        old(k).calling(),
        *old(l) == *old(k),
        w.file < 128,
        call_ensures(writev_next, (k, &w, bufs), r),
        w.next < bufs@.len() ==> buf@ == bufs@[w.next as int]@,
        call_ensures(crate::io::write_file, (l, w.file, buf), io),
    ensures
        w.next >= bufs@.len() ==> r == WritevStep::Done(w.written) && *final(k) == *old(k),
        w.next < bufs@.len() ==> {
            &&& old(k).fs.files@[w.file as int].kind is Pipe || old(k).fs.files@[w.file as int].kind
                is P9 || old(k).fs.files@[w.file as int].kind is Cons ==> r == WritevStep::Io(io)
            &&& final(k).tasks@ == final(l).tasks@
            &&& final(k).cpu == final(l).cpu
            &&& old(k).fs.files@[w.file as int].kind is Pipe ==> only_pipe(
                *final(k),
                *old(k),
                w.file,
                pipe_at(*final(l), w.file),
            )
        },
{
    lemma_me(*old(k));
}

/// A call that lists a directory starts at its position, which is then the one that the
/// server says.
pub proof fn law_directory_is_listed(
    k: &mut Kernel,
    f: usize,
    d: Result<(usize, u32, u64), u64>,
    r: Result<(usize, u64), ()>,
    n: u64,
)
    requires
        old(k).calling(),
        asks_for(*old(k), f),
        old(k).fs.files@[f as int].kind is P9,
        call_ensures(getdents64, (&*old(k),), d),
        call_ensures(getdents64_done, (k, f, r), n),
    ensures
        ({
            let was = old(k).fs.files@[f as int];
            &&& d == Ok::<(usize, u32, u64), u64>((f, was.kind->P9_0, was.offt))
            &&& match r {
                Ok((len, at)) => n == len && final(k).fs.files@[f as int] == (File {
                    offt: at,
                    ..was
                }),
                Err(_) => n == 0xffff_ffff_ffff_ffff && final(k).fs.files@[f as int] == was,
            }
        }),
        forall|g: int|
            0 <= g < 128 && g != f ==> #[trigger] final(k).fs.files@[g] == old(k).fs.files@[g],
        final(k).tasks == old(k).tasks,
{
    lemma_me(*old(k));
}

/// A call that sets a position does so for the file of the descriptor, and its result is
/// the position. A number that names nothing, or another way to count, is refused.
pub proof fn law_position_is_set_by_call(k: &mut Kernel, reported: u64, n: u64)
    requires
        old(k).calling(),
        reg(*old(k), 0) < 8,
        call_ensures(lseek, (k, reported), n),
    ensures
        ({
            let d = me(*old(k)).files@[reg(*old(k), 0) as int];
            let (offt, whence) = (reg(*old(k), 1), reg(*old(k), 2));
            &&& d is None ==> n == 0xffff_ffff_ffff_fffe && *final(k) == *old(k)
            &&& d is Some ==> {
                let f = d->0.file as int;
                let (file, was) = (final(k).fs.files@[f], old(k).fs.files@[f]);
                &&& whence > 2 ==> n == 0xffff_ffff_ffff_ffe3 && file == was
                &&& whence <= 2 ==> file.offt == n && file == (File { offt: n, ..was })
                &&& whence == 0 ==> n == offt
                &&& whence == 1 && offt < 0x8000_0000 ==> n == (was.offt + offt)
                    % 0x1_0000_0000_0000_0000
                &&& whence == 2 && (was.kind is P9 || was.kind is Cons) ==> n == (reported - offt)
                    % 0x1_0000_0000_0000_0000
                &&& forall|g: int|
                    0 <= g < 128 && g != f ==> #[trigger] final(k).fs.files@[g]
                        == old(k).fs.files@[g]
            }
        }),
        final(k).tasks == old(k).tasks,
        final(k).cpu == old(k).cpu,
{
    lemma_me(*old(k));
    if me(*old(k)).files@[reg(*old(k), 0) as int] is Some {
        crate::books::lemma_fd_used(
            old(k).tasks@,
            old(k).fs.files@,
            old(k).at(),
            reg(*old(k), 0) as int,
        );
    }
}

/// A file is cut by its path, to the size asked for; what has no path cannot be cut.
pub proof fn law_file_is_cut_by_its_path(k: &Kernel, s: Step)
    requires
        k.calling(),
        reg(*k, 0) < 8,
        call_ensures(ftruncate, (k,), s),
    ensures
        ({
            let d = me(*k).files@[reg(*k, 0) as int];
            if d is Some && k.fs.files@[d->0.file as int].path is Some {
                s matches Step::Ask { req: P9Request::Truncate { path: q, size }, fail } && q@
                    == k.fs.files@[d->0.file as int].path->0@ && size == reg(*k, 1) && fail
                    == 0xffff_ffff_ffff_ffff
            } else {
                s matches Step::Done(n) && n == 0xffff_ffff_ffff_ffff
            }
        }),
{
    lemma_me(*k);
}

/// Of a file of the server or a console the device knows the state; a pipe has the state
/// of a pipe.
pub proof fn law_file_state_is_told(k: &Kernel, stat: &mut Stat, s: FstatStep)
    requires
        k.calling(),
        reg(*k, 0) < 8,
        call_ensures(newfstat, (k, stat), s),
    ensures
        ({
            let d = me(*k).files@[reg(*k, 0) as int];
            let kind = k.fs.files@[d->0.file as int].kind;
            &&& d is None ==> s == FstatStep::Done(0xffff_ffff_ffff_ffff)
            &&& d is Some && kind is P9 ==> s == FstatStep::P9(kind->P9_0)
            &&& d is Some && kind is Cons ==> s == FstatStep::Cons(kind->Cons_0)
            &&& d is None || kind is P9 || kind is Cons ==> *final(stat) == *old(stat)
            &&& d is Some && kind is Pipe ==> {
                &&& s == FstatStep::Done(0)
                &&& final(stat).st_mode == 0x1000
                &&& final(stat).st_nlink == 1
                &&& final(stat).st_size == 0
                &&& final(stat).st_ino == 0
                &&& *final(stat) == (Stat {
                    st_mode: 0x1000,
                    st_nlink: 1,
                    st_size: 0,
                    st_ino: 0,
                    ..*old(stat)
                })
            }
        }),
{
    lemma_me(*k);
}

/// A copy between two files is from the file of the second register to that of the
/// first, of as many bytes as asked for, and starts where the program says, if it does.
/// The program is then told the position, if it said one.
pub proof fn law_copy_is_between_descriptors(
    k: &mut Kernel,
    at: u64,
    r: Result<SendFile, u64>,
    l: &Kernel,
    s: SendFile,
    sent: Result<usize, ()>,
    out: (u64, Option<u64>),
)
    requires
        old(k).calling(),
        reg(*old(k), 1) < 8,
        reg(*old(k), 0) < 8,
        reg(*old(k), 3) <= usize::MAX,
        call_ensures(sendfile64, (k, at), r),
        l.calling(),
        s.from < 128,
        call_ensures(sendfile64_done, (l, &s, sent), out),
    ensures
        ({
            let i = me(*old(k)).files@[reg(*old(k), 1) as int];
            let o = me(*old(k)).files@[reg(*old(k), 0) as int];
            if i is None || o is None {
                r == Err::<SendFile, u64>(0xffff_ffff_ffff_ffff) && *final(k) == *old(k)
            } else {
                let f = i->0.file as int;
                &&& r matches Ok(c) && {
                    &&& c.from == f
                    &&& c.to == o->0.file
                    &&& c.send.total == reg(*old(k), 3)
                    &&& c.send.rem == reg(*old(k), 3)
                }
                &&& final(k).fs.files@[f] == if reg(*old(k), 2) != 0 {
                    File { offt: at, ..old(k).fs.files@[f] }
                } else {
                    old(k).fs.files@[f]
                }
                &&& forall|g: int|
                    0 <= g < 128 && g != f ==> #[trigger] final(k).fs.files@[g]
                        == old(k).fs.files@[g]
            }
        }),
        final(k).tasks == old(k).tasks,
        out.0 == match sent {
            Ok(n) => n as u64,
            Err(_) => 0xffff_ffff_ffff_ffff,
        },
        out.1 == if sent is Ok && reg(*l, 2) != 0 {
            Some(l.fs.files@[s.from as int].offt)
        } else {
            None
        },
{
    lemma_me(*old(k));
    lemma_me(*l);
    if me(*old(k)).files@[reg(*old(k), 1) as int] is Some {
        crate::books::lemma_fd_used(
            old(k).tasks@,
            old(k).fs.files@,
            old(k).at(),
            reg(*old(k), 1) as int,
        );
    }
}

/// What the terminal is asked for.
pub proof fn law_terminal_is_asked(k: &Kernel, r: Ioctl)
    requires
        k.calling(),
        call_ensures(ioctl, (k,), r),
    ensures
        reg(*k, 1) == 0x5401 ==> r == Ioctl::GetTermios(reg(*k, 2)),
        reg(*k, 1) == 0x5402 ==> r == Ioctl::SetTermios(reg(*k, 2)),
        reg(*k, 1) == 0x5413 ==> r == Ioctl::GetWinsize(reg(*k, 2)),
        reg(*k, 1) == 0x540f ==> r == (Ioctl::PutPid { at: reg(*k, 2), pid: me(*k).pid as u32 }),
        reg(*k, 1) == 0x5410 ==> r == Ioctl::Done(0),
{
    lemma_me(*k);
}

/// A process is told its own number as that of its thread, and its parent's; one without
/// a parent is told its own.
pub proof fn law_process_numbers_are_told(k: &Kernel, p: u64, q: u64, t: u64, s: u64)
    requires
        k.calling(),
        call_ensures(getpid, (k,), p),
        call_ensures(getppid, (k,), q),
        call_ensures(gettid, (k,), t),
        call_ensures(settid, (k,), s),
    ensures
        p == me(*k).pid,
        t == p,
        s == p,
        me(*k).parent is None ==> q == p,
        me(*k).parent is Some ==> q == k.tasks@[me(*k).parent->0 as int].pid,
{
    lemma_me(*k);
}

/// The name of the system is a question mark, and behind it stand the names of the node,
/// the release, the version and the machine, each with a zero byte.
pub proof fn law_system_has_its_name(u: &mut OldUtsname, n: u64)
    requires
        call_ensures(uname, (u,), n),
    ensures
        n == 0,
        final(u).name@[0] == 0x3f && final(u).name@[1] == 0,
        final(u).name@.subrange(7, 13) == seq![0x6cu8, 0x6fu8, 0x63u8, 0x61u8, 0x6cu8, 0u8],
        final(u).name@.subrange(13, 19) == seq![0x30u8, 0x2eu8, 0x30u8, 0x2eu8, 0x31u8, 0u8],
        final(u).name@.subrange(19, 21) == seq![0x30u8, 0u8],
        final(u).name@.subrange(21, 29) == seq![
            0x61u8, 0x61u8, 0x72u8, 0x63u8, 0x68u8, 0x36u8, 0x34u8, 0u8,
        ],
        forall|i: int|
            2 <= i < 7 || 29 <= i < 45 ==> #[trigger] final(u).name@[i] == old(u).name@[i],
{
    let s = final(u).name@;
    assert(s.subrange(7, 13) =~= seq![0x6cu8, 0x6fu8, 0x63u8, 0x61u8, 0x6cu8, 0u8]);
    assert(s.subrange(13, 19) =~= seq![0x30u8, 0x2eu8, 0x30u8, 0x2eu8, 0x31u8, 0u8]);
    assert(s.subrange(19, 21) =~= seq![0x30u8, 0u8]);
    assert(s.subrange(21, 29) =~= seq![
        0x61u8, 0x61u8, 0x72u8, 0x63u8, 0x68u8, 0x36u8, 0x34u8, 0u8,
    ]);
}

/// The first program starts in the root directory.
pub proof fn law_first_program_is_at_root(k: &mut Kernel)
    requires
        old(k).serving(),
        call_ensures(launched, (k,), ()),
    ensures
        me(*final(k)).cwd is Some,
        me(*final(k)).cwd->0@ == "/"@,
        me(*final(k)) == (Task { cwd: me(*final(k)).cwd, ..me(*old(k)) }),
        rest_kept(*final(k), *old(k)),
{
    lemma_me(*old(k));
}

/// As many random bytes are given as are asked for.
pub proof fn law_random_bytes_are_given(k: &Kernel, n: u64)
    requires
        k.calling(),
        call_ensures(getrandom, (k,), n),
    ensures
        n == reg(*k, 1),
{
    lemma_me(*k);
}

/// Whether a descriptor that is polled waits: it is a console on which nothing has come.
pub open spec fn is_waiting(k: Kernel, fd: i32, ready: bool) -> bool {
    &&& 0 <= fd < 8
    &&& me(k).files@[fd as int] is Some
    &&& k.fs.files@[me(k).files@[fd as int]->0.file as int].kind is Cons
    &&& !ready
}

/// What has come on a descriptor that is polled: nothing yet, something to be read, or
/// that the number names nothing.
pub open spec fn has_come(k: Kernel, fd: i32, ready: bool) -> i16 {
    if !(0 <= fd < 8) || me(k).files@[fd as int] is None {
        0x20
    } else if is_waiting(k, fd, ready) {
        0
    } else {
        1
    }
}

/// How many of the first `n` descriptors something has come on.
pub open spec fn come(k: Kernel, ps: Seq<Pollfd>, ready: Seq<bool>, n: int) -> int
    decreases n,
{
    if n <= 0 {
        0
    } else {
        come(k, ps, ready, n - 1) + if is_waiting(k, ps[n - 1].fd, ready[n - 1]) {
            0int
        } else {
            1
        }
    }
}

/// Polling tells of each descriptor what has come on it, and of how many something has.
/// The consoles that are waited for are those on which nothing has come, in their order,
/// and there is a timer only where one of them is waited for.
pub proof fn law_poll_tells_what_has_come(
    k: &Kernel,
    ps: &mut Vec<Pollfd>,
    ready: &[bool],
    timer: bool,
    c: Checked,
)
    requires
        k.calling(),
        ready@.len() == old(ps)@.len(),
        call_ensures(check_events, (k, ps, ready, timer), c),
    ensures
        final(ps)@.len() == old(ps)@.len(),
        forall|i: int|
            0 <= i < old(ps)@.len() ==> {
                &&& (#[trigger] final(ps)@[i]).fd == old(ps)@[i].fd
                &&& final(ps)@[i].events == old(ps)@[i].events
                &&& final(ps)@[i].revents == has_come(*k, old(ps)@[i].fd, ready@[i])
            },
        c.n == come(*k, old(ps)@, ready@, old(ps)@.len() as int),
        c.consoles@.len() == old(ps)@.len() - c.n,
        forall|i: int|
            0 <= i < old(ps)@.len() && is_waiting(*k, (#[trigger] old(ps)@[i]).fd, ready@[i])
                ==> c.consoles@[i - come(*k, old(ps)@, ready@, i)]
                == k.fs.files@[me(*k).files@[old(ps)@[i].fd as int]->0.file as int].kind->Cons_0,
        c.timer == (timer && c.n < old(ps)@.len()),
{
    lemma_me(*k);
    let p = old(ps)@;
    lemma_come(*k, p, ready@, p.len() as int);
    assert(p.take(p.len() as int) =~= p);
    assert(final(ps)@.take(p.len() as int) =~= final(ps)@);
}

proof fn lemma_come(k: Kernel, ps: Seq<Pollfd>, ready: Seq<bool>, n: int)
    requires
        k.calling(),
        0 <= n <= ps.len() == ready.len(),
    ensures
        ({
            let c = consoles(k, ps.take(n), ready);
            &&& events(polled_all(k, ps, ready).take(n)) == come(k, ps, ready, n)
            &&& c.len() == n - come(k, ps, ready, n)
            &&& forall|i: int|
                0 <= i < n && is_waiting(k, (#[trigger] ps[i]).fd, ready[i]) ==> {
                    &&& 0 <= i - come(k, ps, ready, i) < c.len()
                    &&& c[i - come(k, ps, ready, i)]
                        == k.fs.files@[me(k).files@[ps[i].fd as int]->0.file as int].kind->Cons_0
                }
        }),
    decreases n,
{
    lemma_me(k);
    if n > 0 {
        lemma_come(k, ps, ready, n - 1);
        let q = ps.take(n);
        assert(q.drop_last() =~= ps.take(n - 1));
        let a = polled_all(k, ps, ready);
        assert(a.take(n).drop_last() =~= a.take(n - 1));
        let c = consoles(k, q, ready);
        let c0 = consoles(k, ps.take(n - 1), ready);
        assert forall|i: int|
            0 <= i < n && is_waiting(k, (#[trigger] ps[i]).fd, ready[i]) implies {
            &&& 0 <= i - come(k, ps, ready, i) < c.len()
            &&& c[i - come(k, ps, ready, i)]
                == k.fs.files@[me(k).files@[ps[i].fd as int]->0.file as int].kind->Cons_0
        } by {
            if i < n - 1 {
                assert(c[i - come(k, ps, ready, i)] == c0[i - come(k, ps, ready, i)]);
            }
        }
    }
}

/// A call that polls is finished where there is nothing to poll, something has come, or
/// its time is over; its result is the number of descriptors on which something has
/// come. Else the task sleeps, on no channel.
pub proof fn law_poll_sleeps_until_something_comes(
    k: &mut Kernel,
    ps: &mut Vec<Pollfd>,
    ready: &[bool],
    timeout: Option<u64>,
    start: u64,
    now: u64,
    s: PollStep,
)
    requires
        old(k).calling(),
        ready@.len() == old(ps)@.len(),
        start <= now,
        old(ps)@.len() == reg(*old(k), 1),
        call_ensures(ppoll, (k, ps, ready, timeout, start, now), s),
    ensures
        ({
            let n = come(*old(k), old(ps)@, ready@, old(ps)@.len() as int);
            if old(ps)@.len() == 0 || n > 0 || (timeout is Some && now - start > timeout->0) {
                &&& s matches PollStep::Done { ret, consoles: c, timer } && {
                    &&& ret == n
                    &&& c@.len() == old(ps)@.len() - n
                    &&& timer == (timeout is Some && n < old(ps)@.len())
                }
                &&& *final(k) == *old(k)
            } else {
                let (t, t0) = (me(*final(k)), me(*old(k)));
                &&& s matches PollStep::Switch { consoles: c, timer } && {
                    &&& c@.len() == old(ps)@.len()
                    &&& timer == (timeout is Some)
                }
                &&& t.state is Sleeping
                &&& t.chan is None
                &&& t.lock.held
                &&& t == (Task { state: t.state, chan: t.chan, lock: t.lock, ..t0 })
                &&& others_kept(*final(k), *old(k))
                &&& final(k).cpu.int_disables == 1
                &&& final(k).fs == old(k).fs
            }
        }),
        forall|i: int|
            0 <= i < old(ps)@.len() ==> {
                &&& (#[trigger] final(ps)@[i]).fd == old(ps)@[i].fd
                &&& final(ps)@[i].revents == has_come(*old(k), old(ps)@[i].fd, ready@[i])
            },
{
    lemma_me(*old(k));
    let p = old(ps)@;
    lemma_come(*old(k), p, ready@, p.len() as int);
    assert(p.take(p.len() as int) =~= p);
    assert(final(ps)@.take(p.len() as int) =~= final(ps)@);
}

/// Each request to the server holds what it is made of.
pub proof fn law_requests_hold_their_paths(
    a: &str,
    b: &str,
    follow: bool,
    mode: u32,
    size: u64,
    sl: P9Request,
    mv: P9Request,
    ln: P9Request,
    ex: P9Request,
    rm: P9Request,
    mk: P9Request,
    st: P9Request,
    tr: P9Request,
)
    requires
        call_ensures(symlink, (a, b), sl),
        call_ensures(rename, (a, b), mv),
        call_ensures(link, (a, b, follow), ln),
        call_ensures(exists_path, (a,), ex),
        call_ensures(remove, (a,), rm),
        call_ensures(mkdir, (a, mode), mk),
        call_ensures(fstat, (a, follow), st),
        call_ensures(truncate, (a, size), tr),
    ensures
        sl matches P9Request::Symlink { name, path } && name@ == a@ && path@ == b@,
        mv matches P9Request::Rename { from, to } && from@ == a@ && to@ == b@,
        ln matches P9Request::Link { from, to, follow: f } && from@ == a@ && to@ == b@ && f
            == follow,
        ex matches P9Request::Exists { path } && path@ == a@,
        rm matches P9Request::Remove { path } && path@ == a@,
        mk matches P9Request::Mkdir { path, mode: m } && path@ == a@ && m == mode,
        st matches P9Request::Stat { path, follow: f } && path@ == a@ && f == follow,
        tr matches P9Request::Truncate { path, size: n } && path@ == a@ && n == size,
{
}

/// What a link holds goes to the start of the buffer, and the rest of the buffer stays.
pub proof fn law_link_goes_to_the_start(
    path: &str,
    buf: &mut [u8],
    s: LinkStep,
    buf2: &mut [u8],
    held: Result<String, ()>,
    r: Result<usize, ()>,
    buf3: &mut [u8],
    text: &str,
    n: usize,
)
    requires
        call_ensures(readlink, (path, buf), s),
        held matches Ok(t) ==> encode_utf8(t@).len() <= old(buf2)@.len(),
        call_ensures(readlink_done, (buf2, held), r),
        encode_utf8(text@).len() <= old(buf3)@.len(),
        call_ensures(cpystr, (buf3, text), n),
    ensures
        path@ != "/proc/self/fd/0"@ ==> (s matches LinkStep::Ask(req)
            && req matches P9Request::Readlink { path: p } && p@ == path@),
        path@ == "/proc/self/fd/0"@ ==> (s matches LinkStep::Done(m) && m == encode_utf8(
            "/dev/tty"@,
        ).len()),
        held is Ok <==> r is Ok,
        held matches Ok(t) ==> {
            &&& r->Ok_0 == encode_utf8(t@).len()
            &&& forall|i: int| 0 <= i < r->Ok_0 ==> #[trigger] final(buf2)@[i] == encode_utf8(t@)[i]
            &&& forall|i: int|
                r->Ok_0 <= i < old(buf2)@.len() ==> #[trigger] final(buf2)@[i] == old(buf2)@[i]
        },
        held is Err ==> final(buf2)@ == old(buf2)@,
        n == encode_utf8(text@).len(),
        final(buf3)@.len() == old(buf3)@.len(),
        forall|i: int| 0 <= i < n ==> #[trigger] final(buf3)@[i] == encode_utf8(text@)[i],
        forall|i: int| n <= i < old(buf3)@.len() ==> #[trigger] final(buf3)@[i] == old(buf3)@[i],
{
}

/// Bytes are text where they encode some, and then that text.
pub proof fn law_bytes_are_their_text(b: &[u8], r: Option<String>)
    requires
        call_ensures(text, (b,), r),
    ensures
        r is Some <==> valid_utf8(b@),
        r is Some ==> encode_utf8(r->0@) == b@,
{
    if r is Some {
        decode_utf8_encode_utf8(b@);
    }
}

/// A transfer's result is the number of bytes, or the failure; so is the server's answer
/// on a file's state.
pub proof fn law_results_are_numbers(r: Result<usize, ()>, n: u64, ok: bool, m: u64)
    requires
        call_ensures(io_ret, (r,), n),
        call_ensures(newfstat_done, (ok,), m),
    ensures
        r matches Ok(x) ==> n == x,
        r is Err ==> n == 0xffff_ffff_ffff_ffff,
        ok ==> m == 0,
        !ok ==> m == 0xffff_ffff_ffff_ffff,
{
}

/// Calls that need nothing done always succeed, and the one that is not there never does.
pub proof fn law_idle_calls_succeed(
    n: Seq<u64>,
    fcntl_ret: u64,
    unmapped: u64,
    protected: u64,
    rseq_ret: u64,
)
    requires
        call_ensures(crate::ident::set_robust_list, (), n[0]),
        call_ensures(crate::ident::prlimit64, (), n[1]),
        call_ensures(crate::ident::getuid, (), n[2]),
        call_ensures(crate::ident::geteuid, (), n[3]),
        call_ensures(crate::ident::setuid, (), n[4]),
        call_ensures(crate::ident::getgid, (), n[5]),
        call_ensures(crate::ident::setgid, (), n[6]),
        call_ensures(crate::ident::kill, (), n[7]),
        call_ensures(crate::ident::tgkill, (), n[8]),
        call_ensures(crate::ident::getpgid, (), n[9]),
        call_ensures(crate::ident::setpgid, (), n[10]),
        call_ensures(crate::ident::rt_sigaction, (), n[11]),
        call_ensures(crate::ident::rt_sigprocmask, (), n[12]),
        call_ensures(fcntl, (), fcntl_ret),
        call_ensures(munmap, (), unmapped),
        call_ensures(mprotect, (), protected),
        call_ensures(rseq, (), rseq_ret),
    ensures
        forall|i: int| 0 <= i < 13 ==> #[trigger] n[i] == 0,
        fcntl_ret == 0,
        unmapped == 0,
        protected == 0,
        rseq_ret == 0xffff_ffff_ffff_ffff,
{
}

/// A call that names a link or two paths is told that there is no such file where a path
/// means nothing.
pub proof fn law_second_path_without_meaning_is_refused(
    k: &Kernel,
    from: &[u8],
    to: &[u8],
    s: String,
    t: String,
    p: Result<String, ()>,
    q: Result<String, ()>,
    u: Result<String, ()>,
    mv: Step,
    ln: Step,
    sl: Step,
    buf: &mut [u8],
    rl: ReadlinkStep,
    buf2: &mut [u8],
    n: u64,
)
    requires
        k.calling(),
        encode_utf8(s@) == from@,
        encode_utf8(t@) == to@,
        call_ensures(at_path, (k, reg(*k, 0), s), p),
        call_ensures(at_path, (k, reg(*k, 2), t), q),
        call_ensures(at_path, (k, reg(*k, 1), t), u),
        call_ensures(renameat, (k, from, to), mv),
        call_ensures(linkat, (k, from, to), ln),
        call_ensures(symlinkat, (k, from, to), sl),
        call_ensures(readlinkat, (k, from, buf), rl),
        call_ensures(readlinkat_done, (buf2, Err(())), n),
    ensures
        p is Err || q is Err ==> (mv matches Step::Done(x) && x == 0xffff_ffff_ffff_fffe),
        p is Err || q is Err ==> (ln matches Step::Done(x) && x == 0xffff_ffff_ffff_fffe),
        u is Err ==> (sl matches Step::Done(x) && x == 0xffff_ffff_ffff_fffe),
        p is Err ==> rl == ReadlinkStep::Done(0xffff_ffff_ffff_fffe) && final(buf)@ == old(buf)@,
        n == 0xffff_ffff_ffff_fffe,
        final(buf2)@ == old(buf2)@,
{
    lemma_me(*k);
    lemma_text(from@, s@);
    lemma_text(to@, t@);
}

/// A call that writes several buffers starts with the first one, on the file of its
/// descriptor.
pub proof fn law_buffers_start_with_the_first(k: &Kernel, f: usize, v: Result<Writev, u64>)
    requires
        k.calling(),
        asks_for(*k, f),
        call_ensures(sys_writev, (k,), v),
    ensures
        v matches Ok(w) && w.file == f && w.next == 0 && w.written == 0,
{
    lemma_me(*k);
}

} // verus!

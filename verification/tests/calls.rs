use virt_kernel::calls::{
    answered, chdir, chdir_done, faccessat, fcntl, getcwd, getrandom, linkat, mkdirat, newfsstatat,
    openat, openat_done, readlink, readlinkat, readlinkat_done, renameat, symlinkat, umask,
    unlinkat, utimensat, LinkStep, OpenStep, ReadlinkStep, Step, ENAMETOOLONG, ENOENT,
};
use virt_kernel::desc::{
    close, close_done, dup3, dup3_done, pipe2, CloseOut, FAIL,
};
use virt_kernel::file::{CloseStep, FileKind, Stat};
use virt_kernel::fs::{alloc_file, P9Request, O};
use virt_kernel::io::{
    ftruncate, getdents64, getdents64_done, io_done, io_ret, ioctl, lseek, newfstat,
    newfstat_done, read_woken,
    sendfile64, sendfile64_done, sys_read, sys_write, sys_writev, write_woken, writev_next,
    FstatStep, Io, Ioctl, WritevStep, ESPIPE, T,
};
use virt_kernel::kernel::{boot, init, Kernel};
use virt_kernel::load::{forkret, launched};
use virt_kernel::path::{at_path, cpystr, text};
use virt_kernel::poll::{check_events, ppoll, PollStep, Pollfd, POLL};
use virt_kernel::proc::{create_user_task, Seed};
use virt_kernel::sched::{scheduler, switched, Choice, Pass};
use virt_kernel::task::{State, FD};

const CWD: u64 = (-100i64) as u64;

fn running() -> Kernel {
    let mut k = boot();
    init(&mut k, &[0x10000, 0x20000, 0x30000, 0x40000, 0x50000, 0x60000, 0x70000, 0x80000]);
    let seed = Seed { user_pt: 0x5000_0000, user_sp: 0x6000_0000, forkret: 0xf0 };
    create_user_task(&mut k, seed, [1, 2, 3]);
    let mut pass = Pass { next: 0, found: false };
    scheduler(&mut k, &mut pass);
    forkret(&mut k);
    launched(&mut k);
    k
}

fn regs(k: &mut Kernel, args: &[u64]) {
    for (i, a) in args.iter().enumerate() {
        k.tasks[0].frame.regs[i] = *a;
    }
}

fn open(k: &mut Kernel, path: &str, fid: u32) -> u64 {
    regs(k, &[CWD, 0x1000, 0, 0]);
    if let OpenStep::Ask { req, fd, file } = openat(k, path.as_bytes()) {
        if let P9Request::Open { path, .. } = req {
            return openat_done(k, &path, fd, file, Ok(fid));
        }
    }
    FAIL
}

fn asks(s: Step) -> (String, u64) {
    match s {
        Step::Ask { req, fail } => (format!("{:?}", req), fail),
        Step::Done(n) => (String::from("done"), n),
    }
}

#[test]
fn text_must_be_utf8() {
    assert_eq!(text(b"abc"), Some(String::from("abc")));
    assert_eq!(text("h\u{e9}".as_bytes()), Some(String::from("h\u{e9}")));
    assert_eq!(text(&[0xff]), None);
}

#[test]
fn paths_start_from_a_directory() {
    let mut k = running();
    assert_eq!(at_path(&k, CWD, String::from("/a")), Ok(String::from("/a")));
    assert_eq!(at_path(&k, 99, String::from("/a")), Ok(String::from("/a")));
    assert_eq!(at_path(&k, CWD, String::from("a")), Ok(String::from("/a")));
    k.tasks[0].cwd = Some(String::from("/home"));
    assert_eq!(at_path(&k, CWD, String::from("a/b")), Ok(String::from("/home/a/b")));
    assert_eq!(at_path(&k, CWD, String::from("")), Ok(String::from("/home/")));
    let fd = open(&mut k, "/etc", 9);
    assert_eq!(at_path(&k, fd, String::from("motd")), Ok(String::from("/etc/motd")));
    assert_eq!(at_path(&k, 0, String::from("motd")), Err(()));
    assert_eq!(at_path(&k, 7, String::from("motd")), Err(()));
    assert_eq!(at_path(&k, 4000, String::from("motd")), Err(()));
}

#[test]
fn copied_text_keeps_the_rest_of_the_buffer() {
    let mut buf = [9u8; 6];
    assert_eq!(cpystr(&mut buf, "abc"), 3);
    assert_eq!(&buf, b"abc\x09\x09\x09");
}

#[test]
fn requests_to_the_server() {
    let mut k = running();
    regs(&mut k, &[CWD, 0, 0o755, 0, 0]);
    assert_eq!(asks(unlinkat(&k, b"x")), (String::from("Remove { path: \"/x\" }"), ENOENT));
    assert_eq!(
        asks(mkdirat(&k, b"x")),
        (String::from("Mkdir { path: \"/x\", mode: 493 }"), FAIL)
    );
    assert_eq!(asks(utimensat(&k, b"x")), (String::from("Exists { path: \"/x\" }"), ENOENT));
    assert_eq!(asks(faccessat(&k, b"x")), (String::from("Exists { path: \"/x\" }"), ENOENT));
    regs(&mut k, &[CWD, CWD, CWD, 256, 0x400]);
    assert_eq!(
        asks(symlinkat(&k, b"to", b"x")),
        (String::from("Symlink { name: \"to\", path: \"/x\" }"), FAIL)
    );
    assert_eq!(
        asks(renameat(&k, b"a", b"/b")),
        (String::from("Rename { from: \"/a\", to: \"/b\" }"), ENOENT)
    );
    assert_eq!(
        asks(linkat(&k, b"a", b"b")),
        (String::from("Link { from: \"/a\", to: \"/b\", follow: true }"), ENOENT)
    );
    assert_eq!(
        asks(newfsstatat(&k, b"a")),
        (String::from("Stat { path: \"/a\", follow: false }"), ENOENT)
    );
    regs(&mut k, &[CWD, CWD, CWD, 0, 0]);
    assert_eq!(
        asks(newfsstatat(&k, b"a")),
        (String::from("Stat { path: \"/a\", follow: true }"), ENOENT)
    );
    assert_eq!(
        asks(linkat(&k, b"a", b"b")),
        (String::from("Link { from: \"/a\", to: \"/b\", follow: false }"), ENOENT)
    );
    assert_eq!((answered(ENOENT, true), answered(ENOENT, false)), (0, ENOENT));
    assert_eq!(ENOENT, (-2i64) as u64);
}

#[test]
fn paths_from_no_directory_are_not_found() {
    let mut k = running();
    regs(&mut k, &[5, 5, 5, 0, 0]);
    assert_eq!(asks(unlinkat(&k, b"x")).1, ENOENT);
    assert_eq!(asks(mkdirat(&k, b"x")), (String::from("done"), ENOENT));
    assert_eq!(asks(utimensat(&k, b"x")), (String::from("done"), ENOENT));
    assert_eq!(asks(symlinkat(&k, b"to", b"x")), (String::from("done"), ENOENT));
    assert_eq!(asks(renameat(&k, b"/a", b"b")), (String::from("done"), ENOENT));
    assert_eq!(asks(linkat(&k, b"a", b"/b")), (String::from("done"), ENOENT));
    assert_eq!(asks(newfsstatat(&k, b"a")), (String::from("done"), ENOENT));
    let mut buf = [0u8; 8];
    assert!(matches!(readlinkat(&k, b"a", &mut buf), ReadlinkStep::Done(ENOENT)));
    regs(&mut k, &[5, 1]);
    assert!(matches!(openat(&mut k, b"x"), OpenStep::Done(ENOENT)));
}

#[test]
fn directory_is_changed_and_told() {
    let mut k = running();
    assert_eq!(asks(chdir(&k, b"/tmp")), (String::from("Exists { path: \"/tmp\" }"), ENOENT));
    assert_eq!(chdir_done(&mut k, b"/tmp", false), ENOENT);
    assert_eq!(k.tasks[0].cwd, Some(String::from("/")));
    assert_eq!(chdir_done(&mut k, b"/tmp", true), 0);
    regs(&mut k, &[0x1000, 10]);
    let r = getcwd(&k);
    assert_eq!((r.ret, r.bytes), (0, b"/tmp\0".to_vec()));
    regs(&mut k, &[0x1000, 4]);
    let r = getcwd(&k);
    assert_eq!((r.ret, r.bytes), (ENAMETOOLONG, b"/tmp".to_vec()));
    assert_eq!(ENAMETOOLONG, (-78i64) as u64);
}

#[test]
fn umask_is_given_back() {
    let mut k = running();
    regs(&mut k, &[0x1_0000_0012]);
    assert_eq!(umask(&mut k), 777);
    assert_eq!(umask(&mut k), 0x12);
    regs(&mut k, &[0, 33]);
    assert_eq!((getrandom(&k), fcntl()), (33, 0));
}

#[test]
fn links() {
    let mut buf = [0u8; 10];
    assert!(matches!(readlink("/proc/self/fd/0", &mut buf), LinkStep::Done(8)));
    assert_eq!(&buf, b"/dev/tty\0\0");
    assert!(matches!(
        readlink("/bin/sh", &mut buf),
        LinkStep::Ask(P9Request::Readlink { path }) if path == "/bin/sh"
    ));
    let mut k = running();
    regs(&mut k, &[CWD]);
    let mut buf = [0u8; 10];
    assert!(matches!(readlinkat(&k, b"proc/self/fd/0", &mut buf), ReadlinkStep::Done(8)));
    assert!(matches!(readlinkat(&k, b"bin/sh", &mut buf), ReadlinkStep::Ask(_)));
    assert_eq!(readlinkat_done(&mut buf, Ok(String::from("busybox"))), 7);
    assert_eq!(&buf[..7], b"busybox");
    assert_eq!(readlinkat_done(&mut buf, Err(())), ENOENT);
}

#[test]
fn files_are_opened_and_closed() {
    let mut k = running();
    assert_eq!(open(&mut k, "motd", 40), 3);
    assert_eq!(k.tasks[0].files[3], Some(FD { file: 3, read: true, write: true }));
    assert_eq!((k.fs.files[3].rc, k.fs.files[3].path.clone()), (1, Some(String::from("/motd"))));
    regs(&mut k, &[3]);
    assert_eq!(close(&mut k), CloseOut::P9 { file: 3, fid: 40 });
    assert_eq!(close_done(&mut k, false), FAIL);
    assert!(k.tasks[0].files[3].is_some());
    assert_eq!(close(&mut k), CloseOut::P9 { file: 3, fid: 40 });
    assert_eq!(close_done(&mut k, true), 0);
    assert!(k.tasks[0].files[3].is_none());
    assert!(matches!(k.fs.files[3].kind, FileKind::Unused));
    assert_eq!(close(&mut k), CloseOut::Done(FAIL));
    regs(&mut k, &[9]);
    assert_eq!(close(&mut k), CloseOut::Done(FAIL));
    regs(&mut k, &[1]);
    assert_eq!(close(&mut k), CloseOut::Done(0));
    assert!(k.tasks[0].files[1].is_none());
    assert_eq!(k.fs.files[1].rc, 0);
}

#[test]
fn open_may_fail() {
    let mut k = running();
    regs(&mut k, &[CWD, 0]);
    assert!(matches!(openat(&mut k, b""), OpenStep::Done(FAIL)));
    regs(&mut k, &[CWD, 1, 0x42]);
    if let OpenStep::Ask { req, fd, file } = openat(&mut k, b"x") {
        assert!(matches!(req, P9Request::Open { flags: 0x42, .. }));
        assert_eq!((fd, file), (3, 3));
        assert!(matches!(k.fs.files[3].kind, FileKind::Used));
        assert_eq!(openat_done(&mut k, "/x", fd, file, Err(())), FAIL);
        assert!(matches!(k.fs.files[3].kind, FileKind::Unused));
    } else {
        unreachable!();
    }
    for _ in 0..5 {
        assert!(open(&mut k, "/f", 1) < 8);
    }
    assert_eq!(open(&mut k, "/f", 1), FAIL);
}

#[test]
fn file_table_may_be_full() {
    let mut k = running();
    for i in 3..128 {
        assert_eq!(alloc_file(&mut k.fs), Some(i));
    }
    assert_eq!(alloc_file(&mut k.fs), None);
    regs(&mut k, &[CWD, 1, 0]);
    assert!(matches!(openat(&mut k, b"x"), OpenStep::Done(FAIL)));
    let r = pipe2(&mut k);
    assert_eq!((r.ret, r.fds), (FAIL, None));
}

#[test]
fn descriptors_are_copied() {
    let mut k = running();
    open(&mut k, "/f", 40);
    regs(&mut k, &[3, 5]);
    assert_eq!(dup3(&mut k), CloseOut::Done(5));
    assert_eq!(k.tasks[0].files[5], k.tasks[0].files[3]);
    assert_eq!(k.fs.files[3].rc, 2);
    regs(&mut k, &[3, 3]);
    assert_eq!(dup3(&mut k), CloseOut::Done(3));
    assert_eq!(dup3(&mut k), CloseOut::Done(3));
    regs(&mut k, &[3, 5]);
    assert_eq!(dup3(&mut k), CloseOut::Done(5));
    assert_eq!(k.fs.files[3].rc, 2);
    regs(&mut k, &[7, 5]);
    assert_eq!(dup3(&mut k), CloseOut::Done(FAIL));
    regs(&mut k, &[5]);
    assert_eq!(close(&mut k), CloseOut::Done(0));
    regs(&mut k, &[0, 3]);
    assert_eq!(dup3(&mut k), CloseOut::P9 { file: 3, fid: 40 });
    assert_eq!(k.tasks[0].files[3], k.tasks[0].files[0]);
    assert_eq!(dup3_done(&mut k, 3), 3);
    assert!(matches!(k.fs.files[3].kind, FileKind::Unused));
    assert_eq!(k.fs.files[0].rc, 2);
}

#[test]
fn descriptor_of_a_task_is_given_up() {
    let mut k = running();
    open(&mut k, "/f", 40);
    assert_eq!(k.tasks[0].close_file(&mut k.fs, 3), Some((3, CloseStep::P9(40))));
    assert!(k.tasks[0].files[3].is_none());
    assert_eq!(k.tasks[0].close_file(&mut k.fs, 3), None);
    let d = k.tasks[0].dup_file(&mut k.fs, 0);
    assert_eq!((d.file, k.fs.files[0].rc), (0, 2));
}

fn piped() -> Kernel {
    let mut k = running();
    regs(&mut k, &[0x1000, 0]);
    let r = pipe2(&mut k);
    assert_eq!((r.ret, r.fds), (0, Some((3, 4))));
    k
}

#[test]
fn pipe_between_descriptors() {
    let mut k = piped();
    assert_eq!(k.tasks[0].files[3], Some(FD { file: 3, read: true, write: false }));
    assert_eq!(k.tasks[0].files[4], Some(FD { file: 3, read: false, write: true }));
    assert_eq!(k.fs.files[3].rc, 2);
    regs(&mut k, &[4, 0x1000, 5]);
    assert_eq!(sys_write(&mut k, b"hello"), Io::Done(Ok(5)));
    regs(&mut k, &[3, 0x1000, 5]);
    let mut out = Vec::new();
    assert_eq!(sys_read(&mut k, &mut out), Io::Done(Ok(5)));
    assert_eq!(out, b"hello");
    regs(&mut k, &[4]);
    assert_eq!(close(&mut k), CloseOut::Done(0));
    regs(&mut k, &[3, 0x1000, 5]);
    let mut out = Vec::new();
    assert_eq!(sys_read(&mut k, &mut out), Io::Done(Ok(0)));
    regs(&mut k, &[0, O::NONBLOCK as u64]);
    let r = pipe2(&mut k);
    assert_eq!(r.fds, Some((4, 5)));
    if let FileKind::Pipe(p) = &k.fs.files[4].kind {
        assert!(p.nonblock);
    } else {
        unreachable!();
    }
}

#[test]
fn reader_of_an_empty_pipe_sleeps() {
    let mut k = piped();
    regs(&mut k, &[3, 0x1000, 2]);
    let mut out = Vec::new();
    assert_eq!(sys_read(&mut k, &mut out), Io::Switch(0));
    assert_eq!(k.tasks[0].state, State::Sleeping);
    assert_eq!(k.tasks[0].chan, Some(14));
    switched(&mut k);
    k.tasks[0].state = State::Ready;
    let mut pass = Pass { next: 0, found: false };
    assert_eq!(scheduler(&mut k, &mut pass), Choice::Run(0));
    assert_eq!(read_woken(&mut k, 3, &mut out, 2), Io::Switch(0));
    switched(&mut k);
    k.tasks[0].state = State::Ready;
    if let FileKind::Pipe(p) = &mut k.fs.files[3].kind {
        p.write(b"ab");
    }
    let mut pass = Pass { next: 0, found: false };
    scheduler(&mut k, &mut pass);
    assert_eq!(read_woken(&mut k, 3, &mut out, 2), Io::Done(Ok(2)));
    assert_eq!(out, b"ab");
}

#[test]
fn writer_to_a_full_pipe_sleeps() {
    let mut k = piped();
    regs(&mut k, &[4, 0x1000, 0]);
    assert_eq!(sys_write(&mut k, b""), Io::Done(Ok(0)));
    regs(&mut k, &[4, 0x1000, 1]);
    assert_eq!(sys_write(&mut k, b"x"), Io::Switch(0));
    assert_eq!(k.tasks[0].chan, Some(15));
    switched(&mut k);
    k.tasks[0].state = State::Ready;
    if let FileKind::Pipe(p) = &mut k.fs.files[3].kind {
        p.full = false;
    }
    let mut pass = Pass { next: 0, found: false };
    scheduler(&mut k, &mut pass);
    assert_eq!(write_woken(&mut k, 3, b"x"), Io::Done(Ok(1)));
}

#[test]
fn devices_move_bytes() {
    let mut k = running();
    open(&mut k, "/f", 40);
    regs(&mut k, &[3, 0x1000, 4]);
    assert_eq!(sys_write(&mut k, b"abcd"), Io::P9 { file: 3, fid: 40, offset: 0 });
    assert_eq!(io_done(&mut k, 3, Ok(4)), 4);
    let mut out = Vec::new();
    assert_eq!(sys_read(&mut k, &mut out), Io::P9 { file: 3, fid: 40, offset: 4 });
    assert_eq!(io_done(&mut k, 3, Err(())), FAIL);
    assert_eq!(k.fs.files[3].offt, 4);
    regs(&mut k, &[1, 0x1000, 1]);
    assert_eq!(sys_write(&mut k, b"x"), Io::Cons { file: 1, cons: 2 });
    assert_eq!(io_done(&mut k, 1, Ok(1)), 1);
    regs(&mut k, &[1, 0, 1]);
    assert_eq!(sys_write(&mut k, b"x"), Io::Done(Err(())));
    regs(&mut k, &[6, 1, 1]);
    assert_eq!(sys_write(&mut k, b"x"), Io::Done(Err(())));
    regs(&mut k, &[8, 1, 1]);
    assert_eq!(sys_read(&mut k, &mut out), Io::Done(Err(())));
    assert_eq!((io_ret(Ok(3)), io_ret(Err(()))), (3, FAIL));
}

#[test]
fn several_buffers_are_written() {
    let mut k = piped();
    regs(&mut k, &[4, 0x1000, 2]);
    let bufs = vec![b"ab".to_vec(), b"cde".to_vec()];
    let mut w = sys_writev(&k).unwrap();
    assert_eq!(writev_next(&mut k, &w, &bufs), WritevStep::Io(Io::Done(Ok(2))));
    assert_eq!(w.wrote(Ok(2)), None);
    assert_eq!(writev_next(&mut k, &w, &bufs), WritevStep::Io(Io::Done(Ok(3))));
    assert_eq!(w.wrote(Ok(3)), None);
    assert_eq!(writev_next(&mut k, &w, &bufs), WritevStep::Done(5));
    assert_eq!(w.wrote(Err(())), Some(FAIL));
    let mut out = Vec::new();
    regs(&mut k, &[3, 0x1000, 5]);
    sys_read(&mut k, &mut out);
    assert_eq!(out, b"abcde");
    regs(&mut k, &[7, 1]);
    assert_eq!(sys_writev(&k), Err(FAIL));
}

#[test]
fn directories_are_listed() {
    let mut k = running();
    open(&mut k, "/", 40);
    regs(&mut k, &[3, 0x1000, 512]);
    assert_eq!(getdents64(&k), Ok((3, 40, 0)));
    assert_eq!(getdents64_done(&mut k, 3, Ok((100, 7))), 100);
    assert_eq!(getdents64(&k), Ok((3, 40, 7)));
    assert_eq!(getdents64_done(&mut k, 3, Err(())), FAIL);
    regs(&mut k, &[5, 0x1000, 512]);
    assert_eq!(getdents64(&k), Err(FAIL));
}

#[test]
fn positions_of_descriptors() {
    let mut k = running();
    open(&mut k, "/f", 40);
    regs(&mut k, &[3, 10, 0]);
    assert_eq!(lseek(&mut k, 99), 10);
    regs(&mut k, &[3, 0, 1]);
    assert_eq!(lseek(&mut k, 99), 10);
    regs(&mut k, &[3, 9, 2]);
    assert_eq!(lseek(&mut k, 99), 90);
    regs(&mut k, &[3, u64::MAX, 1]);
    assert_eq!(lseek(&mut k, 99), 91);
    regs(&mut k, &[3, 9, 3]);
    assert_eq!(lseek(&mut k, 99), ESPIPE);
    assert_eq!(ESPIPE, (-29i64) as u64);
    regs(&mut k, &[6, 9, 3]);
    assert_eq!(lseek(&mut k, 99), ENOENT);
}

#[test]
fn truncating_needs_a_path() {
    let mut k = running();
    open(&mut k, "/f", 40);
    regs(&mut k, &[3, 77]);
    assert_eq!(
        asks(ftruncate(&k)),
        (String::from("Truncate { path: \"/f\", size: 77 }"), FAIL)
    );
    regs(&mut k, &[0, 77]);
    assert_eq!(asks(ftruncate(&k)), (String::from("done"), FAIL));
    regs(&mut k, &[6, 77]);
    assert_eq!(asks(ftruncate(&k)), (String::from("done"), FAIL));
}

#[test]
fn states_of_descriptors() {
    let mut k = piped();
    let mut stat = Stat::default();
    regs(&mut k, &[3]);
    assert_eq!(newfstat(&k, &mut stat), FstatStep::Done(0));
    assert_eq!(stat.st_mode, 0o010000);
    regs(&mut k, &[1]);
    assert_eq!(newfstat(&k, &mut stat), FstatStep::Cons(2));
    regs(&mut k, &[7]);
    assert_eq!(newfstat(&k, &mut stat), FstatStep::Done(FAIL));
    open(&mut k, "/f", 40);
    regs(&mut k, &[5]);
    assert_eq!(newfstat(&k, &mut stat), FstatStep::P9(40));
}

#[test]
fn copies_between_files() {
    let mut k = running();
    open(&mut k, "/f", 40);
    open(&mut k, "/g", 41);
    regs(&mut k, &[4, 3, 0x9000, 100]);
    let s = sendfile64(&mut k, 12).unwrap();
    assert_eq!((s.from, s.to, s.send.total), (3, 4, 100));
    assert_eq!(k.fs.files[3].offt, 12);
    assert_eq!(sendfile64_done(&k, &s, Ok(100)), (100, Some(12)));
    assert_eq!(sendfile64_done(&k, &s, Err(())), (FAIL, None));
    regs(&mut k, &[4, 3, 0, 100]);
    let s = sendfile64(&mut k, 55).unwrap();
    assert_eq!(k.fs.files[3].offt, 12);
    assert_eq!(sendfile64_done(&k, &s, Ok(100)), (100, None));
    regs(&mut k, &[4, 7, 0, 100]);
    assert_eq!(sendfile64(&mut k, 0), Err(FAIL));
    regs(&mut k, &[7, 3, 0, 100]);
    assert_eq!(sendfile64(&mut k, 0), Err(FAIL));
}

#[test]
fn terminal_requests() {
    let mut k = running();
    regs(&mut k, &[0, T::CGETS, 0x77]);
    assert_eq!(ioctl(&k), Ioctl::GetTermios(0x77));
    regs(&mut k, &[0, T::CSETS, 0x77]);
    assert_eq!(ioctl(&k), Ioctl::SetTermios(0x77));
    regs(&mut k, &[0, T::IOCGWINSZ, 0x77]);
    assert_eq!(ioctl(&k), Ioctl::GetWinsize(0x77));
    regs(&mut k, &[0, T::IOCGPGRP, 0x77]);
    assert_eq!(ioctl(&k), Ioctl::PutPid { at: 0x77, pid: 0 });
    regs(&mut k, &[0, T::IOCSPGRP, 0x77]);
    assert_eq!(ioctl(&k), Ioctl::Done(0));
}

fn pollfd(fd: i32) -> Pollfd {
    Pollfd { fd, events: POLL::IN, revents: 99 }
}

#[test]
fn poll_looks_at_every_descriptor() {
    let mut k = running();
    open(&mut k, "/f", 40);
    let mut p = vec![pollfd(0), pollfd(3), pollfd(6), pollfd(-1), pollfd(1)];
    let c = check_events(&k, &mut p, &[false, false, false, false, true], true);
    let r: Vec<i16> = p.iter().map(|p| p.revents).collect();
    assert_eq!(r, [0, POLL::IN, POLL::NVAL, POLL::NVAL, POLL::IN]);
    assert_eq!((c.n, c.consoles, c.timer), (4, vec![1], true));
}

#[test]
fn poll_sleeps_until_something_comes() {
    let mut k = running();
    regs(&mut k, &[0x1000, 1]);
    let mut p = vec![pollfd(0)];
    let s = ppoll(&mut k, &mut p, &[true], None, 5, 5);
    assert!(matches!(s, PollStep::Done { ret: 1, .. }));
    let s = ppoll(&mut k, &mut p, &[false], Some(10), 5, 16);
    if let PollStep::Done { ret, consoles, timer } = s {
        assert_eq!((ret, consoles, timer), (0, vec![1], true));
    } else {
        unreachable!();
    }
    let s = ppoll(&mut k, &mut p, &[false], Some(10), 5, 15);
    if let PollStep::Switch { consoles, timer } = s {
        assert_eq!((consoles, timer), (vec![1], true));
    } else {
        unreachable!();
    }
    assert_eq!((k.tasks[0].state, k.tasks[0].chan), (State::Sleeping, None));
}

#[test]
fn poll_of_nothing_ends_at_once() {
    let mut k = running();
    regs(&mut k, &[0x1000, 0]);
    let mut p = Vec::new();
    if let PollStep::Done { ret, consoles, timer } = ppoll(&mut k, &mut p, &[], Some(1), 0, 0) {
        assert_eq!((ret, consoles, timer), (0, Vec::new(), false));
    } else {
        unreachable!();
    }
}

#[test]
fn poll_waits_for_consoles_though_something_has_come() {
    let mut k = running();
    regs(&mut k, &[0x1000, 3]);
    let mut p = vec![pollfd(0), pollfd(1), pollfd(2)];
    let s = ppoll(&mut k, &mut p, &[false, true, false], Some(10), 0, 0);
    if let PollStep::Done { ret, consoles, timer } = s {
        assert_eq!((ret, consoles, timer), (1, vec![1, 3], true));
    } else {
        unreachable!();
    }
    assert_eq!(k.tasks[0].state, State::Running);
    let s = ppoll(&mut k, &mut p, &[false, true, false], None, 0, 0);
    assert!(matches!(s, PollStep::Done { ret: 1, timer: false, .. }));
}

#[test]
fn device_may_not_tell_the_state() {
    assert_eq!((newfstat_done(true), newfstat_done(false)), (0, FAIL));
}

#[test]
fn failed_write_ends_a_write_of_several_buffers() {
    let mut k = running();
    open(&mut k, "/f", 40);
    regs(&mut k, &[3, 0x1000, 3]);
    let bufs = vec![b"ab".to_vec(), b"cde".to_vec(), b"f".to_vec()];
    let mut w = sys_writev(&k).unwrap();
    assert_eq!(
        writev_next(&mut k, &w, &bufs),
        WritevStep::Io(Io::P9 { file: 3, fid: 40, offset: 0 })
    );
    io_done(&mut k, 3, Ok(2));
    assert_eq!(w.wrote(Ok(2)), None);
    assert_eq!(
        writev_next(&mut k, &w, &bufs),
        WritevStep::Io(Io::P9 { file: 3, fid: 40, offset: 2 })
    );
    assert_eq!(w.wrote(Err(())), Some(FAIL));
    assert_eq!((w.next, w.written), (1, 2));
}

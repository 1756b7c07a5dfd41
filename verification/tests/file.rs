use virt_kernel::file::{
    AllStep, CloseStep, File, FileKind, FileStep, Seek, Send, SendStep, Stat, StatStep,
};
use virt_kernel::pipe::Pipe;

fn server_file(rc: u16) -> File {
    File { kind: FileKind::P9(11), rc, offt: 100, path: Some(String::from("/etc/motd")) }
}

fn console() -> File {
    File { kind: FileKind::Cons(3), rc: 1, offt: 0, path: None }
}

fn pipe_file() -> File {
    let mut p = Pipe::new(false);
    p.dup(false, true);
    File { kind: FileKind::Pipe(Box::new(p)), rc: 2, offt: 0, path: None }
}

#[test]
fn free_slot() {
    let f = File::zeroed();
    assert!(matches!(f.kind, FileKind::Unused));
    assert_eq!((f.rc, f.offt, f.path), (0, 0, None));
}

#[test]
fn transfers_go_to_the_device() {
    let mut out = Vec::new();
    assert_eq!(server_file(1).read(&mut out, 8), FileStep::P9 { fid: 11, offset: 100 });
    assert_eq!(server_file(1).write(b"x"), FileStep::P9 { fid: 11, offset: 100 });
    assert_eq!(console().read(&mut out, 8), FileStep::Cons(3));
    assert_eq!(console().write(b"x"), FileStep::Cons(3));
    assert_eq!(server_file(0).read(&mut out, 8), FileStep::Fail);
    assert_eq!(server_file(0).write(b"x"), FileStep::Fail);
}

#[test]
fn position_moves_with_the_server() {
    let mut f = server_file(1);
    assert_eq!(f.moved(Ok(20)), Ok(20));
    assert_eq!(f.offt, 120);
    assert_eq!(f.moved(Err(())), Err(()));
    assert_eq!(f.offt, 120);
    f.offt = u64::MAX;
    assert_eq!(f.moved(Ok(2)), Ok(2));
    assert_eq!(f.offt, 1);
    let mut c = console();
    assert_eq!(c.moved(Ok(20)), Ok(20));
    assert_eq!(c.offt, 0);
}

#[test]
fn pipe_carries_bytes() {
    let mut f = pipe_file();
    assert!(matches!(f.write(b"abc"), FileStep::Pipe(_)));
    let mut out = Vec::new();
    assert!(matches!(f.read(&mut out, 3), FileStep::Pipe(_)));
    assert_eq!(out, b"abc");
}

#[test]
fn last_user_closes_the_file() {
    let mut f = server_file(2);
    assert_eq!(f.close(true, true), CloseStep::Done);
    assert_eq!(f.close(true, true), CloseStep::P9(11));
    assert_eq!(f.rc, 0);
    assert_eq!(f.closed(false), Err(()));
    assert_eq!(f.rc, 1);
    assert_eq!(f.close(true, true), CloseStep::P9(11));
    assert_eq!(f.closed(true), Ok(()));
    assert!(matches!(f.kind, FileKind::Unused));
    assert_eq!((f.rc, f.path.is_none(), f.offt), (0, true, 100));
    assert_eq!(f.close(true, true), CloseStep::Done);
}

#[test]
fn console_keeps_its_slot() {
    let mut f = console();
    assert_eq!(f.close(true, true), CloseStep::Done);
    assert_eq!(f.rc, 0);
    assert!(matches!(f.kind, FileKind::Cons(3)));
}

#[test]
fn closing_an_end_wakes_the_pipe() {
    let mut f = pipe_file();
    assert_eq!(f.close(false, true), CloseStep::Wake);
    assert_eq!(f.rc, 1);
    if let FileKind::Pipe(p) = &f.kind {
        assert_eq!((p.readers, p.writers), (1, 0));
    } else {
        unreachable!();
    }
}

#[test]
fn close_undoes_dup() {
    let mut f = pipe_file();
    f.dup(true, false);
    assert_eq!(f.rc, 3);
    f.close(true, false);
    assert_eq!(f.rc, 2);
    if let FileKind::Pipe(p) = &f.kind {
        assert_eq!((p.readers, p.writers), (1, 1));
    } else {
        unreachable!();
    }
}

#[test]
fn positions() {
    let mut f = server_file(1);
    assert_eq!(f.lseek(7, Seek::SET, 50), Ok(7));
    assert_eq!(f.lseek(3, Seek::CUR, 50), Ok(10));
    assert_eq!(f.lseek(0, Seek::CUR, 50), Ok(10));
    assert_eq!(f.lseek(20, Seek::END, 50), Ok(30));
    assert_eq!(f.lseek(0, Seek::END, 50), Ok(50));
    assert_eq!(f.lseek(-1, Seek::SET, 50), Ok(u64::MAX));
    assert_eq!(f.lseek(0, 3, 50), Err(()));
    assert_eq!(f.offt, u64::MAX);
}

#[test]
fn step_back_goes_forward() {
    let mut f = server_file(1);
    f.seek_by(-5);
    assert_eq!(f.offt, 105);
    f.seek_by(5);
    assert_eq!(f.offt, 110);
    f.seek_to(4);
    assert_eq!(f.offt, 4);
    assert_eq!(f.lseek(-4, Seek::CUR, 0), Ok(8));
}

#[test]
fn sizes() {
    assert_eq!(server_file(1).get_size(50), 50);
    assert_eq!(console().get_size(50), 50);
    assert_eq!(pipe_file().get_size(50), 0);
    assert_eq!(File::zeroed().get_size(50), 0);
    let mut f = pipe_file();
    assert_eq!(f.lseek(0, Seek::END, 50), Ok(0));
}

#[test]
fn whole_buffers() {
    assert_eq!(File::all_start(0), AllStep::Done);
    assert_eq!(File::all_start(10), AllStep::More(10));
    assert_eq!(File::read_all(10, Ok(4)), AllStep::More(6));
    assert_eq!(File::read_all(10, Ok(0)), AllStep::Done);
    assert_eq!(File::read_all(10, Ok(10)), AllStep::Done);
    assert_eq!(File::read_all(10, Err(())), AllStep::Fail);
    assert_eq!(File::write_all(10, Ok(4)), AllStep::More(6));
    assert_eq!(File::write_all(10, Ok(0)), AllStep::More(10));
    assert_eq!(File::write_all(10, Ok(10)), AllStep::Done);
    assert_eq!(File::write_all(10, Err(())), AllStep::Fail);
}

#[test]
fn states() {
    let mut stat = Stat::default();
    assert_eq!(server_file(1).fstat(&mut stat), StatStep::P9(11));
    assert_eq!(console().fstat(&mut stat), StatStep::Cons(3));
    assert_eq!(stat, Stat::default());
    assert_eq!(pipe_file().fstat(&mut stat), StatStep::Done);
    assert_eq!(stat.st_nlink, 1);
}

#[test]
fn directories() {
    let mut f = server_file(1);
    assert_eq!(f.getdents64(), (11, 100));
    assert_eq!(f.listed(Ok((64, 512))), Ok(64));
    assert_eq!(f.offt, 512);
    assert_eq!(f.listed(Err(())), Err(()));
    assert_eq!(f.offt, 512);
}

#[test]
fn copy_goes_in_chunks() {
    let mut s = File::send(5000);
    assert_eq!(s, Send { total: 5000, rem: 5000 });
    assert_eq!(s.next(), SendStep::Read(4096));
    assert_eq!(s.got(Ok(4096)), SendStep::Write(4096));
    assert_eq!(s.sent(4096, true), SendStep::Read(904));
    assert_eq!(s.got(Ok(0)), SendStep::Done(4096));
    assert_eq!(s.got(Err(())), SendStep::Fail);
    assert_eq!(s.sent(904, false), SendStep::Fail);
    assert_eq!(s.sent(904, true), SendStep::Done(5000));
    assert_eq!(File::send(0).next(), SendStep::Done(0));
}

#[test]
fn readiness() {
    assert!(server_file(1).readable(false));
    assert!(console().readable(true));
    assert!(!console().readable(false));
    assert!(!File::zeroed().readable(true));
    assert!(server_file(1).writeable() && console().is_ok());
    assert!(!File::zeroed().writeable() && !File::zeroed().is_ok());
    assert!(!console().hanged_up());
    assert_eq!(console().wait4readable(), Some(3));
    assert_eq!(server_file(1).wait4readable(), None);
    assert!(pipe_file().is_pipe() && !console().is_pipe());
}

#[test]
fn whole_buffer_moves_the_position_by_its_length() {
    let mut f = server_file(1);
    let mut step = File::all_start(10);
    for n in [4, 5, 1] {
        let AllStep::More(left) = step else {
            unreachable!();
        };
        step = File::write_all(left, f.moved(Ok(n)));
    }
    assert_eq!((step, f.offt), (AllStep::Done, 110));
}

#[test]
fn copy_moves_both_positions_alike() {
    let mut from = server_file(1);
    let mut to = server_file(1);
    to.offt = 7;
    let mut s = File::send(5000);
    let mut step = s.next();
    for n in [4096, 300, 0] {
        let SendStep::Read(want) = step else {
            unreachable!();
        };
        assert!(n <= want);
        step = s.got(from.moved(Ok(n)));
        if let SendStep::Write(m) = step {
            let done = File::write_all(m, to.moved(Ok(m))) == AllStep::Done;
            step = s.sent(m, done);
        }
    }
    assert_eq!(step, SendStep::Done(4396));
    assert_eq!((from.offt, to.offt), (100 + 4396, 7 + 4396));
}

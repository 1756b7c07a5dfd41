use virt_kernel::file::{Stat, S_IFIFO};
use virt_kernel::pipe::{Pipe, PipeIo, PipeStep};

fn open_pipe() -> Pipe {
    let mut p = Pipe::new(false);
    p.dup(false, true);
    p
}

#[test]
fn new_pipe_has_one_reader() {
    let p = Pipe::new(true);
    assert_eq!((p.readers, p.writers, p.rpos, p.wpos), (1, 0, 0, 0));
    assert!(p.empty && !p.full && p.nonblock);
    assert_eq!(p.buf.len(), 4096);
}

#[test]
fn read_gives_back_what_was_written() {
    let mut p = open_pipe();
    let io = p.write(b"hello");
    assert_eq!(io, PipeIo { wake: true, step: PipeStep::Done(5) });
    let mut out = Vec::new();
    let io = p.read(&mut out, 5);
    assert_eq!(io, PipeIo { wake: true, step: PipeStep::Done(5) });
    assert_eq!(out, b"hello");
    assert!(p.empty);
}

#[test]
fn bytes_come_out_in_the_order_they_went_in() {
    let mut p = open_pipe();
    p.write(b"abc");
    p.write(b"defg");
    let mut out = Vec::new();
    p.read(&mut out, 2);
    assert_eq!(out, b"ab");
    let mut out = Vec::new();
    p.read(&mut out, 5);
    assert_eq!(out, b"cdefg");
}

#[test]
fn data_wraps_around_the_ring() {
    let mut p = open_pipe();
    let first = vec![7u8; 4000];
    p.write(&first);
    let mut out = Vec::new();
    p.read(&mut out, 4000);
    assert_eq!(out, first);
    let second: Vec<u8> = (0..200u32).map(|i| i as u8).collect();
    p.write(&second);
    assert_eq!(p.get_w_pos(), 104);
    assert_eq!(p.get_r_pos(), 4000);
    let mut out = Vec::new();
    p.read(&mut out, 200);
    assert_eq!(out, second);
}

#[test]
fn read_of_empty_pipe_sleeps_while_a_writer_is_left() {
    let mut p = open_pipe();
    let mut out = Vec::new();
    let io = p.read(&mut out, 3);
    assert_eq!(io, PipeIo { wake: false, step: PipeStep::Sleep(0) });
    p.write(b"xyz");
    let io = p.read_woken(&mut out, 3);
    assert_eq!(io.step, PipeStep::Done(3));
    assert_eq!(out, b"xyz");
}

#[test]
fn read_ends_when_the_last_writer_goes() {
    let mut p = open_pipe();
    let mut out = Vec::new();
    p.write(b"a");
    let io = p.read(&mut out, 3);
    assert_eq!(io, PipeIo { wake: true, step: PipeStep::Sleep(1) });
    assert_eq!(p.close(false), Ok(()));
    let io = p.read_woken(&mut out, 3);
    assert_eq!(io, PipeIo { wake: false, step: PipeStep::Done(1) });
    assert_eq!(out, b"a");
    let mut out = Vec::new();
    assert_eq!(p.read(&mut out, 3).step, PipeStep::Done(0));
}

#[test]
fn write_without_reader_moves_nothing() {
    let mut p = open_pipe();
    p.close(true).unwrap();
    let io = p.write(b"abcd");
    assert_eq!(io, PipeIo { wake: false, step: PipeStep::Done(4) });
    assert_eq!(p.wpos, 0);
}

#[test]
fn empty_write_to_an_empty_pipe_makes_it_full() {
    let mut p = open_pipe();
    let io = p.write(b"");
    assert_eq!(io, PipeIo { wake: true, step: PipeStep::Done(0) });
    assert!(p.full);
    assert_eq!(p.write(b"a"), PipeIo { wake: false, step: PipeStep::Sleep(0) });
}

#[test]
fn write_beyond_the_ring_overruns_it() {
    let mut p = open_pipe();
    let data = vec![1u8; 5000];
    let io = p.write(&data);
    assert_eq!(io, PipeIo { wake: true, step: PipeStep::Done(904) });
    assert_eq!(p.wpos, 5000);
    assert!(!p.full);
}

#[test]
fn space_of_a_pipe() {
    let mut p = open_pipe();
    assert_eq!(p.get_write_space(), (Some((0, 4096)), Some((0, 0))));
    assert_eq!(p.get_read_space(), (None, None));
    assert_eq!(p.write_inner(b"abc"), 3);
    assert_eq!(p.get_write_space(), (Some((3, 4096)), Some((0, 0))));
    assert_eq!(p.get_read_space(), (Some((0, 3)), None));
    let mut out = Vec::new();
    assert_eq!(p.read_inner(&mut out, 2), 2);
    assert_eq!(out, b"ab");
    assert_eq!(p.get_read_space(), (Some((2, 3)), None));
}

#[test]
fn ends_are_counted() {
    let mut p = open_pipe();
    p.dup(true, false);
    assert_eq!((p.readers, p.writers), (2, 1));
    p.close(true).unwrap();
    p.close(false).unwrap();
    assert_eq!((p.readers, p.writers), (1, 0));
}

#[test]
fn state_of_a_pipe() {
    let p = open_pipe();
    let mut stat = Stat::default();
    stat.st_uid = 5;
    stat.st_size = 9;
    assert_eq!(p.stat(&mut stat), Ok(()));
    assert_eq!(stat.st_mode, S_IFIFO);
    assert_eq!(stat.st_mode, 0o010000);
    assert_eq!((stat.st_ino, stat.st_size, stat.st_nlink, stat.st_uid), (0, 0, 1, 5));
}

use virt_kernel::desc::{close, file_closed, pipe2, CloseOut, FAIL};
use virt_kernel::execv::{execv_inner, execve, execve_ret, Act, Exec, Stage};
use virt_kernel::exit::{close_next, exit, exit_group, free_task, wait, wait4, wait_woken, WaitStep};
use virt_kernel::file::FileKind;
use virt_kernel::fork::{
    fork, fork_supported, CLONE_CHILD_CLEARTID, CLONE_CHILD_SETTID, CLONE_THREAD, CLONE_VM,
    SIGCHLD,
};
use virt_kernel::fs::P9Request;
use virt_kernel::ident::{
    geteuid, getgid, getpgid, getpid, getppid, gettid, getuid, kill, prlimit64, rseq,
    rt_sigaction, rt_sigprocmask, set_robust_list, setgid, setpgid, settid, setuid, tgkill, uname,
    OldUtsname,
};
use virt_kernel::io::{sys_read, Io};
use virt_kernel::kernel::{boot, init, Kernel};
use virt_kernel::load::{forkret, init_argv, init_envp, launched, Failed, INIT_PATH};
use virt_kernel::mm::{
    brk, brk_frames, dabt_handler, find_fault, find_region, mmap, mmap_frames, mprotect, munmap,
    CowAction, Fault, Given,
};
use virt_kernel::proc::{alloc_user_task, create_user_task, Seed};
use virt_kernel::region::Block;
use virt_kernel::sched::{scheduler, switched, Choice, Pass};
use virt_kernel::task::{State, FD};
use virt_kernel::vm::Perm;

fn seed(n: u64) -> Seed {
    Seed { user_pt: 0x5000_0000 + n * 0x1000, user_sp: 0x6000_0000 + n * 0x2000, forkret: 0xf0 }
}

fn running() -> Kernel {
    let mut k = boot();
    init(&mut k, &[0x10000, 0x20000, 0x30000, 0x40000, 0x50000, 0x60000, 0x70000, 0x80000]);
    create_user_task(&mut k, seed(0), [1, 2, 3]);
    let mut pass = Pass { next: 0, found: false };
    scheduler(&mut k, &mut pass);
    forkret(&mut k);
    launched(&mut k);
    k
}

fn regs(k: &mut Kernel, args: &[u64]) {
    let i = k.cpu.task_idx.unwrap();
    for (j, a) in args.iter().enumerate() {
        k.tasks[i].frame.regs[j] = *a;
    }
}

fn grow_heap(k: &mut Kernel, to: u64) -> Given {
    regs(k, &[to]);
    let n = brk_frames(k);
    let frames: Vec<u64> = (0..n).map(|i| 0x100_0000 + i * 0x1000).collect();
    brk(k, &frames)
}

#[test]
fn heap_grows_by_pages() {
    let mut k = running();
    let base: u64 = 0x8000_0000;
    assert_eq!(grow_heap(&mut k, 0), Given { ret: base, at: base, len: 0 });
    assert_eq!(grow_heap(&mut k, base + 1), Given { ret: base + 4096, at: base, len: 4096 });
    assert_eq!(k.tasks[0].pt.entries[&base].p, 0x100_0000);
    assert_eq!(k.tasks[0].pt.entries[&base].perm, Perm::PrPwUrUw);
    assert_eq!(grow_heap(&mut k, base + 4096).len, 0);
    assert_eq!(grow_heap(&mut k, base).ret, base + 4096);
    let far = base + 4096 + 10 * 0x10_0000;
    assert_eq!(grow_heap(&mut k, far + 1).ret, base + 4096);
    assert_eq!(grow_heap(&mut k, far).ret, far);
    assert_eq!(k.tasks[0].brk.len, 4096 + 10 * 0x10_0000);
}

fn map_pages(k: &mut Kernel, len: u64, prot: u64, table: bool) -> Given {
    regs(k, &[0, len, prot, 0x22]);
    let n = mmap_frames(k);
    let frames: Vec<u64> = (0..n).map(|i| 0x300_0000 + i * 0x1000).collect();
    mmap(k, &frames, table)
}

#[test]
fn memory_is_mapped() {
    let mut k = running();
    let base: u64 = 0x4000_0000;
    assert_eq!(map_pages(&mut k, 5000, 3, true), Given { ret: base, at: base, len: 8192 });
    assert_eq!(k.tasks[0].pt.entries[&(base + 4096)].p, 0x300_1000);
    assert_eq!(map_pages(&mut k, 1, 1, true).ret, base + 8192);
    assert_eq!(k.tasks[0].pt.entries[&(base + 8192)].perm, Perm::PrUr);
    assert_eq!(map_pages(&mut k, 1, 5, true).ret, base + 12288);
    assert_eq!(k.tasks[0].pt.entries[&(base + 12288)].perm, Perm::PrUrUx);
    assert_eq!(map_pages(&mut k, 0, 3, true), Given { ret: base + 16384, at: base + 16384, len: 0 });
    assert_eq!(map_pages(&mut k, 11 * 0x10_0000, 3, true).ret, FAIL);
    regs(&mut k, &[0, 4096, 3, 0]);
    assert_eq!(mmap(&mut k, &[], true).ret, FAIL);
    assert_eq!((munmap(), mprotect()), (0, 0));
}

#[test]
fn unreachable_page_table_fails_the_call() {
    let mut k = running();
    assert_eq!(map_pages(&mut k, 4096, 3, false), Given { ret: FAIL, at: 0, len: 0 });
    assert_eq!(k.tasks[0].mmap.len, 4096);
    assert_eq!(k.tasks[0].pt.entries.len(), 2);
    assert_eq!(getpid(&k), 0);
    let next: u64 = 0x4000_0000 + 4096;
    assert_eq!(map_pages(&mut k, 4096, 3, true), Given { ret: next, at: next, len: 4096 });
    assert_eq!(k.tasks[0].pt.entries[&next].p, 0x300_0000);
    assert_eq!(grow_heap(&mut k, 0x8000_0000 + 4096).len, 4096);
    assert_eq!(find_fault(&k, next + 3), Some(Fault { page: next, p: 0x300_0000 }));
}

#[test]
fn regions_are_found() {
    let mut k = running();
    grow_heap(&mut k, 0x8000_0000 + 4096);
    map_pages(&mut k, 4096, 1, true);
    let t = &k.tasks[0];
    assert_eq!(find_region(t, 0x8000_0010), Some(t.brk));
    assert_eq!(find_region(t, 0x4000_0010), Some(t.brk));
    assert_eq!(find_region(t, 0x2_0000_0000), None);
}

#[test]
fn write_to_a_shared_page_is_let_through() {
    let mut k = running();
    let base: u64 = 0x8000_0000;
    grow_heap(&mut k, base + 4096);
    k.tasks[0].pt.entries.get_mut(&base).unwrap().perm = Perm::PrUr;
    assert_eq!(find_fault(&k, base + 5), Some(Fault { page: base, p: 0x100_0000 }));
    assert!(dabt_handler(&mut k, base + 5, CowAction::Remap).is_empty());
    assert_eq!(k.tasks[0].pt.entries[&base].p, 0x100_0000);
    assert_eq!(k.tasks[0].pt.entries[&base].perm, Perm::PrPwUrUw);
    let copies = dabt_handler(&mut k, base + 5, CowAction::Alloc(0x900_0000));
    assert_eq!(copies, [(0x100_0000, 0x900_0000)]);
    assert_eq!(k.tasks[0].pt.entries[&base].p, 0x900_0000);
    assert_eq!(find_fault(&k, 0x1000), None);
}

#[test]
fn fork_flags() {
    assert!(fork_supported(0) && fork_supported(SIGCHLD as u64));
    assert!(fork_supported((CLONE_CHILD_CLEARTID | CLONE_CHILD_SETTID) as u64));
    assert!(!fork_supported(CLONE_VM as u64) && !fork_supported(CLONE_THREAD as u64));
    assert!(!fork_supported(1 << 33) && fork_supported(1 << 34));
}

#[test]
fn child_is_like_its_parent() {
    let mut k = running();
    let base: u64 = 0x8000_0000;
    grow_heap(&mut k, base + 4096);
    pipe2(&mut k);
    let flags = (SIGCHLD | CLONE_CHILD_CLEARTID | CLONE_CHILD_SETTID) as u64;
    regs(&mut k, &[flags, 1, 2, 3, 0x7777]);
    k.tasks[0].frame.pc = 0x1234;
    let r = fork(&mut k, seed(1), 0x55);
    assert_eq!(r.ret, 1);
    assert_eq!(r.shared, [Block { p: 0x100_0000, size: 4096 }]);
    assert_eq!(r.copies, [(0x6000_0000, 0x6000_2000), (0x6000_1000, 0x6000_3000)]);
    assert_eq!(r.tid, Some((0x7777, 1)));
    let (p, c) = (&k.tasks[0], &k.tasks[1]);
    assert_eq!((c.state, c.pid, c.parent, c.tid), (State::Ready, 1, Some(0), Some(0x7777)));
    assert_eq!((c.frame.regs[0], c.frame.regs[1], c.frame.pc), (0, 1, 0x1234));
    assert_eq!((p.frame.regs[0], p.ctx[14], c.ctx[14]), (flags, 0x55, 0x55));
    assert_eq!(c.files, p.files);
    assert_eq!(c.cwd, p.cwd);
    assert_eq!(c.brk, p.brk);
    assert_eq!(c.pt.entries[&base], p.pt.entries[&base]);
    assert_eq!(p.pt.entries[&base].perm, Perm::PrUr);
    assert_eq!(c.pt.entries[&0x2_0000_0000].p, 0x6000_2000);
    assert_eq!(k.fs.files[0].rc, 2);
    if let FileKind::Pipe(q) = &k.fs.files[3].kind {
        assert_eq!((q.readers, q.writers, k.fs.files[3].rc), (2, 2, 4));
    } else {
        unreachable!();
    }
    assert!(!c.lock.held);
    assert_eq!(k.cpu.int_disables, 0);
}

#[test]
fn fork_without_flags_tells_no_ids() {
    let mut k = running();
    regs(&mut k, &[0, 0, 0, 0, 0x7777]);
    let r = fork(&mut k, seed(1), 0);
    assert_eq!((r.ret, r.tid, k.tasks[1].tid), (1, None, None));
}

#[test]
fn there_may_be_no_slot() {
    let mut k = running();
    regs(&mut k, &[0]);
    for i in 1..8 {
        assert_eq!(fork(&mut k, seed(i), 0).ret, i);
    }
    let r = fork(&mut k, seed(9), 0);
    assert_eq!((r.ret, r.shared.len(), r.copies.len()), (FAIL, 0, 0));
    assert_eq!(alloc_user_task(&mut k, seed(9)), None);
}

/// Runs the child of the first task and lets the first task wait for it.
fn with_child() -> Kernel {
    let mut k = running();
    pipe2(&mut k);
    regs(&mut k, &[CLONE_CHILD_CLEARTID as u64, 0, 0, 0, 0x7777]);
    fork(&mut k, seed(1), 0);
    assert_eq!(wait(&mut k), WaitStep::Switch);
    assert_eq!((k.tasks[0].state, k.tasks[0].chan), (State::Sleeping, Some(0)));
    switched(&mut k);
    let mut pass = Pass { next: 1, found: false };
    assert_eq!(scheduler(&mut k, &mut pass), Choice::Run(1));
    forkret(&mut k);
    k
}

#[test]
fn parent_waits_for_its_child() {
    let mut k = with_child();
    assert_eq!((getpid(&k), getppid(&k), gettid(&k), settid(&k)), (1, 0, 1, 1));
    grow_heap(&mut k, 0x8000_0000 + 8192);
    regs(&mut k, &[42]);
    exit(&mut k);
    assert_eq!(k.tasks[1].exit_code, 42);
    for _ in 0..8 {
        assert_eq!(close_next(&mut k), CloseOut::Done(0));
    }
    assert_eq!(k.fs.files[0].rc, 1);
    if let FileKind::Pipe(q) = &k.fs.files[3].kind {
        assert_eq!((q.readers, q.writers), (1, 1));
    }
    let f = free_task(&mut k);
    assert_eq!(f.table, 0x5000_1000);
    assert_eq!(
        f.blocks,
        [
            Block { p: 0x6000_2000, size: 8192 },
            Block { p: 0x100_0000, size: 4096 },
            Block { p: 0x100_1000, size: 4096 },
        ]
    );
    assert_eq!((k.tasks[1].state, k.tasks[0].state), (State::Zombie, State::Ready));
    assert!(k.tasks[1].pt.entries.is_empty());
    switched(&mut k);
    let mut pass = Pass { next: 0, found: false };
    assert_eq!(scheduler(&mut k, &mut pass), Choice::Run(0));
    assert_eq!(wait_woken(&mut k), WaitStep::Done { ret: 1, clear: Some(0x7777) });
    assert_eq!((k.tasks[1].state, k.tasks[1].parent), (State::Free, None));
    assert_eq!(wait4(&mut k), WaitStep::Done { ret: FAIL, clear: None });
    assert_eq!(getppid(&k), 0);
    regs(&mut k, &[0]);
    assert_eq!(fork(&mut k, seed(1), 0).ret, 1);
}

#[test]
fn ending_process_closes_its_server_files() {
    let mut k = with_child();
    k.tasks[1].files[5] = Some(FD { file: 9, read: true, write: true });
    k.fs.files[9].kind = FileKind::P9(77);
    k.fs.files[9].rc = 1;
    regs(&mut k, &[0]);
    exit_group(&mut k);
    for _ in 0..5 {
        close_next(&mut k);
    }
    assert_eq!(close_next(&mut k), CloseOut::P9 { file: 9, fid: 77 });
    assert_eq!(file_closed(&mut k, 9, false), Err(()));
    assert_eq!(k.fs.files[9].rc, 1);
    assert_eq!(close_next(&mut k), CloseOut::Done(0));
    assert_eq!(close_next(&mut k), CloseOut::Done(0));
    assert_eq!(k.tasks[1].closed, 8);
}

#[test]
fn reader_is_woken_when_the_last_writer_ends() {
    let mut k = with_child();
    switch_to_parent_reading(&mut k);
    regs(&mut k, &[0]);
    exit(&mut k);
    for _ in 0..8 {
        close_next(&mut k);
    }
    assert_eq!(k.tasks[0].state, State::Ready);
}

/// The parent closes its write end and sleeps on its read end, and the child runs on.
fn switch_to_parent_reading(k: &mut Kernel) {
    virt_kernel::sched::yild(k);
    switched(k);
    k.tasks[0].state = State::Ready;
    let mut pass = Pass { next: 0, found: false };
    assert_eq!(scheduler(k, &mut pass), Choice::Run(0));
    virt_kernel::sched::slept_if(k);
    regs(k, &[4]);
    assert_eq!(close(k), CloseOut::Done(0));
    regs(k, &[3, 0x1000, 1]);
    let mut out = Vec::new();
    assert_eq!(sys_read(k, &mut out), Io::Switch(0));
    switched(k);
    assert_eq!(scheduler(k, &mut pass), Choice::Run(1));
    virt_kernel::sched::yielded(k);
}

#[test]
fn calls_that_do_nothing() {
    assert_eq!(rseq(), u64::MAX);
    let zeros = [
        set_robust_list(), prlimit64(), getuid(), geteuid(), setuid(), getgid(), setgid(), kill(),
        tgkill(), getpgid(), setpgid(), rt_sigaction(), rt_sigprocmask(),
    ];
    assert_eq!(zeros, [0; 13]);
}

#[test]
fn system_tells_its_name() {
    let mut u = OldUtsname { name: [b'x'; 45] };
    assert_eq!(uname(&mut u), 0);
    assert_eq!(&u.name[..7], b"?\0xxxxx");
    assert_eq!(&u.name[7..29], b"local\x000.0.1\x000\0aarch64\0");
    assert_eq!(&u.name[29..], &[b'x'; 16]);
}

fn put(v: &mut Vec<u8>, x: u64, n: usize) {
    for i in 0..n {
        v.push((x >> (8 * i)) as u8);
    }
}

fn header(phnum: u64) -> Vec<u8> {
    let mut v = vec![0x7f, 0x45, 0x4c, 0x46, 2, 1, 1, 0, 0, 0, 0, 0, 0, 0, 0, 0];
    put(&mut v, 2, 2);
    put(&mut v, 183, 2);
    put(&mut v, 1, 4);
    put(&mut v, 0x40_0100, 8);
    put(&mut v, 64, 8);
    put(&mut v, 0, 8);
    put(&mut v, 0, 4);
    put(&mut v, 0, 4);
    put(&mut v, phnum, 2);
    put(&mut v, 0, 6);
    v
}

fn segment(kind: u64, flags: u64, vaddr: u64) -> Vec<u8> {
    let mut v = Vec::new();
    put(&mut v, kind, 4);
    put(&mut v, flags, 4);
    put(&mut v, 0x200, 8);
    put(&mut v, vaddr, 8);
    put(&mut v, 0, 8);
    put(&mut v, 0x100, 8);
    put(&mut v, 0x1000, 8);
    put(&mut v, 0, 8);
    v
}

fn started(k: &mut Kernel) -> Exec {
    let (mut x, ask) = execve(k, b"/bin/ls", init_argv(), init_envp()).unwrap();
    assert!(matches!(ask, P9Request::Open { path, flags: 0 } if path == "/bin/ls"));
    assert!(matches!(x.opened(k, Ok(50)), Act::Read { fid: 50, offset: 0, len: 64 }));
    x
}

#[test]
fn program_is_started() {
    let mut k = running();
    grow_heap(&mut k, 0x8000_0000 + 4096);
    let mut x = started(&mut k);
    assert_eq!(k.tasks[0].loading, Some(3));
    let (freed, act) = x.header(&mut k, Ok(header(2)));
    assert_eq!(freed, [Block { p: 0x100_0000, size: 4096 }]);
    assert!(matches!(act, Act::Read { fid: 50, offset: 64, len: 56 }));
    assert_eq!(k.tasks[0].pt.entries.len(), 2);
    assert_eq!(k.tasks[0].brk.len, 0);
    let act = x.segment(&mut k, Ok(segment(0x6474_e551, 6, 0)));
    assert!(matches!(act, Act::Read { fid: 50, offset: 120, len: 56 }));
    let act = x.segment(&mut k, Ok(segment(1, 5, 0x40_0123)));
    assert!(matches!(act, Act::Frames(2)));
    let act = x.room(&mut k, &[0x700_0000, 0x700_5000]);
    if let Act::Fill(s) = act {
        assert_eq!((s.at, s.filesz, s.zeros), (0x40_0123, 0x100, 0xf00));
    } else {
        unreachable!();
    }
    assert_eq!(k.fs.files[3].offt, 0x200);
    assert_eq!(k.tasks[0].pt.entries[&0x40_0000].perm, Perm::PrPw);
    let act = x.filled(&mut k);
    assert!(matches!(act, Act::Close(50)));
    let t = &k.tasks[0];
    assert_eq!(t.pt.entries[&0x40_1000].p, 0x700_5000);
    assert_eq!(t.pt.entries[&0x40_1000].perm, Perm::PrUrUx);
    assert_eq!((t.program[0].vaddr, t.program[0].len, t.program[0].flags), (0x40_0000, 0x2000, 5));
    assert_eq!((t.frame.pc, t.frame.pstate, t.frame.regs[0]), (0x40_0100, 0, 0));
    assert!(t.frame.sp_el0 >= 0x2_0000_0000 && t.frame.sp_el0 < 0x2_0000_2000);
    if let Act::Done(r) = x.closed(&mut k, true) {
        assert_eq!(execve_ret(&r), 0);
        let e = r.unwrap();
        assert_eq!((e.stack.len(), e.ttbr0), (8192, 0x5000_0000));
    } else {
        unreachable!();
    }
    assert!(matches!(k.fs.files[3].kind, FileKind::Unused));
    assert_eq!(k.tasks[0].loading, None);
}

#[test]
fn file_that_is_no_program_leaves_the_old_one() {
    let mut k = running();
    grow_heap(&mut k, 0x8000_0000 + 4096);
    k.tasks[0].frame.pc = 0x1234;
    let mut x = started(&mut k);
    let (freed, act) = x.header(&mut k, Ok(b"#!/bin/sh".to_vec()));
    assert_eq!((k.tasks[0].frame.pc, k.tasks[0].brk.len), (0x1234, 4096));
    assert!(freed.is_empty());
    assert!(matches!(act, Act::Close(50)));
    assert_eq!(k.tasks[0].pt.entries.len(), 3);
    if let Act::Done(r) = x.closed(&mut k, false) {
        assert_eq!(execve_ret(&r), FAIL);
    } else {
        unreachable!();
    }
    assert_eq!(k.fs.files[3].rc, 1);
}

#[test]
fn text_is_no_program_whatever_it_says_of_segments() {
    let mut k = running();
    let mut x = started(&mut k);
    let (freed, act) = x.header(&mut k, Ok(vec![0xff; 64]));
    assert!(freed.is_empty());
    assert!(matches!(act, Act::Close(50)));
    assert!(matches!(x.closed(&mut k, true), Act::Done(Err(Failed { stack: None }))));
}

#[test]
fn missing_file_is_not_started() {
    let mut k = running();
    let (mut x, _) = execv_inner(&mut k, "/nope", Vec::new(), Vec::new()).unwrap();
    assert!(matches!(x.stage, Stage::Opening { file: 3, .. }));
    assert!(matches!(x.opened(&mut k, Err(())), Act::Done(Err(Failed { stack: None }))));
    assert!(matches!(k.fs.files[3].kind, FileKind::Unused));
    assert_eq!(execve(&mut k, &[0xff], Vec::new(), Vec::new()).err(), Some(FAIL));
}

#[test]
fn arguments_that_do_not_fit_end_the_start() {
    let mut k = running();
    let argv = vec![vec![b'x'; 9000]];
    let (mut x, _) = execv_inner(&mut k, "/bin/ls", argv, Vec::new()).unwrap();
    x.opened(&mut k, Ok(50));
    let (_, act) = x.header(&mut k, Ok(header(0)));
    assert!(matches!(act, Act::Close(50)));
    if let Act::Done(r) = x.closed(&mut k, true) {
        assert_eq!(execve_ret(&r), FAIL);
        assert_eq!(r.unwrap_err().stack, Some(vec![0; 8192]));
    } else {
        unreachable!();
    }
}

#[test]
fn unreadable_segment_ends_the_list() {
    let mut k = running();
    let mut x = started(&mut k);
    x.header(&mut k, Ok(header(3)));
    assert!(matches!(x.segment(&mut k, Err(())), Act::Close(50)));
    assert!(matches!(x.closed(&mut k, true), Act::Done(Ok(_))));
}

#[test]
fn first_program() {
    assert_eq!(INIT_PATH, "/bin/busybox");
    assert_eq!(init_argv(), [b"sh".to_vec(), b"-i".to_vec()]);
    let env: Vec<String> =
        init_envp().into_iter().map(|v| String::from_utf8(v).unwrap()).collect();
    assert_eq!(env, ["PATH=/bin", "PWD=/", "LC_ALL=C", "PS1=\\w \\$ "]);
    let k = running();
    assert_eq!(k.tasks[0].cwd, Some(String::from("/")));
    assert!(!k.first);
}

#[test]
fn segments_are_loaded_in_the_order_of_their_headers() {
    let mut k = running();
    grow_heap(&mut k, 0x8000_0000 + 4096);
    map_pages(&mut k, 4096, 3, true);
    let mut x = started(&mut k);
    x.header(&mut k, Ok(header(3)));
    for (kind, vaddr) in [(1, 0x50_0000), (0x6474_e551, 0), (1, 0x40_0000)] {
        let act = x.segment(&mut k, Ok(segment(kind, 5, vaddr)));
        if let Act::Frames(n) = act {
            let frames: Vec<u64> = (0..n).map(|i| 0x700_0000 + vaddr + i * 0x1000).collect();
            x.room(&mut k, &frames);
            x.filled(&mut k);
        }
    }
    assert!(matches!(x.closed(&mut k, true), Act::Done(Ok(_))));
    let at: Vec<u64> = k.tasks[0].program.iter().map(|r| r.vaddr).collect();
    assert_eq!(at, [0x50_0000, 0x40_0000]);
    assert_eq!((k.tasks[0].brk.len, k.tasks[0].mmap.len), (0, 0));
}

use virt_kernel::kernel::{boot, init, mycpu, Kernel};
use virt_kernel::load::forkret;
use virt_kernel::proc::{create_user_task, Seed};
use virt_kernel::sched::{
    restore_ttbr0, resumed, sched, scheduler, sleep, sleep_if, slept, slept_if, switched, wakeup,
    yielded, yild, Choice, Pass,
};
use virt_kernel::task::{cpuid, Cpu, Frame, State, Task, FD, NCPU};
use virt_kernel::wq::Wq;

const STACKS: [u64; 8] = [
    0x10000, 0x20000, 0x30000, 0x40000, 0x50000, 0x60000, 0x70000, 0x80000,
];

fn seed(n: u64) -> Seed {
    Seed { user_pt: 0x5000_0000 + n * 0x1000, user_sp: 0x6000_0000 + n * 0x2000, forkret: 0xf0 }
}

fn booted() -> Kernel {
    let mut k = boot();
    init(&mut k, &STACKS);
    k
}

fn running() -> Kernel {
    let mut k = booted();
    create_user_task(&mut k, seed(0), [1, 1, 1]);
    let mut pass = Pass { next: 0, found: false };
    assert_eq!(scheduler(&mut k, &mut pass), Choice::Run(0));
    forkret(&mut k);
    k
}

#[test]
fn interrupts_nest_and_stay_off() {
    let mut cpu = Cpu { int_enable: true, int_disables: 0, task_idx: None, shed_ctx: [0; 15] };
    assert!(cpu.disable_intr(0));
    assert!(!cpu.int_enable);
    assert!(!cpu.disable_intr(0));
    assert_eq!(cpu.int_disables, 2);
    assert!(!cpu.enable_intr());
    assert!(!cpu.enable_intr());
    assert_eq!(cpu.int_disables, 0);
    cpu.int_enable = true;
    cpu.int_disables = 1;
    assert!(cpu.enable_intr());
    cpu.task_idx = Some(4);
    assert_eq!(cpu.get_task(0), Some(4));
    assert_eq!((cpu.int_disables, cpu.int_enable), (0, false));
    assert_eq!((cpuid(), NCPU), (0, 1));
}

#[test]
fn boot_leaves_everything_free() {
    let mut k = booted();
    assert_eq!((k.tasks.len(), k.fs.files.len()), (8, 128));
    assert!(k.tasks.iter().all(|t| t.state == State::Free && t.umask == 777));
    assert_eq!(k.tasks[3].sp_el1, 0x40000);
    assert_eq!(mycpu(&mut k).int_disables, 0);
    mycpu(&mut k).int_disables = 7;
    assert_eq!(k.cpu.int_disables, 7);
}

#[test]
fn new_task_has_a_stack_and_consoles() {
    let mut k = booted();
    let (c, files) = create_user_task(&mut k, seed(0), [4, 5, 6]);
    assert_eq!((c, files), (0, [0, 1, 2]));
    let t = &k.tasks[0];
    assert_eq!((t.state, t.pid), (State::Ready, 0));
    assert_eq!(t.trapframe, 0x10000 + 8192 - 272);
    assert_eq!((t.ctx[12], t.ctx[13]), (t.trapframe, 0xf0));
    assert_eq!(t.pt.entries.len(), 2);
    assert_eq!(t.pt.entries[&0x2_0000_0000].p, 0x6000_0000);
    assert_eq!(t.pt.entries[&0x2_0000_1000].p, 0x6000_1000);
    assert_eq!(t.files[2], Some(FD { file: 2, read: true, write: true }));
    assert_eq!(t.files[3], None);
    assert_eq!(k.fs.files[1].rc, 1);
    assert_eq!(t.get_file(1), t.files[1]);
    assert_eq!(t.get_file(9), None);
    assert_eq!(t.free_fd(), Some(3));
    assert!(t.get_trap_frame().is_some());
    assert!(Task::zeroed().get_trap_frame().is_none());
    assert_eq!(Frame::zeroed().regs, [0; 31]);
}

#[test]
fn passes_of_the_scheduler() {
    let mut k = booted();
    create_user_task(&mut k, seed(0), [1, 1, 1]);
    create_user_task(&mut k, seed(1), [1, 1, 1]);
    let mut pass = Pass { next: 0, found: false };
    assert_eq!(scheduler(&mut k, &mut pass), Choice::Run(0));
    assert_eq!(pass, Pass { next: 1, found: true });
    assert_eq!(k.tasks[0].state, State::Running);
    assert!(k.tasks[0].lock.held);
    assert_eq!((k.cpu.task_idx, k.cpu.int_disables), (Some(0), 1));
    let start = forkret(&mut k);
    assert!(start.launch);
    assert_eq!(start.ttbr0, 0x5000_0000);
    yild(&mut k);
    assert_eq!(sched(&k), 0);
    assert_eq!(switched(&mut k), 0x5000_0000);
    assert_eq!((k.cpu.task_idx, k.cpu.int_disables), (None, 0));
    assert_eq!(scheduler(&mut k, &mut pass), Choice::Run(1));
    let start = forkret(&mut k);
    assert!(!start.launch);
    assert_eq!(start.ttbr0, (1 << 48) | 0x5000_1000);
    sleep_if(&mut k, true);
    switched(&mut k);
    assert_eq!(scheduler(&mut k, &mut pass), Choice::Again);
    assert_eq!(scheduler(&mut k, &mut pass), Choice::Run(0));
    assert_eq!(resumed(&k), 0x5000_0000);
    yielded(&mut k);
    sleep_if(&mut k, true);
    switched(&mut k);
    assert_eq!(scheduler(&mut k, &mut pass), Choice::Again);
    assert_eq!(scheduler(&mut k, &mut pass), Choice::Idle);
}

#[test]
fn sleeper_is_woken_by_its_channel_only() {
    let mut k = running();
    k.cpu.int_disables = 1;
    sleep(&mut k, 42);
    assert_eq!((k.tasks[0].state, k.tasks[0].chan), (State::Sleeping, Some(42)));
    assert!(k.tasks[0].lock.held);
    switched(&mut k);
    wakeup(&mut k, 41);
    assert_eq!(k.tasks[0].state, State::Sleeping);
    wakeup(&mut k, 42);
    assert_eq!(k.tasks[0].state, State::Ready);
    let mut pass = Pass { next: 0, found: false };
    assert_eq!(scheduler(&mut k, &mut pass), Choice::Run(0));
    slept(&mut k);
    assert_eq!(k.tasks[0].chan, None);
    assert!(!k.tasks[0].lock.held);
    assert_eq!(k.cpu.int_disables, 1);
}

#[test]
fn sleep_may_be_called_off() {
    let mut k = running();
    assert!(!sleep_if(&mut k, false));
    assert_eq!(k.tasks[0].state, State::Running);
    assert!(sleep_if(&mut k, true));
    assert_eq!((k.tasks[0].state, k.tasks[0].chan), (State::Sleeping, None));
    switched(&mut k);
    k.tasks[0].state = State::Ready;
    let mut pass = Pass { next: 0, found: false };
    scheduler(&mut k, &mut pass);
    slept_if(&mut k);
    assert_eq!(k.cpu.int_disables, 0);
}

#[test]
fn queue_holds_a_task_once() {
    let mut q = Wq::new();
    q.add(Some(3));
    q.add(Some(5));
    q.add(Some(3));
    q.add(None);
    assert_eq!(q.count, 2);
    assert_eq!((q.tasks[0], q.tasks[1]), (Some(3), Some(5)));
    assert_eq!(q.tasks[2..], [None; 6]);
    for t in 0..8 {
        q.add(Some(t));
    }
    assert_eq!(q.count, 8);
}

#[test]
fn queue_wakes_its_sleepers() {
    let mut k = running();
    let mut q = Wq::new();
    k.cpu.int_disables = 1;
    q.sleep(&mut k);
    assert_eq!((q.count, k.tasks[0].state), (1, State::Sleeping));
    switched(&mut k);
    q.add(Some(4));
    q.wake_all(&mut k);
    assert_eq!(q.count, 0);
    assert_eq!((q.tasks[0], q.tasks[1], q.tasks[2]), (Some(0), Some(4), None));
    assert_eq!(k.tasks[0].state, State::Ready);
    assert_eq!(k.tasks[4].state, State::Free);
    let mut pass = Pass { next: 0, found: false };
    scheduler(&mut k, &mut pass);
    Wq::slept(&mut k);
    assert!(!k.tasks[0].lock.held);
}

#[test]
fn translation_base() {
    assert_eq!(restore_ttbr0(3, 0x1000), (3 << 48) | 0x1000);
}

//! Waiting until one of several files can be read.
use vstd::prelude::*;

use crate::books::lemma_fd_used;
use crate::kernel::Kernel;
use crate::sched::{asleep, sleep_if};
use crate::task::{Cpu, FD};

verus! {

/// A descriptor number, what is waited for, and what has come.
#[derive(Clone, Copy, Debug, PartialEq, Eq, Structural)]
pub struct Pollfd {
    pub fd: i32,
    pub events: i16,
    pub revents: i16,
}

pub struct POLL;

impl POLL {
    pub const IN: i16 = 0x001;

    pub const PRI: i16 = 0x002;

    pub const OUT: i16 = 0x004;

    pub const ERR: i16 = 0x008;

    pub const HUP: i16 = 0x010;

    pub const NVAL: i16 = 0x020;

    pub const RDNORM: i16 = 0x040;

    pub const RDBAND: i16 = 0x080;
}

/// The descriptor that a number stands for.
pub open spec fn polled(k: Kernel, fd: i32) -> Option<FD> {
    k.cur().file_at(fd as int)
}

/// Whether the console behind this descriptor number has to be waited for, where
/// `ready` says whether it has something to read.
pub open spec fn waits(k: Kernel, fd: i32, ready: bool) -> bool {
    polled(k, fd) matches Some(d) && k.fs.files@[d.file as int].kind is Cons && !ready
}

/// What has come for a descriptor number.
pub open spec fn revents(k: Kernel, fd: i32, ready: bool) -> i16 {
    if polled(k, fd) is None {
        POLL::NVAL
    } else if waits(k, fd, ready) {
        0
    } else {
        POLL::IN
    }
}

/// Whether this descriptor number can be polled for these events: it is not the first
/// past the table, its file is no pipe, and nothing but `POLL::IN` is waited for.
pub open spec fn pollable(k: Kernel, p: Pollfd) -> bool {
    &&& p.fd != 8
    &&& polled(k, p.fd) matches Some(d) ==> !(k.fs.files@[d.file as int].kind is Pipe) && p.events
        == POLL::IN
}

/// The descriptors with what has come.
pub open spec fn polled_all(k: Kernel, ps: Seq<Pollfd>, ready: Seq<bool>) -> Seq<Pollfd> {
    Seq::new(
        ps.len(),
        |i: int| Pollfd { revents: revents(k, ps[i].fd, ready[i]), ..ps[i] },
    )
}

/// For how many descriptors something has come.
pub open spec fn events(ps: Seq<Pollfd>) -> nat
    decreases ps.len(),
{
    if ps.len() == 0 {
        0
    } else {
        events(ps.drop_last()) + if ps.last().revents != 0 {
            1nat
        } else {
            0
        }
    }
}

/// The consoles that have to be waited for.
pub open spec fn consoles(k: Kernel, ps: Seq<Pollfd>, ready: Seq<bool>) -> Seq<u32>
    decreases ps.len(),
{
    if ps.len() == 0 {
        Seq::empty()
    } else {
        let init = consoles(k, ps.drop_last(), ready);
        let fd = ps.last().fd;
        if waits(k, fd, ready[ps.len() - 1]) {
            init.push(k.fs.files@[polled(k, fd)->0.file as int].kind->Cons_0)
        } else {
            init
        }
    }
}

/// What a look at the descriptors finds: for how many something has come, the consoles
/// that are to wake the task, and whether the timer is to wake it too.
#[derive(Debug)]
pub struct Checked {
    pub n: usize,
    pub consoles: Vec<u32>,
    pub timer: bool,
}

/// Looks what has come for each descriptor. `ready` says of each whether its console,
/// if it is one, has something to read.
pub fn check_events(k: &Kernel, pfds: &mut Vec<Pollfd>, ready: &[bool], timer_wait: bool) -> (c:
    Checked)
    requires
        k.calling(),
        ready@.len() == old(pfds)@.len(),
        forall|i: int| 0 <= i < old(pfds)@.len() ==> pollable(*k, #[trigger] old(pfds)@[i]),
    ensures
        final(pfds)@ == polled_all(*k, old(pfds)@, ready@),
        c.n == events(final(pfds)@),
        c.consoles@ == consoles(*k, old(pfds)@, ready@),
        c.timer == (timer_wait && c.consoles@.len() > 0),
{
    let t: usize = k.cpu.task_idx.unwrap();
    let mut n: usize = 0;
    let mut list: Vec<u32> = Vec::new();
    let mut timer: bool = false;
    let mut i: usize = 0;
    let ghost ps = pfds@;
    let ghost all = polled_all(*k, ps, ready@);
    while i < pfds.len()
        invariant
            i <= pfds@.len(),
            t == k.at(),
            k.calling(),
            pfds@.len() == ps.len(),
            ready@.len() == ps.len(),
            all == polled_all(*k, ps, ready@),
            forall|j: int| 0 <= j < ps.len() ==> pollable(*k, #[trigger] ps[j]),
            pfds@ == all.take(i as int) + ps.skip(i as int),
            n <= i,
            n == events(all.take(i as int)),
            list@ == consoles(*k, ps.take(i as int), ready@),
            timer == (timer_wait && list@.len() > 0),
        decreases pfds@.len() - i,
    {
        let p = pfds[i];
        proof {
            assert(p == ps[i as int]);
            assert(pollable(*k, ps[i as int]));
            assert(ps.take(i + 1).drop_last() =~= ps.take(i as int));
            assert(all.take(i + 1).drop_last() =~= all.take(i as int));
        }
        let mut revents: i16 = 0;
        let d = if p.fd < 0 || p.fd > 8 {
            None
        } else {
            k.tasks[t].get_file(p.fd as usize)
        };
        match d {
            Some(d) => {
                proof {
                    lemma_fd_used(k.tasks@, k.fs.files@, t as int, p.fd as int);
                }
                let file = &k.fs.files[d.file];
                if !file.is_ok() {
                    revents = POLL::ERR;
                }
                if file.hanged_up() {
                    revents = POLL::HUP;
                }
                if revents == 0 {
                    if file.readable(ready[i]) {
                        revents = POLL::IN;
                    } else {
                        if let Some(c) = file.wait4readable() {
                            list.push(c);
                        }
                        if timer_wait {
                            timer = true;
                        }
                    }
                }
            },
            None => {
                revents = POLL::NVAL;
            },
        }
        if revents != 0 {
            n += 1;
        }
        pfds[i].revents = revents;
        proof {
            assert(pfds@[i as int] == all[i as int]);
            assert(pfds@ =~= all.take(i + 1) + ps.skip(i + 1));
        }
        i += 1;
    }
    proof {
        assert(all.take(i as int) =~= all);
        assert(ps.take(i as int) =~= ps);
        assert(pfds@ =~= all);
    }
    Checked { n, consoles: list, timer }
}

/// How `ppoll` goes on: with a result, or asleep. Either way the task is to be woken by
/// the consoles that have nothing to read yet, and by the timer if that is set: the
/// descriptors are looked at one by one, and each that has to wait is waited for, whatever
/// comes for the others.
#[derive(Debug)]
pub enum PollStep {
    Done { ret: u64, consoles: Vec<u32>, timer: bool },
    Switch { consoles: Vec<u32>, timer: bool },
}

impl PollStep {
    /// Whether the task is to be woken by these consoles, and whether by the timer.
    pub open spec fn wakers(self, c: Seq<u32>, timer: bool) -> bool {
        match self {
            PollStep::Done { ret, consoles, timer: t } => consoles@ == c && t == timer,
            PollStep::Switch { consoles, timer: t } => consoles@ == c && t == timer,
        }
    }
}

/// Whether the time is over: more than `timeout` milliseconds have gone by.
pub open spec fn is_over(timeout: Option<u64>, start: u64, now: u64) -> bool {
    timeout matches Some(ms) && now - start > ms
}

/// Waits until something has come for one of the descriptors, or the time is over. It
/// is called again after each sleep.
pub fn ppoll(
    k: &mut Kernel,
    pfds: &mut Vec<Pollfd>,
    ready: &[bool],
    timeout: Option<u64>,
    start: u64,
    now: u64,
) -> (s: PollStep)
    requires
        old(k).calling(),
        ready@.len() == old(pfds)@.len(),
        old(pfds)@.len() == old(k).arg(1),
        start <= now,
        forall|i: int| 0 <= i < old(pfds)@.len() ==> pollable(*old(k), #[trigger] old(pfds)@[i]),
    ensures
        final(pfds)@ == polled_all(*old(k), old(pfds)@, ready@),
        ({
            let c = consoles(*old(k), old(pfds)@, ready@);
            s.wakers(c, timeout is Some && c.len() > 0)
        }),
        ({
            let n = events(final(pfds)@);
            if old(k).arg(1) == 0 || n > 0 || is_over(timeout, start, now) {
                &&& s is Done && s->ret == n
                &&& *final(k) == *old(k)
                &&& final(k).calling()
            } else {
                &&& s is Switch
                &&& final(k).leaving()
                &&& *final(k) == (Kernel {
                    cpu: Cpu { int_disables: 1, ..old(k).cpu },
                    tasks: final(k).tasks,
                    ..*old(k)
                })
                &&& final(k).tasks@ == old(k).tasks@.update(
                    old(k).at(),
                    asleep(old(k).cur(), None),
                )
            }
        }),
{
    let i: usize = k.cpu.task_idx.unwrap();
    if k.tasks[i].frame.regs[1] == 0 {
        assert(pfds@ =~= polled_all(*old(k), old(pfds)@, ready@));
        return PollStep::Done { ret: 0, consoles: Vec::new(), timer: false };
    }
    let c = check_events(k, pfds, ready, timeout.is_some());
    let over: bool = match timeout {
        Some(ms) => now - start > ms,
        None => false,
    };
    if sleep_if(k, c.n == 0 && !over) {
        return PollStep::Switch { consoles: c.consoles, timer: c.timer };
    }
    PollStep::Done { ret: c.n as u64, consoles: c.consoles, timer: c.timer }
}

/// A poll that sleeps waits for some console, and nothing has come for any descriptor.
pub proof fn law_poll_sleeps_on_consoles(k: Kernel, ps: Seq<Pollfd>, ready: Seq<bool>)
    requires
        ps.len() > 0,
        ready.len() == ps.len(),
        events(polled_all(k, ps, ready)) == 0,
    ensures
        consoles(k, ps, ready).len() == ps.len(),
        forall|i: int| 0 <= i < ps.len() ==> waits(k, (#[trigger] ps[i]).fd, ready[i]),
{
    lemma_all_wait(k, ps, ready, ps.len() as int);
    assert(ps.take(ps.len() as int) =~= ps);
}

proof fn lemma_all_wait(k: Kernel, ps: Seq<Pollfd>, ready: Seq<bool>, n: int)
    requires
        0 <= n <= ps.len(),
        ready.len() == ps.len(),
        events(polled_all(k, ps, ready)) == 0,
    ensures
        consoles(k, ps.take(n), ready).len() == n,
        forall|i: int| 0 <= i < n ==> waits(k, (#[trigger] ps[i]).fd, ready[i]),
    decreases n,
{
    if n > 0 {
        lemma_all_wait(k, ps, ready, n - 1);
        let all = polled_all(k, ps, ready);
        lemma_no_events(all, n - 1);
        assert(all[n - 1].revents == 0);
        assert(ps.take(n).drop_last() =~= ps.take(n - 1));
    }
}

proof fn lemma_no_events(ps: Seq<Pollfd>, i: int)
    requires
        events(ps) == 0,
        0 <= i < ps.len(),
    ensures
        ps[i].revents == 0,
    decreases ps.len(),
{
    if i < ps.len() - 1 {
        lemma_no_events(ps.drop_last(), i);
    }
}

} // verus!

//! System calls that tell who a process and the system are, and those that do nothing.
use vstd::prelude::*;

use crate::desc::FAIL;
use crate::kernel::{slot_sound, Kernel};

verus! {

pub fn getpid(k: &Kernel) -> (n: u64)
    requires
        k.calling(),
    ensures
        n == k.cur().pid,
{
    k.tasks[k.cpu.task_idx.unwrap()].pid as u64
}

/// The process id of the parent, or that of the process where it has none.
pub fn getppid(k: &Kernel) -> (n: u64)
    requires
        k.calling(),
    ensures
        n == match k.cur().parent {
            Some(p) => k.tasks@[p as int].pid,
            None => k.cur().pid,
        },
{
    let i: usize = k.cpu.task_idx.unwrap();
    assert(slot_sound(k.tasks@[i as int], i as int));
    match k.tasks[i].parent {
        Some(p) => k.tasks[p].pid as u64,
        None => k.tasks[i].pid as u64,
    }
}

/// A process has one thread, with its id.
pub fn gettid(k: &Kernel) -> (n: u64)
    requires
        k.calling(),
    ensures
        n == k.cur().pid,
{
    getpid(k)
}

pub fn settid(k: &Kernel) -> (n: u64)
    requires
        k.calling(),
    ensures
        n == k.cur().pid,
{
    k.tasks[k.cpu.task_idx.unwrap()].pid as u64
}

pub fn set_robust_list() -> (n: u64)
    ensures
        n == 0,
{
    0
}

pub fn rseq() -> (n: u64)
    ensures
        n == FAIL,
{
    FAIL
}

pub fn prlimit64() -> (n: u64)
    ensures
        n == 0,
{
    0
}

pub fn getuid() -> (n: u64)
    ensures
        n == 0,
{
    0
}

pub fn geteuid() -> (n: u64)
    ensures
        n == 0,
{
    0
}

pub fn setuid() -> (n: u64)
    ensures
        n == 0,
{
    0
}

pub fn getgid() -> (n: u64)
    ensures
        n == 0,
{
    0
}

pub fn setgid() -> (n: u64)
    ensures
        n == 0,
{
    0
}

pub fn kill() -> (n: u64)
    ensures
        n == 0,
{
    0
}

pub fn tgkill() -> (n: u64)
    ensures
        n == 0,
{
    0
}

pub fn getpgid() -> (n: u64)
    ensures
        n == 0,
{
    0
}

pub fn setpgid() -> (n: u64)
    ensures
        n == 0,
{
    0
}

pub fn rt_sigaction() -> (n: u64)
    ensures
        n == 0,
{
    0
}

pub fn rt_sigprocmask() -> (n: u64)
    ensures
        n == 0,
{
    0
}

/// What a program gets to know of the system.
#[derive(Clone, Copy, Debug)]
pub struct OldUtsname {
    pub name: [u8; 45],
}

/// The name of the system, and a zero byte.
pub open spec fn sysname() -> Seq<u8> {
    seq![0x3fu8, 0u8]
}

/// `local`, `0.0.1`, `0` and `aarch64`, each with a zero byte after it.
pub open spec fn details() -> Seq<u8> {
    seq![
        0x6cu8, 0x6fu8, 0x63u8, 0x61u8, 0x6cu8, 0u8,
        0x30u8, 0x2eu8, 0x30u8, 0x2eu8, 0x31u8, 0u8,
        0x30u8, 0u8,
        0x61u8, 0x61u8, 0x72u8, 0x63u8, 0x68u8, 0x36u8, 0x34u8, 0u8,
    ]
}

/// Fills in what the system is: its name at the start, and the details from the eighth
/// byte on. The bytes between and behind them stay as they are.
pub fn uname(ptr: &mut OldUtsname) -> (n: u64)
    ensures
        n == 0,
        final(ptr).name@ == sysname() + old(ptr).name@.subrange(2, 7) + details() + old(
            ptr,
        ).name@.subrange(29, 45),
{
    let text: [u8; 22] = [
        0x6c, 0x6f, 0x63, 0x61, 0x6c, 0,
        0x30, 0x2e, 0x30, 0x2e, 0x31, 0,
        0x30, 0,
        0x61, 0x61, 0x72, 0x63, 0x68, 0x36, 0x34, 0,
    ];
    ptr.name[0] = 0x3f;
    ptr.name[1] = 0;
    let mut i: usize = 0;
    let ghost first = ptr.name@;
    while i < 22
        invariant
            i <= 22,
            first.len() == 45,
            text@ == details(),
            ptr.name@ == first.take(7) + details().take(i as int) + first.skip(7 + i),
        decreases 22 - i,
    {
        ptr.name[7 + i] = text[i];
        i += 1;
        assert(ptr.name@ =~= first.take(7) + details().take(i as int) + first.skip(7 + i));
    }
    assert(ptr.name@ =~= sysname() + old(ptr).name@.subrange(2, 7) + details() + old(
        ptr,
    ).name@.subrange(29, 45));
    0
}

} // verus!

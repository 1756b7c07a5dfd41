//! The processor and the tasks that share it.
use vstd::prelude::*;

use crate::region::{RTree, Region, RegionType, REGION_MAX_SZ};
use crate::stack::SPEL0_SIZE;
use crate::vm::{PageTable, Perm, GB};

verus! {

/// Processors.
pub const NCPU: usize = 1;

/// Slots for tasks.
pub const NTASKS: usize = 8;

/// File descriptors of a task.
pub const NFDS: usize = 8;

/// Bytes in the kernel stack of a task.
pub const STACKSIZE: u64 = 8192;

/// Bytes in a saved trap frame: 31 registers, the program counter, the stack pointer
/// and the processor state.
pub const FRAME_SIZE: u64 = 272;

/// The processor.
pub struct Cpu {
    pub int_enable: bool,
    pub int_disables: u32,
    pub task_idx: Option<usize>,
    pub shed_ctx: [u64; 15],
}

impl Cpu {
    /// Nests one more reason to keep interrupts off, where `daif` is the interrupt
    /// mask of the processor; returns whether they have to be masked now.
    pub fn disable_intr(&mut self, daif: u64) -> (mask: bool)
        requires
            old(self).int_disables < u32::MAX,
        ensures
            mask == (old(self).int_disables == 0),
            *final(self) == (Cpu {
                int_enable: if old(self).int_disables == 0 {
                    (daif | 2) == 0
                } else {
                    old(self).int_enable
                },
                int_disables: (old(self).int_disables + 1) as u32,
                ..*old(self)
            }),
    {
        let first = self.int_disables == 0;
        if first {
            self.int_enable = (daif | 2) == 0;
        }
        self.int_disables += 1;
        first
    }

    /// Takes one reason back; returns whether interrupts have to be unmasked now.
    pub fn enable_intr(&mut self) -> (unmask: bool)
        requires
            old(self).int_disables > 0,
        ensures
            unmask == (old(self).int_disables == 1 && old(self).int_enable),
            *final(self) == (Cpu {
                int_disables: (old(self).int_disables - 1) as u32,
                ..*old(self)
            }),
    {
        let last = self.int_disables == 1 && self.int_enable;
        self.int_disables -= 1;
        last
    }

    /// The task that runs on this processor.
    pub fn get_task(&mut self, daif: u64) -> (t: Option<usize>)
        requires
            old(self).int_disables < u32::MAX,
        ensures
            t == old(self).task_idx,
            *final(self) == (Cpu {
                int_enable: if old(self).int_disables == 0 {
                    (daif | 2) == 0
                } else {
                    old(self).int_enable
                },
                ..*old(self)
            }),
    {
        let _ = self.disable_intr(daif);
        let task = self.task_idx;
        let _ = self.enable_intr();
        task
    }
}

/// Whatever the interrupt mask was, switching interrupts off records that they were
/// off: nothing switches them on again.
pub proof fn law_interrupts_stay_off(daif: u64)
    ensures
        !((daif | 2) == 0),
{
    assert(!((daif | 2) == 0)) by (bit_vector);
}

pub fn cpuid() -> (n: usize)
    ensures
        n == 0,
        n < NCPU,
{
    0
}

#[derive(Clone, Copy, Debug, PartialEq, Eq, Structural)]
pub enum State {
    Free,
    Used,
    Ready,
    Running,
    Sleeping,
    Zombie,
}

/// A task's lock, which is handed over when the processor changes tasks.
#[derive(Clone, Copy, Debug, PartialEq, Eq, Structural)]
pub struct Lock {
    pub held: bool,
}

impl Lock {
    pub fn holding(&self) -> (b: bool)
        ensures
            b == self.held,
    {
        self.held
    }
}

/// A file descriptor: an open file, by its slot, and which ends of it are meant.
#[derive(Clone, Copy, Debug, PartialEq, Eq, Structural)]
pub struct FD {
    pub file: usize,
    pub read: bool,
    pub write: bool,
}

/// The registers of a program that has entered the kernel.
#[derive(Clone, Copy, Debug)]
pub struct Frame {
    pub pc: u64,
    pub sp_el0: u64,
    pub pstate: u64,
    pub regs: [u64; 31],
}

impl Frame {
    pub open spec fn is_zeroed(self) -> bool {
        &&& self.pc == 0
        &&& self.sp_el0 == 0
        &&& self.pstate == 0
        &&& self.regs@ =~= Seq::new(31, |i: int| 0u64)
    }

    pub fn zeroed() -> (f: Frame)
        ensures
            f.is_zeroed(),
    {
        Frame { pc: 0, sp_el0: 0, pstate: 0, regs: [0u64; 31] }
    }
}

/// A task.
pub struct Task {
    /// The task that waits for this one.
    pub parent: Option<usize>,
    pub exit_code: u64,
    /// The kernel stack.
    pub sp_el1: u64,
    /// Where to clear the thread id when the task is gone.
    pub tid: Option<u64>,
    pub state: State,
    pub ctx: [u64; 15],
    pub lock: Lock,
    /// Where the trap frame is saved.
    pub trapframe: u64,
    /// What the trap frame holds.
    pub frame: Frame,
    /// The frame of the page table.
    pub user_pt: Option<u64>,
    /// What the page table holds.
    pub pt: PageTable,
    /// The frames of the user stack.
    pub user_sp: Option<u64>,
    /// What the task sleeps on.
    pub chan: Option<u64>,
    pub pid: u16,
    pub files: [Option<FD>; 8],
    /// The file of the program that is being loaded.
    pub loading: Option<usize>,
    /// How many descriptors, from the first on, the task has given up for good.
    pub closed: usize,
    pub program: RTree,
    pub mmap: Region,
    pub brk: Region,
    pub spel0: Region,
    pub umask: u32,
    pub cwd: Option<String>,
}

/// A table of descriptors with none in it.
pub open spec fn no_files() -> Seq<Option<FD>> {
    Seq::new(8, |i: int| None)
}

pub open spec fn new_mmap() -> Region {
    Region { ty: RegionType::Mmap, vaddr: GB, cap: GB, len: 0, flags: 6, granule: 0 }
}

pub open spec fn new_brk() -> Region {
    Region {
        ty: RegionType::Brk,
        vaddr: 0x8000_0000,
        cap: GB,
        len: 0,
        flags: 6,
        granule: 0,
    }
}

pub open spec fn user_stack_region() -> Region {
    Region {
        ty: RegionType::Stack,
        vaddr: 0x2_0000_0000,
        cap: 8192,
        len: 8192,
        flags: 6,
        granule: 1,
    }
}

impl Task {
    /// A task slot as it is before its first use.
    pub open spec fn is_zeroed(self) -> bool {
        &&& self.ctx@ =~= Seq::new(15, |i: int| 0u64)
        &&& self.frame.is_zeroed()
        &&& self.pt@ =~= Map::empty()
        &&& self.files@ =~= no_files()
        &&& self.program@ =~= Seq::empty()
        &&& self == (Task {
            parent: None,
            exit_code: 0,
            sp_el1: 0,
            tid: None,
            state: State::Free,
            lock: Lock { held: false },
            trapframe: 0,
            user_pt: None,
            user_sp: None,
            chan: None,
            pid: 0,
            loading: None,
            closed: 8,
            mmap: new_mmap(),
            brk: new_brk(),
            spel0: user_stack_region(),
            umask: 777,
            cwd: None,
            ..self
        })
    }

    pub fn zeroed() -> (t: Task)
        ensures
            t.is_zeroed(),
    {
        Task {
            parent: None,
            exit_code: 0,
            sp_el1: 0,
            tid: None,
            state: State::Free,
            ctx: [0u64; 15],
            lock: Lock { held: false },
            trapframe: 0,
            frame: Frame::zeroed(),
            user_pt: None,
            pt: PageTable::new(),
            user_sp: None,
            chan: None,
            pid: 0,
            files: [None; 8],
            loading: None,
            closed: 8,
            program: Vec::new(),
            mmap: Region {
                ty: RegionType::Mmap,
                vaddr: GB,
                cap: REGION_MAX_SZ,
                len: 0,
                flags: 6,
                granule: 0,
            },
            brk: Region {
                ty: RegionType::Brk,
                vaddr: 2 * GB,
                cap: REGION_MAX_SZ,
                len: 0,
                flags: 6,
                granule: 0,
            },
            spel0: Region {
                ty: RegionType::Stack,
                vaddr: 8 * GB,
                cap: SPEL0_SIZE as u64,
                len: SPEL0_SIZE as u64,
                flags: 6,
                granule: 1,
            },
            umask: 777,
            cwd: None,
        }
    }

    /// The registers with which the task entered the kernel, once it has any.
    pub fn get_trap_frame(&self) -> (f: Option<&Frame>)
        ensures
            f == if self.trapframe == 0 {
                None
            } else {
                Some(&self.frame)
            },
    {
        if self.trapframe == 0 {
            None
        } else {
            Some(&self.frame)
        }
    }

    /// What `get_file` finds under a descriptor.
    pub open spec fn file_at(self, idx: int) -> Option<FD> {
        if 0 <= idx < 8 {
            self.files@[idx]
        } else {
            None
        }
    }

    /// The descriptor `idx`. The first number past the table is no descriptor that can
    /// be asked for.
    pub fn get_file(&self, idx: usize) -> (fd: Option<FD>)
        requires
            idx != 8,
        ensures
            fd == self.file_at(idx as int),
    {
        if idx > NFDS {
            return None;
        }
        self.files[idx]
    }

    /// The first free descriptor.
    pub open spec fn is_first_free(self, idx: int) -> bool {
        &&& 0 <= idx < 8
        &&& self.files@[idx] is None
        &&& forall|j: int| 0 <= j < idx ==> (#[trigger] self.files@[j]) is Some
    }

    pub open spec fn no_free_fd(self) -> bool {
        forall|j: int| 0 <= j < 8 ==> (#[trigger] self.files@[j]) is Some
    }

    /// The number of the first free descriptor.
    pub fn free_fd(&self) -> (r: Option<usize>)
        ensures
            match r {
                Some(i) => self.is_first_free(i as int),
                None => self.no_free_fd(),
            },
    {
        let mut i: usize = 0;
        while i < NFDS
            invariant
                i <= 8,
                forall|j: int| 0 <= j < i ==> (#[trigger] self.files@[j]) is Some,
            decreases 8 - i,
        {
            if self.files[i].is_none() {
                return Some(i);
            }
            i += 1;
        }
        None
    }

    /// Puts a descriptor under the first free number.
    pub fn alloc_file(&mut self, file: FD) -> (r: Option<usize>)
        ensures
            *final(self) == (Task { files: final(self).files, ..*old(self) }),
            match r {
                Some(i) => old(self).is_first_free(i as int) && final(self).files@
                    == old(self).files@.update(i as int, Some(file)),
                None => old(self).no_free_fd() && *final(self) == *old(self),
            },
    {
        match self.free_fd() {
            Some(i) => {
                self.files[i] = Some(file);
                Some(i)
            },
            None => None,
        }
    }

    /// Whether this is the task `old` with an address space that holds its user stack,
    /// its first context, and these descriptors.
    pub open spec fn is_set_up(
        self,
        old: Task,
        user_pt: u64,
        user_sp: u64,
        forkret: u64,
        files: Seq<Option<FD>>,
    ) -> bool {
        let tf = (old.sp_el1 + STACKSIZE - FRAME_SIZE) as u64;
        &&& self.pt@ == crate::vm::with_pages(
            Map::empty(),
            0x2_0000_0000,
            user_sp as int,
            8192,
            Perm::PrPwUrUw,
        )
        &&& self.ctx@ == old.ctx@.update(12, tf).update(13, forkret)
        &&& self.files@ == files
        &&& self == (Task {
            user_pt: Some(user_pt),
            user_sp: Some(user_sp),
            trapframe: tf,
            frame: Frame { pstate: 0, ..old.frame },
            closed: 0,
            pt: self.pt,
            ctx: self.ctx,
            files: self.files,
            ..old
        })
    }

    /// Gives the task an address space: `user_pt` is the frame of its page table,
    /// `user_sp` that of its stack, and `forkret` is where it starts.
    pub fn init_user(&mut self, user_pt: u64, user_sp: u64, forkret: u64)
        requires
            old(self).spel0 == user_stack_region(),
            old(self).sp_el1 + STACKSIZE <= u64::MAX,
            user_sp + 8192 <= u64::MAX,
        ensures
            final(self).is_set_up(*old(self), user_pt, user_sp, forkret, no_files()),
    {
        self.user_pt = Some(user_pt);
        self.pt = PageTable::new();
        let r = crate::vm::map(
            &mut self.pt,
            self.spel0.vaddr,
            user_sp,
            self.spel0.len / 4096,
            Perm::PrPwUrUw,
        );
        assert(r is Ok);
        self.user_sp = Some(user_sp);
        let tf_ptr: u64 = self.sp_el1 + STACKSIZE - FRAME_SIZE;
        self.frame.pstate = 0;
        self.ctx[12] = tf_ptr;
        self.ctx[13] = forkret;
        self.files = [None; 8];
        self.closed = 0;
        self.trapframe = tf_ptr;
        assert(self.files@ =~= no_files());
    }

    /// Gives the task its kernel stack.
    pub fn init(&mut self, sp_el1: u64)
        ensures
            *final(self) == (Task { sp_el1, ..*old(self) }),
    {
        self.sp_el1 = sp_el1;
    }
}

} // verus!

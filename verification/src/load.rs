//! The steps of starting a program: its file, its memory, its stack and its registers.
use vstd::prelude::*;
use vstd::string::StringExecFns;
use vstd::utf8::encode_utf8;

use crate::books::{books, counted, fd_sound, lemma_books};
use crate::books::{lemma_fds_bound, lemma_uses_has, task_sound, task_uses, uses, End};
use crate::calls::lemma_slot_taken;
use crate::desc::{lemma_sound, lemma_unused, CloseOut};
use crate::elf::{Elf, Elf64Phdr, PF_R, PF_W, PF_X, PT_LOAD};
use crate::file::{CloseStep, File, FileKind};
use crate::fs::opened;
use crate::kernel::{framed, slot_sound, space_full, space_sound, Kernel};
use crate::mm::{lemma_new_space, page_up};
use crate::region::{all_blocks, known_flags, loaded_perm, Block, Region, RegionType};
use crate::sched::{restore_ttbr0, ttbr0, unlock};
use crate::space::{is_reset, lemma_segment, lemma_space_same_pages, map_frames, reset_space};
use crate::space::{usable_frames, with_frames};
use crate::stack::{kept, spoiled_image, stack_fits, stack_image, stack_start, strings, user_stack};
use crate::task::{Cpu, Frame, Lock, Task};
use crate::vm::{align_b, align_f, all_mapped, map_chg_perms, unmapped, with_perm, Perm};

verus! {

/// Whether the file of a program has been opened in the slot `file`, where the server
/// gave a handle for it. The task holds the file until the program is loaded.
pub open spec fn is_loading(
    k: Kernel,
    old: Kernel,
    file: usize,
    path: Seq<char>,
    reply: Result<u32, ()>,
) -> bool {
    let f = k.fs.files@[file as int];
    &&& k.serving()
    &&& k == (Kernel { tasks: k.tasks, fs: k.fs, ..old })
    &&& k.fs.files@ == old.fs.files@.update(file as int, f)
    &&& match reply {
        Ok(fid) => {
            &&& k.tasks@ == old.tasks@.update(
                old.at(),
                Task { loading: Some(file), ..old.cur() },
            )
            &&& f == (File { kind: FileKind::P9(fid), rc: 1, offt: 0, path: f.path })
            &&& f.path is Some && f.path->0@ == path
        },
        Err(_) => {
            &&& k.tasks@ == old.tasks@
            &&& f == (File { kind: FileKind::Unused, ..old.fs.files@[file as int] })
        },
    }
}

/// Ends opening the file of a program: `reply` is the handle that the server gave.
pub(crate) fn file_opened(k: &mut Kernel, file: usize, path: &str, reply: Result<u32, ()>) -> (r:
    Result<usize, ()>)
    requires
        old(k).serving(),
        old(k).cur().loading is None,
        file < 128,
        old(k).fs.files@[file as int].kind is Used,
    ensures
        r is Ok <==> reply is Ok,
        is_loading(*final(k), *old(k), file, path@, reply),
{
    let i: usize = k.cpu.task_idx.unwrap();
    let ghost ts = k.tasks@;
    let ghost fs0 = k.fs.files@;
    match opened(&mut k.fs, file, path, reply) {
        Ok(f) => {
            k.tasks[i].loading = Some(f);
            proof {
                let g = file as int;
                let t0 = ts[i as int];
                let t = k.tasks@[i as int];
                assert(k.tasks@ =~= ts.update(i as int, t));
                assert(slot_sound(t0, i as int));
                lemma_unused(ts, fs0, g);
                assert(task_uses(ts[i as int], g, End::Any) == 0);
                assert(task_uses(ts[i as int], g, End::Read) == 0);
                assert(task_uses(ts[i as int], g, End::Write) == 0);
                assert(task_sound(t0, fs0));
                assert forall|j: int| t.closed <= j < 8 implies fd_sound(
                    #[trigger] t.files@[j],
                    k.fs.files@,
                ) by {
                    assert(fd_sound(t0.files@[j], fs0));
                }
                lemma_books(ts, fs0, i as int, t, g, k.fs.files@[g]);
                lemma_sound(*k, *old(k), t);
            }
            Ok(f)
        },
        Err(_) => {
            proof {
                lemma_slot_taken(*k, *old(k), file as int, k.fs.files@[file as int]);
            }
            Err(())
        },
    }
}

/// Whether the current task has given the file of its program up, and what that asks
/// for.
pub open spec fn is_dropped(k: Kernel, old: Kernel, r: CloseOut) -> bool {
    let file = old.cur().loading->0;
    let f = file as int;
    let was = old.fs.files@[f];
    &&& k.serving()
    &&& k == (Kernel { tasks: k.tasks, fs: k.fs, ..old })
    &&& k.tasks@ == old.tasks@.update(old.at(), Task { loading: None, ..old.cur() })
    &&& k.fs.files@[f].is_let_go(was, true)
    &&& k.fs.files@ == old.fs.files@.update(f, k.fs.files@[f])
    &&& match was.close_step() {
        CloseStep::P9(fid) => {
            &&& r == (CloseOut::P9 { file, fid })
            &&& k.fs.files@[f].kind is P9
            &&& k.fs.files@[f].rc == 0
            &&& uses(k.tasks@, f, End::Any) == 0
        },
        _ => r == CloseOut::Done(0),
    }
}

/// Gives the file of a program up, once the program is loaded or has turned out not to
/// be one. Where the server has to close the file, what it says makes no difference.
pub(crate) fn drop_file(k: &mut Kernel) -> (r: CloseOut)
    requires
        old(k).serving(),
        old(k).cur().loading is Some,
    ensures
        is_dropped(*final(k), *old(k), r),
{
    let i: usize = k.cpu.task_idx.unwrap();
    let f: usize = k.tasks[i].loading.unwrap();
    let ghost ts = k.tasks@;
    let ghost fs0 = k.fs.files@;
    let ghost t0 = ts[i as int];
    proof {
        assert(task_sound(t0, fs0));
        assert(slot_sound(t0, i as int));
        lemma_loading_used(ts, fs0, i as int);
    }
    let s = k.fs.files[f].close(true, false);
    k.tasks[i].loading = None;
    proof {
        let g = f as int;
        let t = k.tasks@[i as int];
        assert(k.tasks@ =~= ts.update(i as int, t));
        assert(k.fs.files@ =~= fs0.update(g, k.fs.files@[g]));
        assert(counted(
            fs0[g],
            uses(ts, g, End::Any),
            uses(ts, g, End::Read),
            uses(ts, g, End::Write),
        ));
        assert forall|j: int| t.closed <= j < 8 implies fd_sound(
            #[trigger] t.files@[j],
            k.fs.files@,
        ) by {
            assert(fd_sound(t0.files@[j], fs0));
        }
        lemma_books(ts, fs0, i as int, t, g, k.fs.files@[g]);
        lemma_sound(*k, *old(k), t);
        crate::books::lemma_uses_update(ts, i as int, t, g, End::Any);
    }
    match s {
        CloseStep::P9(fid) => CloseOut::P9 { file: f, fid },
        _ => CloseOut::Done(0),
    }
}

/// The file of a program that is loaded is in use.
proof fn lemma_loading_used(ts: Seq<Task>, files: Seq<File>, i: int)
    requires
        books(ts, files),
        0 <= i < ts.len(),
        ts[i].loading is Some,
    ensures
        uses(ts, ts[i].loading->0 as int, End::Any) >= 1,
{
    let f = ts[i].loading->0 as int;
    assert forall|k: int| 0 <= k < ts.len() implies (#[trigger] ts[k]).closed <= 8 by {
        assert(task_sound(ts[k], files));
    }
    lemma_fds_bound(ts[i].files@, ts[i].closed as int, f, End::Any);
    lemma_uses_has(ts, i, f, End::Any);
}

/// Whether the file of the current task's program is at another position.
pub open spec fn is_sought(k: Kernel, old: Kernel, offt: u64) -> bool {
    let f = old.cur().loading->0 as int;
    &&& k.serving()
    &&& k == (Kernel { fs: k.fs, ..old })
    &&& k.fs.files@ == old.fs.files@.update(f, File { offt, ..old.fs.files@[f] })
}

/// Moves to a position in the file of the program.
pub(crate) fn seek_file(k: &mut Kernel, offt: u64)
    requires
        old(k).serving(),
        old(k).cur().loading is Some,
    ensures
        is_sought(*final(k), *old(k), offt),
{
    let i: usize = k.cpu.task_idx.unwrap();
    let f: usize = k.tasks[i].loading.unwrap();
    assert(task_sound(k.tasks@[i as int], k.fs.files@));
    k.fs.files[f].seek_to(offt);
    proof {
        assert(k.fs.files@ =~= old(k).fs.files@.update(f as int, k.fs.files@[f as int]));
        crate::io::lemma_file_changed(*k, *old(k), f as int);
    }
}

/// Whether the current task has lost the memory of its program, but for its stack.
pub open spec fn is_cleared(k: Kernel, old: Kernel, freed: Seq<Block>) -> bool {
    let t = old.cur();
    &&& k.serving()
    &&& k.with_task(old, old.at(), k.cur())
    &&& is_reset(k.cur(), t)
    &&& space_full(k.cur())
    &&& freed == t.mmap.blocks(t.pt@) + t.brk.blocks(t.pt@) + all_blocks(t.program@, t.pt@)
}

/// Takes the memory of the old program, but for its stack; returns the blocks to be
/// freed.
pub(crate) fn clear_space(k: &mut Kernel) -> (freed: Vec<Block>)
    requires
        old(k).serving(),
        space_full(old(k).cur()),
    ensures
        is_cleared(*final(k), *old(k), freed@),
{
    let i: usize = k.cpu.task_idx.unwrap();
    proof {
        assert(slot_sound(k.tasks@[i as int], i as int));
        assert(space_sound(k.tasks@[i as int]));
    }
    let freed: Vec<Block> = reset_space(&mut k.tasks[i]);
    proof {
        let t = k.tasks@[i as int];
        assert(k.tasks@ =~= old(k).tasks@.update(i as int, t));
        lemma_new_space(*k, *old(k), t);
    }
    freed
}

/// The region of a segment: the whole pages that hold it.
pub open spec fn segment_region(p: Elf64Phdr) -> Region {
    let len = page_up(p.vaddr % 4096 + p.memsz) as u64;
    Region {
        ty: RegionType::Program,
        vaddr: (p.vaddr - p.vaddr % 4096) as u64,
        cap: len,
        len,
        flags: p.flags,
        granule: 0,
    }
}

/// Whether a segment can be loaded: it lies in the address space, its flags are known,
/// and no more of it stands in the file than in memory.
pub open spec fn loadable(p: Elf64Phdr) -> bool {
    &&& p.vaddr + p.memsz + 0x3000 <= u64::MAX
    &&& known_flags(p.flags)
    &&& p.filesz <= p.memsz
}

/// Whether a segment goes into memory at all.
pub(crate) fn is_load(p: &Elf64Phdr) -> (b: bool)
    ensures
        b == (p.kind == PT_LOAD),
{
    p.kind as u64 == PT_LOAD
}

/// How many frames a segment needs.
pub(crate) fn segment_frames(p: &Elf64Phdr) -> (n: u64)
    requires
        loadable(*p),
    ensures
        4096 * n == segment_region(*p).len,
{
    align_f(p.vaddr % 4096 + p.memsz, 4096) / 4096
}

/// How a segment gets its contents: so many bytes from the file go to an address, and
/// so many zeros behind them.
#[derive(Clone, Copy, Debug, PartialEq, Eq, Structural)]
pub struct Segment {
    pub at: u64,
    pub filesz: u64,
    pub zeros: u64,
}

/// Whether a segment can get room in the address space of the current task.
pub open spec fn has_room(k: Kernel, p: Elf64Phdr) -> bool {
    let r = segment_region(p);
    unmapped(k.cur().pt@, r.vaddr as int, r.len as int)
}

/// Whether these frames are those for a segment.
pub open spec fn frames_fit(p: Elf64Phdr, frames: Seq<u64>) -> bool {
    usable_frames(frames) && 4096 * frames.len() == segment_region(p).len
}

/// Whether a segment has got room, and the file is where the segment stands in it.
pub open spec fn is_placed(k: Kernel, old: Kernel, p: Elf64Phdr, frames: Seq<u64>) -> bool {
    let f = old.cur().loading->0 as int;
    let r = segment_region(p);
    let t = k.cur();
    &&& k.serving()
    &&& k == (Kernel { tasks: k.tasks, fs: k.fs, ..old })
    &&& k.tasks@ == old.tasks@.update(old.at(), t)
    &&& t == (Task { pt: t.pt, program: t.program, ..old.cur() })
    &&& t.program@ == old.cur().program@.push(r)
    &&& t.pt@ == with_frames(old.cur().pt@, r.vaddr as int, frames, Perm::PrPw)
    &&& space_full(old.cur()) ==> space_full(t)
    &&& k.fs.files@ == old.fs.files@.update(f, File { offt: p.offset, ..old.fs.files@[f] })
}

/// Makes room for a segment, which the kernel may write to, and moves to where it
/// stands in the file. `frames` is the memory for it.
pub(crate) fn place_segment(k: &mut Kernel, p: &Elf64Phdr, frames: &[u64])
    requires
        old(k).serving(),
        old(k).cur().loading is Some,
        loadable(*p),
        frames_fit(*p, frames@),
        has_room(*old(k), *p),
    ensures
        is_placed(*final(k), *old(k), *p, frames@),
{
    let i: usize = k.cpu.task_idx.unwrap();
    let ghost k0 = *k;
    let len: u64 = align_f(p.vaddr % 4096 + p.memsz, 4096);
    let vfrom: u64 = align_b(p.vaddr, 4096);
    let r = Region {
        ty: RegionType::Program,
        vaddr: vfrom,
        cap: len,
        len,
        flags: p.flags,
        granule: 0,
    };
    proof {
        assert(slot_sound(k.tasks@[i as int], i as int));
        assert(space_sound(k.tasks@[i as int]));
        crate::region::lemma_blocks();
    }
    map_frames(&mut k.tasks[i].pt, vfrom, frames, Perm::PrPw);
    k.tasks[i].program.push(r);
    proof {
        let t = k.tasks@[i as int];
        assert(k.tasks@ =~= k0.tasks@.update(i as int, t));
        lemma_segment(t, k0.cur(), r, frames@);
        lemma_new_space(*k, k0, t);
    }
    seek_file(k, p.offset);
}

/// Whether the pages of a segment have their permissions.
pub open spec fn is_sealed(k: Kernel, old: Kernel, p: Elf64Phdr) -> bool {
    let r = segment_region(p);
    &&& k.serving()
    &&& k.with_task(old, old.at(), k.cur())
    &&& k.cur() == (Task { pt: k.cur().pt, ..old.cur() })
    &&& space_full(old.cur()) ==> space_full(k.cur())
    &&& k.cur().pt@ == with_perm(
        old.cur().pt@,
        r.vaddr as int,
        r.len as int,
        loaded_perm(p.flags),
    )
}

/// Gives the pages of a segment their permissions.
pub(crate) fn seal_segment(k: &mut Kernel, p: &Elf64Phdr)
    requires
        old(k).serving(),
        loadable(*p),
        all_mapped(
            old(k).cur().pt@,
            segment_region(*p).vaddr as int,
            segment_region(*p).len as int,
        ),
    ensures
        is_sealed(*final(k), *old(k), *p),
{
    let i: usize = k.cpu.task_idx.unwrap();
    let len: u64 = align_f(p.vaddr % 4096 + p.memsz, 4096);
    let vfrom: u64 = align_b(p.vaddr, 4096);
    let perm: Perm = if p.flags == PF_R | PF_X {
        Perm::PrUrUx
    } else if p.flags == PF_R | PF_W {
        Perm::PrPwUrUw
    } else {
        Perm::PrUr
    };
    proof {
        assert(4u32 | 1u32 == 5u32 && 4u32 | 2u32 == 6u32) by (bit_vector);
        assert(slot_sound(k.tasks@[i as int], i as int));
        assert(space_sound(k.tasks@[i as int]));
        assert(4096 * (len / 4096) == len);
    }
    let _ = map_chg_perms(&mut k.tasks[i].pt, vfrom, len / 4096, perm);
    proof {
        let t = k.tasks@[i as int];
        let t0 = old(k).cur();
        assert(k.tasks@ =~= old(k).tasks@.update(i as int, t));
        assert(t.pt@.dom() =~= t0.pt@.dom());
        assert(framed(t.pt@)) by {
            reveal(space_sound);
            assert forall|a: u64| #[trigger] t.pt@.contains_key(a) implies t.pt@[a].p + 8192
                <= u64::MAX by {
                assert(t0.pt@.contains_key(a));
            }
        }
        lemma_space_same_pages(t, t0);
        lemma_new_space(*k, *old(k), t);
    }
}

/// A program that can start: what its stack holds, and what goes into the translation
/// base register. The program's thread pointer is zero.
#[derive(Debug)]
pub struct Entered {
    pub stack: Vec<u8>,
    pub ttbr0: u64,
}

/// A program that could not be started.
#[derive(Debug)]
pub struct Failed {
    /// What the stack of the process now holds, where it was overwritten.
    pub stack: Option<Vec<u8>>,
}

/// The registers with which a program starts.
pub open spec fn is_start(f: Frame, entry: u64, sp: u64) -> bool {
    &&& f.regs@ == Seq::new(31, |i: int| 0u64)
    &&& f == (Frame { pc: entry, sp_el0: sp, pstate: 0, regs: f.regs })
}

/// Whether the stack and the registers are set for a new program, where its arguments
/// and its environment fit. Where they do not, only the stack is overwritten.
pub open spec fn is_entered(
    k: Kernel,
    old: Kernel,
    elf: Elf,
    argv: Seq<Vec<u8>>,
    envp: Seq<Vec<u8>>,
    r: Result<Entered, Failed>,
) -> bool {
    let args = kept(strings(argv));
    let envs = kept(strings(envp));
    let base = 0x2_0000_0000int;
    if stack_fits(args, envs) {
        let t = k.cur();
        &&& r matches Ok(e) && {
            &&& e.stack@ == stack_image(base, argv.len() as int, args, envs)
            &&& e.ttbr0 == ttbr0(old.cur().pid as u64, old.cur().user_pt->0)
        }
        &&& k.serving()
        &&& k.with_task(old, old.at(), t)
        &&& t == (Task { frame: t.frame, ..old.cur() })
        &&& is_start(t.frame, elf.header.entry, (base + stack_start(args, envs)) as u64)
    } else {
        &&& r matches Err(f) && f.stack matches Some(s) && s@ == spoiled_image(base, args, envs)
        &&& k == old
    }
}

/// Sets the stack and the registers for a new program.
pub(crate) fn enter(k: &mut Kernel, elf: &Elf, argv: &[Vec<u8>], envp: &[Vec<u8>]) -> (r: Result<
    Entered,
    Failed,
>)
    requires
        old(k).serving(),
    ensures
        is_entered(*final(k), *old(k), *elf, argv@, envp@, r),
{
    let i: usize = k.cpu.task_idx.unwrap();
    proof {
        assert(slot_sound(k.tasks@[i as int], i as int));
        assert(space_sound(k.tasks@[i as int]));
        reveal(space_sound);
    }
    let s = match user_stack(k.tasks[i].spel0.vaddr, argv, envp) {
        Ok(s) => s,
        Err(image) => return Err(Failed { stack: Some(image) }),
    };
    let mut frame = Frame::zeroed();
    frame.pc = elf.header.entry;
    frame.pstate = 0;
    frame.sp_el0 = s.sp;
    k.tasks[i].frame = frame;
    let ttbr: u64 = restore_ttbr0(k.tasks[i].pid as u64, k.tasks[i].user_pt.unwrap());
    proof {
        let t = k.tasks@[i as int];
        assert(k.tasks@ =~= old(k).tasks@.update(i as int, t));
        crate::kernel::lemma_with_task(*k, *old(k), i as int, t);
    }
    Ok(Entered { stack: s.image, ttbr0: ttbr })
}

/// What a task does when it gets the processor for the first time.
#[derive(Clone, Copy, Debug, PartialEq, Eq, Structural)]
pub struct Start {
    /// What goes into the translation base register.
    pub ttbr0: u64,
    /// Whether the first program is to be started.
    pub launch: bool,
}

/// The first thing that a new task does: it gives its lock back, and the first one
/// starts the first program.
pub fn forkret(k: &mut Kernel) -> (s: Start)
    requires
        old(k).entering(),
    ensures
        final(k).serving(),
        s == (Start {
            ttbr0: ttbr0(old(k).cur().pid as u64, old(k).cur().user_pt->0),
            launch: old(k).first,
        }),
        *final(k) == (Kernel {
            cpu: Cpu { int_disables: 0, ..old(k).cpu },
            tasks: final(k).tasks,
            first: false,
            ..*old(k)
        }),
        final(k).tasks@ == old(k).tasks@.update(
            old(k).at(),
            Task { lock: Lock { held: false }, ..old(k).cur() },
        ),
{
    let i: usize = k.cpu.task_idx.unwrap();
    assert(slot_sound(k.tasks@[i as int], i as int));
    let v: u64 = restore_ttbr0(k.tasks[i].pid as u64, k.tasks[i].user_pt.unwrap());
    let launch: bool = k.first;
    unlock(k, i);
    proof {
        let t = Task { lock: Lock { held: false }, ..old(k).cur() };
        crate::sched::lemma_moved(*k, *old(k), i as int, t);
    }
    k.first = false;
    Start { ttbr0: v, launch }
}

/// The path of the first program.
pub const INIT_PATH: &'static str = "/bin/busybox";

/// A string of arguments from text.
fn bytes(s: &str) -> (v: Vec<u8>)
    ensures
        v@ == encode_utf8(s@),
{
    vstd::slice::slice_to_vec(s.as_bytes())
}

/// The arguments of the first program.
pub fn init_argv() -> (v: Vec<Vec<u8>>)
    ensures
        strings(v@) == seq![encode_utf8("sh"@), encode_utf8("-i"@)],
{
    let mut v: Vec<Vec<u8>> = Vec::new();
    v.push(bytes("sh"));
    v.push(bytes("-i"));
    assert(strings(v@) =~= seq![encode_utf8("sh"@), encode_utf8("-i"@)]);
    v
}

/// The environment of the first program.
pub fn init_envp() -> (v: Vec<Vec<u8>>)
    ensures
        strings(v@) == seq![
            encode_utf8("PATH=/bin"@),
            encode_utf8("PWD=/"@),
            encode_utf8("LC_ALL=C"@),
            encode_utf8("PS1=\\w \\$ "@),
        ],
{
    let mut v: Vec<Vec<u8>> = Vec::new();
    v.push(bytes("PATH=/bin"));
    v.push(bytes("PWD=/"));
    v.push(bytes("LC_ALL=C"));
    v.push(bytes("PS1=\\w \\$ "));
    assert(strings(v@) =~= seq![
        encode_utf8("PATH=/bin"@),
        encode_utf8("PWD=/"@),
        encode_utf8("LC_ALL=C"@),
        encode_utf8("PS1=\\w \\$ "@),
    ]);
    v
}

/// Ends starting the first program: it begins in the root directory.
pub fn launched(k: &mut Kernel)
    requires
        old(k).serving(),
    ensures
        final(k).serving(),
        ({
            let t = final(k).cur();
            &&& final(k).with_task(*old(k), old(k).at(), t)
            &&& t == (Task { cwd: t.cwd, ..old(k).cur() })
            &&& t.cwd is Some && t.cwd->0@ == "/"@
        }),
{
    let i: usize = k.cpu.task_idx.unwrap();
    k.tasks[i].cwd = Some(String::from_str("/"));
    proof {
        let t = k.tasks@[i as int];
        assert(slot_sound(old(k).tasks@[i as int], i as int));
        assert(k.tasks@ =~= old(k).tasks@.update(i as int, t));
        crate::kernel::lemma_with_task(*k, *old(k), i as int, t);
    }
}

} // verus!

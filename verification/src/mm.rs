//! System calls that give memory, and what happens when a program writes to memory
//! that it shares.
use vstd::prelude::*;

use crate::books::{lemma_same_books, same_uses};
use crate::desc::FAIL;
use crate::elf::PF_W;
use crate::kernel::{backed_regions, framed, regions, slot_sound, space_full, space_sound, Kernel};
use crate::region::{all_pages, Region, REGION_MAX_SZ};
use crate::space::{has_grown, lemma_space_grown, lemma_space_same_pages, map_frames};
use crate::space::{lemma_space_torn, usable_frames};
use crate::task::{new_brk, new_mmap, Task};
use crate::vm::{align_b, align_f, copy_pm, in_pages, map_ovwr, unmapped};
use crate::vm::{Perm, Pte, MB};

verus! {

/// Rounded up to whole pages.
pub open spec fn page_up(x: int) -> int {
    (x + 4095) - (x + 4095) % 4096
}

/// Soundness when the address space of the current task has changed.
pub proof fn lemma_new_space(k: Kernel, old: Kernel, t: Task)
    requires
        old.serving(),
        k.with_task(old, old.at(), t),
        same_uses(old.cur(), t),
        slot_sound(t, old.at()),
        space_sound(t),
        !t.lock.held,
        t.state is Running,
    ensures
        k.serving(),
{
    lemma_same_books(old.tasks@, k.tasks@, k.fs.files@);
}

/// By how many bytes `brk` lets the heap grow.
pub open spec fn brk_growth(k: Kernel) -> int {
    let pos = k.cur().brk.vaddr + k.cur().brk.len;
    let new_pos = page_up(k.arg(0) as int);
    if new_pos <= pos || new_pos - pos > 10 * MB {
        0
    } else {
        new_pos - pos
    }
}

/// Whether these frames are those for growing by so many bytes.
pub open spec fn frames_for(frames: Seq<u64>, growth: int) -> bool {
    growth == 4096 * frames.len() && usable_frames(frames)
}

/// What a call that gives memory gives: its result, and the memory to be filled with
/// zeros, by its address and length.
#[derive(Clone, Copy, Debug, PartialEq, Eq, Structural)]
pub struct Given {
    pub ret: u64,
    pub at: u64,
    pub len: u64,
}

/// How many frames `brk` needs.
pub fn brk_frames(k: &Kernel) -> (n: u64)
    requires
        k.calling(),
        k.arg(0) + 4095 <= u64::MAX,
    ensures
        4096 * n == brk_growth(*k),
{
    let i: usize = k.cpu.task_idx.unwrap();
    proof {
        reveal(space_sound);
        assert(space_sound(k.tasks@[i as int]));
        lemma_heap_ends(k.cur());
    }
    let pos: u64 = k.tasks[i].brk.end();
    let new_pos: u64 = align_f(k.tasks[i].frame.regs[0], 4096);
    if new_pos <= pos || new_pos - pos > 10 * MB {
        0
    } else {
        (new_pos - pos) / 4096
    }
}

/// The heap and the mapped memory lie in the address space, and are whole pages.
pub proof fn lemma_heap_ends(t: Task)
    requires
        space_sound(t),
    ensures
        t.brk.vaddr + t.brk.len <= u64::MAX,
        t.mmap.vaddr + t.mmap.len <= u64::MAX,
        t.brk.len % 4096 == 0,
        t.mmap.len % 4096 == 0,
        t.brk == (Region { len: t.brk.len, ..new_brk() }),
        t.mmap == (Region { len: t.mmap.len, ..new_mmap() }),
{
    reveal(space_sound);
    crate::region::lemma_blocks();
    if t.user_sp is Some {
        let bs = backed_regions(t);
        let n = t.program@.len() as int;
        assert(bs[n + 1] == t.brk);
        assert(bs[n + 1].whole());
    }
}

/// Moves the end of the heap up, where a later end is asked for that is not too far
/// away; returns the end of the heap. `frames` is the memory for it.
pub fn brk(k: &mut Kernel, frames: &[u64]) -> (g: Given)
    requires
        old(k).calling(),
        old(k).arg(0) + 4095 <= u64::MAX,
        frames_for(frames@, brk_growth(*old(k))),
        brk_growth(*old(k)) > 0 ==> old(k).cur().brk.len + brk_growth(*old(k))
            <= old(k).cur().brk.vaddr + REGION_MAX_SZ,
        unmapped(
            old(k).cur().pt@,
            old(k).cur().brk.vaddr + old(k).cur().brk.len,
            brk_growth(*old(k)),
        ),
    ensures
        final(k).calling(),
        ({
            let pos = old(k).cur().brk.vaddr + old(k).cur().brk.len;
            let more = brk_growth(*old(k));
            &&& g.ret == pos + more
            &&& g.at == pos
            &&& g.len == more
            &&& more == 0 ==> *final(k) == *old(k)
            &&& more > 0 ==> {
                &&& final(k).with_task(*old(k), old(k).at(), final(k).cur())
                &&& has_grown(final(k).cur(), old(k).cur(), true, frames@, Perm::PrPwUrUw)
            }
        }),
        space_full(old(k).cur()) ==> space_full(final(k).cur()),
{
    let i: usize = k.cpu.task_idx.unwrap();
    proof {
        assert(space_sound(k.tasks@[i as int]));
        lemma_heap_ends(k.cur());
    }
    let pos: u64 = k.tasks[i].brk.end();
    let new_pos: u64 = align_f(k.tasks[i].frame.regs[0], 4096);
    if new_pos <= pos {
        return Given { ret: pos, at: pos, len: 0 };
    }
    let incr: u64 = new_pos - pos;
    if incr > 10 * MB {
        return Given { ret: pos, at: pos, len: 0 };
    }
    proof {
        crate::region::lemma_blocks();
    }
    let region: u64 = k.tasks[i].brk.grow(incr).unwrap();
    map_frames(&mut k.tasks[i].pt, region, frames, Perm::PrPwUrUw);
    proof {
        let t = k.tasks@[i as int];
        assert(k.tasks@ =~= old(k).tasks@.update(i as int, t));
        lemma_space_grown(t, old(k).cur(), true, frames@, Perm::PrPwUrUw);
        assert(slot_sound(old(k).cur(), i as int));
        lemma_new_space(*k, *old(k), t);
    }
    Given { ret: new_pos, at: pos, len: incr }
}

/// How many bytes `mmap` gives, unless it refuses.
pub open spec fn mmap_len(k: Kernel) -> Option<int> {
    let len = page_up(k.arg(1) as int);
    if k.arg(3) & 0x20 == 0 || len > 10 * MB {
        None
    } else {
        Some(len)
    }
}

/// Whether these are permissions that memory can be asked for with.
pub open spec fn known_prot(x: u64) -> bool {
    x == 1 || x == 3 || x == 5
}

/// The permission that is asked for.
pub open spec fn prot_perm(x: u64) -> Perm {
    if x == 1 {
        Perm::PrUr
    } else if x == 3 {
        Perm::PrPwUrUw
    } else {
        Perm::PrUrUx
    }
}

/// How many frames `mmap` needs.
pub fn mmap_frames(k: &Kernel) -> (n: u64)
    requires
        k.calling(),
        k.arg(1) + 4095 <= u64::MAX,
    ensures
        4096 * n == match mmap_len(*k) {
            Some(len) => len,
            None => 0,
        },
{
    let i: usize = k.cpu.task_idx.unwrap();
    if k.tasks[i].frame.regs[3] & 0x20 == 0 {
        return 0;
    }
    let len: u64 = align_f(k.tasks[i].frame.regs[1], 4096);
    if len > 10 * MB {
        return 0;
    }
    len / 4096
}

/// Gives the program memory of its own; returns its address. `frames` is the memory for
/// it, and `table` says whether the page table could be reached. Where it could not, the
/// call fails, and the region has grown all the same, by pages without a frame.
pub fn mmap(k: &mut Kernel, frames: &[u64], table: bool) -> (g: Given)
    requires
        old(k).calling(),
        old(k).arg(1) + 4095 <= u64::MAX,
        mmap_len(*old(k)) matches Some(len) ==> {
            &&& known_prot(old(k).arg(2))
            &&& old(k).cur().mmap.len + len <= old(k).cur().mmap.vaddr + REGION_MAX_SZ
            &&& table ==> frames_for(frames@, len)
            &&& table ==> unmapped(
                old(k).cur().pt@,
                old(k).cur().mmap.vaddr + old(k).cur().mmap.len,
                len,
            )
        },
    ensures
        final(k).calling(),
        table && space_full(old(k).cur()) ==> space_full(final(k).cur()),
        match mmap_len(*old(k)) {
            None => {
                &&& g == (Given { ret: FAIL, at: 0, len: 0 })
                &&& *final(k) == *old(k)
            },
            Some(len) => {
                let at = old(k).cur().mmap.vaddr + old(k).cur().mmap.len;
                &&& final(k).with_task(*old(k), old(k).at(), final(k).cur())
                &&& if table {
                    &&& g.ret == at
                    &&& g.at == at
                    &&& g.len == len
                    &&& has_grown(
                        final(k).cur(),
                        old(k).cur(),
                        false,
                        frames@,
                        prot_perm(old(k).arg(2)),
                    )
                } else {
                    &&& g == (Given { ret: FAIL, at: 0, len: 0 })
                    &&& final(k).cur() == (Task {
                        mmap: Region {
                            len: (old(k).cur().mmap.len + len) as u64,
                            ..old(k).cur().mmap
                        },
                        ..old(k).cur()
                    })
                }
            },
        },
{
    let i: usize = k.cpu.task_idx.unwrap();
    proof {
        assert(space_sound(k.tasks@[i as int]));
        lemma_heap_ends(k.cur());
        crate::region::lemma_blocks();
    }
    if k.tasks[i].frame.regs[3] & 0x20 == 0 {
        return Given { ret: FAIL, at: 0, len: 0 };
    }
    let len: u64 = align_f(k.tasks[i].frame.regs[1], 4096);
    if len > 10 * MB {
        return Given { ret: FAIL, at: 0, len: 0 };
    }
    let region: u64 = k.tasks[i].mmap.grow(len).unwrap();
    let prot: u64 = k.tasks[i].frame.regs[2];
    let perm: Perm = if prot == 1 {
        Perm::PrUr
    } else if prot == 3 {
        Perm::PrPwUrUw
    } else {
        Perm::PrUrUx
    };
    if !table {
        proof {
            let t = k.tasks@[i as int];
            assert(k.tasks@ =~= old(k).tasks@.update(i as int, t));
            assert(slot_sound(old(k).cur(), i as int));
            lemma_space_torn(t, old(k).cur(), t.mmap.len);
            lemma_new_space(*k, *old(k), t);
        }
        return Given { ret: FAIL, at: 0, len: 0 };
    }
    map_frames(&mut k.tasks[i].pt, region, frames, perm);
    proof {
        let t = k.tasks@[i as int];
        assert(k.tasks@ =~= old(k).tasks@.update(i as int, t));
        lemma_space_grown(t, old(k).cur(), false, frames@, perm);
        assert(slot_sound(old(k).cur(), i as int));
        lemma_new_space(*k, *old(k), t);
    }
    Given { ret: region, at: region, len }
}

pub fn munmap() -> (n: u64)
    ensures
        n == 0,
{
    0
}

pub fn mprotect() -> (n: u64)
    ensures
        n == 0,
{
    0
}

/// Whether an address lies in a region.
pub open spec fn in_region(r: Region, v: u64) -> bool {
    r.vaddr <= v < r.vaddr + r.len
}

/// The region whose rules hold at an address: for the mapped memory those of the heap
/// do.
pub open spec fn ruling(t: Task, v: u64) -> Option<Region> {
    if in_region(t.brk, v) || in_region(t.mmap, v) {
        Some(t.brk)
    } else {
        first_with(t.program@, v)
    }
}

/// The first of these regions in which an address lies.
pub open spec fn first_with(rs: Seq<Region>, v: u64) -> Option<Region>
    decreases rs.len(),
{
    if rs.len() == 0 {
        None
    } else if in_region(rs[0], v) {
        Some(rs[0])
    } else {
        first_with(rs.skip(1), v)
    }
}

proof fn lemma_first_with(rs: Seq<Region>, v: u64, i: int)
    requires
        0 <= i <= rs.len(),
        forall|j: int| 0 <= j < i ==> !in_region(#[trigger] rs[j], v),
    ensures
        i == rs.len() ==> first_with(rs, v) is None,
        i < rs.len() && in_region(rs[i], v) ==> first_with(rs, v) == Some(rs[i]),
    decreases rs.len(),
{
    if rs.len() > 0 && i > 0 {
        assert(!in_region(rs[0], v));
        let s = rs.skip(1);
        assert forall|j: int| 0 <= j < i - 1 implies !in_region(#[trigger] s[j], v) by {
            assert(s[j] == rs[j + 1]);
        }
        lemma_first_with(s, v, i - 1);
    }
}

/// Whether the regions of a task end in the address space.
pub open spec fn ends_known(t: Task) -> bool {
    &&& t.brk.vaddr + t.brk.len <= u64::MAX
    &&& t.mmap.vaddr + t.mmap.len <= u64::MAX
    &&& forall|i: int|
        0 <= i < t.program@.len() ==> (#[trigger] t.program@[i]).vaddr + t.program@[i].len
            <= u64::MAX
}

/// The region whose rules hold at an address.
pub fn find_region(task: &Task, v: u64) -> (r: Option<Region>)
    requires
        ends_known(*task),
    ensures
        r == ruling(*task, v),
{
    if task.brk.has(v) {
        return Some(task.brk);
    }
    if task.mmap.has(v) {
        return Some(task.brk);
    }
    let mut i: usize = 0;
    while i < task.program.len()
        invariant
            i <= task.program@.len(),
            ends_known(*task),
            !in_region(task.brk, v),
            !in_region(task.mmap, v),
            forall|j: int| 0 <= j < i ==> !in_region(#[trigger] task.program@[j], v),
        decreases task.program@.len() - i,
    {
        proof {
            lemma_first_with(task.program@, v, i as int);
            assert(task.program@[i as int].vaddr + task.program@[i as int].len <= u64::MAX);
        }
        if task.program[i].has(v) {
            return Some(task.program[i]);
        }
        i += 1;
    }
    proof {
        lemma_first_with(task.program@, v, i as int);
    }
    None
}

/// A page that a program wrote to and may not write to yet: its address and its frame.
#[derive(Clone, Copy, Debug, PartialEq, Eq, Structural)]
pub struct Fault {
    pub page: u64,
    pub p: u64,
}

/// The page that a write to `v` concerns, where the program may come to write there.
pub open spec fn fault_at(t: Task, v: u64) -> Option<Fault> {
    match ruling(t, v) {
        Some(r) => if r.flags & PF_W > 0 {
            let page = (v - v % 4096) as u64;
            Some(Fault { page, p: t.pt@[page].p })
        } else {
            None
        },
        None => None,
    }
}

/// Whether there is a frame behind the page of an address whose region may be written to.
/// Only mapped memory can have pages without one.
pub open spec fn has_frame(t: Task, v: u64) -> bool {
    fault_at(t, v) is Some ==> t.pt@.contains_key((v - v % 4096) as u64)
}

/// Where nothing is missing from an address space, there is a frame behind every address
/// that may be written to.
pub proof fn law_full_memory_has_frames(t: Task, v: u64)
    requires
        space_full(t),
        t.user_sp is Some,
    ensures
        has_frame(t, v),
{
    reveal(space_full);
    lemma_fault(t, v);
    crate::region::lemma_blocks();
    let rs = regions(t);
    let n = t.program@.len() as int;
    assert(rs[n + 2] == t.mmap);
    assert(rs[n + 2].whole());
    if in_region(t.mmap, v) {
        let page = (v - v % 4096) as u64;
        reveal(space_sound);
        assert(in_pages(page, rs[n + 2].vaddr as int, rs[n + 2].len as int));
        assert(crate::vm::all_mapped(t.pt@, rs[n + 2].vaddr as int, rs[n + 2].len as int));
    }
}

/// A region of a sound address space ends in it, and each of its pages has a frame unless
/// it is mapped memory.
pub proof fn lemma_fault(t: Task, v: u64)
    requires
        space_sound(t),
        t.user_sp is Some,
    ensures
        ends_known(t),
        ruling(t, v) matches Some(r) ==> {
            &&& r.granule == 0
            &&& in_region(t.mmap, v) || t.pt@.contains_key((v - v % 4096) as u64)
        },
        framed(t.pt@),
{
    reveal(space_sound);
    crate::region::lemma_blocks();
    let rs = backed_regions(t);
    let n = t.program@.len() as int;
    assert(rs[n + 1] == t.brk);
    lemma_heap_ends(t);
    assert forall|i: int| 0 <= i < n implies (#[trigger] t.program@[i]).vaddr + t.program@[i].len
        <= u64::MAX by {
        assert(rs[i] == t.program@[i]);
        assert(rs[i].whole());
    }
    if ruling(t, v) is Some && !in_region(t.mmap, v) {
        let page = (v - v % 4096) as u64;
        let j = if in_region(t.brk, v) {
            n + 1
        } else {
            lemma_first_index(t.program@, v);
            choose|j: int|
                0 <= j < n && in_region(#[trigger] t.program@[j], v) && first_with(t.program@, v)
                    == Some(t.program@[j])
        };
        assert(rs[j].whole());
        assert(in_region(rs[j], v));
        assert(in_pages(page, rs[j].vaddr as int, rs[j].len as int));
        assert(crate::vm::all_mapped(t.pt@, rs[j].vaddr as int, rs[j].len as int));
    }
}

pub proof fn lemma_first_index(rs: Seq<Region>, v: u64)
    ensures
        first_with(rs, v) matches Some(r) ==> exists|j: int|
            0 <= j < rs.len() && in_region(#[trigger] rs[j], v) && r == rs[j],
    decreases rs.len(),
{
    if rs.len() > 0 && !in_region(rs[0], v) {
        let s = rs.skip(1);
        lemma_first_index(s, v);
        if first_with(s, v) is Some {
            let j = choose|j: int|
                0 <= j < s.len() && in_region(#[trigger] s[j], v) && first_with(s, v) == Some(
                    s[j],
                );
            assert(rs[j + 1] == s[j]);
            assert(in_region(rs[j + 1], v));
        }
    } else if rs.len() > 0 {
        assert(in_region(rs[0], v));
    }
}

/// Where the program wrote to `vaddr` and may not yet: the page, and the frame behind
/// it. Where there is none, the program may not write there at all.
pub fn find_fault(k: &Kernel, vaddr: u64) -> (r: Option<Fault>)
    requires
        k.serving(),
        has_frame(k.cur(), vaddr),
    ensures
        r == fault_at(k.cur(), vaddr),
{
    let i: usize = k.cpu.task_idx.unwrap();
    proof {
        assert(space_sound(k.tasks@[i as int]));
        assert(slot_sound(k.tasks@[i as int], i as int));
        lemma_fault(k.cur(), vaddr);
        crate::region::lemma_blocks();
    }
    match find_region(&k.tasks[i], vaddr) {
        Some(region) => {
            if region.flags & PF_W > 0 {
                let page: u64 = align_b(vaddr, region.blksize());
                match k.tasks[i].pt.entries.get(&page) {
                    Some(e) => Some(Fault { page, p: e.p }),
                    None => None,
                }
            } else {
                None
            }
        },
        None => None,
    }
}

/// What becomes of a frame that is written to: it is the task's own, or others use it
/// too and the task gets a copy on this frame.
#[derive(Clone, Copy, Debug, PartialEq, Eq, Structural)]
pub enum CowAction {
    Remap,
    Alloc(u64),
}

/// Lets the program write to the page of `vaddr`, on a frame of its own; returns the
/// copies of pages to be made before.
pub fn dabt_handler(k: &mut Kernel, vaddr: u64, action: CowAction) -> (copies: Vec<(u64, u64)>)
    requires
        old(k).serving(),
        fault_at(old(k).cur(), vaddr) is Some,
        has_frame(old(k).cur(), vaddr),
        action matches CowAction::Alloc(p) ==> p + 8192 <= u64::MAX,
    ensures
        final(k).serving(),
        space_full(old(k).cur()) ==> space_full(final(k).cur()),
        final(k).with_task(*old(k), old(k).at(), final(k).cur()),
        ({
            let f = fault_at(old(k).cur(), vaddr)->0;
            let p = match action {
                CowAction::Remap => f.p,
                CowAction::Alloc(p) => p,
            };
            &&& final(k).cur() == (Task { pt: final(k).cur().pt, ..old(k).cur() })
            &&& final(k).cur().pt@ == old(k).cur().pt@.insert(
                f.page,
                Pte { p, perm: Perm::PrPwUrUw },
            )
            &&& copies@ == if action is Alloc {
                seq![(f.p, p)]
            } else {
                Seq::empty()
            }
        }),
{
    let f = find_fault(k, vaddr).unwrap();
    let i: usize = k.cpu.task_idx.unwrap();
    let ghost t0 = old(k).cur();
    proof {
        assert(space_sound(k.tasks@[i as int]));
        assert(slot_sound(k.tasks@[i as int], i as int));
        lemma_fault(t0, vaddr);
        assert(t0.pt@.contains_key(f.page));
    }
    let copies: Vec<(u64, u64)> = match action {
        CowAction::Remap => Vec::new(),
        CowAction::Alloc(p) => copy_pm(f.p, p, 1),
    };
    let p: u64 = match action {
        CowAction::Remap => f.p,
        CowAction::Alloc(p) => p,
    };
    proof {
        lemma_page_bound(t0, f.page);
        match action {
            CowAction::Remap => assert(copies@ =~= Seq::empty()),
            CowAction::Alloc(p) => assert(copies@ =~= seq![(f.p, p)]),
        }
    }
    let _ = map_ovwr(&mut k.tasks[i].pt, f.page, p, 1, Perm::PrPwUrUw);
    proof {
        let t = k.tasks@[i as int];
        assert(k.tasks@ =~= old(k).tasks@.update(i as int, t));
        assert forall|a: u64| in_pages(a, f.page as int, 4096) == (a == f.page) by {}
        assert(t.pt@ =~= t0.pt@.insert(f.page, Pte { p, perm: Perm::PrPwUrUw }));
        assert(t.pt@.dom() =~= t0.pt@.dom());
        lemma_space_same_pages(t, t0);
        lemma_new_space(*k, *old(k), t);
    }
    copies
}

/// A page of a sound address space has a page behind it in the address space.
proof fn lemma_page_bound(t: Task, a: u64)
    requires
        space_sound(t),
        t.user_sp is Some,
        t.pt@.contains_key(a),
    ensures
        a + 4096 <= u64::MAX,
{
    reveal(space_sound);
    let rs = regions(t);
    assert(t.pt@.dom().contains(a));
    assert(all_pages(rs).contains(a));
    let i = choose|i: int| 0 <= i < rs.len() && #[trigger] rs[i].pages().contains(a);
    let bs = backed_regions(t);
    assert(rs[i] == if i < bs.len() { bs[i] } else { t.mmap });
    assert(i < bs.len() ==> bs[i].whole());
    crate::region::lemma_block_pages(rs[i].granule);
}

} // verus!

//! What the calls that give memory do, and what becomes of a write to a shared page.
use vstd::prelude::*;

use crate::kernel::{backed_regions, space_sound, Kernel};
use crate::laws::{entry, lemma_me, me, reg, rest_kept, within};
use crate::mm::{brk, brk_frames, dabt_handler, find_fault, find_region, mmap, mmap_frames};
use crate::mm::{first_with, in_region, lemma_fault, lemma_first_index, ruling};
use crate::mm::{CowAction, Fault, Given};
use crate::region::{lemma_blocks, Region};
use crate::task::Task;
use crate::vm::Perm;

verus! {

/// Whether pages were added to a task's memory from `at` on, on these frames, and no
/// other page has changed.
pub open spec fn pages_added(t: Task, old: Task, at: int, frames: Seq<u64>, perm: Perm) -> bool {
    &&& forall|j: int|
        0 <= j < frames.len() ==> t.pt@.contains_key((at + 4096 * j) as u64) && (#[trigger] entry(
            t,
            at + 4096 * j,
        )).p == frames[j] && entry(t, at + 4096 * j).perm == perm
    &&& forall|a: u64|
        !within(a as int, at, 4096 * (frames.len() as int)) ==> {
            &&& #[trigger] t.pt@.contains_key(a) == old.pt@.contains_key(a)
            &&& old.pt@.contains_key(a) ==> t.pt@[a] == old.pt@[a]
        }
}

pub proof fn lemma_pages_added(t: Task, old: Task, at: int, frames: Seq<u64>, perm: Perm)
    requires
        at >= 0,
        at + 4096 * frames.len() <= u64::MAX,
        t.pt@ == crate::space::with_frames(old.pt@, at, frames, perm),
    ensures
        pages_added(t, old, at, frames, perm),
{
    assert forall|j: int| 0 <= j < frames.len() implies t.pt@.contains_key(
        (at + 4096 * j) as u64,
    ) && (#[trigger] entry(t, at + 4096 * j)).p == frames[j] && entry(t, at + 4096 * j).perm
        == perm by {
        let a = (at + 4096 * j) as u64;
        assert((a - at) % 4096 == 0 && (a - at) / 4096 == j);
        assert(crate::vm::in_pages(a, at, 4096 * (frames.len() as int)));
    }
}

/// A program that asks for memory of its own, by as many bytes as `n` pages hold and no
/// fewer, ten megabytes at most, gets it behind what it has, on the given frames: each
/// page with the permission asked for.
pub proof fn law_mmap_gives_memory(k: &mut Kernel, frames: &[u64], g: Given)
    requires
        old(k).calling(),
        reg(*old(k), 3) & 0x20 != 0,
        4096 * frames@.len() <= 10 * 1024 * 1024,
        reg(*old(k), 1) <= 4096 * frames@.len() < reg(*old(k), 1) + 4096,
        me(*old(k)).mmap.len + 4096 * frames@.len() <= 0x8000_0000,
        reg(*old(k), 2) == 1 || reg(*old(k), 2) == 3 || reg(*old(k), 2) == 5,
        call_ensures(mmap, (k, frames, true), g),
    ensures
        g.ret == 0x4000_0000 + me(*old(k)).mmap.len,
        g.at == g.ret,
        g.len == 4096 * frames@.len(),
        me(*final(k)).mmap.vaddr == me(*old(k)).mmap.vaddr,
        me(*final(k)).mmap.len == me(*old(k)).mmap.len + 4096 * frames@.len(),
        me(*final(k)) == (Task {
            mmap: me(*final(k)).mmap,
            pt: me(*final(k)).pt,
            ..me(*old(k))
        }),
        pages_added(
            me(*final(k)),
            me(*old(k)),
            g.ret as int,
            frames@,
            if reg(*old(k), 2) == 1 {
                Perm::PrUr
            } else if reg(*old(k), 2) == 3 {
                Perm::PrPwUrUw
            } else {
                Perm::PrUrUx
            },
        ),
        rest_kept(*final(k), *old(k)),
{
    lemma_me(*old(k));
    lemma_pages_added(
        me(*final(k)),
        me(*old(k)),
        0x4000_0000 + me(*old(k)).mmap.len,
        frames@,
        crate::mm::prot_perm(reg(*old(k), 2)),
    );
}

/// A program that asks for shared memory, or for more than ten megabytes, gets none.
pub proof fn law_mmap_refuses(k: &mut Kernel, frames: &[u64], table: bool, g: Given)
    requires
        old(k).calling(),
        reg(*old(k), 3) & 0x20 == 0 || reg(*old(k), 1) > 10 * 1024 * 1024,
        call_ensures(mmap, (k, frames, table), g),
    ensures
        g.ret == 0xffff_ffff_ffff_ffff,
        g.len == 0,
        *final(k) == *old(k),
{
    lemma_me(*old(k));
}

/// A program whose page table cannot be reached gets no memory. Its region has grown all
/// the same where it asked for memory of its own, ten megabytes at most.
pub proof fn law_mmap_fails_without_table(k: &mut Kernel, frames: &[u64], g: Given)
    requires
        old(k).calling(),
        me(*old(k)).mmap.len + reg(*old(k), 1) + 4096 <= 0x8000_0000,
        call_ensures(mmap, (k, frames, false), g),
    ensures
        g.ret == 0xffff_ffff_ffff_ffff,
        g.len == 0,
        ({
            let (t, t0) = (me(*final(k)), me(*old(k)));
            &&& t.mmap == (Region { len: t.mmap.len, ..t0.mmap })
            &&& t == (Task { mmap: t.mmap, ..t0 })
            &&& if reg(*old(k), 3) & 0x20 != 0 && reg(*old(k), 1) <= 10 * 1024 * 1024 {
                &&& t.mmap.len % 4096 == 0
                &&& t0.mmap.len + reg(*old(k), 1) <= t.mmap.len < t0.mmap.len + reg(*old(k), 1)
                    + 4096
            } else {
                t.mmap.len == t0.mmap.len
            }
        }),
        rest_kept(*final(k), *old(k)),
{
    lemma_me(*old(k));
}

/// As many frames are needed for a mapping as its bytes fill, up to ten megabytes.
pub proof fn law_mmap_frames_suffice(k: &Kernel, n: u64)
    requires
        k.calling(),
        call_ensures(mmap_frames, (k,), n),
    ensures
        reg(*k, 3) & 0x20 != 0 && reg(*k, 1) <= 10 * 1024 * 1024 ==> reg(*k, 1) <= 4096 * n
            < reg(*k, 1) + 4096,
        reg(*k, 3) & 0x20 == 0 || reg(*k, 1) > 10 * 1024 * 1024 ==> n == 0,
{
    lemma_me(*k);
}

/// A program that asks for an end of its heap that lies behind the one it has, ten
/// megabytes away at most, gets the pages up to there, on the given frames, to be read
/// and written.
pub proof fn law_brk_grows_the_heap(k: &mut Kernel, frames: &[u64], g: Given)
    requires
        old(k).calling(),
        frames@.len() > 0,
        4096 * frames@.len() <= 10 * 1024 * 1024,
        ({
            let end = me(*old(k)).brk.vaddr + me(*old(k)).brk.len + 4096 * frames@.len();
            end - 4096 < reg(*old(k), 0) <= end
        }),
        me(*old(k)).brk.len + 4096 * frames@.len() <= 0xc000_0000,
        call_ensures(brk, (k, frames), g),
    ensures
        g.at == 0x8000_0000 + me(*old(k)).brk.len,
        g.len == 4096 * frames@.len(),
        g.ret == g.at + g.len,
        me(*final(k)).brk.vaddr == me(*old(k)).brk.vaddr,
        me(*final(k)).brk.len == me(*old(k)).brk.len + 4096 * frames@.len(),
        me(*final(k)) == (Task { brk: me(*final(k)).brk, pt: me(*final(k)).pt, ..me(*old(k)) }),
        pages_added(me(*final(k)), me(*old(k)), g.at as int, frames@, Perm::PrPwUrUw),
        rest_kept(*final(k), *old(k)),
{
    lemma_me(*old(k));
    lemma_pages_added(
        me(*final(k)),
        me(*old(k)),
        0x8000_0000 + me(*old(k)).brk.len,
        frames@,
        Perm::PrPwUrUw,
    );
}

/// A program that asks for an end of its heap that is not behind the one it has, or is
/// more than ten megabytes away, is told the end that it has.
pub proof fn law_brk_tells_the_end(k: &mut Kernel, frames: &[u64], g: Given)
    requires
        old(k).calling(),
        ({
            let end = me(*old(k)).brk.vaddr + me(*old(k)).brk.len;
            reg(*old(k), 0) <= end || reg(*old(k), 0) > end + 10 * 1024 * 1024
        }),
        call_ensures(brk, (k, frames), g),
    ensures
        g.ret == 0x8000_0000 + me(*old(k)).brk.len,
        g.len == 0,
        *final(k) == *old(k),
{
    lemma_me(*old(k));
}

/// As many frames are needed for the heap as reach from its end to the new one.
pub proof fn law_brk_frames_suffice(k: &Kernel, n: u64)
    requires
        k.calling(),
        call_ensures(brk_frames, (k,), n),
    ensures
        ({
            let end = me(*k).brk.vaddr + me(*k).brk.len;
            &&& end < reg(*k, 0) <= end + 10 * 1024 * 1024 ==> reg(*k, 0) <= end + 4096 * n < reg(
                *k,
                0,
            ) + 4096
            &&& reg(*k, 0) <= end || reg(*k, 0) > end + 10 * 1024 * 1024 ==> n == 0
        }),
{
    lemma_me(*k);
}

/// Whether no address lies in two regions of a program.
pub open spec fn lie_apart(rs: Seq<Region>) -> bool {
    forall|i: int, j: int, v: int|
        0 <= i < j < rs.len() && #[trigger] within(v, rs[i].vaddr as int, rs[i].len as int)
            ==> !#[trigger] within(v, rs[j].vaddr as int, rs[j].len as int)
}

/// The regions of a program lie apart.
pub proof fn law_regions_lie_apart(k: Kernel)
    requires
        k.serving(),
    ensures
        lie_apart(me(k).program@),
{
    lemma_me(k);
    reveal(space_sound);
    lemma_blocks();
    let rs = me(k).program@;
    let bs = backed_regions(me(k));
    assert forall|i: int, j: int, v: int|
        0 <= i < j < rs.len() && #[trigger] within(
            v,
            rs[i].vaddr as int,
            rs[i].len as int,
        ) implies !#[trigger] within(v, rs[j].vaddr as int, rs[j].len as int) by {
        assert(bs[i] == rs[i] && bs[j] == rs[j]);
        assert(bs[i].whole() && bs[j].whole());
        let page = (v - v % 4096) as u64;
        if within(v, rs[j].vaddr as int, rs[j].len as int) {
            assert(bs[i].pages().contains(page));
            assert(bs[j].pages().contains(page));
        }
    }
}

/// Whether these are the rules at an address: at one of the heap or of the mapped memory
/// those of the heap, elsewhere those of the program's region in which the address lies,
/// and where there is none, none.
pub open spec fn rules_at(t: Task, v: u64, r: Option<Region>) -> bool {
    let given = within(v as int, t.brk.vaddr as int, t.brk.len as int) || within(
        v as int,
        t.mmap.vaddr as int,
        t.mmap.len as int,
    );
    &&& given ==> r == Some(t.brk)
    &&& !given && r is Some ==> exists|i: int|
        0 <= i < t.program@.len() && r->0 == #[trigger] t.program@[i] && within(
            v as int,
            t.program@[i].vaddr as int,
            t.program@[i].len as int,
        )
    &&& forall|i: int|
        0 <= i < t.program@.len() && within(
            v as int,
            (#[trigger] t.program@[i]).vaddr as int,
            t.program@[i].len as int,
        ) && !given ==> r is Some && (lie_apart(t.program@) ==> r == Some(t.program@[i]))
}

/// The rules at an address are those of the region in which it lies.
pub proof fn law_address_has_its_region(t: &Task, v: u64, r: Option<Region>)
    requires
        call_ensures(find_region, (t, v), r),
    ensures
        rules_at(*t, v, r),
{
    lemma_rules_at(*t, v);
}

proof fn lemma_rules_at(t: Task, v: u64)
    ensures
        rules_at(t, v, ruling(t, v)),
{
    let rs = t.program@;
    let r = ruling(t, v);
    lemma_first_index(rs, v);
    if !in_region(t.brk, v) && !in_region(t.mmap, v) {
        assert forall|i: int|
            0 <= i < rs.len() && within(
                v as int,
                (#[trigger] rs[i]).vaddr as int,
                rs[i].len as int,
            ) implies r is Some && (lie_apart(rs) ==> r == Some(rs[i])) by {
            assert(in_region(rs[i], v));
            lemma_some_region(rs, v, i);
            let j = choose|j: int|
                0 <= j < rs.len() && in_region(#[trigger] rs[j], v) && r->0 == rs[j];
            assert(within(v as int, rs[j].vaddr as int, rs[j].len as int));
        }
    }
}

proof fn lemma_some_region(rs: Seq<Region>, v: u64, i: int)
    requires
        0 <= i < rs.len(),
        in_region(rs[i], v),
    ensures
        first_with(rs, v) is Some,
    decreases rs.len(),
{
    if !in_region(rs[0], v) {
        assert(rs.skip(1)[i - 1] == rs[i]);
        lemma_some_region(rs.skip(1), v, i - 1);
    }
}

/// A write to an address that the program may come to write to concerns the page of the
/// address and the frame behind it: so it is in the heap, in the mapped memory, and in
/// each region of the program that may be written to. A write to any other address
/// concerns none.
pub proof fn law_write_concerns_its_page(k: &Kernel, v: u64, r: Option<Fault>)
    requires
        k.serving(),
        call_ensures(find_fault, (k, v), r),
    ensures
        ({
            let t = me(*k);
            let given = within(v as int, t.brk.vaddr as int, t.brk.len as int) || within(
                v as int,
                t.mmap.vaddr as int,
                t.mmap.len as int,
            );
            let page = v - v % 4096;
            &&& given ==> r == Some(Fault { page: page as u64, p: entry(t, page).p })
            &&& forall|i: int|
                0 <= i < t.program@.len() && within(
                    v as int,
                    (#[trigger] t.program@[i]).vaddr as int,
                    t.program@[i].len as int,
                ) && !given ==> r == if t.program@[i].flags & 2 != 0 {
                    Some(Fault { page: page as u64, p: entry(t, page).p })
                } else {
                    None
                }
            &&& !given && (forall|i: int|
                0 <= i < t.program@.len() ==> !within(
                    v as int,
                    (#[trigger] t.program@[i]).vaddr as int,
                    t.program@[i].len as int,
                )) ==> r is None
        }),
{
    lemma_me(*k);
    let t = me(*k);
    lemma_fault(t, v);
    assert(6u32 & 2 == 2) by (bit_vector);
    law_regions_lie_apart(*k);
    lemma_rules_at(t, v);
}

/// After a write has been let through, the program may write to the page, on the frame
/// that it was on or on the one that was given for a copy; the copy is of the frame that
/// it was on, and no other page has changed.
pub proof fn law_written_page_is_writable(
    k: &mut Kernel,
    v: u64,
    f: Fault,
    action: CowAction,
    copies: Vec<(u64, u64)>,
)
    requires
        old(k).serving(),
        call_ensures(find_fault, (&*old(k), v), Some(f)),
        call_ensures(dabt_handler, (k, v, action), copies),
    ensures
        ({
            let page = v - v % 4096;
            let (t, t0) = (me(*final(k)), me(*old(k)));
            &&& t.pt@.contains_key(page as u64)
            &&& entry(t, page).perm == Perm::PrPwUrUw
            &&& match action {
                CowAction::Remap => entry(t, page).p == entry(t0, page).p && copies@.len() == 0,
                CowAction::Alloc(p) => entry(t, page).p == p && copies@.len() == 1 && copies@[0].0
                    == entry(t0, page).p && copies@[0].1 == p,
            }
            &&& forall|a: u64|
                a != page ==> {
                    &&& #[trigger] t.pt@.contains_key(a) == t0.pt@.contains_key(a)
                    &&& t0.pt@.contains_key(a) ==> t.pt@[a] == t0.pt@[a]
                }
            &&& t == (Task { pt: t.pt, ..t0 })
            &&& rest_kept(*final(k), *old(k))
        }),
{
    lemma_me(*old(k));
}

} // verus!

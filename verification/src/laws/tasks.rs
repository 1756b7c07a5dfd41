//! What becomes of tasks: how one is made, sleeps, is woken, ends and is waited for.
use vstd::prelude::*;

use crate::books::{fds, End};
use crate::fork::{fork, fork_supported, lemma_fds_push, Forked};
use crate::kernel::{regions, space_full, space_sound, Kernel};
use crate::laws::turns::{bytes_of, lemma_all_blocks_len, lemma_block_is_freed};
use crate::laws::{entry, lemma_me, me, reg, within};
use crate::mm::{find_fault, lemma_fault, Fault};
use crate::proc::Seed;
use crate::region::{all_pages, child_table, clone_regions, lemma_blocks, lemma_child_table};
use crate::region::{lemma_parent_table, parent_table, shareable, shared_perm};
use crate::region::{Block, RTree, Region};
use crate::space::{lemma_shareable, shared_regions, stack_table};
use crate::task::{Task, FD};
use crate::vm::{in_pages, PageTable, Perm, Pte};

verus! {

/// How many of the first `n` descriptors are on the file `f`: all of them, or only those
/// that read, or only those that write.
pub open spec fn counted(table: Seq<Option<FD>>, n: int, f: int, r: bool, w: bool) -> int
    decreases n,
{
    if n <= 0 {
        0
    } else {
        counted(table, n - 1, f, r, w) + match table[n - 1] {
            Some(d) => if d.file == f && (r ==> d.read) && (w ==> d.write) {
                1int
            } else {
                0
            },
            None => 0,
        }
    }
}

/// A child goes on where its parent called: it has the parent's program counter, stack
/// pointer, program state and registers, but for the result, which is 0.
pub proof fn law_child_goes_on_like_parent(k: &mut Kernel, seed: Seed, tpidr: u64, r: Forked)
    requires
        old(k).calling(),
        exists|j: int| 0 <= j < 8 && (#[trigger] old(k).tasks@[j]).state is Free,
        call_ensures(fork, (k, seed, tpidr), r),
    ensures
        ({
            let child = final(k).tasks@[r.ret as int].frame;
            let parent = me(*old(k)).frame;
            &&& child.pc == parent.pc
            &&& child.sp_el0 == parent.sp_el0
            &&& child.pstate == parent.pstate
            &&& child.regs@[0] == 0
            &&& forall|i: int| 1 <= i < 31 ==> #[trigger] child.regs@[i] == parent.regs@[i]
        }),
        me(*final(k)).frame == me(*old(k)).frame,
{
    lemma_me(*old(k));
}

/// A child is made in the first free slot, whose number is its process number and the
/// parent's result. It can run, is the parent's, and has the parent's directory,
/// descriptors and regions, and memory of its own for its page table and stack.
pub proof fn law_child_is_made(k: &mut Kernel, seed: Seed, tpidr: u64, r: Forked)
    requires
        old(k).calling(),
        exists|j: int| 0 <= j < 8 && (#[trigger] old(k).tasks@[j]).state is Free,
        forall|j: int| 0 <= j < 8 ==> (#[trigger] old(k).tasks@[j]).sp_el1 + 8192 <= u64::MAX,
        call_ensures(fork, (k, seed, tpidr), r),
    ensures
        ({
            let c = r.ret as int;
            let (was, child, parent) = (old(k).tasks@[c], final(k).tasks@[c], me(*old(k)));
            &&& 0 <= c < 8
            &&& was.state is Free
            &&& forall|j: int| 0 <= j < c ==> !((#[trigger] old(k).tasks@[j]).state is Free)
            &&& child.pid == c
            &&& child.state is Ready
            &&& child.parent == old(k).cpu.task_idx
            &&& child.cwd == parent.cwd
            &&& child.files@ == parent.files@
            &&& child.program@ == parent.program@
            &&& child.brk == parent.brk
            &&& child.mmap == parent.mmap
            &&& child.user_pt == Some(seed.user_pt)
            &&& child.user_sp == Some(seed.user_sp)
            &&& child.sp_el1 == was.sp_el1
            &&& child.lock == was.lock
            &&& child.trapframe == was.sp_el1 + 8192 - 272
            &&& child.ctx@ == was.ctx@.update(12, child.trapframe).update(13, seed.forkret).update(
                14,
                tpidr,
            )
            &&& child.closed == 0
            &&& child.exit_code == was.exit_code
            &&& child.chan == was.chan
            &&& child.loading == was.loading
            &&& child.umask == was.umask
            &&& child.spel0 == was.spel0
            &&& child.tid == if reg(*old(k), 0) & 0x20_0000 != 0 {
                Some(reg(*old(k), 4))
            } else {
                was.tid
            }
            &&& r.tid == if reg(*old(k), 0) & 0x100_0000 != 0 {
                Some((reg(*old(k), 4), r.ret as u32))
            } else {
                None
            }
        }),
        final(k).cpu == old(k).cpu,
        final(k).first == old(k).first,
        forall|i: int|
            0 <= i < 8 && i != r.ret && old(k).cpu.task_idx != Some(i as usize) ==> #[trigger]
                final(k).tasks@[i] == old(k).tasks@[i],
        me(*final(k)).ctx@ == me(*old(k)).ctx@.update(14, tpidr),
        me(*final(k)) == (Task {
            ctx: me(*final(k)).ctx,
            pt: me(*final(k)).pt,
            ..me(*old(k))
        }),
{
    lemma_me(*old(k));
}

/// Where every slot is taken, no child is made.
pub proof fn law_full_table_makes_no_child(k: &mut Kernel, seed: Seed, tpidr: u64, r: Forked)
    requires
        old(k).calling(),
        forall|j: int| 0 <= j < 8 ==> !((#[trigger] old(k).tasks@[j]).state is Free),
        call_ensures(fork, (k, seed, tpidr), r),
    ensures
        r.ret == 0xffff_ffff_ffff_ffff,
        r.shared@.len() == 0,
        r.copies@.len() == 0,
        r.tid is None,
        *final(k) == *old(k),
{
    lemma_me(*old(k));
}

/// Every file counts the child's descriptors on it, and a pipe those on each of its ends.
pub proof fn law_fork_counts_descriptors(k: &mut Kernel, seed: Seed, tpidr: u64, r: Forked, f: int)
    requires
        old(k).calling(),
        exists|j: int| 0 <= j < 8 && (#[trigger] old(k).tasks@[j]).state is Free,
        0 <= f < 128,
        call_ensures(fork, (k, seed, tpidr), r),
    ensures
        ({
            let (file, was) = (final(k).fs.files@[f], old(k).fs.files@[f]);
            let table = me(*old(k)).files@;
            &&& file.rc == was.rc + counted(table, 8, f, false, false)
            &&& file.offt == was.offt
            &&& file.path == was.path
            &&& !(was.kind is Pipe) ==> file.kind == was.kind
            &&& was.kind is Pipe ==> {
                let (p, q) = (file.kind->Pipe_0, was.kind->Pipe_0);
                &&& file.kind is Pipe
                &&& p.readers == q.readers + counted(table, 8, f, true, false)
                &&& p.writers == q.writers + counted(table, 8, f, false, true)
                &&& p.buf@ == q.buf@
                &&& p.rpos == q.rpos
                &&& p.wpos == q.wpos
                &&& p.empty == q.empty
                &&& p.full == q.full
            }
        }),
{
    lemma_me(*old(k));
    let table = me(*old(k)).files@;
    assert(table.take(8) =~= table);
    lemma_counted(table, 8, f, End::Any);
    lemma_counted(table, 8, f, End::Read);
    lemma_counted(table, 8, f, End::Write);
    assert(crate::fork::is_shared(
        final(k).fs.files@[f],
        old(k).fs.files@[f],
        fds(table, 0, f, End::Any),
        fds(table, 0, f, End::Read),
        fds(table, 0, f, End::Write),
    ));
}

proof fn lemma_counted(table: Seq<Option<FD>>, n: int, f: int, e: End)
    requires
        0 <= n <= table.len(),
    ensures
        counted(table, n, f, e is Read, e is Write) == fds(table.take(n), 0, f, e),
        fds(table.take(n), 0, f, e) >= 0,
    decreases n,
{
    if n > 0 {
        lemma_counted(table, n - 1, f, e);
        lemma_fds_push(table.take(n - 1), table[n - 1], 0, f, e);
        assert(table.take(n - 1).push(table[n - 1]) =~= table.take(n));
    }
}

/// Sharing a region leaves every page of it on its frame, in both tables, where neither
/// parent nor child may write.
proof fn lemma_shared_page(
    rs: Seq<Region>,
    m: Map<u64, Pte>,
    to: Map<u64, Pte>,
    i: int,
    a: u64,
)
    requires
        shareable(rs, m, to),
        0 <= i < rs.len(),
        rs[i].granule == 0,
        in_pages(a, rs[i].vaddr as int, rs[i].len as int),
    ensures
        m.contains_key(a),
        parent_table(rs, m).contains_key(a),
        parent_table(rs, m)[a] == (Pte { p: m[a].p, perm: shared_perm(rs[i].flags) }),
        child_table(rs, m, to).contains_key(a),
        child_table(rs, m, to)[a] == (Pte { p: m[a].p, perm: shared_perm(rs[i].flags) }),
    decreases rs.len(),
{
    lemma_blocks();
    lemma_parent_table(rs, m);
    lemma_child_table(rs, m, to);
    let init = rs.drop_last();
    let r = rs.last();
    lemma_parent_table(init, m);
    assert(m.contains_key(a)) by {
        assert(crate::region::backed(rs[i], m));
    }
    assert(rs[i].pages().contains(a));
    if i < init.len() {
        assert(!rs[rs.len() - 1].pages().contains(a));
        assert(init[i] == rs[i]);
        assert forall|x: int, y: int, b: u64|
            0 <= x < y < init.len() && #[trigger] init[x].pages().contains(
                b,
            ) implies !#[trigger] init[y].pages().contains(b) by {
            assert(rs[x].pages().contains(b));
            if init[y].pages().contains(b) {
                assert(rs[y].pages().contains(b));
            }
        }
        assert forall|x: int| 0 <= x < init.len() implies (#[trigger] init[x]).whole()
            && crate::region::known_flags(init[x].flags) && crate::region::backed(init[x], m)
            && crate::vm::unmapped(to, init[x].vaddr as int, init[x].len as int) by {
            assert(rs[x].whole());
        }
        lemma_shared_page(init, m, to, i, a);
    } else {
        assert(r.block_of(a) == a) by {
            assert(r.blk() == 4096);
        }
    }
}

/// The memory of a parent, but for its stack, is its child's too: every page is on the
/// same frame in both, and neither may write to it. The child has a stack of its own,
/// into which the parent's is copied, and no other page; the parent's stays as it is.
pub proof fn law_fork_shares_memory(k: &mut Kernel, seed: Seed, tpidr: u64, r: Forked, a: u64)
    requires
        old(k).calling(),
        exists|j: int| 0 <= j < 8 && (#[trigger] old(k).tasks@[j]).state is Free,
        space_full(me(*old(k))),
        seed.user_sp + 8192 <= u64::MAX,
        a % 4096 == 0,
        call_ensures(fork, (k, seed, tpidr), r),
    ensures
        ({
            let (child, parent, was) = (
                final(k).tasks@[r.ret as int],
                me(*final(k)),
                me(*old(k)),
            );
            let n = was.program@.len() as int;
            &&& within(a as int, was.brk.vaddr as int, was.brk.len as int) || within(
                a as int,
                was.mmap.vaddr as int,
                was.mmap.len as int,
            ) ==> was.pt@.contains_key(a) && is_shared_page(child, parent, was, a, Perm::PrUr)
            &&& forall|i: int|
                0 <= i < n && within(
                    a as int,
                    (#[trigger] was.program@[i]).vaddr as int,
                    was.program@[i].len as int,
                ) ==> was.pt@.contains_key(a) && is_shared_page(
                    child,
                    parent,
                    was,
                    a,
                    if was.program@[i].flags == 5 {
                        Perm::PrUrUx
                    } else {
                        Perm::PrUr
                    },
                )
            &&& within(a as int, 0x2_0000_0000, 8192) ==> {
                &&& child.pt@.contains_key(a)
                &&& child.pt@[a].p == seed.user_sp + (a - 0x2_0000_0000)
                &&& child.pt@[a].perm == Perm::PrPwUrUw
                &&& parent.pt@[a] == was.pt@[a]
            }
            &&& child.pt@.contains_key(a) == was.pt@.contains_key(a)
            &&& parent.pt@.contains_key(a) == was.pt@.contains_key(a)
        }),
        r.copies@.len() == 2,
        r.copies@[0] == (me(*old(k)).user_sp->0, seed.user_sp),
        r.copies@[1].0 == (me(*old(k)).user_sp->0 + 4096) as u64,
        r.copies@[1].1 == seed.user_sp + 4096,
{
    lemma_me(*old(k));
    let was = me(*old(k));
    let rs = shared_regions(was);
    let n = was.program@.len() as int;
    let to = stack_table(seed.user_sp);
    lemma_shareable(was, seed.user_sp);
    lemma_fault(was, a);
    lemma_blocks();
    lemma_child_table(rs, was.pt@, to);
    lemma_same_pages(was, seed.user_sp, a);
    assert(rs[n] == was.brk && rs[n + 1] == was.mmap);
    if within(a as int, was.brk.vaddr as int, was.brk.len as int) {
        lemma_shared_page(rs, was.pt@, to, n, a);
    }
    if within(a as int, was.mmap.vaddr as int, was.mmap.len as int) {
        lemma_shared_page(rs, was.pt@, to, n + 1, a);
    }
    assert forall|i: int|
        0 <= i < n && within(
            a as int,
            (#[trigger] was.program@[i]).vaddr as int,
            was.program@[i].len as int,
        ) implies was.pt@.contains_key(a) && is_shared_page(
        final(k).tasks@[r.ret as int],
        me(*final(k)),
        was,
        a,
        if was.program@[i].flags == 5 {
            Perm::PrUrUx
        } else {
            Perm::PrUr
        },
    ) by {
        assert(rs[i] == was.program@[i]);
        assert(rs[i].whole());
        lemma_shared_page(rs, was.pt@, to, i, a);
    }
    if within(a as int, 0x2_0000_0000, 8192) {
        assert(to.contains_key(a));
        if all_pages(rs).contains(a) {
            let x = choose|x: int| 0 <= x < rs.len() && #[trigger] rs[x].pages().contains(a);
            assert(crate::vm::unmapped(to, rs[x].vaddr as int, rs[x].len as int));
        }
        assert(child_table(rs, was.pt@, to)[a] == to[a]);
        lemma_unshared_page(rs, was.pt@, a);
    }
    lemma_parent_table(rs, was.pt@);
    assert(parent_table(rs, was.pt@).dom().contains(a) == was.pt@.dom().contains(a));
}

/// A page of no region is as it was.
proof fn lemma_unshared_page(rs: Seq<Region>, m: Map<u64, Pte>, a: u64)
    requires
        m.contains_key(a),
        !all_pages(rs).contains(a),
    ensures
        parent_table(rs, m).contains_key(a),
        parent_table(rs, m)[a] == m[a],
    decreases rs.len(),
{
    lemma_parent_table(rs, m);
    assert(parent_table(rs, m).dom().contains(a));
    if rs.len() > 0 {
        crate::region::lemma_all_pages_last(rs, a);
        lemma_unshared_page(rs.drop_last(), m, a);
        assert(!rs.last().pages().contains(a));
        assert(!in_pages(a, rs.last().vaddr as int, rs.last().len as int));
    }
}

/// A child has the pages that its parent has.
proof fn lemma_same_pages(t: Task, p: u64, a: u64)
    requires
        space_full(t),
        t.user_sp is Some,
    ensures
        child_table(shared_regions(t), t.pt@, stack_table(p)).contains_key(a) == t.pt@.contains_key(
            a,
        ),
        within(a as int, 0x2_0000_0000, 8192) && a % 4096 == 0 ==> t.pt@.contains_key(a),
{
    reveal(space_full);
    reveal(space_sound);
    let rs = shared_regions(t);
    let all = regions(t);
    let n = t.program@.len() as int;
    let to = stack_table(p);
    lemma_child_table(rs, t.pt@, to);
    assert(t.pt@.dom().contains(a) == all_pages(all).contains(a));
    assert(all[n] == t.spel0 && all[n + 1] == t.brk && all[n + 2] == t.mmap);
    assert(to.contains_key(a) == all[n].pages().contains(a));
    if all_pages(all).contains(a) {
        let x = choose|x: int| 0 <= x < all.len() && #[trigger] all[x].pages().contains(a);
        if x != n {
            let y = if x < n {
                x
            } else {
                x - 1
            };
            assert(rs[y] == all[x]);
            assert(rs[y].pages().contains(a));
        }
    }
    if all_pages(rs).contains(a) {
        let y = choose|y: int| 0 <= y < rs.len() && #[trigger] rs[y].pages().contains(a);
        let x = if y < n {
            y
        } else {
            y + 1
        };
        assert(rs[y] == all[x]);
        assert(all[x].pages().contains(a));
    }
}

/// Every frame that parent and child share is told, so that it can be counted, and no
/// more.
pub proof fn law_shared_frames_are_told(k: &mut Kernel, seed: Seed, tpidr: u64, r: Forked, a: u64)
    requires
        old(k).calling(),
        exists|j: int| 0 <= j < 8 && (#[trigger] old(k).tasks@[j]).state is Free,
        space_full(me(*old(k))),
        a % 4096 == 0,
        call_ensures(fork, (k, seed, tpidr), r),
    ensures
        ({
            let t = me(*old(k));
            &&& 4096 * r.shared@.len() == bytes_of(t.program@) + t.brk.len + t.mmap.len
            &&& within(a as int, t.brk.vaddr as int, t.brk.len as int) || within(
                a as int,
                t.mmap.vaddr as int,
                t.mmap.len as int,
            ) || (exists|i: int|
                0 <= i < t.program@.len() && within(
                    a as int,
                    (#[trigger] t.program@[i]).vaddr as int,
                    t.program@[i].len as int,
                )) ==> r.shared@.contains(Block { p: t.pt@[a].p, size: 4096 })
        }),
{
    lemma_me(*old(k));
    let t = me(*old(k));
    let rs = shared_regions(t);
    let n = t.program@.len() as int;
    lemma_shareable(t, seed.user_sp);
    lemma_blocks();
    assert forall|i: int| 0 <= i < rs.len() implies (#[trigger] rs[i]).granule == 0
        && rs[i].vaddr % 4096 == 0 && rs[i].len % 4096 == 0 by {
        assert(rs[i].whole());
    }
    lemma_all_blocks_len(rs, t.pt@);
    let b = t.program@.push(t.brk);
    assert(rs.drop_last() =~= b && rs.last() == t.mmap);
    assert(b.drop_last() =~= t.program@ && b.last() == t.brk);
    assert(bytes_of(rs) == bytes_of(b) + t.mmap.len);
    assert(bytes_of(b) == bytes_of(t.program@) + t.brk.len);
    assert(rs[n] == t.brk && rs[n + 1] == t.mmap);
    if within(a as int, t.brk.vaddr as int, t.brk.len as int) {
        lemma_block_is_freed(rs, t.pt@, n, a);
    } else if within(a as int, t.mmap.vaddr as int, t.mmap.len as int) {
        lemma_block_is_freed(rs, t.pt@, n + 1, a);
    } else if exists|i: int|
        0 <= i < t.program@.len() && within(
            a as int,
            (#[trigger] t.program@[i]).vaddr as int,
            t.program@[i].len as int,
        ) {
        let i = choose|i: int|
            0 <= i < t.program@.len() && within(
                a as int,
                (#[trigger] t.program@[i]).vaddr as int,
                t.program@[i].len as int,
            );
        assert(rs[i] == t.program@[i]);
        lemma_block_is_freed(rs, t.pt@, i, a);
    }
}

/// A parent can come to write again to every page that it could write to before the
/// child was made: a write to it concerns the page, on the frame that it was on.
pub proof fn law_parent_can_write_again(
    k: &mut Kernel,
    seed: Seed,
    tpidr: u64,
    r: Forked,
    v: u64,
    before: Fault,
    after: Option<Fault>,
)
    requires
        old(k).calling(),
        space_full(me(*old(k))),
        call_ensures(find_fault, (&*old(k), v), Some(before)),
        call_ensures(fork, (k, seed, tpidr), r),
        call_ensures(find_fault, (&*final(k), v), after),
    ensures
        after == Some(before),
        before.page == v - v % 4096,
        before.p == entry(me(*old(k)), before.page as int).p,
{
    lemma_me(*old(k));
    let was = me(*old(k));
    lemma_parent_table(shared_regions(was), was.pt@);
    crate::mm::law_full_memory_has_frames(was, v);
    assert(was.pt@.dom().contains(before.page));
}

/// Whether a page is on the frame that it was on, in the tables of a parent and its
/// child, and both have this permission.
pub open spec fn is_shared_page(child: Task, parent: Task, was: Task, a: u64, perm: Perm) -> bool {
    &&& child.pt@.contains_key(a)
    &&& child.pt@[a].p == was.pt@[a].p
    &&& child.pt@[a].perm == perm
    &&& parent.pt@.contains_key(a)
    &&& parent.pt@[a].p == was.pt@[a].p
    &&& parent.pt@[a].perm == perm
}

/// A child can be asked for with no flag but the two that say where its number goes: any
/// other one, by its bit, is refused. The low bits say which signal its end sends.
pub proof fn law_other_flags_are_refused(flags: u64, i: u64, b: bool)
    requires
        7 <= i < 34,
        call_ensures(fork_supported, (flags,), b),
    ensures
        i != 21 && i != 24 && flags & (1u64 << i) != 0 ==> !b,
        flags & 0x3_fedf_ff80 == 0 ==> b,
{
    assert(i != 21 && i != 24 && flags & (1u64 << i) != 0 ==> flags & 0x3_fedf_ff80 != 0)
        by (bit_vector)
        requires
            7 <= i < 34,
    ;
}

/// Several regions of single pages that are shared have every page on the same frame in
/// both tables, where nobody may write, and stand in the same order in both lists.
pub proof fn law_regions_are_shared(
    from: &RTree,
    to: &mut RTree,
    from_pt: &mut PageTable,
    to_pt: &mut PageTable,
    shared: Vec<Block>,
    i: int,
    a: u64,
)
    requires
        shareable(from@, old(from_pt)@, old(to_pt)@),
        0 <= i < from@.len(),
        from@[i].granule == 0,
        (a - from@[i].vaddr) % 4096 == 0,
        within(a as int, from@[i].vaddr as int, from@[i].len as int),
        call_ensures(clone_regions, (from, to, from_pt, to_pt), shared),
    ensures
        final(to)@.len() == old(to)@.len() + from@.len(),
        final(to)@[old(to)@.len() + i] == from@[i],
        forall|j: int| 0 <= j < old(to)@.len() ==> #[trigger] final(to)@[j] == old(to)@[j],
        ({
            let perm = if from@[i].flags == 5 {
                Perm::PrUrUx
            } else {
                Perm::PrUr
            };
            &&& final(from_pt)@.contains_key(a)
            &&& final(from_pt)@[a].p == old(from_pt)@[a].p
            &&& final(from_pt)@[a].perm == perm
            &&& final(to_pt)@.contains_key(a)
            &&& final(to_pt)@[a].p == old(from_pt)@[a].p
            &&& final(to_pt)@[a].perm == perm
        }),
{
    lemma_shared_page(from@, old(from_pt)@, old(to_pt)@, i, a);
}

} // verus!

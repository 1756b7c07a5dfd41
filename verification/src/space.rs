//! Address spaces: how they grow, are shared and end.
use vstd::prelude::*;

use crate::kernel::{backed_regions, framed, regions, space_full, space_sound};
use crate::region::{all_blocks, all_pages, backed, child_table, clone_region, clone_regions};
use crate::region::{free_region, free_regions, known_flags, lemma_child_table};
use crate::region::{lemma_parent_table, lemma_same_blocks, lemma_same_shared, parent_table};
use crate::region::{shareable, shared_pages, shared_perm, sound_regions, Block, RTree, Region};
use crate::task::{new_brk, new_mmap, user_stack_region, Task};
use crate::vm::{all_mapped, in_pages, unmapped, with_perm, PageTable, Perm, Pte};

verus! {

/// The table with the pages from `v` on, on these frames, one each.
pub open spec fn with_frames(m: Map<u64, Pte>, v: int, frames: Seq<u64>, perm: Perm) -> Map<
    u64,
    Pte,
> {
    Map::new(
        |a: u64| m.contains_key(a) || in_pages(a, v, 4096 * (frames.len() as int)),
        |a: u64|
            if in_pages(a, v, 4096 * (frames.len() as int)) {
                Pte { p: frames[(a - v) / 4096], perm }
            } else {
                m[a]
            },
    )
}

/// Whether frames lie in the physical address space.
pub open spec fn usable_frames(frames: Seq<u64>) -> bool {
    forall|i: int| 0 <= i < frames.len() ==> #[trigger] frames[i] + 8192 <= u64::MAX
}

/// Puts the pages from `v` on, on frames of their own.
pub fn map_frames(pt: &mut PageTable, v: u64, frames: &[u64], perm: Perm)
    requires
        v + 4096 * frames@.len() <= u64::MAX,
        usable_frames(frames@),
        unmapped(old(pt)@, v as int, 4096 * (frames@.len() as int)),
    ensures
        final(pt)@ == with_frames(old(pt)@, v as int, frames@, perm),
{
    let mut i: usize = 0;
    let ghost m = pt@;
    assert(pt@ =~= with_frames(m, v as int, frames@.take(0), perm));
    while i < frames.len()
        invariant
            i <= frames@.len(),
            v + 4096 * frames@.len() <= u64::MAX,
            usable_frames(frames@),
            unmapped(m, v as int, 4096 * (frames@.len() as int)),
            pt@ == with_frames(m, v as int, frames@.take(i as int), perm),
        decreases frames@.len() - i,
    {
        let ghost m1 = pt@;
        let a: u64 = v + 4096 * (i as u64);
        proof {
            assert(frames@[i as int] + 8192 <= u64::MAX);
            assert forall|b: u64| #[trigger] m1.contains_key(b) implies !in_pages(
                b,
                a as int,
                4096,
            ) by {
                if in_pages(b, a as int, 4096) {
                    assert(b == a);
                    assert(in_pages(b, v as int, 4096 * (frames@.len() as int)));
                    assert(!in_pages(b, v as int, 4096 * i));
                }
            }
        }
        let r = crate::vm::map(pt, a, frames[i], 1, perm);
        proof {
            assert(r is Ok) by {
                if r is Err {
                    let k = choose|k: int|
                        0 <= k < 1 && #[trigger] unmapped(m1, a as int, 4096 * k)
                            && m1.contains_key((a + 4096 * k) as u64);
                    assert(in_pages((a + 4096 * k) as u64, a as int, 4096));
                }
            }
            let next = with_frames(m, v as int, frames@.take(i + 1), perm);
            assert forall|b: u64| pt@.contains_key(b) == next.contains_key(b) by {
                assert(in_pages(b, v as int, 4096 * (i + 1)) == (in_pages(b, v as int, 4096 * i)
                    || in_pages(b, a as int, 4096)));
            }
            assert forall|b: u64| next.contains_key(b) implies #[trigger] pt@[b] == next[b] by {
                if in_pages(b, a as int, 4096) {
                    assert(b == a);
                    assert((b - v) / 4096 == i);
                    assert(frames@.take(i + 1)[i as int] == frames@[i as int]);
                } else if in_pages(b, v as int, 4096 * i) {
                    let j = (b - v) / 4096;
                    assert(0 <= j < i);
                    assert(frames@.take(i + 1)[j] == frames@.take(i as int)[j]);
                }
            }
            assert(pt@ =~= next);
        }
        i += 1;
    }
    assert(frames@.take(i as int) =~= frames@);
}

/// A region grows into pages that had no frame: the regions stay sound.
pub proof fn lemma_grown(
    rs: Seq<Region>,
    m: Map<u64, Pte>,
    j: int,
    r: Region,
    m1: Map<u64, Pte>,
)
    requires
        sound_regions(rs, m),
        0 <= j < rs.len(),
        r.vaddr == rs[j].vaddr,
        rs[j].len <= r.len,
        rs[j].len % 4096 == 0,
        r.whole(),
        unmapped(m, rs[j].vaddr + rs[j].len, r.len - rs[j].len),
        forall|a: u64| #[trigger]
            m1.contains_key(a) <==> m.contains_key(a) || in_pages(
                a,
                rs[j].vaddr + rs[j].len,
                r.len - rs[j].len,
            ),
    ensures
        sound_regions(rs.update(j, r), m1),
{
    let us = rs.update(j, r);
    let old = rs[j];
    assert forall|a: u64| #[trigger] r.pages().contains(a) <==> old.pages().contains(a) || in_pages(
        a,
        old.vaddr + old.len,
        r.len - old.len,
    ) by {}
    assert forall|x: int, y: int, a: u64|
        0 <= x < y < us.len() && #[trigger] us[x].pages().contains(
            a,
        ) implies !#[trigger] us[y].pages().contains(a) by {
        if us[y].pages().contains(a) {
            if x != j && y != j {
                assert(rs[x].pages().contains(a) && rs[y].pages().contains(a));
            } else {
                let z = if x == j { y } else { x };
                assert(rs[z].pages().contains(a));
                assert(all_mapped(m, rs[z].vaddr as int, rs[z].len as int));
                assert(m.contains_key(a));
                assert(old.pages().contains(a));
                assert(rs[x].pages().contains(a) && rs[y].pages().contains(a));
            }
        }
    }
    assert forall|x: int| 0 <= x < us.len() implies (#[trigger] us[x]).whole() by {
        assert(rs[x].whole());
    }
    assert forall|x: int| 0 <= x < us.len() implies all_mapped(
        m1,
        (#[trigger] us[x]).vaddr as int,
        us[x].len as int,
    ) by {
        assert(all_mapped(m, rs[x].vaddr as int, rs[x].len as int));
        assert forall|a: u64| in_pages(a, us[x].vaddr as int, us[x].len as int) implies #[trigger]
            m1.contains_key(a) by {
            if x == j {
                assert(r.pages().contains(a));
                if old.pages().contains(a) {
                    assert(in_pages(a, old.vaddr as int, old.len as int));
                    assert(m.contains_key(a));
                }
            } else {
                assert(m.contains_key(a));
            }
        }
    }
}

/// A region grows with the table: the table still has no pages but those of the regions,
/// and all of them where it had all.
proof fn lemma_grown_pages(
    rs: Seq<Region>,
    m: Map<u64, Pte>,
    j: int,
    r: Region,
    m1: Map<u64, Pte>,
)
    requires
        m.dom().subset_of(all_pages(rs)),
        0 <= j < rs.len(),
        r.vaddr == rs[j].vaddr,
        rs[j].len <= r.len,
        rs[j].len % 4096 == 0,
        forall|a: u64| #[trigger]
            m1.contains_key(a) <==> m.contains_key(a) || in_pages(
                a,
                rs[j].vaddr + rs[j].len,
                r.len - rs[j].len,
            ),
    ensures
        m1.dom().subset_of(all_pages(rs.update(j, r))),
        m.dom() == all_pages(rs) ==> m1.dom() == all_pages(rs.update(j, r)),
{
    let us = rs.update(j, r);
    let old = rs[j];
    assert forall|a: u64| #[trigger] r.pages().contains(a) <==> old.pages().contains(a) || in_pages(
        a,
        old.vaddr + old.len,
        r.len - old.len,
    ) by {}
    assert forall|a: u64| m1.dom().contains(a) implies all_pages(us).contains(a) by {
        if m.contains_key(a) {
            assert(m.dom().contains(a));
            assert(all_pages(rs).contains(a));
            let x = choose|x: int| 0 <= x < rs.len() && #[trigger] rs[x].pages().contains(a);
            assert(us[x].pages().contains(a));
        } else {
            assert(us[j].pages().contains(a));
        }
    }
    if m.dom() == all_pages(rs) {
        assert forall|a: u64| all_pages(us).contains(a) implies m1.dom().contains(a) by {
            let x = choose|x: int| 0 <= x < us.len() && #[trigger] us[x].pages().contains(a);
            if x != j {
                assert(rs[x].pages().contains(a));
                assert(all_pages(rs).contains(a));
            } else if old.pages().contains(a) {
                assert(rs[j].pages().contains(a));
                assert(all_pages(rs).contains(a));
            }
        }
        assert(m1.dom() =~= all_pages(us));
    }
}

/// A region of pages that had no frame comes in: the regions stay sound.
pub proof fn lemma_inserted(
    rs: Seq<Region>,
    m: Map<u64, Pte>,
    j: int,
    r: Region,
    m1: Map<u64, Pte>,
)
    requires
        sound_regions(rs, m),
        0 <= j <= rs.len(),
        r.whole(),
        unmapped(m, r.vaddr as int, r.len as int),
        forall|a: u64| #[trigger]
            m1.contains_key(a) <==> m.contains_key(a) || in_pages(a, r.vaddr as int, r.len as int),
    ensures
        sound_regions(rs.insert(j, r), m1),
{
    let us = rs.insert(j, r);
    assert forall|x: int| 0 <= x < us.len() && x != j implies #[trigger] us[x] == rs[if x < j {
        x
    } else {
        x - 1
    }] by {}
    assert forall|x: int, y: int, a: u64|
        0 <= x < y < us.len() && #[trigger] us[x].pages().contains(
            a,
        ) implies !#[trigger] us[y].pages().contains(a) by {
        if us[y].pages().contains(a) {
            let x0 = if x < j { x } else { x - 1 };
            let y0 = if y < j { y } else { y - 1 };
            if x != j && y != j {
                assert(rs[x0].pages().contains(a) && rs[y0].pages().contains(a));
            } else {
                let z = if x == j { y0 } else { x0 };
                assert(rs[z].pages().contains(a));
                assert(all_mapped(m, rs[z].vaddr as int, rs[z].len as int));
                assert(m.contains_key(a));
            }
        }
    }
    assert forall|x: int| 0 <= x < us.len() implies (#[trigger] us[x]).whole() by {
        if x != j {
            assert(rs[if x < j { x } else { x - 1 }].whole());
        }
    }
    assert forall|x: int| 0 <= x < us.len() implies all_mapped(
        m1,
        (#[trigger] us[x]).vaddr as int,
        us[x].len as int,
    ) by {
        if x != j {
            let x0 = if x < j { x } else { x - 1 };
            assert(all_mapped(m, rs[x0].vaddr as int, rs[x0].len as int));
            assert forall|a: u64| in_pages(
                a,
                us[x].vaddr as int,
                us[x].len as int,
            ) implies #[trigger] m1.contains_key(a) by {
                assert(m.contains_key(a));
            }
        }
    }
}

/// A region comes in with its pages: the table still has no pages but those of the
/// regions, and all of them where it had all.
proof fn lemma_inserted_pages(
    rs: Seq<Region>,
    m: Map<u64, Pte>,
    j: int,
    r: Region,
    m1: Map<u64, Pte>,
)
    requires
        m.dom().subset_of(all_pages(rs)),
        0 <= j <= rs.len(),
        forall|a: u64| #[trigger]
            m1.contains_key(a) <==> m.contains_key(a) || in_pages(a, r.vaddr as int, r.len as int),
    ensures
        m1.dom().subset_of(all_pages(rs.insert(j, r))),
        m.dom() == all_pages(rs) ==> m1.dom() == all_pages(rs.insert(j, r)),
{
    let us = rs.insert(j, r);
    assert forall|a: u64| m1.dom().contains(a) implies all_pages(us).contains(a) by {
        if m.contains_key(a) {
            assert(m.dom().contains(a));
            assert(all_pages(rs).contains(a));
            let x = choose|x: int| 0 <= x < rs.len() && #[trigger] rs[x].pages().contains(a);
            let x1 = if x < j { x } else { x + 1 };
            assert(us[x1] == rs[x]);
            assert(us[x1].pages().contains(a));
        } else {
            assert(us[j].pages().contains(a));
        }
    }
    if m.dom() == all_pages(rs) {
        assert forall|a: u64| all_pages(us).contains(a) implies m1.dom().contains(a) by {
            let x = choose|x: int| 0 <= x < us.len() && #[trigger] us[x].pages().contains(a);
            if x != j {
                let x0 = if x < j { x } else { x - 1 };
                assert(us[x] == rs[x0]);
                assert(rs[x0].pages().contains(a));
                assert(all_pages(rs).contains(a));
            } else {
                assert(m1.contains_key(a));
            }
        }
        assert(m1.dom() =~= all_pages(us));
    }
}

/// Regions stay sound in a table that has more pages.
proof fn lemma_more_pages(rs: Seq<Region>, m: Map<u64, Pte>, m1: Map<u64, Pte>)
    requires
        sound_regions(rs, m),
        m.dom().subset_of(m1.dom()),
    ensures
        sound_regions(rs, m1),
{
    assert forall|x: int| 0 <= x < rs.len() implies all_mapped(
        m1,
        (#[trigger] rs[x]).vaddr as int,
        rs[x].len as int,
    ) by {
        assert(all_mapped(m, rs[x].vaddr as int, rs[x].len as int));
        assert forall|a: u64| in_pages(a, rs[x].vaddr as int, rs[x].len as int) implies #[trigger]
            m1.contains_key(a) by {
            assert(m.contains_key(a));
            assert(m.dom().contains(a));
            assert(m1.dom().contains(a));
        }
    }
}

/// Where nothing is missing, the address space is sound.
pub proof fn lemma_full(t: Task)
    requires
        t.user_sp is Some,
        t.spel0 == user_stack_region(),
        t.brk == (Region { len: t.brk.len, ..new_brk() }),
        t.mmap == (Region { len: t.mmap.len, ..new_mmap() }),
        sound_regions(regions(t), t.pt@),
        t.pt@.dom() == all_pages(regions(t)),
        framed(t.pt@),
        forall|i: int|
            0 <= i < t.program@.len() ==> known_flags((#[trigger] t.program@[i]).flags)
                && t.program@[i].granule == 0,
    ensures
        space_full(t),
        space_sound(t),
{
    reveal(space_sound);
    reveal(space_full);
    let n = t.program@.len() as int;
    let rs = regions(t);
    lemma_prefix(rs, t.pt@, n + 2);
    assert(rs.take(n + 2) =~= backed_regions(t));
    assert(rs[n + 2] == t.mmap);
    assert(rs[n + 2].whole());
}

/// Frames of their own keep a table framed.
pub proof fn lemma_frames(m: Map<u64, Pte>, v: int, frames: Seq<u64>, perm: Perm)
    requires
        framed(m),
        usable_frames(frames),
    ensures
        framed(with_frames(m, v, frames, perm)),
{
    let m1 = with_frames(m, v, frames, perm);
    assert forall|a: u64| #[trigger] m1.contains_key(a) implies m1[a].p + 8192 <= u64::MAX by {
        if in_pages(a, v, 4096 * (frames.len() as int)) {
            let i = (a - v) / 4096;
            assert(0 <= i < frames.len());
            assert(frames[i] + 8192 <= u64::MAX);
        } else {
            assert(m.contains_key(a));
        }
    }
}

/// Whether the heap or the mapped memory of a task has grown.
pub open spec fn has_grown(t: Task, old: Task, heap: bool, frames: Seq<u64>, perm: Perm) -> bool {
    let r = if heap {
        old.brk
    } else {
        old.mmap
    };
    let len = (r.len + 4096 * frames.len()) as u64;
    &&& t.pt@ == with_frames(old.pt@, r.vaddr + r.len, frames, perm)
    &&& t == (if heap {
        Task { brk: Region { len, ..r }, pt: t.pt, ..old }
    } else {
        Task { mmap: Region { len, ..r }, pt: t.pt, ..old }
    })
}

/// Memory that grows keeps an address space sound, and full.
pub proof fn lemma_space_grown(t: Task, old: Task, heap: bool, frames: Seq<u64>, perm: Perm)
    requires
        space_sound(old),
        old.user_sp is Some,
        usable_frames(frames),
        has_grown(t, old, heap, frames, perm),
        ({
            let r = if heap {
                old.brk
            } else {
                old.mmap
            };
            &&& r.len + 4096 * frames.len() <= 0xc000_0000
            &&& unmapped(old.pt@, r.vaddr + r.len, 4096 * (frames.len() as int))
        }),
    ensures
        space_sound(t),
        space_full(old) ==> space_full(t),
{
    reveal(space_sound);
    reveal(space_full);
    crate::region::lemma_blocks();
    let n = old.program@.len() as int;
    let j = if heap { n + 1 } else { n + 2 };
    let r = if heap { t.brk } else { t.mmap };
    let rs = regions(old);
    let bs = backed_regions(old);
    assert(rs[n + 1] == old.brk && rs[n + 2] == old.mmap && bs[n + 1] == old.brk);
    assert(bs[n + 1].whole());
    assert(regions(t) =~= rs.update(j, r));
    lemma_frames(old.pt@, rs[j].vaddr + rs[j].len, frames, perm);
    lemma_grown_pages(rs, old.pt@, j, r, t.pt@);
    if heap {
        assert(backed_regions(t) =~= bs.update(n + 1, r));
        lemma_grown(bs, old.pt@, n + 1, r, t.pt@);
    } else {
        assert(backed_regions(t) =~= bs);
        assert forall|a: u64| old.pt@.dom().contains(a) implies t.pt@.dom().contains(a) by {
            assert(t.pt@.contains_key(a));
        }
        lemma_more_pages(bs, old.pt@, t.pt@);
    }
    if space_full(old) {
        lemma_grown(rs, old.pt@, j, r, t.pt@);
    }
}

/// Mapped memory that grows without getting frames keeps an address space sound.
pub proof fn lemma_space_torn(t: Task, old: Task, len: u64)
    requires
        space_sound(old),
        old.user_sp is Some,
        old.mmap.len <= len <= 0xc000_0000,
        len % 4096 == 0,
        t == (Task { mmap: Region { len, ..old.mmap }, ..old }),
    ensures
        space_sound(t),
        len == old.mmap.len ==> space_full(t) == space_full(old),
{
    reveal(space_sound);
    crate::region::lemma_blocks();
    let n = old.program@.len() as int;
    let rs = regions(old);
    let us = regions(t);
    assert(backed_regions(t) =~= backed_regions(old));
    assert forall|a: u64| t.pt@.dom().contains(a) implies all_pages(us).contains(a) by {
        assert(all_pages(rs).contains(a));
        let x = choose|x: int| 0 <= x < rs.len() && #[trigger] rs[x].pages().contains(a);
        assert(us[x].pages().contains(a));
    }
}

/// Another permission or another frame behind a page keeps an address space sound, and
/// full.
pub proof fn lemma_space_same_pages(t: Task, old: Task)
    requires
        space_sound(old),
        old.user_sp is Some,
        t.pt@.dom() == old.pt@.dom(),
        framed(t.pt@),
        t.spel0 == old.spel0,
        t.brk == old.brk,
        t.mmap == old.mmap,
        t.user_sp is Some,
        t.program@ == old.program@,
    ensures
        space_sound(t),
        space_full(old) ==> space_full(t),
{
    reveal(space_sound);
    reveal(space_full);
    let rs = regions(old);
    assert(regions(t) =~= rs);
    assert(backed_regions(t) =~= backed_regions(old));
    lemma_more_pages(backed_regions(old), old.pt@, t.pt@);
    if space_full(old) {
        lemma_more_pages(rs, old.pt@, t.pt@);
    }
}

/// The blocks behind one region more.
pub proof fn lemma_all_blocks_push(rs: Seq<Region>, r: Region, m: Map<u64, Pte>)
    ensures
        all_blocks(rs.push(r), m) == all_blocks(rs, m) + r.blocks(m),
{
    assert(rs.push(r).drop_last() =~= rs);
}

/// The pages of one region more.
pub proof fn lemma_all_pages_push(rs: Seq<Region>, r: Region)
    ensures
        all_pages(rs.push(r)) == all_pages(rs).union(r.pages()),
{
    let us = rs.push(r);
    assert forall|a: u64| all_pages(us).contains(a) == all_pages(rs).union(r.pages()).contains(
        a,
    ) by {
        crate::region::lemma_all_pages_last(us, a);
        assert(us.drop_last() =~= rs);
    }
    assert(all_pages(us) =~= all_pages(rs).union(r.pages()));
}

/// Frees the next of a list of regions, where those before it are freed already.
fn free_next(
    region: &Region,
    pt: &mut PageTable,
    freed: &mut Vec<Block>,
    Ghost(rs): Ghost<Seq<Region>>,
    Ghost(j): Ghost<int>,
    Ghost(m): Ghost<Map<u64, Pte>>,
)
    requires
        sound_regions(rs, m),
        0 <= j < rs.len(),
        *region == rs[j],
        old(pt)@ == m.remove_keys(all_pages(rs.take(j))),
        old(freed)@ == all_blocks(rs.take(j), m),
    ensures
        final(pt)@ == m.remove_keys(all_pages(rs.take(j + 1))),
        final(freed)@ == all_blocks(rs.take(j + 1), m),
{
    let ghost r = rs[j];
    let ghost seen = rs.take(j);
    let ghost done = pt@;
    proof {
        assert(r.whole());
        assert(all_mapped(m, r.vaddr as int, r.len as int));
        assert forall|a: u64| r.pages().contains(a) implies #[trigger] done.contains_key(a)
            && done[a] == m[a] by {
            assert(in_pages(a, r.vaddr as int, r.len as int));
            assert(m.contains_key(a));
            if all_pages(seen).contains(a) {
                let x = choose|x: int|
                    0 <= x < seen.len() && #[trigger] seen[x].pages().contains(a);
                assert(rs[x].pages().contains(a));
            }
        }
        assert forall|a: u64| in_pages(a, r.vaddr as int, r.len as int) implies #[trigger]
            done.contains_key(a) by {
            assert(r.pages().contains(a));
        }
        lemma_same_blocks(r, m, done);
        assert(rs.take(j + 1) =~= seen.push(r));
        lemma_all_blocks_push(seen, r, m);
        lemma_all_pages_push(seen, r);
    }
    let mut more: Vec<Block> = free_region(region, pt, false);
    freed.append(&mut more);
    proof {
        assert(pt@ =~= m.remove_keys(all_pages(rs.take(j + 1))));
    }
}

/// The task `old` without memory.
pub open spec fn is_bare(t: Task, old: Task) -> bool {
    &&& t.pt@ == Map::<u64, Pte>::empty()
    &&& t.program@ == Seq::<Region>::empty()
    &&& t == (Task {
        pt: t.pt,
        program: t.program,
        brk: Region { len: 0, ..old.brk },
        mmap: Region { len: 0, ..old.mmap },
        user_sp: None,
        ..old
    })
}

/// Takes all memory from a task; returns the blocks to be freed.
pub fn free_space(t: &mut Task) -> (freed: Vec<Block>)
    requires
        space_full(*old(t)),
        old(t).user_sp is Some,
    ensures
        is_bare(*final(t), *old(t)),
        space_sound(*final(t)),
        freed@ == all_blocks(regions(*old(t)), old(t).pt@),
{
    let ghost rs = regions(*t);
    let ghost m = t.pt@;
    let ghost n = t.program@.len() as int;
    proof {
        reveal(space_sound);
        reveal(space_full);
        assert(rs.take(n) =~= t.program@);
        assert(rs[n] == t.spel0 && rs[n + 1] == t.brk && rs[n + 2] == t.mmap);
        lemma_prefix(rs, m, n);
    }
    let mut freed: Vec<Block> = free_regions(&t.program, &mut t.pt, false);
    free_next(&t.spel0, &mut t.pt, &mut freed, Ghost(rs), Ghost(n), Ghost(m));
    free_next(&t.brk, &mut t.pt, &mut freed, Ghost(rs), Ghost(n + 1), Ghost(m));
    free_next(&t.mmap, &mut t.pt, &mut freed, Ghost(rs), Ghost(n + 2), Ghost(m));
    t.user_sp = None;
    t.program.clear();
    t.brk.len = 0;
    t.mmap.len = 0;
    proof {
        assert(rs.take(n + 3) =~= rs);
        assert(t.pt@ =~= Map::<u64, Pte>::empty());
    }
    freed
}

/// The first of sound regions are sound.
proof fn lemma_prefix(rs: Seq<Region>, m: Map<u64, Pte>, n: int)
    requires
        sound_regions(rs, m),
        0 <= n <= rs.len(),
    ensures
        sound_regions(rs.take(n), m),
{
    let us = rs.take(n);
    assert forall|x: int, y: int, a: u64|
        0 <= x < y < us.len() && #[trigger] us[x].pages().contains(
            a,
        ) implies !#[trigger] us[y].pages().contains(a) by {
        assert(rs[x].pages().contains(a));
        if us[y].pages().contains(a) {
            assert(rs[y].pages().contains(a));
        }
    }
    assert forall|x: int| 0 <= x < us.len() implies (#[trigger] us[x]).whole() by {
        assert(rs[x].whole());
    }
    assert forall|x: int| 0 <= x < us.len() implies all_mapped(
        m,
        (#[trigger] us[x]).vaddr as int,
        us[x].len as int,
    ) by {
        assert(all_mapped(m, rs[x].vaddr as int, rs[x].len as int));
    }
}

/// What is freed holds the block behind every page of every region.
pub proof fn law_every_page_is_freed(t: Task, i: int, a: u64)
    requires
        space_full(t),
        t.user_sp is Some,
        0 <= i < regions(t).len(),
        regions(t)[i].pages().contains(a),
    ensures
        ({
            let r = regions(t)[i];
            all_blocks(regions(t), t.pt@).contains(
                Block { p: t.pt@[r.block_of(a)].p, size: crate::region::block(r.granule) },
            )
        }),
{
    reveal(space_full);
    lemma_block_listed(regions(t), t.pt@, i, a);
}

proof fn lemma_block_listed(rs: Seq<Region>, m: Map<u64, Pte>, i: int, a: u64)
    requires
        0 <= i < rs.len(),
        rs[i].whole(),
        rs[i].pages().contains(a),
    ensures
        all_blocks(rs, m).contains(
            Block { p: m[rs[i].block_of(a)].p, size: crate::region::block(rs[i].granule) },
        ),
    decreases rs.len(),
{
    let init = rs.drop_last();
    let last = rs.last();
    let b = Block { p: m[rs[i].block_of(a)].p, size: crate::region::block(rs[i].granule) };
    if i < rs.len() - 1 {
        assert(init[i] == rs[i]);
        lemma_block_listed(init, m, i, a);
        let x = choose|x: int| 0 <= x < all_blocks(init, m).len() && all_blocks(init, m)[x] == b;
        assert(all_blocks(rs, m)[x] == b);
    } else {
        let r = rs[i];
        let o = a - r.vaddr;
        let q = o / r.blk();
        crate::region::lemma_block_pages(r.granule);
        vstd::arithmetic::div_mod::lemma_fundamental_div_mod(o, r.blk());
        vstd::arithmetic::div_mod::lemma_fundamental_div_mod(r.len as int, r.blk());
        let n = r.len as int / r.blk();
        let blk = r.blk();
        assert(blk * q == q * blk && blk * n == n * blk) by (nonlinear_arith);
        assert(0 <= q < n) by (nonlinear_arith)
            requires
                blk > 0,
                0 <= o < n * blk,
                o == q * blk + o % blk,
                0 <= o % blk < blk,
        ;
        assert(last.blocks(m)[q] == b);
        assert(all_blocks(rs, m)[all_blocks(init, m).len() + q] == b);
    }
}

/// The regions that a parent shares with its child: all but the stack.
pub open spec fn shared_regions(t: Task) -> Seq<Region> {
    t.program@.push(t.brk).push(t.mmap)
}

/// The stack pages of a task whose stack has the frames from `p` on.
pub open spec fn stack_table(p: u64) -> Map<u64, Pte> {
    crate::vm::with_pages(Map::empty(), 0x2_0000_0000, p as int, 8192, Perm::PrPwUrUw)
}

/// The regions of a sound address space can be shared with a child that has nothing but
/// a stack.
pub proof fn lemma_shareable(t: Task, p: u64)
    requires
        space_full(t),
        t.user_sp is Some,
    ensures
        shareable(shared_regions(t), t.pt@, stack_table(p)),
        forall|i: int|
            0 <= i < shared_regions(t).len() ==> (#[trigger] shared_regions(t)[i]).granule == 0,
{
    reveal(space_sound);
    reveal(space_full);
    crate::region::lemma_blocks();
    let all = regions(t);
    let rs = shared_regions(t);
    let n = t.program@.len() as int;
    let stack = stack_table(p);
    assert(all[n] == t.spel0 && all[n + 1] == t.brk && all[n + 2] == t.mmap);
    assert forall|x: int| 0 <= x < rs.len() implies #[trigger] rs[x] == all[if x < n {
        x
    } else {
        x + 1
    }] by {}
    assert forall|x: int, y: int, a: u64|
        0 <= x < y < rs.len() && #[trigger] rs[x].pages().contains(
            a,
        ) implies !#[trigger] rs[y].pages().contains(a) by {
        let x1 = if x < n { x } else { x + 1 };
        let y1 = if y < n { y } else { y + 1 };
        assert(all[x1].pages().contains(a));
        if rs[y].pages().contains(a) {
            assert(all[y1].pages().contains(a));
        }
    }
    assert forall|x: int| 0 <= x < rs.len() implies (#[trigger] rs[x]).whole() && known_flags(
        rs[x].flags,
    ) && backed(rs[x], t.pt@) && unmapped(stack, rs[x].vaddr as int, rs[x].len as int)
        && rs[x].granule == 0 by {
        let x1 = if x < n { x } else { x + 1 };
        assert(all[x1].whole());
        assert(all_mapped(t.pt@, all[x1].vaddr as int, all[x1].len as int));
        if x < n {
            assert(known_flags(t.program@[x].flags) && t.program@[x].granule == 0);
        }
        assert forall|a: u64| #[trigger] t.pt@.contains_key(a) implies t.pt@[a].p + rs[x].blk()
            <= u64::MAX by {}
        assert forall|a: u64| #[trigger] stack.contains_key(a) implies !in_pages(
            a,
            rs[x].vaddr as int,
            rs[x].len as int,
        ) by {
            assert(all[n].pages().contains(a));
            if in_pages(a, rs[x].vaddr as int, rs[x].len as int) {
                assert(all[x1].pages().contains(a));
            }
        }
    }
}

/// One region more can be shared where those before it are shared already.
proof fn lemma_share_next(rs: Seq<Region>, r: Region, m: Map<u64, Pte>, to: Map<u64, Pte>)
    requires
        shareable(rs.push(r), m, to),
    ensures
        ({
            let from1 = parent_table(rs, m);
            let to1 = child_table(rs, m, to);
            &&& r.whole()
            &&& known_flags(r.flags)
            &&& backed(r, from1)
            &&& unmapped(to1, r.vaddr as int, r.len as int)
            &&& r.blocks(from1) == r.blocks(m)
            &&& shared_pages(r, from1, to1, r.len as int) == child_table(rs.push(r), m, to)
            &&& with_perm(from1, r.vaddr as int, r.len as int, shared_perm(r.flags))
                == parent_table(rs.push(r), m)
        }),
{
    let us = rs.push(r);
    let n = rs.len() as int;
    let from1 = parent_table(rs, m);
    let to1 = child_table(rs, m, to);
    assert(us[n] == r);
    assert(us[n].whole());
    assert(us.drop_last() =~= rs);
    lemma_parent_table(rs, m);
    lemma_child_table(rs, m, to);
    assert forall|a: u64| r.pages().contains(a) implies #[trigger] m[a].p == from1[a].p by {
        assert(in_pages(a, r.vaddr as int, r.len as int));
        assert(m.contains_key(a));
    }
    assert forall|a: u64| #[trigger] from1.contains_key(a) implies from1[a].p + r.blk()
        <= u64::MAX by {
        assert(from1.dom().contains(a));
        assert(m.contains_key(a));
    }
    assert forall|a: u64| in_pages(a, r.vaddr as int, r.len as int) implies #[trigger]
        from1.contains_key(a) by {
        assert(m.contains_key(a));
        assert(m.dom().contains(a));
    }
    assert forall|a: u64| #[trigger] to1.contains_key(a) implies !in_pages(
        a,
        r.vaddr as int,
        r.len as int,
    ) by {
        if in_pages(a, r.vaddr as int, r.len as int) {
            assert(us[n].pages().contains(a));
            if all_pages(rs).contains(a) {
                let x = choose|x: int| 0 <= x < rs.len() && #[trigger] rs[x].pages().contains(a);
                assert(us[x].pages().contains(a));
            }
            assert(to.contains_key(a));
        }
    }
    lemma_same_blocks(r, m, from1);
    lemma_same_shared(r, m, from1, to1);
}

/// Shares the memory of a task, but for its stack, with a child whose table `to_pt` has
/// nothing but a stack; `to` gets the regions of the program. Returns the blocks, each
/// of which has one more user now.
pub(crate) fn share_space(t: &mut Task, to: &mut RTree, to_pt: &mut PageTable, Ghost(p): Ghost<u64>) -> (
shared: Vec<Block>)
    requires
        space_full(*old(t)),
        old(t).user_sp is Some,
        old(to)@.len() == 0,
        old(to_pt)@ == stack_table(p),
    ensures
        space_full(*final(t)),
        space_sound(*final(t)),
        *final(t) == (Task { pt: final(t).pt, ..*old(t) }),
        final(t).pt@ == parent_table(shared_regions(*old(t)), old(t).pt@),
        final(to)@ == old(t).program@,
        final(to_pt)@ == child_table(shared_regions(*old(t)), old(t).pt@, stack_table(p)),
        shared@ == all_blocks(shared_regions(*old(t)), old(t).pt@),
{
    proof {
        reveal(space_full);
    }
    let ghost m = t.pt@;
    let ghost s = stack_table(p);
    let ghost prog = t.program@;
    let ghost rs1 = prog.push(t.brk);
    let ghost rs2 = rs1.push(t.mmap);
    proof {
        lemma_shareable(*t, p);
        lemma_shareable_prefix(rs1, t.mmap, m, s);
        lemma_shareable_prefix(prog, t.brk, m, s);
        lemma_share_next(prog, t.brk, m, s);
        lemma_share_next(rs1, t.mmap, m, s);
        lemma_all_blocks_push(prog, t.brk, m);
        lemma_all_blocks_push(rs1, t.mmap, m);
    }
    let mut shared: Vec<Block> = clone_regions(&t.program, to, &mut t.pt, to_pt);
    let mut more: Vec<Block> = clone_region(&t.brk, &mut t.pt, to_pt);
    shared.append(&mut more);
    let mut more: Vec<Block> = clone_region(&t.mmap, &mut t.pt, to_pt);
    shared.append(&mut more);
    proof {
        assert(to@ =~= prog);
        lemma_parent_table(rs2, m);
        assert(framed(t.pt@)) by {
            reveal(space_sound);
            assert forall|a: u64| #[trigger] t.pt@.contains_key(a) implies t.pt@[a].p + 8192
                <= u64::MAX by {
                assert(t.pt@.dom().contains(a));
                assert(m.contains_key(a));
            }
        }
        lemma_space_same_pages(*t, *old(t));
    }
    shared
}

proof fn lemma_shareable_prefix(rs: Seq<Region>, r: Region, m: Map<u64, Pte>, to: Map<u64, Pte>)
    requires
        shareable(rs.push(r), m, to),
    ensures
        shareable(rs, m, to),
{
    let us = rs.push(r);
    assert forall|x: int, y: int, a: u64|
        0 <= x < y < rs.len() && #[trigger] rs[x].pages().contains(
            a,
        ) implies !#[trigger] rs[y].pages().contains(a) by {
        assert(us[x].pages().contains(a));
        if rs[y].pages().contains(a) {
            assert(us[y].pages().contains(a));
        }
    }
    assert forall|x: int| 0 <= x < rs.len() implies (#[trigger] rs[x]).whole() && known_flags(
        rs[x].flags,
    ) && backed(rs[x], m) && unmapped(to, rs[x].vaddr as int, rs[x].len as int) by {
        assert(us[x] == rs[x]);
        assert(us[x].whole());
    }
}

/// A child has the pages of shared regions of single pages on the frames of its parent,
/// and may not write to them.
pub proof fn lemma_child_frames(rs: Seq<Region>, m: Map<u64, Pte>, to: Map<u64, Pte>, a: u64)
    requires
        all_pages(rs).contains(a),
        forall|i: int| 0 <= i < rs.len() ==> (#[trigger] rs[i]).granule == 0,
    ensures
        child_table(rs, m, to)[a].p == m[a].p,
        child_table(rs, m, to)[a].perm is PrUr || child_table(rs, m, to)[a].perm is PrUrUx,
    decreases rs.len(),
{
    crate::region::lemma_blocks();
    let x = choose|x: int| 0 <= x < rs.len() && #[trigger] rs[x].pages().contains(a);
    assert(rs.len() > 0);
    let r = rs.last();
    let init = rs.drop_last();
    assert(rs[rs.len() - 1].granule == 0);
    if r.pages().contains(a) {
        assert(in_pages(a, r.vaddr as int, r.len as int));
        assert(r.block_of(a) == a);
        assert(child_table(rs, m, to).contains_key(a));
    } else {
        crate::region::lemma_all_pages_last(rs, a);
        assert forall|i: int| 0 <= i < init.len() implies (#[trigger] init[i]).granule == 0 by {
            assert(init[i] == rs[i]);
        }
        lemma_child_frames(init, m, to, a);
        lemma_child_table(init, m, to);
        assert(child_table(init, m, to).contains_key(a));
        assert(child_table(rs, m, to).contains_key(a));
    }
}

/// A parent may not write to the pages that it shares either.
pub proof fn lemma_parent_perm(rs: Seq<Region>, m: Map<u64, Pte>, a: u64)
    requires
        all_pages(rs).contains(a),
        m.contains_key(a),
    ensures
        parent_table(rs, m)[a].perm is PrUr || parent_table(rs, m)[a].perm is PrUrUx,
    decreases rs.len(),
{
    let x = choose|x: int| 0 <= x < rs.len() && #[trigger] rs[x].pages().contains(a);
    let r = rs.last();
    let init = rs.drop_last();
    lemma_parent_table(init, m);
    assert(m.dom().contains(a));
    assert(parent_table(init, m).contains_key(a));
    if !r.pages().contains(a) {
        crate::region::lemma_all_pages_last(rs, a);
        lemma_parent_perm(init, m, a);
    }
}

/// After a fork parent and child have every page but those of the stack on the same
/// frame, and neither may write to it.
pub proof fn law_fork_shares_pages(t: Task, p: u64, a: u64)
    requires
        space_full(t),
        t.user_sp is Some,
        all_pages(shared_regions(t)).contains(a),
    ensures
        ({
            let rs = shared_regions(t);
            let parent = parent_table(rs, t.pt@);
            let child = child_table(rs, t.pt@, stack_table(p));
            &&& parent.contains_key(a) && child.contains_key(a)
            &&& parent[a].p == t.pt@[a].p && child[a].p == t.pt@[a].p
            &&& !(parent[a].perm is PrPwUrUw) && !(parent[a].perm is PrPw)
            &&& !(child[a].perm is PrPwUrUw) && !(child[a].perm is PrPw)
        }),
{
    let rs = shared_regions(t);
    lemma_shareable(t, p);
    let x = choose|x: int| 0 <= x < rs.len() && #[trigger] rs[x].pages().contains(a);
    assert(backed(rs[x], t.pt@));
    assert(in_pages(a, rs[x].vaddr as int, rs[x].len as int));
    assert(t.pt@.contains_key(a));
    assert(t.pt@.dom().contains(a));
    lemma_parent_table(rs, t.pt@);
    lemma_child_table(rs, t.pt@, stack_table(p));
    lemma_child_frames(rs, t.pt@, stack_table(p), a);
    lemma_parent_perm(rs, t.pt@, a);
}

/// The address space of a child is sound.
pub proof fn lemma_child_space(c: Task, t: Task, p: u64)
    requires
        space_full(t),
        t.user_sp is Some,
        p + 16384 <= u64::MAX,
        c.user_sp is Some,
        c.spel0 == t.spel0,
        c.brk == t.brk,
        c.mmap == t.mmap,
        c.program@ == t.program@,
        c.pt@ == child_table(shared_regions(t), t.pt@, stack_table(p)),
    ensures
        space_sound(c),
        space_full(c),
{
    let rs = shared_regions(t);
    let all = regions(t);
    let s = stack_table(p);
    let n = t.program@.len() as int;
    lemma_shareable(t, p);
    lemma_child_table(rs, t.pt@, s);
    reveal(space_sound);
    reveal(space_full);
    crate::region::lemma_blocks();
    assert(regions(c) =~= all);
    assert(all[n] == t.spel0 && all[n + 1] == t.brk && all[n + 2] == t.mmap);
    assert forall|a: u64| s.contains_key(a) == all[n].pages().contains(a) by {}
    assert forall|a: u64| all_pages(all).contains(a) == (all_pages(rs).contains(a)
        || all[n].pages().contains(a)) by {
        if all_pages(all).contains(a) {
            let x = choose|x: int| 0 <= x < all.len() && #[trigger] all[x].pages().contains(a);
            if x != n {
                let y = if x < n { x } else { x - 1 };
                assert(rs[y] == all[x]);
                assert(rs[y].pages().contains(a));
            }
        }
        if all_pages(rs).contains(a) {
            let y = choose|y: int| 0 <= y < rs.len() && #[trigger] rs[y].pages().contains(a);
            let x = if y < n { y } else { y + 1 };
            assert(rs[y] == all[x]);
            assert(all[x].pages().contains(a));
        }
    }
    assert(c.pt@.dom() =~= all_pages(all));
    assert forall|a: u64| #[trigger] c.pt@.contains_key(a) implies c.pt@[a].p + 8192
        <= u64::MAX by {
        if all_pages(rs).contains(a) {
            lemma_child_frames(rs, t.pt@, s, a);
            assert(t.pt@.dom().contains(a));
            assert(t.pt@.contains_key(a));
        } else {
            assert(s.contains_key(a));
        }
    }
    assert forall|x: int| 0 <= x < all.len() implies all_mapped(
        c.pt@,
        (#[trigger] all[x]).vaddr as int,
        all[x].len as int,
    ) by {
        assert forall|a: u64| in_pages(a, all[x].vaddr as int, all[x].len as int) implies #[trigger]
            c.pt@.contains_key(a) by {
            assert(all[x].pages().contains(a));
            assert(all_pages(all).contains(a));
        }
    }
    lemma_full(c);
}

/// What goes on in other pages does not touch the blocks of these regions.
proof fn lemma_same_all_blocks(rs: Seq<Region>, m: Map<u64, Pte>, n: Map<u64, Pte>)
    requires
        forall|i: int| 0 <= i < rs.len() ==> (#[trigger] rs[i]).whole(),
        forall|a: u64| all_pages(rs).contains(a) ==> #[trigger] m[a].p == n[a].p,
    ensures
        all_blocks(rs, m) == all_blocks(rs, n),
    decreases rs.len(),
{
    if rs.len() > 0 {
        let init = rs.drop_last();
        let r = rs.last();
        assert(rs[rs.len() - 1].whole());
        assert forall|i: int| 0 <= i < init.len() implies (#[trigger] init[i]).whole() by {
            assert(init[i] == rs[i]);
        }
        assert forall|a: u64| all_pages(init).contains(a) implies #[trigger] m[a].p == n[a].p by {
            crate::region::lemma_all_pages_last(rs, a);
        }
        lemma_same_all_blocks(init, m, n);
        assert forall|a: u64| r.pages().contains(a) implies #[trigger] m[a].p == n[a].p by {
            crate::region::lemma_all_pages_last(rs, a);
        }
        lemma_same_blocks(r, m, n);
    }
}

/// Whether this is the task `old` with no memory but its stack.
pub open spec fn is_reset(t: Task, old: Task) -> bool {
    &&& t.pt@.dom() == user_stack_region().pages()
    &&& forall|a: u64| #[trigger] t.pt@.contains_key(a) ==> t.pt@[a] == old.pt@[a]
    &&& t.program@ == Seq::<Region>::empty()
    &&& t == (Task {
        pt: t.pt,
        program: t.program,
        brk: Region { len: 0, ..old.brk },
        mmap: Region { len: 0, ..old.mmap },
        ..old
    })
}

/// Takes all memory but the stack from a task; returns the blocks to be freed.
pub fn reset_space(t: &mut Task) -> (freed: Vec<Block>)
    requires
        space_full(*old(t)),
        old(t).user_sp is Some,
    ensures
        is_reset(*final(t), *old(t)),
        space_sound(*final(t)),
        space_full(*final(t)),
        freed@ == old(t).mmap.blocks(old(t).pt@) + old(t).brk.blocks(old(t).pt@) + all_blocks(
            old(t).program@,
            old(t).pt@,
        ),
{
    let ghost m = t.pt@;
    let ghost all = regions(*t);
    let ghost prog = t.program@;
    let ghost n = prog.len() as int;
    let ghost two = seq![t.mmap, t.brk];
    let ghost t0 = *t;
    let mut freed: Vec<Block> = Vec::new();
    proof {
        reveal(space_sound);
        reveal(space_full);
        assert(all.take(n) =~= prog);
        assert(all[n] == t.spel0 && all[n + 1] == t.brk && all[n + 2] == t.mmap);
        lemma_prefix(all, m, n);
        lemma_two(all, m, n);
        assert(all_pages(two.take(0)) =~= Set::empty());
        assert(m.remove_keys(all_pages(two.take(0))) =~= m);
        assert(two.take(1) =~= seq![t.mmap]);
        assert(two.take(2) =~= two);
        lemma_all_blocks_push(Seq::<Region>::empty(), t.mmap, m);
        lemma_all_blocks_push(seq![t.mmap], t.brk, m);
        assert(Seq::<Region>::empty().push(t.mmap) =~= seq![t.mmap]);
        assert(seq![t.mmap].push(t.brk) =~= two);
    }
    free_next(&t.mmap, &mut t.pt, &mut freed, Ghost(two), Ghost(0), Ghost(m));
    t.mmap.len = 0;
    free_next(&t.brk, &mut t.pt, &mut freed, Ghost(two), Ghost(1), Ghost(m));
    t.brk.len = 0;
    let ghost m2 = t.pt@;
    proof {
        assert(m2 == m.remove_keys(all_pages(two)));
        assert forall|a: u64| all_pages(prog).contains(a) implies m2.contains_key(a)
            && #[trigger] m[a].p == m2[a].p by {
            let x = choose|x: int| 0 <= x < n && #[trigger] prog[x].pages().contains(a);
            assert(all[x].pages().contains(a));
            assert(all_pages(all).contains(a));
            assert(m.dom().contains(a));
            if all_pages(two).contains(a) {
                let y = choose|y: int| 0 <= y < 2 && #[trigger] two[y].pages().contains(a);
                let z = if y == 0 { n + 2 } else { n + 1 };
                assert(all[z].pages().contains(a));
            }
        }
        assert forall|x: int| 0 <= x < n implies all_mapped(
            m2,
            (#[trigger] prog[x]).vaddr as int,
            prog[x].len as int,
        ) by {
            assert forall|a: u64| in_pages(
                a,
                prog[x].vaddr as int,
                prog[x].len as int,
            ) implies #[trigger] m2.contains_key(a) by {
                assert(prog[x].pages().contains(a));
                assert(all_pages(prog).contains(a));
                assert(m[a].p == m2[a].p);
            }
        }
        lemma_same_all_blocks(prog, m, m2);
    }
    let mut more: Vec<Block> = free_regions(&t.program, &mut t.pt, false);
    freed.append(&mut more);
    t.program.clear();
    proof {
        assert(freed@ =~= t0.mmap.blocks(m) + t0.brk.blocks(m) + all_blocks(prog, m));
        let stack = user_stack_region();
        assert forall|a: u64| t.pt@.dom().contains(a) == stack.pages().contains(a) by {
            if t.pt@.contains_key(a) {
                assert(m.dom().contains(a));
                let x = choose|x: int| 0 <= x < all.len() && #[trigger] all[x].pages().contains(a);
                if x < n {
                    assert(prog[x].pages().contains(a));
                    assert(all_pages(prog).contains(a));
                } else if x == n + 1 {
                    assert(two[1].pages().contains(a));
                    assert(all_pages(two).contains(a));
                } else if x == n + 2 {
                    assert(two[0].pages().contains(a));
                    assert(all_pages(two).contains(a));
                }
            }
            if stack.pages().contains(a) {
                assert(all[n].pages().contains(a));
                assert(all_pages(all).contains(a));
                assert(m.dom().contains(a));
                if all_pages(prog).contains(a) {
                    let x = choose|x: int| 0 <= x < n && #[trigger] prog[x].pages().contains(a);
                    assert(all[x].pages().contains(a));
                }
                if all_pages(two).contains(a) {
                    let y = choose|y: int| 0 <= y < 2 && #[trigger] two[y].pages().contains(a);
                    let z = if y == 0 { n + 2 } else { n + 1 };
                    assert(all[z].pages().contains(a));
                }
            }
        }
        assert(t.pt@.dom() =~= stack.pages());
        lemma_stack_only(*t);
    }
    freed
}

/// The heap and the mapped memory are sound regions.
proof fn lemma_two(all: Seq<Region>, m: Map<u64, Pte>, n: int)
    requires
        sound_regions(all, m),
        0 <= n,
        all.len() == n + 3,
    ensures
        sound_regions(seq![all[n + 2], all[n + 1]], m),
{
    let two = seq![all[n + 2], all[n + 1]];
    assert forall|x: int, y: int, a: u64|
        0 <= x < y < two.len() && #[trigger] two[x].pages().contains(
            a,
        ) implies !#[trigger] two[y].pages().contains(a) by {
        assert(all[n + 2].pages().contains(a));
        if two[y].pages().contains(a) {
            assert(all[n + 1].pages().contains(a));
        }
    }
    assert(all[n + 1].whole() && all[n + 2].whole());
}

/// A task with nothing but its stack has a sound address space.
proof fn lemma_stack_only(t: Task)
    requires
        t.user_sp is Some,
        t.spel0 == user_stack_region(),
        t.brk == new_brk(),
        t.mmap == new_mmap(),
        t.program@.len() == 0,
        t.pt@.dom() == user_stack_region().pages(),
        framed(t.pt@),
    ensures
        space_sound(t),
        space_full(t),
{
    crate::region::lemma_blocks();
    let rs = regions(t);
    assert(rs =~= seq![t.spel0, t.brk, t.mmap]);
    assert forall|i: int| 0 <= i < rs.len() implies (#[trigger] rs[i]).whole() by {}
    assert forall|i: int| 0 <= i < rs.len() implies all_mapped(
        t.pt@,
        (#[trigger] rs[i]).vaddr as int,
        rs[i].len as int,
    ) by {
        assert forall|a: u64| in_pages(a, rs[i].vaddr as int, rs[i].len as int) implies #[trigger]
            t.pt@.contains_key(a) by {
            assert(user_stack_region().pages().contains(a));
            assert(t.pt@.dom().contains(a));
        }
    }
    assert forall|a: u64| t.pt@.dom().contains(a) == all_pages(rs).contains(a) by {
        if t.pt@.contains_key(a) {
            assert(rs[0].pages().contains(a));
        }
        if all_pages(rs).contains(a) {
            let x = choose|x: int| 0 <= x < rs.len() && #[trigger] rs[x].pages().contains(a);
            assert(x == 0);
        }
    }
    assert(t.pt@.dom() =~= all_pages(rs));
    lemma_full(t);
}

/// A new segment of a program keeps an address space sound, and full.
pub proof fn lemma_segment(t: Task, old: Task, r: Region, frames: Seq<u64>)
    requires
        space_sound(old),
        old.user_sp is Some,
        usable_frames(frames),
        r.whole(),
        r.granule == 0,
        known_flags(r.flags),
        r.len == 4096 * frames.len(),
        unmapped(old.pt@, r.vaddr as int, r.len as int),
        t.program@ == old.program@.push(r),
        t.pt@ == with_frames(old.pt@, r.vaddr as int, frames, Perm::PrPw),
        t == (Task { pt: t.pt, program: t.program, ..old }),
    ensures
        space_sound(t),
        space_full(old) ==> space_full(t),
{
    reveal(space_sound);
    reveal(space_full);
    let n = old.program@.len() as int;
    let rs = regions(old);
    let bs = backed_regions(old);
    assert(regions(t) =~= rs.insert(n, r));
    assert(backed_regions(t) =~= bs.insert(n, r));
    lemma_frames(old.pt@, r.vaddr as int, frames, Perm::PrPw);
    lemma_inserted(bs, old.pt@, n, r, t.pt@);
    lemma_inserted_pages(rs, old.pt@, n, r, t.pt@);
    if space_full(old) {
        lemma_inserted(rs, old.pt@, n, r, t.pt@);
    }
}

/// Memory that is given is new to the program, and what the program had stays.
pub proof fn law_given_memory_is_new(
    t: Task,
    old: Task,
    heap: bool,
    frames: Seq<u64>,
    perm: Perm,
    a: u64,
)
    requires
        has_grown(t, old, heap, frames, perm),
        ({
            let r = if heap {
                old.brk
            } else {
                old.mmap
            };
            unmapped(old.pt@, r.vaddr + r.len, 4096 * (frames.len() as int))
        }),
    ensures
        old.pt@.contains_key(a) ==> t.pt@.contains_key(a) && t.pt@[a] == old.pt@[a],
        t.pt@.contains_key(a) && !old.pt@.contains_key(a) ==> t.pt@[a].perm == perm
            && frames.contains(t.pt@[a].p),
{
    let r = if heap {
        old.brk
    } else {
        old.mmap
    };
    let v = r.vaddr + r.len;
    if in_pages(a, v, 4096 * (frames.len() as int)) {
        let i = (a - v) / 4096;
        assert(0 <= i < frames.len());
        assert(frames.contains(frames[i]));
    }
}

/// Once a child has written to a page that it shares, it has a frame of its own there,
/// which it may write to, and its parent has the page as it was.
pub proof fn law_write_parts_shared_page(t: Task, p: u64, a: u64, b: u64, copy: u64)
    requires
        space_full(t),
        t.user_sp is Some,
        all_pages(shared_regions(t)).contains(a),
        all_pages(shared_regions(t)).contains(b),
        a != b,
    ensures
        ({
            let rs = shared_regions(t);
            let parent = parent_table(rs, t.pt@);
            let child = child_table(rs, t.pt@, stack_table(p)).insert(
                a,
                Pte { p: copy, perm: Perm::PrPwUrUw },
            );
            &&& child[a] == (Pte { p: copy, perm: Perm::PrPwUrUw })
            &&& parent[a].p == t.pt@[a].p
            &&& child[b].p == parent[b].p
        }),
{
    law_fork_shares_pages(t, p, a);
    law_fork_shares_pages(t, p, b);
}

} // verus!

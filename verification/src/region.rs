//! Regions of an address space, and what happens to them when they grow, are shared
//! with a child, or go.
use vstd::arithmetic::div_mod::lemma_fundamental_div_mod;
use vstd::arithmetic::div_mod::lemma_fundamental_div_mod_converse;
use vstd::prelude::*;

use crate::elf::{PF_R, PF_X};
use crate::vm::{all_mapped, in_pages, pages, unmap, unmapped, with_perm, without_pages};
use crate::vm::{PageTable, Perm, Pte, GB};

verus! {

pub const REGION_MAX_SZ: u64 = GB;

#[derive(Clone, Copy, Debug, PartialEq, Eq, Structural)]
pub enum RegionType {
    Program,
    Stack,
    Brk,
    Mmap,
}

/// A stretch of an address space. Its memory comes in blocks of `blksize` bytes.
#[derive(Clone, Copy, Debug, PartialEq, Eq, Structural)]
pub struct Region {
    pub ty: RegionType,
    pub vaddr: u64,
    pub cap: u64,
    pub len: u64,
    pub flags: u32,
    pub granule: u8,
}

/// A block of physical memory.
#[derive(Clone, Copy, Debug, PartialEq, Eq, Structural)]
pub struct Block {
    pub p: u64,
    pub size: u64,
}

/// The regions of a program.
pub type RTree = Vec<Region>;

/// Whether the number is a power of two between a page and a megabyte.
pub open spec fn is_block_size(n: u64) -> bool {
    4096 <= n <= 0x10_0000 && n & ((n - 1) as u64) == 0
}

/// The size of the blocks of a granule.
pub open spec fn block(granule: u8) -> u64 {
    4096u64 << (granule as u64)
}

/// The smallest blocks.
pub proof fn lemma_blocks()
    ensures
        block(0) == 4096,
        block(1) == 8192,
{
    assert(4096u64 << 0u64 == 4096u64) by (bit_vector);
    assert(4096u64 << 1u64 == 8192u64) by (bit_vector);
}

/// Blocks are whole pages and no larger than an address space.
pub proof fn lemma_block_pages(granule: u8)
    requires
        granule < 52,
    ensures
        block(granule) >= 4096,
        block(granule) % 4096 == 0,
{
    let g = granule as u64;
    assert((4096u64 << g) >= 4096 && (4096u64 << g) % 4096 == 0) by (bit_vector)
        requires
            g < 52,
    ;
}

impl Region {
    pub open spec fn blk(self) -> int {
        block(self.granule) as int
    }

    /// The addresses of its pages.
    pub open spec fn pages(self) -> Set<u64> {
        pages(self.vaddr as int, self.len as int)
    }

    /// A region of whole pages and whole blocks that lies in the address space.
    pub open spec fn whole(self) -> bool {
        &&& self.granule < 52
        &&& self.vaddr % 4096 == 0
        &&& self.len as int % self.blk() == 0
        &&& self.vaddr + self.len + self.blk() <= u64::MAX
    }

    /// The first page of the block of the page `a`.
    pub open spec fn block_of(self, a: u64) -> u64 {
        (a - (a - self.vaddr) % self.blk()) as u64
    }

    /// The blocks of memory behind it.
    pub open spec fn blocks(self, m: Map<u64, Pte>) -> Seq<Block> {
        Seq::new(
            (self.len as int / self.blk()) as nat,
            |i: int|
                Block { p: m[(self.vaddr + i * self.blk()) as u64].p, size: block(self.granule) },
        )
    }

    /// The granule whose blocks should have `block_size` bytes.
    pub fn calc_granule(block_size: u64) -> (g: u8)
        requires
            is_block_size(block_size),
        ensures
            g == block_size / 4096 - 1,
    {
        ((block_size / 4096) - 1) as u8
    }

    /// Bytes in a block.
    pub fn blksize(&self) -> (n: u64)
        requires
            self.granule < 64,
        ensures
            n == block(self.granule),
    {
        4096u64 << (self.granule as u64)
    }

    /// Bytes in a block of the given granule.
    pub fn blksize2(granule: u8) -> (n: u64)
        requires
            granule < 64,
        ensures
            n == block(granule),
    {
        4096u64 << (granule as u64)
    }

    pub fn has(&self, vaddr: u64) -> (b: bool)
        requires
            vaddr >= self.vaddr ==> self.vaddr + self.len <= u64::MAX,
        ensures
            b == (self.vaddr <= vaddr < self.vaddr + self.len),
    {
        vaddr >= self.vaddr && vaddr < self.vaddr + self.len
    }

    pub fn end(&self) -> (e: u64)
        requires
            self.vaddr + self.len <= u64::MAX,
        ensures
            e == self.vaddr + self.len,
    {
        self.len + self.vaddr
    }

    /// Grows the region by `sz` bytes; returns where they start, or nothing where the
    /// region would become too large.
    pub fn grow(&mut self, sz: u64) -> (r: Option<u64>)
        requires
            old(self).granule < 52,
            sz as int % old(self).blk() == 0,
            old(self).len + sz <= u64::MAX,
            old(self).vaddr + REGION_MAX_SZ <= u64::MAX,
            old(self).vaddr + old(self).len <= u64::MAX,
        ensures
            r == if old(self).len + sz > old(self).vaddr + REGION_MAX_SZ {
                None
            } else {
                Some((old(self).vaddr + old(self).len) as u64)
            },
            *final(self) == if r is Some {
                Region { len: (old(self).len + sz) as u64, ..*old(self) }
            } else {
                *old(self)
            },
    {
        if self.len + sz > self.vaddr + REGION_MAX_SZ {
            None
        } else {
            let res: u64 = self.vaddr + self.len;
            self.len += sz;
            Some(res)
        }
    }
}

/// A granule computed for blocks of one or two pages has blocks of that size.
pub proof fn law_granule_fits_block(block_size: u64)
    requires
        is_block_size(block_size),
        block_size <= 8192,
    ensures
        block((block_size / 4096 - 1) as u8) == block_size,
{
    lemma_blocks();
    assert(block_size == 4096 || block_size == 8192) by (bit_vector)
        requires
            4096 <= block_size <= 8192,
            block_size & ((block_size - 1) as u64) == 0,
    ;
}

/// The permission that the two sides of a fork have on the pages of a region.
pub open spec fn shared_perm(flags: u32) -> Perm {
    if flags == 5 {
        Perm::PrUrUx
    } else {
        Perm::PrUr
    }
}

/// Whether segments can have these flags.
pub open spec fn known_flags(flags: u32) -> bool {
    flags == 5 || flags == 6 || flags == 4
}

/// The permission of a segment that has just been loaded.
pub open spec fn loaded_perm(flags: u32) -> Perm {
    if flags == 5 {
        Perm::PrUrUx
    } else if flags == 6 {
        Perm::PrPwUrUw
    } else {
        Perm::PrUr
    }
}

/// The pages of the region `r` as a child has them: on the frames of the parent's
/// table `from`, block by block.
pub open spec fn shared_pages(r: Region, from: Map<u64, Pte>, to: Map<u64, Pte>, len: int) -> Map<
    u64,
    Pte,
> {
    Map::new(
        |a: u64| to.contains_key(a) || in_pages(a, r.vaddr as int, len),
        |a: u64|
            if in_pages(a, r.vaddr as int, len) {
                Pte {
                    p: (from[r.block_of(a)].p + (a - r.block_of(a))) as u64,
                    perm: shared_perm(r.flags),
                }
            } else {
                to[a]
            },
    )
}

/// Whether the blocks of a region have frames that lie in the physical address space.
pub open spec fn backed(r: Region, m: Map<u64, Pte>) -> bool {
    &&& all_mapped(m, r.vaddr as int, r.len as int)
    &&& forall|a: u64| #[trigger] m.contains_key(a) ==> m[a].p + r.blk() <= u64::MAX
}

/// Products of block counts.
proof fn lemma_next_block(i: int, blk: int)
    ensures
        (i + 1) * blk == i * blk + blk,
{
    assert((i + 1) * blk == i * blk + blk) by (nonlinear_arith);
}

/// Blocks before the end of a region.
proof fn lemma_block_fits(i: int, n: int, blk: int)
    requires
        0 <= i < n,
        blk > 0,
    ensures
        0 <= i * blk,
        i * blk + blk <= n * blk,
{
    assert(0 <= i * blk && i * blk + blk <= n * blk) by (nonlinear_arith)
        requires
            0 <= i < n,
            blk > 0,
    ;
}

/// Offsets in the block `i`.
proof fn lemma_in_block(o: int, i: int, blk: int)
    requires
        0 <= i,
        blk > 0,
        i * blk <= o < i * blk + blk,
    ensures
        o % blk == o - i * blk,
{
    lemma_fundamental_div_mod_converse(o, blk, i, o - i * blk);
}

/// Multiples of a block are multiples of a page.
proof fn lemma_block_aligned(i: int, blk: int)
    requires
        blk % 4096 == 0,
    ensures
        (i * blk) % 4096 == 0,
{
    let k = blk / 4096;
    assert(i * blk == 4096 * (i * k)) by (nonlinear_arith)
        requires
            blk == 4096 * k,
    ;
}

impl Region {
    proof fn lemma_whole(self)
        requires
            self.whole(),
        ensures
            self.blk() >= 4096,
            self.blk() % 4096 == 0,
            self.len as int == (self.len as int / self.blk()) * self.blk(),
            self.len % 4096 == 0,
    {
        lemma_block_pages(self.granule);
        lemma_fundamental_div_mod(self.len as int, self.blk());
        let n = self.len as int / self.blk();
        let b = self.blk();
        assert(b * n == n * b) by (nonlinear_arith);
        lemma_block_aligned(n, b);
    }
}

/// Takes the pages of a region off their frames; returns the blocks behind it, which
/// are to be freed, or none of them where `skip` says so.
pub fn free_region(region: &Region, pt: &mut PageTable, skip: bool) -> (freed: Vec<Block>)
    requires
        region.whole(),
        all_mapped(old(pt)@, region.vaddr as int, region.len as int),
    ensures
        final(pt)@ == without_pages(old(pt)@, region.vaddr as int, region.len as int),
        freed@ == if skip {
            Seq::empty()
        } else {
            region.blocks(old(pt)@)
        },
{
    let blk: u64 = region.blksize();
    proof {
        region.lemma_whole();
    }
    let n: u64 = region.len / blk;
    let mut freed: Vec<Block> = Vec::new();
    let mut i: u64 = 0;
    let mut v: u64 = region.vaddr;
    let ghost va = region.vaddr as int;
    assert(pt@ =~= without_pages(pt@, va, 0));
    while i < n
        invariant
            i <= n,
            n == region.len as int / region.blk(),
            blk == region.blk(),
            va == region.vaddr,
            v == va + i * region.blk(),
            region.whole(),
            all_mapped(old(pt)@, region.vaddr as int, region.len as int),
            pt@ == without_pages(old(pt)@, va, i * region.blk()),
            freed@ == if skip {
                Seq::empty()
            } else {
                region.blocks(old(pt)@).take(i as int)
            },
        decreases n - i,
    {
        let ghost b = region.blk();
        let ghost done = pt@;
        proof {
            region.lemma_whole();
            lemma_block_fits(i as int, n as int, b);
            lemma_next_block(i as int, b);
            lemma_block_aligned(i as int, b);
            assert(in_pages(v, va, region.len as int));
            assert(!in_pages(v, va, i * b));
            assert(done.contains_key(v));
            assert forall|a: u64| in_pages(a, v as int, b) implies #[trigger] done.contains_key(
                a,
            ) by {
                assert(in_pages(a, va, region.len as int));
            }
        }
        let p: u64 = pt.v2p_pt(v, None).unwrap();
        if !skip {
            freed.push(Block { p, size: blk });
            assert(freed@ =~= region.blocks(old(pt)@).take(i + 1));
        }
        let r = unmap(pt, v, blk / 4096);
        proof {
            assert(4096 * (blk / 4096) == b);
            assert(r is Ok);
            assert(pt@ == without_pages(done, v as int, b));
            assert(pt@ =~= without_pages(old(pt)@, va, (i + 1) * b));
        }
        v = v + blk;
        i += 1;
    }
    proof {
        region.lemma_whole();
        assert(region.blocks(old(pt)@).take(n as int) =~= region.blocks(old(pt)@));
    }
    freed
}

/// Gives the blocks of a region to a child: both tables have its pages on the same
/// frames, and neither program may write to them. Returns the blocks, each of which
/// has one more user now.
pub fn clone_region(region: &Region, from_pt: &mut PageTable, to_pt: &mut PageTable) -> (shared:
    Vec<Block>)
    requires
        region.whole(),
        known_flags(region.flags),
        backed(*region, old(from_pt)@),
        unmapped(old(to_pt)@, region.vaddr as int, region.len as int),
    ensures
        final(from_pt)@ == with_perm(
            old(from_pt)@,
            region.vaddr as int,
            region.len as int,
            shared_perm(region.flags),
        ),
        final(to_pt)@ == shared_pages(
            *region,
            old(from_pt)@,
            old(to_pt)@,
            region.len as int,
        ),
        shared@ == region.blocks(old(from_pt)@),
{
    let flags: Perm = if region.flags == PF_R | PF_X {
        Perm::PrUrUx
    } else {
        Perm::PrUr
    };
    assert(4u32 | 1u32 == 5u32) by (bit_vector);
    let blk: u64 = region.blksize();
    proof {
        region.lemma_whole();
    }
    let n: u64 = region.len / blk;
    let mut shared: Vec<Block> = Vec::new();
    let mut i: u64 = 0;
    let mut v: u64 = region.vaddr;
    let ghost va = region.vaddr as int;
    let ghost b = region.blk();
    let ghost from0 = from_pt@;
    let ghost to0 = to_pt@;
    assert(from_pt@ =~= with_perm(from0, va, 0, flags));
    assert(to_pt@ =~= shared_pages(*region, from0, to0, 0));
    while i < n
        invariant
            i <= n,
            n == region.len as int / b,
            b == region.blk(),
            blk == b,
            va == region.vaddr,
            v == va + i * b,
            flags == shared_perm(region.flags),
            region.whole(),
            backed(*region, from0),
            unmapped(to0, va, region.len as int),
            from_pt@ == with_perm(from0, va, i * b, flags),
            to_pt@ == shared_pages(*region, from0, to0, i * b),
            shared@ == region.blocks(from0).take(i as int),
        decreases n - i,
    {
        let ghost from1 = from_pt@;
        let ghost to1 = to_pt@;
        proof {
            region.lemma_whole();
            lemma_block_fits(i as int, n as int, b);
            lemma_next_block(i as int, b);
            lemma_block_aligned(i as int, b);
            assert(in_pages(v, va, region.len as int));
            assert(from0.contains_key(v));
        }
        let p: u64 = from_pt.v2p_pt(v, Some(flags)).unwrap();
        shared.push(Block { p, size: blk });
        let per: u64 = blk / 4096;
        proof {
            assert(p == from0[v].p);
            assert(4096 * per == b);
            assert forall|a: u64| #[trigger] to1.contains_key(a) implies !in_pages(
                a,
                v as int,
                b,
            ) by {
                if in_pages(a, v as int, b) {
                    assert(in_pages(a, va, region.len as int));
                    assert(!in_pages(a, va, i * b));
                }
            }
        }
        let r = crate::vm::map(to_pt, v, p, per, flags);
        proof {
            assert(r is Ok) by {
                if r is Err {
                    let k = choose|k: int|
                        0 <= k < per && #[trigger] unmapped(to1, v as int, 4096 * k)
                            && to1.contains_key((v + 4096 * k) as u64);
                    assert(in_pages((v + 4096 * k) as u64, v as int, b));
                }
            }
            lemma_shared_block(*region, from0, to0, i as int, p, to_pt@);
        }
        let mut j: u64 = 1;
        proof {
            assert(from_pt@ =~= with_perm(from1, v as int, 4096, flags));
        }
        while j < per
            invariant
                1 <= j <= per,
                4096 * per == b,
                b == region.blk(),
                va == region.vaddr,
                v == va + i * b,
                v + b <= va + region.len,
                (i * b) % 4096 == 0,
                0 <= i * b,
                region.whole(),
                backed(*region, from0),
                from1 == with_perm(from0, va, i * b, flags),
                from_pt@ == with_perm(from1, v as int, 4096 * j, flags),
            decreases per - j,
        {
            proof {
                let a = (v + 4096 * j) as u64;
                assert(in_pages(a, va, region.len as int));
                assert(from0.contains_key(a));
            }
            let _ = from_pt.v2p_pt(v + 4096 * j, Some(flags)).unwrap();
            assert(from_pt@ =~= with_perm(from1, v as int, 4096 * (j + 1), flags));
            j += 1;
        }
        proof {
            assert(4096 * j == b);
            assert(from_pt@ =~= with_perm(from0, va, (i + 1) * b, flags));
            assert(shared@ =~= region.blocks(from0).take(i + 1));
        }
        v = v + blk;
        i += 1;
    }
    proof {
        region.lemma_whole();
        assert(region.blocks(from0).take(n as int) =~= region.blocks(from0));
    }
    shared
}

/// One block more of a region that a child has.
proof fn lemma_shared_block(
    r: Region,
    from: Map<u64, Pte>,
    to: Map<u64, Pte>,
    i: int,
    p: u64,
    m: Map<u64, Pte>,
)
    requires
        r.whole(),
        0 <= i < r.len as int / r.blk(),
        p == from[(r.vaddr + i * r.blk()) as u64].p,
        m == crate::vm::with_pages(
            shared_pages(r, from, to, i * r.blk()),
            r.vaddr + i * r.blk(),
            p as int,
            r.blk(),
            shared_perm(r.flags),
        ),
    ensures
        m == shared_pages(r, from, to, (i + 1) * r.blk()),
{
    let b = r.blk();
    r.lemma_whole();
    lemma_block_fits(i, r.len as int / b, b);
    lemma_next_block(i, b);
    lemma_block_aligned(i, b);
    let s = shared_pages(r, from, to, (i + 1) * b);
    assert forall|a: u64| in_pages(a, r.vaddr + i * b, b) implies #[trigger] m[a] == s[a] by {
        lemma_in_block(a - r.vaddr, i, b);
    }
    assert(m =~= s);
}

/// The pages of all these regions.
pub open spec fn all_pages(rs: Seq<Region>) -> Set<u64> {
    Set::new(|a: u64| exists|i: int| 0 <= i < rs.len() && #[trigger] rs[i].pages().contains(a))
}

/// The blocks behind all these regions.
pub open spec fn all_blocks(rs: Seq<Region>, m: Map<u64, Pte>) -> Seq<Block>
    decreases rs.len(),
{
    if rs.len() == 0 {
        Seq::empty()
    } else {
        all_blocks(rs.drop_last(), m) + rs.last().blocks(m)
    }
}

/// Regions that lie apart.
pub open spec fn apart(rs: Seq<Region>) -> bool {
    forall|i: int, j: int, a: u64|
        0 <= i < j < rs.len() && #[trigger] rs[i].pages().contains(a)
            ==> !#[trigger] rs[j].pages().contains(a)
}

/// Regions that can be freed: whole, apart and backed by frames.
pub open spec fn sound_regions(rs: Seq<Region>, m: Map<u64, Pte>) -> bool {
    &&& apart(rs)
    &&& forall|i: int| 0 <= i < rs.len() ==> (#[trigger] rs[i]).whole()
    &&& forall|i: int|
        0 <= i < rs.len() ==> all_mapped(
            m,
            (#[trigger] rs[i]).vaddr as int,
            rs[i].len as int,
        )
}

/// What goes on in other pages does not touch the blocks of a region.
pub proof fn lemma_same_blocks(r: Region, m: Map<u64, Pte>, n: Map<u64, Pte>)
    requires
        r.whole(),
        forall|a: u64| r.pages().contains(a) ==> #[trigger] m[a].p == n[a].p,
    ensures
        r.blocks(m) == r.blocks(n),
{
    let b = r.blk();
    r.lemma_whole();
    assert forall|i: int| 0 <= i < r.len as int / b implies #[trigger] r.blocks(m)[i]
        == r.blocks(n)[i] by {
        lemma_block_fits(i, r.len as int / b, b);
        lemma_block_aligned(i, b);
        let a = (r.vaddr + i * b) as u64;
        assert(r.pages().contains(a));
        assert(m[a].p == n[a].p);
    }
    assert(r.blocks(m) =~= r.blocks(n));
}

/// Takes the pages of all these regions off their frames; returns the blocks to be
/// freed, or none of them where `skip` says so.
pub fn free_regions(regions: &RTree, pt: &mut PageTable, skip: bool) -> (freed: Vec<Block>)
    requires
        sound_regions(regions@, old(pt)@),
    ensures
        final(pt)@ == old(pt)@.remove_keys(all_pages(regions@)),
        freed@ == if skip {
            Seq::empty()
        } else {
            all_blocks(regions@, old(pt)@)
        },
{
    let mut freed: Vec<Block> = Vec::new();
    let mut i: usize = 0;
    let ghost m = pt@;
    assert(all_pages(regions@.take(0)) =~= Set::empty());
    assert(pt@ =~= m.remove_keys(all_pages(regions@.take(0))));
    while i < regions.len()
        invariant
            i <= regions@.len(),
            sound_regions(regions@, m),
            pt@ == m.remove_keys(all_pages(regions@.take(i as int))),
            freed@ == if skip {
                Seq::empty()
            } else {
                all_blocks(regions@.take(i as int), m)
            },
        decreases regions@.len() - i,
    {
        let ghost r = regions@[i as int];
        let ghost done = pt@;
        let ghost seen = regions@.take(i as int);
        proof {
            assert(r.whole());
            assert forall|a: u64| r.pages().contains(a) implies #[trigger] done.contains_key(a)
                && done[a] == m[a] by {
                assert(in_pages(a, r.vaddr as int, r.len as int));
                assert(!all_pages(seen).contains(a));
            }
            assert forall|a: u64| in_pages(
                a,
                r.vaddr as int,
                r.len as int,
            ) implies #[trigger] done.contains_key(a) by {
                assert(r.pages().contains(a));
            }
            lemma_same_blocks(r, m, done);
        }
        let mut more: Vec<Block> = free_region(&regions[i], pt, skip);
        freed.append(&mut more);
        proof {
            let next = regions@.take(i + 1);
            assert(next.drop_last() =~= seen);
            assert(next.last() == r);
            assert forall|a: u64| all_pages(next).contains(a) == (all_pages(seen).contains(a)
                || r.pages().contains(a)) by {
                if all_pages(next).contains(a) {
                    let k = choose|k: int|
                        0 <= k < next.len() && #[trigger] next[k].pages().contains(a);
                    if k < i {
                        assert(seen[k].pages().contains(a));
                    }
                }
                if all_pages(seen).contains(a) {
                    let k = choose|k: int|
                        0 <= k < seen.len() && #[trigger] seen[k].pages().contains(a);
                    assert(next[k].pages().contains(a));
                }
                if r.pages().contains(a) {
                    assert(next[i as int].pages().contains(a));
                }
            }
            assert(pt@ =~= m.remove_keys(all_pages(next)));
            assert(freed@ =~= if skip {
                Seq::empty()
            } else {
                all_blocks(next, m)
            });
        }
        i += 1;
    }
    assert(regions@.take(i as int) =~= regions@);
    freed
}

/// The parent's table once all these regions are shared with a child.
pub open spec fn parent_table(rs: Seq<Region>, m: Map<u64, Pte>) -> Map<u64, Pte>
    decreases rs.len(),
{
    if rs.len() == 0 {
        m
    } else {
        with_perm(
            parent_table(rs.drop_last(), m),
            rs.last().vaddr as int,
            rs.last().len as int,
            shared_perm(rs.last().flags),
        )
    }
}

/// The child's table `to` once all these regions of its parent's table `m` are shared.
pub open spec fn child_table(rs: Seq<Region>, m: Map<u64, Pte>, to: Map<u64, Pte>) -> Map<u64, Pte>
    decreases rs.len(),
{
    if rs.len() == 0 {
        to
    } else {
        shared_pages(
            rs.last(),
            m,
            child_table(rs.drop_last(), m, to),
            rs.last().len as int,
        )
    }
}

/// Regions that can be shared with a child whose table is `to`.
pub open spec fn shareable(rs: Seq<Region>, m: Map<u64, Pte>, to: Map<u64, Pte>) -> bool {
    &&& apart(rs)
    &&& forall|i: int|
        0 <= i < rs.len() ==> (#[trigger] rs[i]).whole() && known_flags(rs[i].flags) && backed(
            rs[i],
            m,
        ) && unmapped(to, rs[i].vaddr as int, rs[i].len as int)
}

/// Sharing moves no page.
pub proof fn lemma_parent_table(rs: Seq<Region>, m: Map<u64, Pte>)
    ensures
        parent_table(rs, m).dom() == m.dom(),
        forall|a: u64| m.contains_key(a) ==> #[trigger] parent_table(rs, m)[a].p == m[a].p,
    decreases rs.len(),
{
    if rs.len() > 0 {
        lemma_parent_table(rs.drop_last(), m);
        assert(parent_table(rs, m).dom() =~= m.dom());
    }
}

/// The child has the pages it had and those of the regions.
pub proof fn lemma_child_table(rs: Seq<Region>, m: Map<u64, Pte>, to: Map<u64, Pte>)
    ensures
        forall|a: u64| #[trigger]
            child_table(rs, m, to).contains_key(a) <==> to.contains_key(a) || all_pages(
                rs,
            ).contains(a),
        forall|a: u64|
            to.contains_key(a) && !all_pages(rs).contains(a) ==> #[trigger] child_table(
                rs,
                m,
                to,
            )[a] == to[a],
    decreases rs.len(),
{
    if rs.len() > 0 {
        let init = rs.drop_last();
        lemma_child_table(init, m, to);
        let t = child_table(init, m, to);
        let r = rs.last();
        assert forall|a: u64| #[trigger]
            child_table(rs, m, to).contains_key(a) <==> to.contains_key(a) || all_pages(
                rs,
            ).contains(a) by {
            lemma_all_pages_last(rs, a);
            assert(child_table(rs, m, to).contains_key(a) == (t.contains_key(a)
                || r.pages().contains(a)));
        }
        assert forall|a: u64|
            to.contains_key(a) && !all_pages(rs).contains(a) implies #[trigger] child_table(
            rs,
            m,
            to,
        )[a] == to[a] by {
            lemma_all_pages_last(rs, a);
            assert(!in_pages(a, r.vaddr as int, r.len as int));
            assert(t.contains_key(a));
            assert(child_table(rs, m, to)[a] == t[a]);
        }
    }
}

/// A page of a list of regions is one of the last region or of the others.
pub proof fn lemma_all_pages_last(rs: Seq<Region>, a: u64)
    requires
        rs.len() > 0,
    ensures
        all_pages(rs).contains(a) == (all_pages(rs.drop_last()).contains(a)
            || rs.last().pages().contains(a)),
{
    let init = rs.drop_last();
    if all_pages(rs).contains(a) {
        let k = choose|k: int| 0 <= k < rs.len() && #[trigger] rs[k].pages().contains(a);
        if k < init.len() {
            assert(init[k].pages().contains(a));
        }
    }
    if all_pages(init).contains(a) {
        let k = choose|k: int| 0 <= k < init.len() && #[trigger] init[k].pages().contains(a);
        assert(rs[k].pages().contains(a));
    }
    if rs.last().pages().contains(a) {
        assert(rs[rs.len() - 1].pages().contains(a));
    }
}

/// Where the frames are the same, so is what the child gets.
pub proof fn lemma_same_shared(r: Region, m: Map<u64, Pte>, n: Map<u64, Pte>, to: Map<u64, Pte>)
    requires
        r.whole(),
        forall|a: u64| r.pages().contains(a) ==> #[trigger] m[a].p == n[a].p,
    ensures
        shared_pages(r, m, to, r.len as int) == shared_pages(r, n, to, r.len as int),
{
    let b = r.blk();
    r.lemma_whole();
    let x = shared_pages(r, m, to, r.len as int);
    let y = shared_pages(r, n, to, r.len as int);
    assert forall|a: u64| in_pages(a, r.vaddr as int, r.len as int) implies #[trigger] x[a]
        == y[a] by {
        let o = a - r.vaddr;
        let q = o / b;
        lemma_fundamental_div_mod(o, b);
        assert(b * q == q * b) by (nonlinear_arith);
        lemma_block_aligned(q, b);
        assert(r.pages().contains(r.block_of(a)));
        assert(m[r.block_of(a)].p == n[r.block_of(a)].p);
    }
    assert(x =~= y);
}

/// Gives all regions of a program to a child; returns the blocks, each of which has
/// one more user now.
pub fn clone_regions(
    from: &RTree,
    to: &mut RTree,
    from_pt: &mut PageTable,
    to_pt: &mut PageTable,
) -> (shared: Vec<Block>)
    requires
        shareable(from@, old(from_pt)@, old(to_pt)@),
    ensures
        final(to)@ == old(to)@ + from@,
        final(from_pt)@ == parent_table(from@, old(from_pt)@),
        final(to_pt)@ == child_table(from@, old(from_pt)@, old(to_pt)@),
        shared@ == all_blocks(from@, old(from_pt)@),
{
    let mut shared: Vec<Block> = Vec::new();
    let mut i: usize = 0;
    let ghost m = from_pt@;
    let ghost t = to_pt@;
    assert(to@ =~= old(to)@ + from@.take(0));
    while i < from.len()
        invariant
            i <= from@.len(),
            shareable(from@, m, t),
            to@ == old(to)@ + from@.take(i as int),
            from_pt@ == parent_table(from@.take(i as int), m),
            to_pt@ == child_table(from@.take(i as int), m, t),
            shared@ == all_blocks(from@.take(i as int), m),
        decreases from@.len() - i,
    {
        let ghost r = from@[i as int];
        let ghost seen = from@.take(i as int);
        let ghost next = from@.take(i + 1);
        let ghost from1 = from_pt@;
        proof {
            assert(r.whole());
            lemma_parent_table(seen, m);
            lemma_child_table(seen, m, t);
            assert forall|a: u64| r.pages().contains(a) implies #[trigger] from1[a].p == m[a].p by {
                assert(in_pages(a, r.vaddr as int, r.len as int));
                assert(m.contains_key(a));
            }
            assert(backed(r, from1)) by {
                assert forall|a: u64| #[trigger] from1.contains_key(a) implies from1[a].p + r.blk()
                    <= u64::MAX by {
                    assert(m.contains_key(a));
                }
                assert forall|a: u64| in_pages(
                    a,
                    r.vaddr as int,
                    r.len as int,
                ) implies #[trigger] from1.contains_key(a) by {
                    assert(m.contains_key(a));
                }
            }
            assert forall|a: u64| #[trigger] to_pt@.contains_key(a) implies !in_pages(
                a,
                r.vaddr as int,
                r.len as int,
            ) by {
                if in_pages(a, r.vaddr as int, r.len as int) {
                    assert(r.pages().contains(a));
                    if all_pages(seen).contains(a) {
                        let k = choose|k: int|
                            0 <= k < seen.len() && #[trigger] seen[k].pages().contains(a);
                        assert(from@[k].pages().contains(a));
                    }
                    assert(t.contains_key(a));
                }
            }
            lemma_same_blocks(r, m, from1);
            lemma_same_shared(r, m, from1, to_pt@);
        }
        let mut more: Vec<Block> = clone_region(&from[i], from_pt, to_pt);
        shared.append(&mut more);
        to.push(from[i]);
        proof {
            assert(next.drop_last() =~= seen);
            assert(next.last() == r);
            assert(to@ =~= old(to)@ + next);
            assert(shared@ =~= all_blocks(next, m));
        }
        i += 1;
    }
    assert(from@.take(i as int) =~= from@);
    shared
}

} // verus!

//! What the page tables hold after a change, and how numbers stand in bytes.
use vstd::arithmetic::div_mod::lemma_fundamental_div_mod;
use vstd::prelude::*;
use vstd::utf8::encode_utf8;

use crate::elf::{Elf, Elf64Hdr, Elf64Phdr, PhIter};
use crate::laws::programs::{lemma_num2, lemma_num4, lemma_num8, num2, num4, num8};
use crate::laws::within;
use crate::le::{push_u64, read_le};
use crate::load::{init_argv, init_envp};
use crate::region::{all_pages, clone_region, free_region, free_regions, lemma_blocks};
use crate::region::{Block, RTree, Region};
use crate::space::{free_space, map_frames, reset_space};
use crate::task::{user_stack_region, Cpu, Task};
use crate::vm::{align_b, align_f, copy_pm, in_pages, map_chg_perms, map_ovwr, unmap};
use crate::vm::{PageTable, Perm, VmError};
use crate::wq::Wq;

verus! {

/// Whether a page is the `i`-th from an address on.
pub open spec fn page(v: u64, i: int) -> u64 {
    (v + 4096 * i) as u64
}

/// Whether an address is that of one of `n` pages.
pub open spec fn is_page(a: u64, v: u64, n: u64) -> bool {
    v <= a < v + 4096 * n && (a - v) % 4096 == 0
}

/// Rounding an address down and up to a multiple gives the nearest ones.
pub proof fn law_rounding_gives_nearest(x: u64, to: u64, b: u64, f: u64)
    requires
        to > 0,
        x + to - 1 <= u64::MAX,
        call_ensures(align_b, (x, to), b),
        call_ensures(align_f, (x, to), f),
    ensures
        b % to == 0,
        b <= x < b + to,
        f % to == 0,
        f - to < x <= f,
{
    let (i, t) = (x as int, to as int);
    lemma_fundamental_div_mod(i, t);
    lemma_fundamental_div_mod(i + t - 1, t);
    vstd::arithmetic::div_mod::lemma_mod_multiples_basic(i / t, t);
    vstd::arithmetic::div_mod::lemma_mod_multiples_basic((i + t - 1) / t, t);
    assert(i - i % t == (i / t) * t) by (nonlinear_arith)
        requires
            i == t * (i / t) + i % t,
    ;
    assert((i + t - 1) - (i + t - 1) % t == ((i + t - 1) / t) * t) by (nonlinear_arith)
        requires
            i + t - 1 == t * ((i + t - 1) / t) + (i + t - 1) % t,
    ;
}

/// Pages that have no frame get frames that lie one behind the other, and no other page
/// changes. Where one of them has a frame already, the call fails.
pub proof fn law_pages_are_mapped(
    pt: &mut PageTable,
    v: u64,
    p: u64,
    n: u64,
    perm: Perm,
    r: Result<u64, VmError>,
)
    requires
        v + 4096 * n <= u64::MAX,
        p + 4096 * n <= u64::MAX,
        call_ensures(crate::vm::map, (pt, v, p, n, perm), r),
    ensures
        r is Ok <==> forall|i: int| 0 <= i < n ==> !old(pt)@.contains_key(#[trigger] page(v, i)),
        r matches Ok(x) ==> {
            &&& x == v
            &&& forall|i: int|
                0 <= i < n ==> final(pt)@.contains_key(#[trigger] page(v, i)) && final(pt)@[page(
                    v,
                    i,
                )].p == p + 4096 * i && final(pt)@[page(v, i)].perm == perm
            &&& forall|a: u64|
                !is_page(a, v, n) ==> {
                    &&& #[trigger] final(pt)@.contains_key(a) == old(pt)@.contains_key(a)
                    &&& old(pt)@.contains_key(a) ==> final(pt)@[a] == old(pt)@[a]
                }
        },
{
    assert forall|i: int|
        0 <= i < n implies in_pages(#[trigger] page(v, i), v as int, 4096 * n) by {}
    if r is Err {
        let k = choose|k: int|
            {
                &&& 0 <= k < n
                &&& #[trigger] crate::vm::unmapped(old(pt)@, v as int, 4096 * k)
                &&& old(pt)@.contains_key((v + 4096 * k) as u64)
            };
        assert(old(pt)@.contains_key(page(v, k)));
    } else {
        assert forall|i: int| 0 <= i < n implies !old(pt)@.contains_key(#[trigger] page(v, i)) by {
            assert(in_pages(page(v, i), v as int, 4096 * n));
        }
    }
}

/// Pages that have frames lose them, and no other page changes.
pub proof fn law_pages_are_unmapped(pt: &mut PageTable, v: u64, n: u64, r: Result<(), VmError>)
    requires
        v + 4096 * n <= u64::MAX,
        call_ensures(unmap, (pt, v, n), r),
    ensures
        r is Ok <==> forall|i: int| 0 <= i < n ==> old(pt)@.contains_key(#[trigger] page(v, i)),
        r is Ok ==> {
            &&& forall|i: int| 0 <= i < n ==> !final(pt)@.contains_key(#[trigger] page(v, i))
            &&& forall|a: u64|
                !is_page(a, v, n) ==> {
                    &&& #[trigger] final(pt)@.contains_key(a) == old(pt)@.contains_key(a)
                    &&& old(pt)@.contains_key(a) ==> final(pt)@[a] == old(pt)@[a]
                }
        },
{
    assert forall|i: int|
        0 <= i < n implies in_pages(#[trigger] page(v, i), v as int, 4096 * n) by {}
    let gone = crate::vm::pages(v as int, 4096 * n);
    if r is Err {
        let k = choose|k: int|
            {
                &&& 0 <= k < n
                &&& #[trigger] crate::vm::all_mapped(old(pt)@, v as int, 4096 * k)
                &&& !old(pt)@.contains_key((v + 4096 * k) as u64)
            };
        assert(!old(pt)@.contains_key(page(v, k)));
    } else {
        assert forall|i: int| 0 <= i < n implies !final(pt)@.contains_key(
            #[trigger] page(v, i),
        ) && old(pt)@.contains_key(page(v, i)) by {
            assert(gone.contains(page(v, i)));
        }
        assert forall|a: u64| !is_page(a, v, n) implies {
            &&& #[trigger] final(pt)@.contains_key(a) == old(pt)@.contains_key(a)
            &&& old(pt)@.contains_key(a) ==> final(pt)@[a] == old(pt)@[a]
        } by {
            assert(!gone.contains(a));
        }
    }
}

/// Pages that have frames get other ones, or another permission, and no other page
/// changes.
pub proof fn law_pages_are_changed(
    pt: &mut PageTable,
    v: u64,
    p: u64,
    n: u64,
    perm: Perm,
    r: Result<u64, VmError>,
    qt: &mut PageTable,
    s: Result<u64, VmError>,
)
    requires
        v + 4096 * n <= u64::MAX,
        p + 4096 * n <= u64::MAX,
        forall|i: int| 0 <= i < n ==> old(pt)@.contains_key(#[trigger] page(v, i)),
        old(qt)@ == old(pt)@,
        call_ensures(map_ovwr, (pt, v, p, n, perm), r),
        call_ensures(map_chg_perms, (qt, v, n, perm), s),
    ensures
        r == Ok::<u64, VmError>(v),
        s == Ok::<u64, VmError>(v),
        forall|i: int|
            0 <= i < n ==> {
                &&& final(pt)@.contains_key(#[trigger] page(v, i))
                &&& final(pt)@[page(v, i)].p == p + 4096 * i
                &&& final(pt)@[page(v, i)].perm == perm
                &&& final(qt)@.contains_key(page(v, i))
                &&& final(qt)@[page(v, i)].p == old(pt)@[page(v, i)].p
                &&& final(qt)@[page(v, i)].perm == perm
            },
        forall|a: u64|
            !is_page(a, v, n) ==> {
                &&& #[trigger] final(pt)@.contains_key(a) == old(pt)@.contains_key(a)
                &&& old(pt)@.contains_key(a) ==> final(pt)@[a] == old(pt)@[a]
            },
        forall|a: u64|
            !is_page(a, v, n) ==> {
                &&& #[trigger] final(qt)@.contains_key(a) == old(pt)@.contains_key(a)
                &&& old(pt)@.contains_key(a) ==> final(qt)@[a] == old(pt)@[a]
            },
{
    assert forall|i: int|
        0 <= i < n implies in_pages(#[trigger] page(v, i), v as int, 4096 * n) by {}
    if exists|k: int|
        {
            &&& 0 <= k < n
            &&& #[trigger] crate::vm::all_mapped(old(pt)@, v as int, 4096 * k)
            &&& !old(pt)@.contains_key((v + 4096 * k) as u64)
        } {
        let k = choose|k: int|
            {
                &&& 0 <= k < n
                &&& #[trigger] crate::vm::all_mapped(old(pt)@, v as int, 4096 * k)
                &&& !old(pt)@.contains_key((v + 4096 * k) as u64)
            };
        assert(old(pt)@.contains_key(page(v, k)));
    }
}

/// A page is looked up: its frame is found, and it gets a permission where one is given.
pub proof fn law_page_is_looked_up(
    pt: &mut PageTable,
    v: u64,
    perm: Option<Perm>,
    r: Result<u64, VmError>,
)
    requires
        call_ensures(PageTable::v2p_pt, (pt, v, perm), r),
    ensures
        r is Ok <==> old(pt)@.contains_key(v),
        r is Ok ==> r->Ok_0 == old(pt)@[v].p,
        r is Ok && perm is Some ==> final(pt)@.contains_key(v) && final(pt)@[v].p == old(pt)@[v].p
            && final(pt)@[v].perm == perm->0,
        perm is None ==> final(pt)@ == old(pt)@,
        forall|a: u64|
            a != v ==> {
                &&& #[trigger] final(pt)@.contains_key(a) == old(pt)@.contains_key(a)
                &&& old(pt)@.contains_key(a) ==> final(pt)@[a] == old(pt)@[a]
            },
{
}

/// A page that is mapped is found, and one that is unmapped is not.
pub proof fn law_mapped_page_is_found(
    pt: &mut PageTable,
    v: u64,
    p: u64,
    perm: Perm,
    r: Result<u64, VmError>,
    qt: &mut PageTable,
    f: Result<u64, VmError>,
    ut: &mut PageTable,
    u: Result<(), VmError>,
    wt: &mut PageTable,
    g: Result<u64, VmError>,
)
    requires
        call_ensures(PageTable::map_4k, (pt, v, p, perm, false), r),
        old(qt)@ == final(pt)@,
        call_ensures(PageTable::v2p_pt, (qt, v, None), f),
        old(ut)@ == final(qt)@,
        call_ensures(PageTable::unmap_4k, (ut, v), u),
        old(wt)@ == final(ut)@,
        call_ensures(PageTable::v2p_pt, (wt, v, None), g),
    ensures
        r is Ok <==> !old(pt)@.contains_key(v),
        r is Ok ==> f == Ok::<u64, VmError>(p),
        r is Err ==> f == Ok::<u64, VmError>(old(pt)@[v].p),
        u is Ok,
        g is Err,
        forall|a: u64|
            a != v ==> {
                &&& #[trigger] final(wt)@.contains_key(a) == old(pt)@.contains_key(a)
                &&& old(pt)@.contains_key(a) ==> final(wt)@[a] == old(pt)@[a]
            },
{
}

/// Each page of a stretch of memory is copied to the page that lies as far in another.
pub proof fn law_pages_are_copied(from: u64, to: u64, n: u64, c: Vec<(u64, u64)>)
    requires
        from + 4096 * n <= u64::MAX,
        to + 4096 * n <= u64::MAX,
        call_ensures(copy_pm, (from, to, n), c),
    ensures
        c@.len() == n,
        forall|i: int|
            0 <= i < n ==> (#[trigger] c@[i]).0 == from + 4096 * i && c@[i].1 == to + 4096 * i,
{
}

/// The pages from an address on get the given frames, one each.
pub proof fn law_frames_are_mapped(pt: &mut PageTable, v: u64, frames: &[u64], perm: Perm)
    requires
        v + 4096 * frames@.len() <= u64::MAX,
        call_ensures(map_frames, (pt, v, frames, perm), ()),
    ensures
        forall|i: int|
            0 <= i < frames@.len() ==> {
                &&& final(pt)@.contains_key(#[trigger] page(v, i))
                &&& final(pt)@[page(v, i)].p == frames@[i]
                &&& final(pt)@[page(v, i)].perm == perm
            },
        forall|a: u64|
            !within(a as int, v as int, 4096 * (frames@.len() as int)) ==> {
                &&& #[trigger] final(pt)@.contains_key(a) == old(pt)@.contains_key(a)
                &&& old(pt)@.contains_key(a) ==> final(pt)@[a] == old(pt)@[a]
            },
{
    assert forall|i: int| 0 <= i < frames@.len() implies {
        &&& final(pt)@.contains_key(#[trigger] page(v, i))
        &&& final(pt)@[page(v, i)].p == frames@[i]
        &&& final(pt)@[page(v, i)].perm == perm
    } by {
        let a = page(v, i);
        assert((a - v) % 4096 == 0 && (a - v) / 4096 == i);
        assert(in_pages(a, v as int, 4096 * (frames@.len() as int)));
    }
}

/// A region has the addresses from its start up to its end.
pub proof fn law_region_has_its_addresses(r: &Region, v: u64, b: bool, e: u64)
    requires
        r.vaddr + r.len <= u64::MAX,
        call_ensures(Region::has, (r, v), b),
        call_ensures(Region::end, (r,), e),
    ensures
        b <==> r.vaddr <= v < e,
        e == r.vaddr + r.len,
{
}

/// A region grows behind its end, up to a limit.
pub proof fn law_region_grows_behind_its_end(r: &mut Region, sz: u64, at: Option<u64>)
    requires
        old(r).vaddr + old(r).len <= u64::MAX,
        old(r).len + sz <= u64::MAX,
        call_ensures(Region::grow, (r, sz), at),
    ensures
        at is Some <==> old(r).len + sz <= old(r).vaddr + 0x4000_0000,
        at is Some ==> at->0 == old(r).vaddr + old(r).len && final(r).len == old(r).len + sz
            && *final(r) == (Region { len: final(r).len, ..*old(r) }),
        at is None ==> *final(r) == *old(r),
{
}

/// The blocks of a region are of a page, doubled as often as its granule says.
pub proof fn law_blocks_have_their_size(r: &Region, n: u64, m: u64, s: u64, g: u8)
    requires
        call_ensures(Region::blksize, (r,), n),
        call_ensures(Region::blksize2, (r.granule,), m),
        call_ensures(Region::calc_granule, (s,), g),
    ensures
        n == 4096u64 << (r.granule as u64),
        m == n,
        g == s / 4096 - 1,
{
}

/// The pages of a region lose their frames, and no other page changes; the frames of a
/// region of single pages are given back in their order, unless they are to be kept.
pub proof fn law_region_is_freed(r: &Region, pt: &mut PageTable, keep: bool, freed: Vec<Block>)
    requires
        r.granule == 0,
        r.vaddr % 4096 == 0,
        r.len % 4096 == 0,
        r.vaddr + r.len <= u64::MAX,
        call_ensures(free_region, (r, pt, keep), freed),
    ensures
        keep ==> freed@.len() == 0,
        !keep ==> {
            &&& 4096 * freed@.len() == r.len
            &&& forall|i: int|
                0 <= i < freed@.len() ==> (#[trigger] freed@[i]).p == old(pt)@[page(r.vaddr, i)].p
                    && freed@[i].size == 4096
        },
        forall|a: u64|
            a % 4096 == 0 && within(a as int, r.vaddr as int, r.len as int)
                ==> !#[trigger] final(pt)@.contains_key(a),
        forall|a: u64|
            !within(a as int, r.vaddr as int, r.len as int) ==> {
                &&& #[trigger] final(pt)@.contains_key(a) == old(pt)@.contains_key(a)
                &&& old(pt)@.contains_key(a) ==> final(pt)@[a] == old(pt)@[a]
            },
{
    lemma_blocks();
    assert(r.blk() == 4096);
    let gone = crate::vm::pages(r.vaddr as int, r.len as int);
    assert forall|a: u64|
        a % 4096 == 0 && within(
            a as int,
            r.vaddr as int,
            r.len as int,
        ) implies !#[trigger] final(pt)@.contains_key(a) by {
        assert(gone.contains(a));
    }
    assert forall|a: u64| !within(a as int, r.vaddr as int, r.len as int) implies {
        &&& #[trigger] final(pt)@.contains_key(a) == old(pt)@.contains_key(a)
        &&& old(pt)@.contains_key(a) ==> final(pt)@[a] == old(pt)@[a]
    } by {
        assert(!gone.contains(a));
    }
}

/// A region of single pages that is shared has every page on the same frame in both
/// tables, where nobody may write; the frames are told in their order.
pub proof fn law_region_is_shared(
    r: &Region,
    from: &mut PageTable,
    to: &mut PageTable,
    shared: Vec<Block>,
    a: u64,
)
    requires
        r.granule == 0,
        r.vaddr % 4096 == 0,
        r.len % 4096 == 0,
        r.vaddr + r.len <= u64::MAX,
        a % 4096 == 0,
        within(a as int, r.vaddr as int, r.len as int) ==> old(from)@.contains_key(a),
        call_ensures(clone_region, (r, from, to), shared),
    ensures
        ({
            let perm = if r.flags == 5 {
                Perm::PrUrUx
            } else {
                Perm::PrUr
            };
            if within(a as int, r.vaddr as int, r.len as int) {
                &&& final(from)@.contains_key(a)
                &&& final(from)@[a].p == old(from)@[a].p
                &&& final(from)@[a].perm == perm
                &&& final(to)@.contains_key(a)
                &&& final(to)@[a].p == old(from)@[a].p
                &&& final(to)@[a].perm == perm
            } else {
                &&& final(from)@.contains_key(a) == old(from)@.contains_key(a)
                &&& old(from)@.contains_key(a) ==> final(from)@[a] == old(from)@[a]
                &&& final(to)@.contains_key(a) == old(to)@.contains_key(a)
                &&& old(to)@.contains_key(a) ==> final(to)@[a] == old(to)@[a]
            }
        }),
        4096 * shared@.len() == r.len,
        forall|i: int|
            0 <= i < shared@.len() ==> (#[trigger] shared@[i]).p == old(from)@[page(r.vaddr, i)].p
                && shared@[i].size == 4096,
{
    lemma_blocks();
    assert(r.blk() == 4096);
    if within(a as int, r.vaddr as int, r.len as int) {
        assert(r.block_of(a) == a);
    }
}

/// A number that is written stands in eight bytes, the lowest one first, behind what is
/// there, and reading them gives it back.
pub proof fn law_number_is_read_back(out: &mut Vec<u8>, x: u64, s: &[u8], y: u64)
    requires
        call_ensures(push_u64, (out, x), ()),
        s@ == final(out)@,
        old(out)@.len() <= usize::MAX - 8,
        call_ensures(read_le, (s, old(out)@.len() as usize, 8), y),
    ensures
        final(out)@.len() == old(out)@.len() + 8,
        forall|i: int| 0 <= i < old(out)@.len() ==> #[trigger] final(out)@[i] == old(out)@[i],
        num8(final(out)@, old(out)@.len() as int) == x,
        y == x,
{
    let n = old(out)@.len() as int;
    crate::le::lemma_le_len(x as nat, 8);
    crate::le::lemma_pow256();
    crate::le::law_le_reads_back(x as nat, 8);
    assert(final(out)@.subrange(n, n + 8) =~= crate::le::le(x as nat, 8));
    lemma_num8(final(out)@, n);
}

/// The fields of a program's header stand in its bytes at their places.
pub proof fn law_header_fields_have_places(s: &[u8], h: Elf64Hdr)
    requires
        s@.len() == 64,
        call_ensures(Elf64Hdr::parse, (s,), h),
    ensures
        forall|i: int| 0 <= i < 16 ==> #[trigger] h.ident@[i] == s@[i],
        h.kind == num2(s@, 16),
        h.machine == num2(s@, 18),
        h.version == num4(s@, 20),
        h.entry == num8(s@, 24),
        h.phoff == num8(s@, 32),
        h.shoff == num8(s@, 40),
        h.flags == num4(s@, 48),
        h.ehsize == num2(s@, 52),
        h.phentsize == num2(s@, 54),
        h.phnum == num2(s@, 56),
        h.shentsize == num2(s@, 58),
        h.shnum == num2(s@, 60),
        h.shstrndx == num2(s@, 62),
{
    lemma_num2(s@, 16);
    lemma_num2(s@, 18);
    lemma_num4(s@, 20);
    lemma_num8(s@, 24);
    lemma_num8(s@, 32);
    lemma_num8(s@, 40);
    lemma_num4(s@, 48);
    lemma_num2(s@, 52);
    lemma_num2(s@, 54);
    lemma_num2(s@, 56);
    lemma_num2(s@, 58);
    lemma_num2(s@, 60);
    lemma_num2(s@, 62);
    assert forall|i: int| 0 <= i < 16 implies #[trigger] h.ident@[i] == s@[i] by {
        assert(s@.take(16)[i] == s@[i]);
    }
}

/// The fields of a segment's header stand in its bytes at their places.
pub proof fn law_segment_fields_have_places(s: &[u8], h: Elf64Phdr)
    requires
        s@.len() == 56,
        call_ensures(Elf64Phdr::parse, (s,), h),
    ensures
        h.kind == num4(s@, 0),
        h.flags == num4(s@, 4),
        h.offset == num8(s@, 8),
        h.vaddr == num8(s@, 16),
        h.paddr == num8(s@, 24),
        h.filesz == num8(s@, 32),
        h.memsz == num8(s@, 40),
        h.align == num8(s@, 48),
{
    lemma_num4(s@, 0);
    lemma_num4(s@, 4);
    lemma_num8(s@, 8);
    lemma_num8(s@, 16);
    lemma_num8(s@, 24);
    lemma_num8(s@, 32);
    lemma_num8(s@, 40);
    lemma_num8(s@, 48);
}

/// The headers of the segments stand one behind the other, from where the program's
/// header says, and there are as many as it says. A header that cannot be read ends
/// them.
pub proof fn law_segment_headers_follow(
    it: &mut PhIter,
    at: Option<u64>,
    read: Result<Vec<u8>, ()>,
    h: Option<Elf64Phdr>,
)
    requires
        old(it).elf.header.phoff + 56 * old(it).idx <= u64::MAX,
        call_ensures(PhIter::at, (&*old(it),), at),
        call_ensures(PhIter::next, (it, read), h),
    ensures
        ({
            let more = old(it).idx < old(it).elf.header.phnum;
            &&& at is Some <==> more
            &&& more ==> at->0 == old(it).elf.header.phoff + 56 * old(it).idx
            &&& h is Some <==> more && read is Ok && read->Ok_0@.len() == 56
            &&& final(it).idx == old(it).idx + if h is Some {
                1int
            } else {
                0
            }
            &&& final(it).elf == old(it).elf
            &&& h is Some ==> h->0.kind == num4(read->Ok_0@, 0) && h->0.vaddr == num8(
                read->Ok_0@,
                16,
            )
        }),
{
    if h is Some {
        lemma_num4(read->Ok_0@, 0);
        lemma_num8(read->Ok_0@, 16);
    }
}

/// Interrupts are masked at the first of several nested requests, and unmasked at the
/// last one that is taken back, where they were on before.
pub proof fn law_interrupts_are_nested(
    c: &mut Cpu,
    daif: u64,
    mask: bool,
    d: &mut Cpu,
    unmask: bool,
)
    requires
        old(c).int_disables < u32::MAX,
        call_ensures(Cpu::disable_intr, (c, daif), mask),
        *old(d) == *final(c),
        call_ensures(Cpu::enable_intr, (d,), unmask),
    ensures
        mask == (old(c).int_disables == 0),
        final(c).int_disables == old(c).int_disables + 1,
        unmask == (old(c).int_disables == 0 && final(c).int_enable),
        final(d).int_disables == old(c).int_disables,
        final(d).task_idx == old(c).task_idx,
        old(c).int_disables > 0 ==> final(d).int_enable == old(c).int_enable,
{
}

/// A task that joins a queue stands last in it, once.
pub proof fn law_queue_keeps_order(q: &mut Wq, t: usize)
    requires
        old(q).sound(),
        t < 8,
        call_ensures(Wq::add, (q, Some(t)), ()),
    ensures
        (exists|i: int| 0 <= i < old(q).count && (#[trigger] old(q).tasks@[i]) == Some(t))
            ==> *final(q) == *old(q),
        (forall|i: int| 0 <= i < old(q).count ==> (#[trigger] old(q).tasks@[i]) != Some(t)) ==> {
            &&& final(q).count == old(q).count + 1
            &&& final(q).tasks@[old(q).count as int] == Some(t)
            &&& forall|i: int|
                0 <= i < old(q).count ==> #[trigger] final(q).tasks@[i] == old(q).tasks@[i]
        },
{
    let w = old(q).waiting();
    if exists|i: int| 0 <= i < old(q).count && (#[trigger] old(q).tasks@[i]) == Some(t) {
        let i = choose|i: int| 0 <= i < old(q).count && (#[trigger] old(q).tasks@[i]) == Some(t);
        assert(w[i] == t);
    }
    if w.contains(t) {
        let i = choose|i: int| 0 <= i < w.len() && w[i] == t;
        assert(old(q).tasks@[i] is Some);
        assert(old(q).tasks@[i] == Some(t));
    }
}

/// The first program is an interactive shell, which finds its programs and starts at the
/// root.
pub proof fn law_first_program_is_a_shell(argv: Vec<Vec<u8>>, envp: Vec<Vec<u8>>)
    requires
        call_ensures(init_argv, (), argv),
        call_ensures(init_envp, (), envp),
    ensures
        argv@.len() == 2,
        argv@[0]@ == encode_utf8("sh"@),
        argv@[1]@ == encode_utf8("-i"@),
        envp@.len() == 4,
        envp@[0]@ == encode_utf8("PATH=/bin"@),
        envp@[1]@ == encode_utf8("PWD=/"@),
        envp@[2]@ == encode_utf8("LC_ALL=C"@),
        envp@[3]@ == encode_utf8("PS1=\\w \\$ "@),
{
    let a = crate::stack::strings(argv@);
    let e = crate::stack::strings(envp@);
    assert(a.len() == 2 && a[0] == argv@[0]@ && a[1] == argv@[1]@);
    assert(e.len() == 4);
    assert(e[0] == envp@[0]@);
    assert(e[1] == envp@[1]@);
    assert(e[2] == envp@[2]@);
    assert(e[3] == envp@[3]@);
}

/// A new page table has no page.
pub proof fn law_new_table_is_empty(t: PageTable)
    requires
        call_ensures(PageTable::new, (), t),
    ensures
        forall|a: u64| !#[trigger] t@.contains_key(a),
{
}

/// The empty headers hold zeros, and the headers of the segments are read from the first
/// one on.
pub proof fn law_empty_headers_are_zero(h: Elf64Hdr, p: Elf64Phdr, elf: Elf, it: PhIter)
    requires
        call_ensures(Elf64Hdr::zeroed, (), h),
        call_ensures(Elf64Phdr::zeroed, (), p),
        call_ensures(PhIter::new, (elf,), it),
    ensures
        forall|i: int| 0 <= i < 16 ==> #[trigger] h.ident@[i] == 0,
        h.kind == 0 && h.machine == 0 && h.entry == 0 && h.phoff == 0 && h.phnum == 0,
        p.kind == 0 && p.flags == 0 && p.offset == 0 && p.vaddr == 0 && p.filesz == 0 && p.memsz
            == 0,
        it.elf == elf,
        it.idx == 0,
{
}

/// The pages of several regions lose their frames, and no other page changes; nothing is
/// given back where the frames are to be kept.
pub proof fn law_regions_are_freed(
    rs: &RTree,
    pt: &mut PageTable,
    keep: bool,
    freed: Vec<Block>,
    a: u64,
)
    requires
        call_ensures(free_regions, (rs, pt, keep), freed),
    ensures
        (exists|i: int|
            0 <= i < rs@.len() && within(
                a as int,
                (#[trigger] rs@[i]).vaddr as int,
                rs@[i].len as int,
            ) && (a - rs@[i].vaddr) % 4096 == 0) ==> !final(pt)@.contains_key(a),
        (forall|i: int|
            0 <= i < rs@.len() ==> !(within(
                a as int,
                (#[trigger] rs@[i]).vaddr as int,
                rs@[i].len as int,
            ) && (a - rs@[i].vaddr) % 4096 == 0)) ==> {
            &&& final(pt)@.contains_key(a) == old(pt)@.contains_key(a)
            &&& old(pt)@.contains_key(a) ==> final(pt)@[a] == old(pt)@[a]
        },
        keep ==> freed@.len() == 0,
{
    let gone = all_pages(rs@);
    if exists|i: int|
        0 <= i < rs@.len() && within(
            a as int,
            (#[trigger] rs@[i]).vaddr as int,
            rs@[i].len as int,
        ) && (a - rs@[i].vaddr) % 4096 == 0 {
        let i = choose|i: int|
            0 <= i < rs@.len() && within(
                a as int,
                (#[trigger] rs@[i]).vaddr as int,
                rs@[i].len as int,
            ) && (a - rs@[i].vaddr) % 4096 == 0;
        assert(rs@[i].pages().contains(a));
        assert(gone.contains(a));
    } else {
        if gone.contains(a) {
            let i = choose|i: int| 0 <= i < rs@.len() && #[trigger] rs@[i].pages().contains(a);
            assert(within(a as int, rs@[i].vaddr as int, rs@[i].len as int));
        }
    }
}

/// A task whose memory is taken away has none, and one whose memory is reset has its
/// stack.
pub proof fn law_memory_is_taken(t: &mut Task, freed: Vec<Block>, u: &mut Task, freed2: Vec<Block>)
    requires
        call_ensures(free_space, (t,), freed),
        *old(u) == *old(t),
        call_ensures(reset_space, (u,), freed2),
    ensures
        forall|a: u64| !#[trigger] final(t).pt@.contains_key(a),
        final(t).user_sp is None,
        final(t).program@.len() == 0 && final(t).brk.len == 0 && final(t).mmap.len == 0,
        final(t).brk.vaddr == old(t).brk.vaddr && final(t).mmap.vaddr == old(t).mmap.vaddr,
        final(t).state == old(t).state && final(t).files == old(t).files && final(t).frame == old(
            t,
        ).frame,
        forall|a: u64| #[trigger]
            final(u).pt@.contains_key(a) <==> a == 0x2_0000_0000 || a == 0x2_0000_1000,
        forall|a: u64| #[trigger]
            final(u).pt@.contains_key(a) ==> final(u).pt@[a] == old(u).pt@[a],
        final(u).user_sp == old(u).user_sp,
        final(u).program@.len() == 0 && final(u).brk.len == 0 && final(u).mmap.len == 0,
        final(u).state == old(u).state && final(u).files == old(u).files && final(u).frame == old(
            u,
        ).frame,
{
    let d = user_stack_region().pages();
    assert(final(u).pt@.dom() == d);
    assert forall|a: u64| #[trigger] final(u).pt@.contains_key(a) <==> a == 0x2_0000_0000 || a
        == 0x2_0000_1000 by {
        assert(final(u).pt@.dom().contains(a) == d.contains(a));
    }
}

/// A call that maps pages stops at the first one that has a frame, and tells it; one
/// that takes frames away stops at the first one that has none, and tells it. The pages
/// before it are changed, and no others.
#[verifier::rlimit(40)]
pub proof fn law_first_page_in_the_way_is_told(
    pt: &mut PageTable,
    v: u64,
    p: u64,
    n: u64,
    perm: Perm,
    e: VmError,
    qt: &mut PageTable,
    f: VmError,
)
    requires
        v + 4096 * n <= u64::MAX,
        p + 4096 * n <= u64::MAX,
        call_ensures(crate::vm::map, (pt, v, p, n, perm), Err(e)),
        call_ensures(unmap, (qt, v, n), Err(f)),
    ensures
        exists|k: int|
            {
                &&& 0 <= k < n
                &&& old(pt)@.contains_key(#[trigger] page(v, k))
                &&& e == VmError::Exists(page(v, k))
                &&& forall|i: int|
                    0 <= i < k ==> {
                        &&& !old(pt)@.contains_key(#[trigger] page(v, i))
                        &&& final(pt)@.contains_key(page(v, i))
                        &&& final(pt)@[page(v, i)].p == p + 4096 * i
                    }
                &&& forall|a: u64|
                    !is_page(a, v, k as u64) ==> {
                        &&& #[trigger] final(pt)@.contains_key(a) == old(pt)@.contains_key(a)
                        &&& old(pt)@.contains_key(a) ==> final(pt)@[a] == old(pt)@[a]
                    }
            },
        exists|k: int|
            {
                &&& 0 <= k < n
                &&& !old(qt)@.contains_key(#[trigger] page(v, k))
                &&& f == VmError::Missing(page(v, k))
                &&& forall|i: int|
                    0 <= i < k ==> {
                        &&& old(qt)@.contains_key(#[trigger] page(v, i))
                        &&& !final(qt)@.contains_key(page(v, i))
                    }
                &&& forall|a: u64|
                    !is_page(a, v, k as u64) ==> {
                        &&& #[trigger] final(qt)@.contains_key(a) == old(qt)@.contains_key(a)
                        &&& old(qt)@.contains_key(a) ==> final(qt)@[a] == old(qt)@[a]
                    }
            },
{
    let k = choose|k: int|
        {
            &&& 0 <= k < n
            &&& #[trigger] crate::vm::unmapped(old(pt)@, v as int, 4096 * k)
            &&& old(pt)@.contains_key((v + 4096 * k) as u64)
            &&& e == VmError::Exists((v + 4096 * k) as u64)
            &&& final(pt)@ == crate::vm::with_pages(old(pt)@, v as int, p as int, 4096 * k, perm)
        };
    assert(old(pt)@.contains_key(page(v, k)));
    assert forall|i: int| 0 <= i < k implies !old(pt)@.contains_key(#[trigger] page(v, i))
        && final(pt)@.contains_key(page(v, i)) && final(pt)@[page(v, i)].p == p + 4096 * i by {
        assert(in_pages(page(v, i), v as int, 4096 * k));
    }
    let l = choose|k: int|
        {
            &&& 0 <= k < n
            &&& #[trigger] crate::vm::all_mapped(old(qt)@, v as int, 4096 * k)
            &&& !old(qt)@.contains_key((v + 4096 * k) as u64)
            &&& f == VmError::Missing((v + 4096 * k) as u64)
            &&& final(qt)@ == crate::vm::without_pages(old(qt)@, v as int, 4096 * k)
        };
    let gone = crate::vm::pages(v as int, 4096 * l);
    assert(!old(qt)@.contains_key(page(v, l)));
    assert forall|i: int| 0 <= i < l implies old(qt)@.contains_key(#[trigger] page(v, i))
        && !final(qt)@.contains_key(page(v, i)) by {
        assert(in_pages(page(v, i), v as int, 4096 * l));
        assert(gone.contains(page(v, i)));
    }
    assert forall|a: u64| !is_page(a, v, l as u64) implies {
        &&& #[trigger] final(qt)@.contains_key(a) == old(qt)@.contains_key(a)
        &&& old(qt)@.contains_key(a) ==> final(qt)@[a] == old(qt)@[a]
    } by {
        assert(!gone.contains(a));
    }
}

/// A call that gives pages other frames goes no further than the first one that had
/// none, which gets its frame too, and tells where it stopped.
pub proof fn law_missing_page_ends_the_change(
    pt: &mut PageTable,
    v: u64,
    p: u64,
    n: u64,
    perm: Perm,
    r: Result<u64, VmError>,
    k: int,
)
    requires
        v + 4096 * n <= u64::MAX,
        p + 4096 * n <= u64::MAX,
        0 <= k < n,
        forall|i: int| 0 <= i < k ==> old(pt)@.contains_key(#[trigger] page(v, i)),
        !old(pt)@.contains_key(page(v, k)),
        call_ensures(map_ovwr, (pt, v, p, n, perm), r),
    ensures
        r == Ok::<u64, VmError>(page(v, k)),
        forall|i: int|
            0 <= i <= k ==> {
                &&& final(pt)@.contains_key(#[trigger] page(v, i))
                &&& final(pt)@[page(v, i)].p == p + 4096 * i
                &&& final(pt)@[page(v, i)].perm == perm
            },
        forall|a: u64|
            !is_page(a, v, (k + 1) as u64) ==> {
                &&& #[trigger] final(pt)@.contains_key(a) == old(pt)@.contains_key(a)
                &&& old(pt)@.contains_key(a) ==> final(pt)@[a] == old(pt)@[a]
            },
{
    assert(in_pages(page(v, k), v as int, 4096 * n));
    assert(!crate::vm::all_mapped(old(pt)@, v as int, 4096 * n));
    let l = choose|l: int|
        {
            &&& 0 <= l < n
            &&& #[trigger] crate::vm::all_mapped(old(pt)@, v as int, 4096 * l)
            &&& !old(pt)@.contains_key((v + 4096 * l) as u64)
            &&& r->Ok_0 == v + 4096 * l
            &&& final(pt)@ == crate::vm::with_pages(
                old(pt)@,
                v as int,
                p as int,
                4096 * (l + 1),
                perm,
            )
        };
    if l < k {
        assert(old(pt)@.contains_key(page(v, l)));
    }
    if k < l {
        assert(in_pages(page(v, k), v as int, 4096 * l));
    }
    assert(l == k);
    assert forall|i: int| 0 <= i <= k implies {
        &&& final(pt)@.contains_key(#[trigger] page(v, i))
        &&& final(pt)@[page(v, i)].p == p + 4096 * i
        &&& final(pt)@[page(v, i)].perm == perm
    } by {
        assert(in_pages(page(v, i), v as int, 4096 * (k + 1)));
    }
}

/// The size of the blocks of a region.
pub open spec fn size(r: Region) -> int {
    (4096u64 << (r.granule as u64)) as int
}

/// A region of larger blocks is shared block by block: a page is as far from the start of
/// its frame's block as it is from the start of its own.
pub proof fn law_blocks_are_shared(
    r: &Region,
    from: &mut PageTable,
    to: &mut PageTable,
    shared: Vec<Block>,
    a: u64,
)
    requires
        r.granule < 52,
        r.len as int % size(*r) == 0,
        (a - r.vaddr) % 4096 == 0,
        within(a as int, r.vaddr as int, r.len as int),
        old(from)@.contains_key(a),
        ({
            let start = a - (a - r.vaddr) % size(*r);
            old(from)@[start as u64].p + size(*r) <= u64::MAX
        }),
        call_ensures(clone_region, (r, from, to), shared),
    ensures
        ({
            let start = a - (a - r.vaddr) % size(*r);
            let perm = if r.flags == 5 {
                Perm::PrUrUx
            } else {
                Perm::PrUr
            };
            &&& final(from)@.contains_key(a)
            &&& final(from)@[a].p == old(from)@[a].p
            &&& final(from)@[a].perm == perm
            &&& final(to)@.contains_key(a)
            &&& final(to)@[a].p == old(from)@[start as u64].p + (a - start)
            &&& final(to)@[a].perm == perm
        }),
        size(*r) * shared@.len() == r.len,
        forall|i: int|
            0 <= i < shared@.len() ==> (#[trigger] shared@[i]).p == old(
                from,
            )@[(r.vaddr + i * size(*r)) as u64].p && shared@[i].size == size(*r),
{
    crate::region::lemma_block_pages(r.granule);
    let (n, b) = (r.len as int, size(*r));
    lemma_fundamental_div_mod(n, b);
    assert(n / b >= 0) by (nonlinear_arith)
        requires
            n >= 0,
            b > 0,
    ;
    assert(0 <= (a - r.vaddr) % b < b) by (nonlinear_arith)
        requires
            b > 0,
    ;
    assert((a - r.vaddr) % b <= a - r.vaddr) by (nonlinear_arith)
        requires
            b > 0,
            a - r.vaddr >= 0,
    ;
}

/// The blocks of a region are given back in their order, unless they are to be kept.
pub proof fn law_blocks_are_freed(r: &Region, pt: &mut PageTable, keep: bool, freed: Vec<Block>)
    requires
        r.granule < 52,
        r.len as int % size(*r) == 0,
        call_ensures(free_region, (r, pt, keep), freed),
    ensures
        keep ==> freed@.len() == 0,
        !keep ==> {
            &&& size(*r) * freed@.len() == r.len
            &&& forall|i: int|
                0 <= i < freed@.len() ==> (#[trigger] freed@[i]).p == old(
                    pt,
                )@[(r.vaddr + i * size(*r)) as u64].p && freed@[i].size == size(*r)
        },
        forall|a: u64|
            within(a as int, r.vaddr as int, r.len as int) && (a - r.vaddr) % 4096 == 0
                ==> !#[trigger] final(pt)@.contains_key(a),
{
    crate::region::lemma_block_pages(r.granule);
    let (n, b) = (r.len as int, size(*r));
    lemma_fundamental_div_mod(n, b);
    assert(n / b >= 0) by (nonlinear_arith)
        requires
            n >= 0,
            b > 0,
    ;
    let gone = crate::vm::pages(r.vaddr as int, r.len as int);
    assert forall|a: u64|
        within(a as int, r.vaddr as int, r.len as int) && (a - r.vaddr) % 4096
            == 0 implies !#[trigger] final(pt)@.contains_key(a) by {
        assert(gone.contains(a));
    }
}

} // verus!

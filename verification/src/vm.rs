//! User page tables: which page of an address space stands for which frame, and
//! what may be done with it.
use std::collections::BTreeMap;
use vstd::prelude::*;

verus! {

/// Bytes in a page.
pub const PAGE: u64 = 4096;

pub const MB: u64 = 0x10_0000;

pub const GB: u64 = 0x4000_0000;

/// What the kernel (`Pr`, `Pw`) and the program (`Ur`, `Uw`, `Ux`) may do with a page.
#[derive(Clone, Copy, Debug, PartialEq, Eq, Structural)]
pub enum Perm {
    Pr,
    PrPw,
    PrUr,
    PrUrUx,
    PrPwUrUw,
}

/// The frame behind a page.
#[derive(Clone, Copy, Debug, PartialEq, Eq, Structural)]
pub struct Pte {
    pub p: u64,
    pub perm: Perm,
}

#[derive(Clone, Copy, Debug, PartialEq, Eq, Structural)]
pub enum VmError {
    /// The page has a frame already.
    Exists(u64),
    /// The page has no frame.
    Missing(u64),
}

/// A page table. Keys are the addresses of pages.
pub struct PageTable {
    pub entries: BTreeMap<u64, Pte>,
}

impl View for PageTable {
    type V = Map<u64, Pte>;

    open spec fn view(&self) -> Map<u64, Pte> {
        self.entries@
    }
}

/// Whether `a` is one of the pages that cover `len` bytes from `v` on.
pub open spec fn in_pages(a: u64, v: int, len: int) -> bool {
    v <= a < v + len && (a - v) % 4096 == 0
}

/// The pages that cover `len` bytes from `v` on.
pub open spec fn pages(v: int, len: int) -> Set<u64> {
    Set::new(|a: u64| in_pages(a, v, len))
}

/// Whether none of these pages has a frame.
pub open spec fn unmapped(m: Map<u64, Pte>, v: int, len: int) -> bool {
    forall|a: u64| #[trigger] m.contains_key(a) ==> !in_pages(a, v, len)
}

/// Whether each of these pages has a frame.
pub open spec fn all_mapped(m: Map<u64, Pte>, v: int, len: int) -> bool {
    forall|a: u64| in_pages(a, v, len) ==> #[trigger] m.contains_key(a)
}

/// The table with these pages on the frames from `p` on.
pub open spec fn with_pages(m: Map<u64, Pte>, v: int, p: int, len: int, perm: Perm) -> Map<
    u64,
    Pte,
> {
    Map::new(
        |a: u64| m.contains_key(a) || in_pages(a, v, len),
        |a: u64|
            if in_pages(a, v, len) {
                Pte { p: (p + (a - v)) as u64, perm }
            } else {
                m[a]
            },
    )
}

/// The table without these pages.
pub open spec fn without_pages(m: Map<u64, Pte>, v: int, len: int) -> Map<u64, Pte> {
    m.remove_keys(pages(v, len))
}

/// The table with other permissions on these pages.
pub open spec fn with_perm(m: Map<u64, Pte>, v: int, len: int, perm: Perm) -> Map<u64, Pte> {
    Map::new(
        |a: u64| m.contains_key(a),
        |a: u64|
            if in_pages(a, v, len) {
                Pte { p: m[a].p, perm }
            } else {
                m[a]
            },
    )
}

/// Rounds down to a multiple of `to`.
pub fn align_b(x: u64, to: u64) -> (r: u64)
    requires
        to > 0,
    ensures
        r == x - x % to,
        r <= x,
{
    assert(x % to <= x) by (nonlinear_arith)
        requires
            to > 0,
    ;
    x - x % to
}

/// Rounds up to a multiple of `to`.
pub fn align_f(x: u64, to: u64) -> (r: u64)
    requires
        to > 0,
        x + to - 1 <= u64::MAX,
    ensures
        r == (x + to - 1) - (x + to - 1) % (to as int),
        r >= x,
{
    let y: u64 = x + (to - 1);
    y - y % to
}

impl PageTable {
    /// A table without pages.
    pub fn new() -> (t: PageTable)
        ensures
            t@ == Map::<u64, Pte>::empty(),
    {
        PageTable { entries: BTreeMap::new() }
    }

    /// Puts the page `v` on the frame `p`. A page that has a frame already is
    /// reported, and moved only where `ovwr` says so.
    pub fn map_4k(&mut self, v: u64, p: u64, perm: Perm, ovwr: bool) -> (r: Result<u64, VmError>)
        ensures
            r == if old(self)@.contains_key(v) {
                Err::<u64, VmError>(VmError::Exists(v))
            } else {
                Ok(v)
            },
            final(self)@ == if old(self)@.contains_key(v) && !ovwr {
                old(self)@
            } else {
                old(self)@.insert(v, Pte { p, perm })
            },
    {
        if self.entries.contains_key(&v) {
            if ovwr {
                self.entries.insert(v, Pte { p, perm });
            }
            return Err(VmError::Exists(v));
        }
        self.entries.insert(v, Pte { p, perm });
        Ok(v)
    }

    /// Takes the page `v` off its frame.
    pub fn unmap_4k(&mut self, v: u64) -> (r: Result<(), VmError>)
        ensures
            r == if old(self)@.contains_key(v) {
                Ok::<(), VmError>(())
            } else {
                Err(VmError::Missing(v))
            },
            final(self)@ == old(self)@.remove(v),
    {
        if self.entries.contains_key(&v) {
            self.entries.remove(&v);
            Ok(())
        } else {
            assert(self@.remove(v) =~= self@);
            Err(VmError::Missing(v))
        }
    }

    /// The frame behind the page `v`, which gets new permissions where some are given.
    pub fn v2p_pt(&mut self, v: u64, perm: Option<Perm>) -> (r: Result<u64, VmError>)
        ensures
            r == if old(self)@.contains_key(v) {
                Ok::<u64, VmError>(old(self)@[v].p)
            } else {
                Err(VmError::Missing(v))
            },
            final(self)@ == if old(self)@.contains_key(v) && perm is Some {
                old(self)@.insert(v, Pte { p: old(self)@[v].p, perm: perm->0 })
            } else {
                old(self)@
            },
    {
        let p: u64 = match self.entries.get(&v) {
            Some(e) => e.p,
            None => return Err(VmError::Missing(v)),
        };
        if let Some(perm) = perm {
            self.entries.insert(v, Pte { p, perm });
        }
        Ok(p)
    }
}

/// Puts `n` pages from `v` on, on the frames from `p` on, up to the first that has a
/// frame already, which is reported.
pub fn map(pt: &mut PageTable, v: u64, p: u64, n: u64, perm: Perm) -> (r: Result<u64, VmError>)
    requires
        v + 4096 * n <= u64::MAX,
        p + 4096 * n <= u64::MAX,
    ensures
        match r {
            Ok(x) => {
                &&& x == v
                &&& unmapped(old(pt)@, v as int, 4096 * n)
                &&& final(pt)@ == with_pages(old(pt)@, v as int, p as int, 4096 * n, perm)
            },
            Err(e) => exists|k: int|
                {
                    &&& 0 <= k < n
                    &&& #[trigger] unmapped(old(pt)@, v as int, 4096 * k)
                    &&& old(pt)@.contains_key((v + 4096 * k) as u64)
                    &&& e == VmError::Exists((v + 4096 * k) as u64)
                    &&& final(pt)@ == with_pages(old(pt)@, v as int, p as int, 4096 * k, perm)
                },
        },
{
    let mut i: u64 = 0;
    assert(pt@ =~= with_pages(pt@, v as int, p as int, 0, perm));
    while i < n
        invariant
            i <= n,
            v + 4096 * n <= u64::MAX,
            p + 4096 * n <= u64::MAX,
            unmapped(old(pt)@, v as int, 4096 * i),
            pt@ == with_pages(old(pt)@, v as int, p as int, 4096 * i, perm),
        decreases n - i,
    {
        let ghost before = pt@;
        match pt.map_4k(v + 4096 * i, p + 4096 * i, perm, false) {
            Err(e) => {
                return Err(e);
            },
            Ok(_) => {},
        }
        assert(pt@ =~= with_pages(old(pt)@, v as int, p as int, 4096 * (i + 1), perm));
        i += 1;
    }
    Ok(v)
}

/// Takes `n` pages from `v` on off their frames, up to the first that has none, which
/// is reported.
pub fn unmap(pt: &mut PageTable, v: u64, n: u64) -> (r: Result<(), VmError>)
    requires
        v + 4096 * n <= u64::MAX,
    ensures
        match r {
            Ok(_) => {
                &&& all_mapped(old(pt)@, v as int, 4096 * n)
                &&& final(pt)@ == without_pages(old(pt)@, v as int, 4096 * n)
            },
            Err(e) => exists|k: int|
                {
                    &&& 0 <= k < n
                    &&& #[trigger] all_mapped(old(pt)@, v as int, 4096 * k)
                    &&& !old(pt)@.contains_key((v + 4096 * k) as u64)
                    &&& e == VmError::Missing((v + 4096 * k) as u64)
                    &&& final(pt)@ == without_pages(old(pt)@, v as int, 4096 * k)
                },
        },
{
    let mut i: u64 = 0;
    assert(pt@ =~= without_pages(pt@, v as int, 0));
    while i < n
        invariant
            i <= n,
            v + 4096 * n <= u64::MAX,
            all_mapped(old(pt)@, v as int, 4096 * i),
            pt@ == without_pages(old(pt)@, v as int, 4096 * i),
        decreases n - i,
    {
        match pt.unmap_4k(v + 4096 * i) {
            Err(e) => {
                assert(pt@ =~= without_pages(old(pt)@, v as int, 4096 * i));
                return Err(e);
            },
            Ok(_) => {},
        }
        assert(pt@ =~= without_pages(old(pt)@, v as int, 4096 * (i + 1)));
        i += 1;
    }
    Ok(())
}

/// Moves `n` pages from `v` on to the frames from `p` on. A page that had no frame
/// gets one and ends the run.
pub fn map_ovwr(pt: &mut PageTable, v: u64, p: u64, n: u64, perm: Perm) -> (r: Result<
    u64,
    VmError,
>)
    requires
        v + 4096 * n <= u64::MAX,
        p + 4096 * n <= u64::MAX,
    ensures
        r matches Ok(x) && {
            ||| {
                &&& x == v
                &&& all_mapped(old(pt)@, v as int, 4096 * n)
                &&& final(pt)@ == with_pages(old(pt)@, v as int, p as int, 4096 * n, perm)
            }
            ||| exists|k: int|
                {
                    &&& 0 <= k < n
                    &&& #[trigger] all_mapped(old(pt)@, v as int, 4096 * k)
                    &&& !old(pt)@.contains_key((v + 4096 * k) as u64)
                    &&& x == v + 4096 * k
                    &&& final(pt)@ == with_pages(
                        old(pt)@,
                        v as int,
                        p as int,
                        4096 * (k + 1),
                        perm,
                    )
                }
        },
{
    let mut i: u64 = 0;
    assert(pt@ =~= with_pages(pt@, v as int, p as int, 0, perm));
    while i < n
        invariant
            i <= n,
            v + 4096 * n <= u64::MAX,
            p + 4096 * n <= u64::MAX,
            all_mapped(old(pt)@, v as int, 4096 * i),
            pt@ == with_pages(old(pt)@, v as int, p as int, 4096 * i, perm),
        decreases n - i,
    {
        let r = pt.map_4k(v + 4096 * i, p + 4096 * i, perm, true);
        assert(pt@ =~= with_pages(old(pt)@, v as int, p as int, 4096 * (i + 1), perm));
        match r {
            Err(VmError::Exists(_)) => {},
            e => {
                return e;
            },
        }
        i += 1;
    }
    Ok(v)
}

/// Gives `n` pages from `v` on other permissions.
pub fn map_chg_perms(pt: &mut PageTable, v: u64, n: u64, perm: Perm) -> (r: Result<u64, VmError>)
    requires
        v + 4096 * n <= u64::MAX,
        all_mapped(old(pt)@, v as int, 4096 * n),
    ensures
        r == Ok::<u64, VmError>(v),
        final(pt)@ == with_perm(old(pt)@, v as int, 4096 * n, perm),
{
    let mut i: u64 = 0;
    assert(pt@ =~= with_perm(pt@, v as int, 0, perm));
    while i < n
        invariant
            i <= n,
            v + 4096 * n <= u64::MAX,
            all_mapped(old(pt)@, v as int, 4096 * n),
            pt@ == with_perm(old(pt)@, v as int, 4096 * i, perm),
        decreases n - i,
    {
        assert(in_pages((v + 4096 * i) as u64, v as int, 4096 * n));
        let _ = pt.v2p_pt(v + 4096 * i, Some(perm));
        assert(pt@ =~= with_perm(old(pt)@, v as int, 4096 * (i + 1), perm));
        i += 1;
    }
    Ok(v)
}

/// The page copies that carry `n` pages from the frame `from_pm` to the frame `to_pm`.
pub fn copy_pm(from_pm: u64, to_pm: u64, n: u64) -> (copies: Vec<(u64, u64)>)
    requires
        from_pm + 4096 * n <= u64::MAX,
        to_pm + 4096 * n <= u64::MAX,
    ensures
        copies@ == Seq::new(
            n as nat,
            |i: int| ((from_pm + 4096 * i) as u64, (to_pm + 4096 * i) as u64),
        ),
{
    let mut copies: Vec<(u64, u64)> = Vec::new();
    let mut i: u64 = 0;
    while i < n
        invariant
            i <= n,
            from_pm + 4096 * n <= u64::MAX,
            to_pm + 4096 * n <= u64::MAX,
            copies@ == Seq::new(
                i as nat,
                |j: int| ((from_pm + 4096 * j) as u64, (to_pm + 4096 * j) as u64),
            ),
        decreases n - i,
    {
        copies.push((from_pm + 4096 * i, to_pm + 4096 * i));
        i += 1;
    }
    copies
}

/// Taking pages off their frames undoes putting them there.
pub proof fn law_unmap_undoes_map(m: Map<u64, Pte>, v: int, p: int, len: int, perm: Perm)
    requires
        unmapped(m, v, len),
    ensures
        without_pages(with_pages(m, v, p, len, perm), v, len) == m,
{
    let n = without_pages(with_pages(m, v, p, len, perm), v, len);
    assert forall|a: u64| n.contains_key(a) == m.contains_key(a) by {
        assert(pages(v, len).contains(a) == in_pages(a, v, len));
    }
    assert(n =~= m);
}

} // verus!

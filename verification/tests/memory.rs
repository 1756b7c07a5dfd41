use virt_kernel::region::{
    clone_region, clone_regions, free_region, free_regions, Block, Region, RegionType,
};
use virt_kernel::vm::{
    align_b, align_f, copy_pm, map_chg_perms, map_ovwr, unmap, PageTable, Perm, VmError,
};

fn region(vaddr: u64, len: u64, flags: u32, granule: u8) -> Region {
    Region { ty: RegionType::Program, vaddr, cap: len, len, flags, granule }
}

fn at(pt: &PageTable, v: u64) -> Option<(u64, Perm)> {
    pt.entries.get(&v).map(|e| (e.p, e.perm))
}

#[test]
fn rounding() {
    assert_eq!(align_b(0x1234, 0x1000), 0x1000);
    assert_eq!(align_b(0x1000, 0x1000), 0x1000);
    assert_eq!(align_f(0x1234, 0x1000), 0x2000);
    assert_eq!(align_f(0x1000, 0x1000), 0x1000);
    assert_eq!(align_f(0, 0x1000), 0);
}

#[test]
fn pages_are_put_on_frames() {
    let mut pt = PageTable::new();
    assert_eq!(virt_kernel::vm::map(&mut pt, 0x1000, 0x8000, 2, Perm::PrUr), Ok(0x1000));
    assert_eq!(at(&pt, 0x1000), Some((0x8000, Perm::PrUr)));
    assert_eq!(at(&pt, 0x2000), Some((0x9000, Perm::PrUr)));
    assert_eq!(at(&pt, 0x3000), None);
    assert_eq!(virt_kernel::vm::map(&mut pt, 0, 0xa000, 2, Perm::PrPw), Err(VmError::Exists(0x1000)));
    assert_eq!(at(&pt, 0), Some((0xa000, Perm::PrPw)));
}

#[test]
fn unmap_undoes_map() {
    let mut pt = PageTable::new();
    virt_kernel::vm::map(&mut pt, 0x1000, 0x8000, 3, Perm::PrUr).unwrap();
    assert_eq!(unmap(&mut pt, 0x1000, 3), Ok(()));
    assert!(pt.entries.is_empty());
    virt_kernel::vm::map(&mut pt, 0x1000, 0x8000, 1, Perm::PrUr).unwrap();
    assert_eq!(unmap(&mut pt, 0x1000, 2), Err(VmError::Missing(0x2000)));
    assert!(pt.entries.is_empty());
}

#[test]
fn pages_move_to_other_frames() {
    let mut pt = PageTable::new();
    virt_kernel::vm::map(&mut pt, 0x1000, 0x8000, 2, Perm::PrUr).unwrap();
    assert_eq!(map_ovwr(&mut pt, 0x1000, 0x20000, 2, Perm::PrPwUrUw), Ok(0x1000));
    assert_eq!(at(&pt, 0x2000), Some((0x21000, Perm::PrPwUrUw)));
    assert_eq!(map_ovwr(&mut pt, 0x2000, 0x30000, 3, Perm::PrUr), Ok(0x3000));
    assert_eq!(at(&pt, 0x3000), Some((0x31000, Perm::PrUr)));
    assert_eq!(at(&pt, 0x4000), None);
}

#[test]
fn permissions_change() {
    let mut pt = PageTable::new();
    virt_kernel::vm::map(&mut pt, 0x1000, 0x8000, 2, Perm::PrPw).unwrap();
    assert_eq!(map_chg_perms(&mut pt, 0x1000, 2, Perm::PrUrUx), Ok(0x1000));
    assert_eq!(at(&pt, 0x1000), Some((0x8000, Perm::PrUrUx)));
    assert_eq!(pt.v2p_pt(0x1000, None), Ok(0x8000));
    assert_eq!(pt.v2p_pt(0x5000, Some(Perm::PrUr)), Err(VmError::Missing(0x5000)));
}

#[test]
fn copies_go_page_by_page() {
    assert_eq!(copy_pm(0x1000, 0x8000, 2), [(0x1000, 0x8000), (0x2000, 0x9000)]);
    assert!(copy_pm(0x1000, 0x8000, 0).is_empty());
}

#[test]
fn block_sizes() {
    assert_eq!(Region::calc_granule(4096), 0);
    assert_eq!(Region::calc_granule(8192), 1);
    assert_eq!(Region::calc_granule(16384), 3);
    assert_eq!(Region::blksize2(0), 4096);
    assert_eq!(Region::blksize2(1), 8192);
    assert_eq!(Region::blksize2(3), 32768);
    assert_eq!(region(0, 0, 6, 2).blksize(), 16384);
}

#[test]
fn bounds_of_a_region() {
    let r = region(0x1000, 0x2000, 6, 0);
    assert!(r.has(0x1000) && r.has(0x2fff));
    assert!(!r.has(0xfff) && !r.has(0x3000));
    assert_eq!(r.end(), 0x3000);
}

#[test]
fn region_grows_up_to_its_limit() {
    let gb: u64 = 0x4000_0000;
    let mut r = region(gb, 0, 6, 0);
    assert_eq!(r.grow(0x2000), Some(gb));
    assert_eq!(r.grow(0x1000), Some(gb + 0x2000));
    assert_eq!(r.len, 0x3000);
    assert_eq!(r.grow(2 * gb), None);
    assert_eq!(r.len, 0x3000);
    assert_eq!(r.grow(2 * gb - 0x3000), Some(gb + 0x3000));
}

#[test]
fn freed_region_gives_its_blocks_back() {
    let mut pt = PageTable::new();
    virt_kernel::vm::map(&mut pt, 0x1000, 0x8000, 1, Perm::PrUr).unwrap();
    virt_kernel::vm::map(&mut pt, 0x2000, 0xf000, 1, Perm::PrUr).unwrap();
    virt_kernel::vm::map(&mut pt, 0x3000, 0x5000, 1, Perm::PrUr).unwrap();
    let freed = free_region(&region(0x1000, 0x2000, 4, 0), &mut pt, false);
    assert_eq!(freed, [Block { p: 0x8000, size: 4096 }, Block { p: 0xf000, size: 4096 }]);
    assert_eq!(pt.entries.len(), 1);
    assert!(free_region(&region(0x3000, 0x1000, 4, 0), &mut pt, true).is_empty());
    assert!(pt.entries.is_empty());
}

#[test]
fn blocks_of_two_pages_are_freed_as_one() {
    let mut pt = PageTable::new();
    virt_kernel::vm::map(&mut pt, 0x2000, 0x8000, 2, Perm::PrPwUrUw).unwrap();
    let freed = free_regions(&vec![region(0x2000, 0x2000, 6, 1)], &mut pt, false);
    assert_eq!(freed, [Block { p: 0x8000, size: 8192 }]);
    assert!(pt.entries.is_empty());
}

#[test]
fn shared_region_is_read_only_on_both_sides() {
    let mut from = PageTable::new();
    let mut to = PageTable::new();
    virt_kernel::vm::map(&mut from, 0x1000, 0x8000, 2, Perm::PrPwUrUw).unwrap();
    let shared = clone_region(&region(0x1000, 0x2000, 6, 0), &mut from, &mut to);
    assert_eq!(shared, [Block { p: 0x8000, size: 4096 }, Block { p: 0x9000, size: 4096 }]);
    for pt in [&from, &to] {
        assert_eq!(at(pt, 0x1000), Some((0x8000, Perm::PrUr)));
        assert_eq!(at(pt, 0x2000), Some((0x9000, Perm::PrUr)));
    }
}

#[test]
fn shared_code_stays_executable() {
    let mut from = PageTable::new();
    let mut to = PageTable::new();
    virt_kernel::vm::map(&mut from, 0x1000, 0x8000, 1, Perm::PrUrUx).unwrap();
    virt_kernel::vm::map(&mut from, 0x4000, 0x9000, 1, Perm::PrUr).unwrap();
    let regions = vec![region(0x1000, 0x1000, 5, 0), region(0x4000, 0x1000, 4, 0)];
    let mut copy = Vec::new();
    let shared = clone_regions(&regions, &mut copy, &mut from, &mut to);
    assert_eq!(shared.len(), 2);
    assert_eq!(copy, regions);
    assert_eq!(at(&to, 0x1000), Some((0x8000, Perm::PrUrUx)));
    assert_eq!(at(&to, 0x4000), Some((0x9000, Perm::PrUr)));
}

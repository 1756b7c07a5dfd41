use virt_kernel::elf::{Elf, Elf64Hdr, Elf64Phdr, PhIter, PT_GNU_STACK, PT_LOAD};
use virt_kernel::le::{push_u64, read_le};
use virt_kernel::stack::{user_stack, AT_RANDOM, SPEL0_SIZE};

fn put(v: &mut Vec<u8>, x: u64, n: usize) {
    for i in 0..n {
        v.push((x >> (8 * i)) as u8);
    }
}

fn header(kind: u64, machine: u64, phnum: u64) -> Vec<u8> {
    let mut v = vec![0x7f, 0x45, 0x4c, 0x46, 2, 1, 1, 0, 0, 0, 0, 0, 0, 0, 0, 0];
    put(&mut v, kind, 2);
    put(&mut v, machine, 2);
    put(&mut v, 1, 4);
    put(&mut v, 0x40_1000, 8);
    put(&mut v, 64, 8);
    put(&mut v, 0, 8);
    put(&mut v, 0, 4);
    put(&mut v, 64, 2);
    put(&mut v, 56, 2);
    put(&mut v, phnum, 2);
    put(&mut v, 0, 2);
    put(&mut v, 0, 2);
    put(&mut v, 0, 2);
    v
}

fn segment(kind: u64, flags: u64) -> Vec<u8> {
    let mut v = Vec::new();
    put(&mut v, kind, 4);
    put(&mut v, flags, 4);
    put(&mut v, 0x1000, 8);
    put(&mut v, 0x40_0123, 8);
    put(&mut v, 0x40_0123, 8);
    put(&mut v, 0x2000, 8);
    put(&mut v, 0x3000, 8);
    put(&mut v, 0x1000, 8);
    v
}

#[test]
fn words_are_little_endian() {
    let mut v = Vec::new();
    push_u64(&mut v, 0x0102_0304_0506_0708);
    assert_eq!(v, [8, 7, 6, 5, 4, 3, 2, 1]);
    assert_eq!(read_le(&v, 0, 8), 0x0102_0304_0506_0708);
    assert_eq!(read_le(&v, 2, 2), 0x0506);
}

#[test]
fn header_fields() {
    let h = Elf64Hdr::parse(&header(2, 183, 3));
    assert_eq!((h.kind, h.machine, h.version), (2, 183, 1));
    assert_eq!((h.entry, h.phoff, h.phnum, h.phentsize), (0x40_1000, 64, 3, 56));
    let z = Elf64Hdr::zeroed();
    assert_eq!((z.ident, z.entry, z.phnum), ([0u8; 16], 0, 0));
}

#[test]
fn program_for_this_machine_is_taken() {
    let elf = Elf::new(7, Ok(header(2, 183, 1))).unwrap();
    assert_eq!((elf.file, elf.header.entry), (7, 0x40_1000));
}

#[test]
fn other_files_are_refused() {
    assert!(Elf::new(0, Ok(header(3, 183, 1))).is_err());
    assert!(Elf::new(0, Ok(header(2, 62, 1))).is_err());
    assert!(Elf::new(0, Ok(header(2, 183, 1)[..63].to_vec())).is_err());
    assert!(Elf::new(0, Ok(Vec::new())).is_err());
    let mut bad = header(2, 183, 1);
    bad[0] = 0;
    assert!(Elf::new(0, Ok(bad)).is_err());
    let mut bad = header(2, 183, 1);
    bad[4] = 1;
    assert!(Elf::new(0, Ok(bad)).is_err());
    let mut bad = header(2, 183, 1);
    bad[6] = 2;
    assert!(Elf::new(0, Ok(bad)).is_err());
}

#[test]
fn unreadable_header_counts_as_zeros() {
    let elf = Elf::new(3, Err(())).unwrap();
    assert_eq!((elf.header.entry, elf.header.phnum), (0, 0));
}

#[test]
fn walk_over_segments() {
    let elf = Elf::new(0, Ok(header(2, 183, 2))).unwrap();
    let mut it = PhIter::new(elf);
    assert_eq!(it.at(), Some(64));
    let ph = it.next(Ok(segment(PT_LOAD, 5))).unwrap();
    assert_eq!((ph.kind, ph.flags, ph.offset), (1, 5, 0x1000));
    assert_eq!((ph.vaddr, ph.filesz, ph.memsz, ph.align), (0x40_0123, 0x2000, 0x3000, 0x1000));
    assert_eq!(it.at(), Some(120));
    assert_eq!(it.next(Err(())), None);
    assert_eq!(it.next(Ok(vec![0; 55])), None);
    assert_eq!(it.at(), Some(120));
    let ph = it.next(Ok(segment(PT_GNU_STACK, 6))).unwrap();
    assert_eq!(ph.kind, 0x6474_e551);
    assert_eq!(it.at(), None);
    assert_eq!(it.next(Ok(segment(PT_LOAD, 5))), None);
    assert_eq!(Elf64Phdr::zeroed().kind, 0);
}

fn word(image: &[u8], base: u64, at: u64) -> u64 {
    read_le(image, (at - base) as usize, 8)
}

fn string(image: &[u8], base: u64, at: u64) -> Vec<u8> {
    image[(at - base) as usize..].iter().copied().take_while(|b| *b != 0).collect()
}

#[test]
fn stack_of_a_program() {
    let base: u64 = 0x2_0000_0000;
    let argv = vec![b"sh".to_vec(), b"-i".to_vec()];
    let envp = vec![b"PATH=/bin".to_vec()];
    let s = user_stack(base, &argv, &envp).unwrap();
    assert_eq!(s.image.len(), SPEL0_SIZE);
    let sp = s.sp;
    assert_eq!(sp % 8, 0);
    assert_eq!(word(&s.image, base, sp), 2);
    let a0 = word(&s.image, base, sp + 8);
    let a1 = word(&s.image, base, sp + 16);
    assert_eq!(string(&s.image, base, a0), b"sh");
    assert_eq!(string(&s.image, base, a1), b"-i");
    assert_eq!(word(&s.image, base, sp + 24), 0);
    let e0 = word(&s.image, base, sp + 32);
    assert_eq!(string(&s.image, base, e0), b"PATH=/bin");
    assert_eq!(word(&s.image, base, sp + 40), 0);
    assert_eq!(word(&s.image, base, sp + 48), AT_RANDOM);
    assert_eq!(word(&s.image, base, sp + 56), base + 8192 - 16);
    assert_eq!(word(&s.image, base, sp + 64), 0);
    assert_eq!(word(&s.image, base, sp + 72), 0);
}

#[test]
fn strings_before_an_empty_one_are_left_out() {
    let base: u64 = 0x2_0000_0000;
    let argv = vec![b"a".to_vec(), Vec::new(), b"b".to_vec()];
    let s = user_stack(base, &argv, &[]).unwrap();
    assert_eq!(word(&s.image, base, s.sp), 3);
    let a0 = word(&s.image, base, s.sp + 8);
    assert_eq!(string(&s.image, base, a0), b"b");
    assert_eq!(word(&s.image, base, s.sp + 16), 0);
}

#[test]
fn too_many_strings_do_not_fit() {
    let argv = vec![vec![b'x'; 8192]];
    assert!(user_stack(0x2_0000_0000, &argv, &[]).is_err());
    let argv: Vec<Vec<u8>> = (0..900).map(|_| b"x".to_vec()).collect();
    assert!(user_stack(0x2_0000_0000, &argv, &[]).is_err());
    let argv = vec![vec![b'x'; 8000]];
    assert!(user_stack(0x2_0000_0000, &argv, &[]).is_ok());
}

#[test]
fn strings_that_fit_are_left_on_a_spoiled_stack() {
    let base: u64 = 0x2_0000_0000;
    let argv = vec![b"gone".to_vec(), vec![b'x'; 8000], b"ls".to_vec()];
    let envp = vec![vec![b'y'; 200]];
    let image = user_stack(base, &argv, &envp).err().unwrap();
    assert_eq!(image.len(), 8192);
    assert_eq!(image[8192 - 16 - 201..8192 - 16 - 1], [b'y'; 200]);
    assert_eq!(&image[8192 - 16 - 204..8192 - 16 - 201], b"ls\0");
    assert!(image[..8192 - 16 - 204].iter().all(|b| *b == 0));
}

#[test]
fn environment_that_does_not_fit_leaves_no_arguments() {
    let argv = vec![b"ls".to_vec()];
    let envp = vec![vec![b'x'; 9000], b"A=1".to_vec()];
    let image = user_stack(0x2_0000_0000, &argv, &envp).err().unwrap();
    assert_eq!(&image[8192 - 16 - 4..8192 - 16], b"A=1\0");
    assert!(image[..8192 - 16 - 4].iter().all(|b| *b == 0));
}

#[test]
fn auxiliary_vector_is_left_where_the_pointers_do_not_fit() {
    let base: u64 = 0x2_0000_0000;
    let argv = vec![vec![b'x'; 8135]];
    let image = user_stack(base, &argv, &[]).err().unwrap();
    assert_eq!(image[40..8175], [b'x'; 8135]);
    assert_eq!(read_le(&image, 8, 8), AT_RANDOM);
    assert_eq!(read_le(&image, 16, 8), base + 8176);
    assert!(image[..8].iter().all(|b| *b == 0));
    assert!(image[24..40].iter().all(|b| *b == 0));
}

#[test]
fn nothing_else_is_left_without_room_for_the_vector() {
    let argv = vec![vec![b'x'; 8150]];
    let image = user_stack(0x2_0000_0000, &argv, &[]).err().unwrap();
    assert_eq!(image[25..8175], [b'x'; 8150]);
    assert!(image[..25].iter().all(|b| *b == 0));
}

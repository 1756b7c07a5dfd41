//! The headers of 64-bit ELF programs.
use vstd::prelude::*;

use crate::le::{le_value, lemma_le_value_bound, lemma_pow256, read_le};

verus! {

pub const PT_NULL: u64 = 0;

pub const PT_LOAD: u64 = 1;

pub const PT_DYNAMIC: u64 = 2;

pub const PT_INTERP: u64 = 3;

pub const PT_NOTE: u64 = 4;

pub const PT_SHLIB: u64 = 5;

pub const PT_PHDR: u64 = 6;

pub const PT_TLS: u64 = 7;

pub const PT_LOOS: u64 = 0x6000_0000;

pub const PT_HIOS: u64 = 0x6fff_ffff;

pub const PT_LOPROC: u64 = 0x7000_0000;

pub const PT_HIPROC: u64 = 0x7fff_ffff;

pub const PT_GNU_EH_FRAME: u64 = 0x6474_e550;

pub const PT_GNU_STACK: u64 = 0x6474_e551;

pub const PT_GNU_RELRO: u64 = 0x6474_e552;

pub const PT_GNU_PROPERTY: u64 = 0x6474_e553;

/// An executable, among the kinds of ELF file.
pub const ET_EXEC: u16 = 2;

/// The machine a program must be for.
pub const EM_AARCH64: u16 = 183;

/// Where in `ident` the class and the version stand.
pub const EI_CLASS: usize = 4;

pub const EI_VERSION: usize = 6;

pub const ELFCLASS64: u8 = 2;

/// Permissions of a segment.
pub const PF_R: u32 = 4;

pub const PF_W: u32 = 2;

pub const PF_X: u32 = 1;

/// Bytes in the header of a file.
pub const EHDR_SIZE: usize = 64;

/// Bytes in the header of a segment.
pub const PHDR_SIZE: usize = 56;

/// The header of a file.
#[derive(Clone, Copy, Debug)]
pub struct Elf64Hdr {
    pub ident: [u8; 16],
    pub kind: u16,
    pub machine: u16,
    pub version: u32,
    pub entry: u64,
    pub phoff: u64,
    pub shoff: u64,
    pub flags: u32,
    pub ehsize: u16,
    pub phentsize: u16,
    pub phnum: u16,
    pub shentsize: u16,
    pub shnum: u16,
    pub shstrndx: u16,
}

/// The header of a segment.
#[derive(Clone, Copy, Debug, PartialEq, Eq, Structural)]
pub struct Elf64Phdr {
    pub kind: u32,
    pub flags: u32,
    pub offset: u64,
    pub vaddr: u64,
    pub paddr: u64,
    pub filesz: u64,
    pub memsz: u64,
    pub align: u64,
}

/// The number in the bytes of `s` between two offsets.
pub open spec fn field(s: Seq<u8>, from: int, to: int) -> nat {
    le_value(s.subrange(from, to))
}

impl Elf64Hdr {
    /// Whether this is the header that the 64 bytes `s` hold.
    pub open spec fn is_at(self, s: Seq<u8>) -> bool {
        &&& self.ident@ == s.take(16)
        &&& self.kind == field(s, 16, 18)
        &&& self.machine == field(s, 18, 20)
        &&& self.version == field(s, 20, 24)
        &&& self.entry == field(s, 24, 32)
        &&& self.phoff == field(s, 32, 40)
        &&& self.shoff == field(s, 40, 48)
        &&& self.flags == field(s, 48, 52)
        &&& self.ehsize == field(s, 52, 54)
        &&& self.phentsize == field(s, 54, 56)
        &&& self.phnum == field(s, 56, 58)
        &&& self.shentsize == field(s, 58, 60)
        &&& self.shnum == field(s, 60, 62)
        &&& self.shstrndx == field(s, 62, 64)
    }

    pub open spec fn is_zeroed(self) -> bool {
        &&& self.ident@ =~= Seq::new(16, |i: int| 0u8)
        &&& self == (Elf64Hdr {
            ident: self.ident,
            kind: 0,
            machine: 0,
            version: 0,
            entry: 0,
            phoff: 0,
            shoff: 0,
            flags: 0,
            ehsize: 0,
            phentsize: 0,
            phnum: 0,
            shentsize: 0,
            shnum: 0,
            shstrndx: 0,
        })
    }

    /// A header of zeros.
    pub fn zeroed() -> (h: Elf64Hdr)
        ensures
            h.is_zeroed(),
    {
        Elf64Hdr {
            ident: [0u8; 16],
            kind: 0,
            machine: 0,
            version: 0,
            entry: 0,
            phoff: 0,
            shoff: 0,
            flags: 0,
            ehsize: 0,
            phentsize: 0,
            phnum: 0,
            shentsize: 0,
            shnum: 0,
            shstrndx: 0,
        }
    }

    /// The header in 64 bytes.
    pub fn parse(s: &[u8]) -> (h: Elf64Hdr)
        requires
            s@.len() == 64,
        ensures
            h.is_at(s@),
    {
        let mut ident: [u8; 16] = [0u8; 16];
        let mut i: usize = 0;
        while i < 16
            invariant
                i <= 16,
                s@.len() == 64,
                ident@.take(i as int) == s@.take(i as int),
            decreases 16 - i,
        {
            ident[i] = s[i];
            i += 1;
            assert(ident@.take(i as int) =~= s@.take(i as int));
        }
        assert(ident@ =~= ident@.take(16));
        Elf64Hdr {
            ident,
            kind: half(s, 16),
            machine: half(s, 18),
            version: word(s, 20),
            entry: read_le(s, 24, 8),
            phoff: read_le(s, 32, 8),
            shoff: read_le(s, 40, 8),
            flags: word(s, 48),
            ehsize: half(s, 52),
            phentsize: half(s, 54),
            phnum: half(s, 56),
            shentsize: half(s, 58),
            shnum: half(s, 60),
            shstrndx: half(s, 62),
        }
    }
}

/// Two bytes.
fn half(s: &[u8], at: usize) -> (x: u16)
    requires
        at + 2 <= s@.len() == 64,
    ensures
        x == field(s@, at as int, at + 2),
{
    proof {
        lemma_le_value_bound(s@.subrange(at as int, at + 2));
        lemma_pow256();
    }
    read_le(s, at, 2) as u16
}

/// Four bytes.
fn word(s: &[u8], at: usize) -> (x: u32)
    requires
        at + 4 <= s@.len() <= 64,
    ensures
        x == field(s@, at as int, at + 4),
{
    proof {
        lemma_le_value_bound(s@.subrange(at as int, at + 4));
        lemma_pow256();
    }
    read_le(s, at, 4) as u32
}

impl Elf64Phdr {
    /// Whether this is the header that the 56 bytes `s` hold.
    pub open spec fn is_at(self, s: Seq<u8>) -> bool {
        &&& self.kind == field(s, 0, 4)
        &&& self.flags == field(s, 4, 8)
        &&& self.offset == field(s, 8, 16)
        &&& self.vaddr == field(s, 16, 24)
        &&& self.paddr == field(s, 24, 32)
        &&& self.filesz == field(s, 32, 40)
        &&& self.memsz == field(s, 40, 48)
        &&& self.align == field(s, 48, 56)
    }

    /// A header of zeros.
    pub fn zeroed() -> (h: Elf64Phdr)
        ensures
            h == (Elf64Phdr {
                kind: 0,
                flags: 0,
                offset: 0,
                vaddr: 0,
                paddr: 0,
                filesz: 0,
                memsz: 0,
                align: 0,
            }),
    {
        Elf64Phdr {
            kind: 0,
            flags: 0,
            offset: 0,
            vaddr: 0,
            paddr: 0,
            filesz: 0,
            memsz: 0,
            align: 0,
        }
    }

    /// The header in 56 bytes.
    pub fn parse(s: &[u8]) -> (h: Elf64Phdr)
        requires
            s@.len() == 56,
        ensures
            h.is_at(s@),
    {
        Elf64Phdr {
            kind: word(s, 0),
            flags: word(s, 4),
            offset: read_le(s, 8, 8),
            vaddr: read_le(s, 16, 8),
            paddr: read_le(s, 24, 8),
            filesz: read_le(s, 32, 8),
            memsz: read_le(s, 40, 8),
            align: read_le(s, 48, 8),
        }
    }
}

/// A program being loaded: its header and the open file it comes from.
#[derive(Clone, Copy, Debug)]
pub struct Elf {
    pub header: Elf64Hdr,
    pub file: usize,
}

/// Whether the 64 bytes `s` are the header of a program that can be run.
pub open spec fn runnable(s: Seq<u8>) -> bool {
    &&& s.take(4) == seq![0x7fu8, 0x45u8, 0x4cu8, 0x46u8]
    &&& s[6] == 1
    &&& s[4] == ELFCLASS64
    &&& field(s, 18, 20) == EM_AARCH64
    &&& field(s, 16, 18) == ET_EXEC
}

impl Elf {
    /// The program in the open file `file`, from what reading 64 bytes at its start
    /// gave. A read that failed leaves a header of zeros.
    pub fn new(file: usize, read: Result<Vec<u8>, ()>) -> (r: Result<Elf, ()>)
        requires
            read matches Ok(s) ==> s@.len() <= 64,
        ensures
            r is Ok <==> (read matches Ok(s) ==> s@.len() == 64 && runnable(s@)),
            r matches Ok(elf) ==> elf.file == file && match read {
                Ok(s) => elf.header.is_at(s@),
                Err(_) => elf.header.is_zeroed(),
            },
    {
        match read {
            Err(_) => Ok(Elf { header: Elf64Hdr::zeroed(), file }),
            Ok(s) => {
                if s.len() != EHDR_SIZE {
                    return Err(());
                }
                let header = Elf64Hdr::parse(s.as_slice());
                proof {
                    assert(header.ident@ == s@.take(16));
                    assert forall|i: int| 0 <= i < 16 implies #[trigger] header.ident@[i]
                        == s@[i] by {
                        assert(s@.take(16)[i] == s@[i]);
                    }
                    let magic = seq![0x7fu8, 0x45u8, 0x4cu8, 0x46u8];
                    let four = header.ident@[0] == 0x7f && header.ident@[1] == 0x45
                        && header.ident@[2] == 0x4c && header.ident@[3] == 0x46;
                    assert(four ==> s@.take(4) =~= magic);
                    assert(s@.take(4) == magic ==> s@.take(4)[0] == magic[0] && s@.take(4)[1]
                        == magic[1] && s@.take(4)[2] == magic[2] && s@.take(4)[3] == magic[3]);
                    assert(s@.take(4) == magic ==> four);
                }
                if header.ident[0] != 0x7f || header.ident[1] != 0x45 || header.ident[2] != 0x4c
                    || header.ident[3] != 0x46 {
                    return Err(());
                }
                if header.ident[EI_VERSION] != 1 {
                    return Err(());
                }
                if header.ident[EI_CLASS] != ELFCLASS64 {
                    return Err(());
                }
                if header.machine != EM_AARCH64 {
                    return Err(());
                }
                if header.kind != ET_EXEC {
                    return Err(());
                }
                Ok(Elf { header, file })
            },
        }
    }
}

/// A walk over the segment headers of a program.
#[derive(Clone, Copy, Debug)]
pub struct PhIter {
    pub elf: Elf,
    pub idx: u16,
}

impl PhIter {
    pub fn new(elf: Elf) -> (it: PhIter)
        ensures
            it == (PhIter { elf, idx: 0 }),
    {
        PhIter { elf, idx: 0 }
    }

    /// Where in the file the next header stands, unless there is none.
    pub fn at(&self) -> (r: Option<u64>)
        requires
            self.idx < self.elf.header.phnum ==> self.elf.header.phoff + 56 * self.idx <= u64::MAX,
        ensures
            r == if self.idx >= self.elf.header.phnum {
                None
            } else {
                Some((self.elf.header.phoff + 56 * self.idx) as u64)
            },
    {
        if self.idx >= self.elf.header.phnum {
            return None;
        }
        Some(self.elf.header.phoff + PHDR_SIZE as u64 * self.idx as u64)
    }

    /// The next header, from what reading 56 bytes where it stands gave. The walk
    /// stays where it is when they could not be read.
    pub fn next(&mut self, read: Result<Vec<u8>, ()>) -> (r: Option<Elf64Phdr>)
        ensures
            r is Some <==> old(self).idx < old(self).elf.header.phnum && (read matches Ok(s)
                && s@.len() == 56),
            r matches Some(h) ==> read matches Ok(s) && h.is_at(s@) && final(self).idx
                == old(self).idx + 1,
            r is None ==> final(self).idx == old(self).idx,
            final(self).elf == old(self).elf,
    {
        if self.idx >= self.elf.header.phnum {
            return None;
        }
        match read {
            Ok(s) => {
                if s.len() == PHDR_SIZE {
                    self.idx += 1;
                    Some(Elf64Phdr::parse(s.as_slice()))
                } else {
                    None
                }
            },
            Err(_) => None,
        }
    }
}

} // verus!

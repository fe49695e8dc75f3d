//! Headers of 32-bit ELF executables, as the boot loader reads them.
#![allow(non_camel_case_types)]

use vstd::prelude::*;

verus! {

/// The first four bytes of every ELF file.
pub const ELF_MAGIC: [u8; 4] = [0x7F, 0x45, 0x4C, 0x46];

/// The file header.
#[derive(Debug, Copy, Clone)]
pub struct elfhdr {
    pub e_ident: [u8; 16],
    pub e_type: u16,
    pub e_machine: u16,
    pub e_version: u32,
    /// Virtual address of the entry point.
    pub e_entry: u32,
    /// Offset of the program header table.
    pub e_phoff: u32,
    pub e_shoff: u32,
    pub e_flags: u32,
    pub e_ehsize: u16,
    pub e_phentsize: u16,
    /// Number of program headers.
    pub e_phnum: u16,
    pub e_shent_size: u16,
    pub e_shnum: u16,
    pub e_shstrndx: u16,
}

/// A program header: one segment to load.
#[derive(Debug, Copy, Clone)]
pub struct proghdr {
    pub p_type: u32,
    /// Offset of the segment in the file.
    pub p_offset: u32,
    pub p_vaddr: u32,
    /// Physical address to load the segment at.
    pub p_paddr: u32,
    /// Bytes of the segment in the file.
    pub p_filesz: u32,
    /// Bytes of the segment in memory; those past the file's are zeroed.
    pub p_memsz: u32,
    pub p_flags: u32,
    pub p_align: u32,
}

impl elfhdr {
    /// Whether the header starts with the ELF magic number.
    pub fn is_elf(&self) -> (r: bool)
        ensures
            r == (self.e_ident@[0] == 0x7F && self.e_ident@[1] == 0x45 && self.e_ident@[2] == 0x4C
                && self.e_ident@[3] == 0x46),
    {
        self.e_ident[0] == 0x7F && self.e_ident[1] == 0x45 && self.e_ident[2] == 0x4C
            && self.e_ident[3] == 0x46
    }
}

impl proghdr {
    /// Bytes of the segment to zero after its file bytes.
    pub fn zero_fill(&self) -> (r: u32)
        ensures
            r == if self.p_memsz > self.p_filesz {
                self.p_memsz - self.p_filesz
            } else {
                0
            },
    {
        if self.p_memsz > self.p_filesz {
            self.p_memsz - self.p_filesz
        } else {
            0
        }
    }
}

} // verus!

//! Hardware layout of x86 paging and segmentation structures.
#![allow(non_camel_case_types)]

use vstd::prelude::*;

use crate::address::{paddr_pg, vaddr, vaddr_pg};

verus! {

/// Entries in a page directory.
pub const NPDENTRIES: usize = 1024;

/// Entries in a page table.
pub const NPTENTRIES: usize = 1024;

/// Bytes mapped by a page.
pub const PGSIZE: usize = 4096;

/// Offset of the page-table index in a linear address.
pub const PTXSHIFT: usize = 12;

/// Offset of the page-directory index in a linear address.
pub const PDXSHIFT: usize = 22;

/// Bytes mapped by one page-directory entry.
pub const PDSPAN: usize = 0x40_0000;

/// `x` rounded up to a multiple of the page size.
pub open spec fn round_up(x: int) -> int {
    ((x + PGSIZE - 1) / (PGSIZE as int)) * (PGSIZE as int)
}

/// `x` rounded down to a multiple of the page size.
pub open spec fn round_down(x: int) -> int {
    (x / (PGSIZE as int)) * (PGSIZE as int)
}

/// The page-directory index of linear address `va`.
pub open spec fn spec_pdx(va: int) -> int {
    (va / (PDSPAN as int)) % 1024
}

/// The page-table index of linear address `va`.
pub open spec fn spec_ptx(va: int) -> int {
    (va / (PGSIZE as int)) % 1024
}

/// The page-aligned physical address held in an entry.
pub open spec fn spec_pte_addr(pte: u32) -> usize {
    ((pte as int / PGSIZE as int) * PGSIZE as int) as usize
}

/// The first page at or above `addr`.
pub fn page_roundup(addr: vaddr) -> (r: vaddr_pg)
    requires
        addr@ + PGSIZE - 1 <= usize::MAX,
    ensures
        r@ == round_up(addr@ as int),
{
    let x = addr.as_raw();
    let y = x + (PGSIZE - 1);
    let up = y & !(PGSIZE - 1);
    assert(up == (y / 4096) * 4096 && up % 4096 == 0) by (bit_vector)
        requires
            up == y & !4095usize,
    ;
    match vaddr_pg::from_raw(up) {
        Some(r) => r,
        None => vaddr_pg::null(),
    }
}

/// The page that holds `addr`.
pub fn page_rounddown(addr: vaddr) -> (r: vaddr_pg)
    ensures
        r@ == round_down(addr@ as int),
{
    let x = addr.as_raw();
    let down = x & !(PGSIZE - 1);
    assert(down == (x / 4096) * 4096 && down % 4096 == 0) by (bit_vector)
        requires
            down == x & !4095usize,
    ;
    match vaddr_pg::from_raw(down) {
        Some(r) => r,
        None => vaddr_pg::null(),
    }
}

/// The physical page that an entry points to.
pub fn pte_addr(pte: u32) -> (r: paddr_pg)
    ensures
        r@ == spec_pte_addr(pte),
{
    let a = (pte as usize) & !0xFFF;
    assert(a == ((pte as usize) / 4096) * 4096 && a % 4096 == 0) by (bit_vector)
        requires
            a == (pte as usize) & !0xFFFusize,
    ;
    match paddr_pg::from_raw(a) {
        Some(r) => r,
        None => paddr_pg::null(),
    }
}

/// The flags of an entry.
pub fn pte_flags(pte: u32) -> (r: PteFlags)
    requires
        pte & 0xF78 == 0,
    ensures
        r.bits() == pte & 0xFFF,
{
    match PteFlags::from_bits(pte & 0xFFF) {
        Some(f) => f,
        None => {
            assert(false) by (bit_vector)
                requires
                    pte & 0xF78 == 0,
                    (pte & 0xFFF) & !0x87u32 != 0,
            ;
            PteFlags::empty()
        },
    }
}

/// The page-directory index of `va`.
pub fn pdx(va: vaddr_pg) -> (r: usize)
    ensures
        r == spec_pdx(va@ as int),
        r < 1024,
{
    let x = va.as_raw();
    let r = (x >> PDXSHIFT) & 0x3FF;
    assert(r == (x / 0x40_0000) % 1024 && r < 1024) by (bit_vector)
        requires
            r == (x >> 22usize) & 0x3FFusize,
    ;
    r
}

/// The page-table index of `va`.
pub fn ptx(va: vaddr_pg) -> (r: usize)
    ensures
        r == spec_ptx(va@ as int),
        r < 1024,
{
    let x = va.as_raw();
    let r = (x >> PTXSHIFT) & 0x3FF;
    assert(r == (x / 4096) % 1024 && r < 1024) by (bit_vector)
        requires
            r == (x >> 12usize) & 0x3FFusize,
    ;
    r
}

/// The linear address with directory index `dir`, table index `table` and
/// page offset `offset`, which must be zero for the address to be a page.
pub fn pgaddr(dir: usize, table: usize, offset: usize) -> (r: vaddr_pg)
    requires
        dir < NPDENTRIES,
        table < NPTENTRIES,
        offset < PGSIZE,
        offset % PGSIZE == 0,
    ensures
        r@ == dir * PDSPAN + table * PGSIZE + offset,
{
    let va = (dir << PDXSHIFT) | (table << PTXSHIFT) | offset;
    assert(va == dir * 0x40_0000 + table * 4096 + offset && va % 4096 == 0) by (bit_vector)
        requires
            va == (dir << 22usize) | (table << 12usize) | offset,
            dir < 1024,
            table < 1024,
            offset == 0,
    ;
    match vaddr_pg::from_raw(va) {
        Some(r) => r,
        None => vaddr_pg::null(),
    }
}

/// Permission bits of a page-directory or page-table entry.
#[derive(Debug, Clone, Copy, PartialEq, Eq, Structural)]
pub struct PteFlags {
    bits: u32,
}

/// Entry bit: present.
pub const PTE_P: u32 = 0x001;

/// Entry bit: writable.
pub const PTE_W: u32 = 0x002;

/// Entry bit: user.
pub const PTE_U: u32 = 0x004;

/// Entry bit: 4 MiB page.
pub const PTE_PS: u32 = 0x080;

/// The bits that a `PteFlags` may hold.
pub const PTE_KNOWN: u32 = 0x087;

impl PteFlags {
    /// The page is present.
    pub fn present() -> (r: PteFlags)
        ensures
            r.bits() == PTE_P,
    {
        PteFlags { bits: PTE_P }
    }

    /// The page is writable.
    pub fn writable() -> (r: PteFlags)
        ensures
            r.bits() == PTE_W,
    {
        PteFlags { bits: PTE_W }
    }

    /// The page is reachable from user mode.
    pub fn user() -> (r: PteFlags)
        ensures
            r.bits() == PTE_U,
    {
        PteFlags { bits: PTE_U }
    }

    /// The directory entry maps a 4 MiB page.
    pub fn page_size() -> (r: PteFlags)
        ensures
            r.bits() == PTE_PS,
    {
        PteFlags { bits: PTE_PS }
    }

    pub closed spec fn spec_bits(&self) -> u32 {
        self.bits
    }

    /// No flag.
    pub fn empty() -> (r: PteFlags)
        ensures
            r.bits() == 0,
    {
        PteFlags { bits: 0 }
    }

    #[verifier::when_used_as_spec(spec_bits)]
    pub fn bits(&self) -> (r: u32)
        ensures
            r == self.spec_bits(),
    {
        self.bits
    }

    /// The flags with these bits, if every bit is a known flag.
    pub fn from_bits(bits: u32) -> (r: Option<PteFlags>)
        ensures
            r is Some <==> bits & !PTE_KNOWN == 0,
            r matches Some(f) ==> f.bits() == bits,
    {
        if bits & !PTE_KNOWN == 0 {
            Some(PteFlags { bits })
        } else {
            None
        }
    }

    /// Both sets of flags together.
    pub fn union(self, other: PteFlags) -> (r: PteFlags)
        ensures
            r.bits() == self.bits() | other.bits(),
    {
        PteFlags { bits: self.bits | other.bits }
    }

    /// Whether every flag of `other` is set here.
    pub fn contains(&self, other: PteFlags) -> (r: bool)
        ensures
            r == (self.bits() & other.bits() == other.bits()),
    {
        self.bits & other.bits == other.bits
    }
}

/// Segment selectors' indexes and descriptor type bits.
pub const KCODE: usize = 1;

pub const KDATA: usize = 2;

pub const UCODE: usize = 3;

pub const UDATA: usize = 4;

pub const TSS: usize = 5;

/// Segments in the global descriptor table.
pub const NSEGS: usize = 6;

/// User privilege level.
pub const DPL_USER: u8 = 0x3;

/// Executable segment.
pub const STA_X: u8 = 0x8;

/// Writable (non-executable) segment.
pub const STA_W: u8 = 0x2;

/// Readable (executable) segment.
pub const STA_R: u8 = 0x2;

/// Available 32-bit TSS.
pub const STS_T32A: u8 = 0x9;

/// 32-bit interrupt gate.
pub const STS_IG32: u8 = 0xE;

/// 32-bit trap gate.
pub const STS_TG32: u8 = 0xF;

/// The descriptor of a present, 4 KiB-granular, 32-bit segment of type
/// `ty` and privilege `dpl`, at `base` with limit `lim`.
pub open spec fn seg_bits(ty: u8, base: u32, lim: u32, dpl: u8) -> u64 {
    let (ty, base, lim, dpl) = (ty as u64, base as u64, lim as u64, dpl as u64);
    (((base >> 24u64) & 0xff) << 56u64) | (1u64 << 55u64) | (1u64 << 54u64) | (((lim >> 28u64)
        & 0x0f) << 48u64) | (1u64 << 47u64) | ((dpl & 0x03) << 45u64) | (1u64 << 44u64) | ((ty
        & 0x0f) << 40u64) | (((base >> 16u64) & 0xff) << 32u64) | ((base & 0xffff) << 16u64) | (lim
        >> 12u64 & 0xffff)
}

/// A segment descriptor.
#[derive(Debug, Copy, Clone)]
pub struct SegDesc(u64);

impl View for SegDesc {
    type V = u64;

    closed spec fn view(&self) -> u64 {
        self.0
    }
}

impl SegDesc {
    /// The null descriptor.
    pub fn zero() -> (r: Self)
        ensures
            r@ == 0,
    {
        SegDesc(0)
    }

    /// A present, 4 KiB-granular, 32-bit code or data segment of type `ty`
    /// and privilege `dpl`, at `base` with limit `lim`.
    pub fn new(ty: u8, base: u32, lim: u32, dpl: u8) -> (r: Self)
        ensures
            r@ & 0xffff == ((lim >> 12u32) & 0xffff) as u64,
            (r@ >> 16u64) & 0xffff == (base & 0xffff) as u64,
            (r@ >> 32u64) & 0xff == ((base >> 16u32) & 0xff) as u64,
            (r@ >> 40u64) & 0xf == (ty & 0xf) as u64,
            (r@ >> 44u64) & 1 == 1,
            (r@ >> 45u64) & 3 == (dpl & 3) as u64,
            (r@ >> 47u64) & 1 == 1,
            (r@ >> 48u64) & 0xf == ((lim >> 28u32) & 0xf) as u64,
            (r@ >> 52u64) & 3 == 0,
            (r@ >> 54u64) & 3 == 3,
            r@ >> 56u64 == (base >> 24u32) as u64,
            r@ == seg_bits(ty, base, lim, dpl),
    {
        let ty = ty as u64;
        let base = base as u64;
        let lim = lim as u64;
        let dpl = dpl as u64;
        let v = (((base >> 24u64) & 0xff) << 56u64) | (1u64 << 55u64) | (1u64 << 54u64) | (((lim
            >> 28u64) & 0x0f) << 48u64) | (1u64 << 47u64) | ((dpl & 0x03) << 45u64) | (1u64 << 44u64)
            | ((ty & 0x0f) << 40u64) | (((base >> 16u64) & 0xff) << 32u64) | ((base & 0xffff)
            << 16u64) | (lim >> 12u64 & 0xffff);
        proof {
            let (t0, b0, l0, d0) = (ty as u8, base as u32, lim as u32, dpl as u8);
            assert(v & 0xffff == ((l0 >> 12u32) & 0xffff) as u64 && (v >> 16u64) & 0xffff == (b0
                & 0xffff) as u64 && (v >> 32u64) & 0xff == ((b0 >> 16u32) & 0xff) as u64 && (v
                >> 40u64) & 0xf == (t0 & 0xf) as u64 && (v >> 44u64) & 1 == 1 && (v >> 45u64) & 3
                == (d0 & 3) as u64 && (v >> 47u64) & 1 == 1 && (v >> 48u64) & 0xf == ((l0 >> 28u32)
                & 0xf) as u64 && (v >> 52u64) & 3 == 0 && (v >> 54u64) & 3 == 3 && v >> 56u64 == (b0
                >> 24u32) as u64) by (bit_vector)
                requires
                    ty == t0 as u64,
                    base == b0 as u64,
                    lim == l0 as u64,
                    dpl == d0 as u64,
                    v == (((base >> 24u64) & 0xff) << 56u64) | (1u64 << 55u64) | (1u64 << 54u64)
                        | (((lim >> 28u64) & 0x0f) << 48u64) | (1u64 << 47u64) | ((dpl & 0x03)
                        << 45u64) | (1u64 << 44u64) | ((ty & 0x0f) << 40u64) | (((base >> 16u64)
                        & 0xff) << 32u64) | ((base & 0xffff) << 16u64) | (lim >> 12u64 & 0xffff),
            ;
        }
        SegDesc(v)
    }
}

/// An interrupt or trap gate descriptor.
#[derive(Debug, Copy, Clone)]
pub struct GateDesc(u64);

impl View for GateDesc {
    type V = u64;

    closed spec fn view(&self) -> u64 {
        self.0
    }
}

impl GateDesc {
    /// The empty gate.
    pub fn new() -> (r: Self)
        ensures
            r@ == 0,
    {
        GateDesc(0)
    }

    /// The low offset field or-ed with the high one, the high one unshifted.
    pub fn get_offfset(&self) -> (r: u32)
        ensures
            r == (((self@ >> 48u64) & 0xffff) | (self@ & 0xffff)) as u32,
    {
        (((self.0 >> 48u64) & 0xffff) | (self.0 & 0xffff)) as u32
    }

    /// Stores the low half of `off` in bits 0..16 and the high half in bits 48..64.
    pub fn set_offset(&mut self, off: u32)
        ensures
            final(self)@ == (old(self)@ & !((0xffffu64 << 48u64) | 0xffffu64)) | ((off & 0xffff) as u64)
                | ((((off >> 16u32) & 0xffff) as u64) << 48u64),
    {
        let off_lower = (off & 0xffff) as u64;
        let off_upper = ((off >> 16u32) & 0xffff) as u64;
        let mask: u64 = !((0xffffu64 << 48u64) | 0xffffu64);
        self.0 = (self.0 & mask) | off_lower | (off_upper << 48u64);
    }

    /// The code segment selector.
    pub fn get_cs(&self) -> (r: u16)
        ensures
            r == ((self@ >> 16u64) & 0xffff) as u16,
    {
        ((self.0 >> 16u64) & 0xffff) as u16
    }

    pub fn set_cs(&mut self, cs: u16)
        ensures
            final(self)@ == (old(self)@ & !(0xffffu64 << 16u64)) | ((cs as u64) << 16u64),
    {
        let mask: u64 = !(0xffffu64 << 16u64);
        self.0 = (self.0 & mask) | (cs as u64) << 16u64;
    }

    /// The argument count.
    pub fn get_args(&self) -> (r: u8)
        ensures
            r == ((self@ >> 32u64) & 0x1f) as u8,
    {
        ((self.0 >> 32u64) & 0x1f) as u8
    }

    pub fn set_args(&mut self, args: u8)
        ensures
            final(self)@ == (old(self)@ & !(0x1fu64 << 32u64)) | ((args as u64) << 32u64),
    {
        let mask: u64 = !(0x1fu64 << 32u64);
        self.0 = (self.0 & mask) | (args as u64) << 32u64;
    }

    /// Which kind of gate this is.
    pub fn get_type(&self) -> (r: u8)
        ensures
            r == ((self@ >> 40u64) & 0x0f) as u8,
    {
        ((self.0 >> 40u64) & 0x0f) as u8
    }

    pub fn set_type(&mut self, ty: u8)
        ensures
            final(self)@ == (old(self)@ & !(0x0fu64 << 40u64)) | ((ty as u64) << 40u64),
    {
        let mask: u64 = !(0x0fu64 << 40u64);
        self.0 = (self.0 & mask) | (ty as u64) << 40u64;
    }

    /// The descriptor privilege level.
    pub fn get_dpl(&self) -> (r: u8)
        ensures
            r == ((self@ >> 45u64) & 0x03) as u8,
    {
        ((self.0 >> 45u64) & 0x03) as u8
    }

    pub fn set_dpl(&mut self, dpl: u8)
        ensures
            final(self)@ == (old(self)@ & !(0x03u64 << 45u64)) | ((dpl as u64) << 45u64),
    {
        let mask: u64 = !(0x03u64 << 45u64);
        self.0 = (self.0 & mask) | (dpl as u64) << 45u64;
    }

    /// The present bit.
    pub fn get_p(&self) -> (r: u8)
        ensures
            r == ((self@ >> 47u64) & 0x01) as u8,
    {
        ((self.0 >> 47u64) & 0x01) as u8
    }

    pub fn set_p(&mut self, p: u8)
        ensures
            final(self)@ == (old(self)@ & !(0x01u64 << 47u64)) | ((p as u64) << 47u64),
    {
        let mask: u64 = !(0x01u64 << 47u64);
        self.0 = (self.0 & mask) | (p as u64) << 47u64;
    }

    /// Makes this a present gate to `off` in segment `sel`, of trap type when
    /// `istrap` and of interrupt type otherwise, callable from privilege `dpl`.
    pub fn set_gate(&mut self, istrap: bool, sel: u16, off: u32, dpl: u8)
        requires
            dpl <= 3,
        ensures
            final(self)@ & 0xffff == (off & 0xffff) as u64,
            (final(self)@ >> 48u64) & 0xffff == ((off >> 16u32) & 0xffff) as u64,
            (final(self)@ >> 16u64) & 0xffff == sel as u64,
            (final(self)@ >> 32u64) & 0x1f == 0,
            (final(self)@ >> 40u64) & 0x0f == (if istrap {
                STS_TG32
            } else {
                STS_IG32
            }) as u64,
            (final(self)@ >> 45u64) & 0x03 == dpl as u64,
            (final(self)@ >> 47u64) & 0x01 == 1,
    {
        let ty = if istrap {
            STS_TG32
        } else {
            STS_IG32
        };
        let ghost v0 = self@;
        self.set_offset(off);
        let ghost v1 = self@;
        self.set_cs(sel);
        let ghost v2 = self@;
        self.set_args(0);
        let ghost v3 = self@;
        self.set_type(ty);
        let ghost v4 = self@;
        self.set_dpl(dpl);
        let ghost v5 = self@;
        self.set_p(1);
        let ghost v6 = self@;
        proof {
            assert(v6 & 0xffff == (off & 0xffff) as u64 && (v6 >> 48u64) & 0xffff == ((off >> 16u32)
                & 0xffff) as u64 && (v6 >> 16u64) & 0xffff == sel as u64 && (v6 >> 32u64) & 0x1f == 0
                && (v6 >> 40u64) & 0x0f == ty as u64 && (v6 >> 45u64) & 0x03 == dpl as u64 && (v6
                >> 47u64) & 0x01 == 1) by (bit_vector)
                requires
                    v1 == (v0 & !((0xffffu64 << 48u64) | 0xffffu64)) | ((off & 0xffff) as u64) | ((((off
                        >> 16u32) & 0xffff) as u64) << 48u64),
                    v2 == (v1 & !(0xffffu64 << 16u64)) | ((sel as u64) << 16u64),
                    v3 == (v2 & !(0x1fu64 << 32u64)) | ((0u8 as u64) << 32u64),
                    v4 == (v3 & !(0x0fu64 << 40u64)) | ((ty as u64) << 40u64),
                    ty <= 0xf,
                    v5 == (v4 & !(0x03u64 << 45u64)) | ((dpl as u64) << 45u64),
                    dpl <= 3,
                    v6 == (v5 & !(0x01u64 << 47u64)) | ((1u8 as u64) << 47u64),
            ;
        }
    }
}

/// The task state segment. Addresses are held as plain machine words.
#[derive(Debug, Copy, Clone)]
pub struct taskstate {
    pub link: u32,
    pub esp0: u32,
    pub ss0: u16,
    pub padding1: u16,
    pub esp1: usize,
    pub ss1: u16,
    pub padding2: u16,
    pub esp2: usize,
    pub ss2: u16,
    pub padding3: u16,
    pub cr3: usize,
    pub epi: usize,
    pub eflags: u32,
    pub eax: u32,
    pub ecx: u32,
    pub edx: u32,
    pub ebx: u32,
    pub esp: usize,
    pub ebp: usize,
    pub esi: u32,
    pub edi: u32,
    pub es: u16,
    pub padding4: u16,
    pub cs: u16,
    pub padding5: u16,
    pub ss: u16,
    pub padding6: u16,
    pub ds: u16,
    pub padding7: u16,
    pub fs: u16,
    pub padding8: u16,
    pub gs: u16,
    pub padding9: u16,
    pub ldt: u16,
    pub padding10: u16,
    pub t: u16,
    pub iomb: u16,
}

impl taskstate {
    /// Whether every field is zero.
    pub open spec fn cleared(&self) -> bool {
        &&& self.link == 0
        &&& self.esp0 == 0
        &&& self.ss0 == 0
        &&& self.padding1 == 0
        &&& self.esp1 == 0
        &&& self.ss1 == 0
        &&& self.padding2 == 0
        &&& self.esp2 == 0
        &&& self.ss2 == 0
        &&& self.padding3 == 0
        &&& self.cr3 == 0
        &&& self.epi == 0
        &&& self.eflags == 0
        &&& self.eax == 0
        &&& self.ecx == 0
        &&& self.edx == 0
        &&& self.ebx == 0
        &&& self.esp == 0
        &&& self.ebp == 0
        &&& self.esi == 0
        &&& self.edi == 0
        &&& self.es == 0
        &&& self.padding4 == 0
        &&& self.cs == 0
        &&& self.padding5 == 0
        &&& self.ss == 0
        &&& self.padding6 == 0
        &&& self.ds == 0
        &&& self.padding7 == 0
        &&& self.fs == 0
        &&& self.padding8 == 0
        &&& self.gs == 0
        &&& self.padding9 == 0
        &&& self.ldt == 0
        &&& self.padding10 == 0
        &&& self.t == 0
        &&& self.iomb == 0
    }

    /// A task state with every field zero.
    pub fn new() -> (r: Self)
        ensures
            r.cleared(),
    {
        taskstate {
            link: 0,
            esp0: 0,
            ss0: 0,
            padding1: 0,
            esp1: 0,
            ss1: 0,
            padding2: 0,
            esp2: 0,
            ss2: 0,
            padding3: 0,
            cr3: 0,
            epi: 0,
            eflags: 0,
            eax: 0,
            ecx: 0,
            edx: 0,
            ebx: 0,
            esp: 0,
            ebp: 0,
            esi: 0,
            edi: 0,
            es: 0,
            padding4: 0,
            cs: 0,
            padding5: 0,
            ss: 0,
            padding6: 0,
            ds: 0,
            padding7: 0,
            fs: 0,
            padding8: 0,
            gs: 0,
            padding9: 0,
            ldt: 0,
            padding10: 0,
            t: 0,
            iomb: 0,
        }
    }
}

} // verus!

//! Per-processor state and the table of processors found at boot.
#![allow(non_camel_case_types)]

use vstd::prelude::*;

use crate::mmu::{
    seg_bits, taskstate, SegDesc, DPL_USER, KCODE, KDATA, NSEGS, STA_R, STA_W, STA_X, UCODE, UDATA,
};

verus! {

/// Most processors the kernel runs on.
pub const NCPU: usize = 8;

/// Registers saved across a kernel context switch.
#[derive(Debug, Copy, Clone)]
pub struct context {
    pub edi: u32,
    pub esi: u32,
    pub ebx: u32,
    pub ebp: u32,
    pub eip: u32,
}

/// State of one processor. Addresses are held as plain machine words.
#[derive(Debug)]
pub struct CPU {
    pub id: usize,
    /// Local APIC id.
    pub apicid: u8,
    /// Where the scheduler's context is saved; zero when none is.
    pub scheduler: usize,
    /// Tells the processor where the kernel stack for interrupts is.
    pub ts: taskstate,
    /// Global descriptor table.
    pub gdt: [SegDesc; NSEGS],
    /// Whether the processor has started.
    pub started: bool,
    /// Depth of nested interrupt disabling.
    pub ncli: i32,
    /// Whether interrupts were enabled before the outermost disabling.
    pub intena: bool,
    /// The process running here; zero when none is.
    pub proc: usize,
}

impl CPU {
    /// A processor that has not started, with an empty descriptor table.
    pub fn new(id: usize, apicid: u8) -> (r: Self)
        ensures
            r.id == id,
            r.apicid == apicid,
            r.scheduler == 0,
            r.ts.cleared(),
            forall|i: int| 0 <= i < NSEGS ==> (#[trigger] r.gdt[i])@ == 0,
            !r.started,
            r.ncli == 0,
            !r.intena,
            r.proc == 0,
    {
        let gdt = [
            SegDesc::zero(),
            SegDesc::zero(),
            SegDesc::zero(),
            SegDesc::zero(),
            SegDesc::zero(),
            SegDesc::zero(),
        ];
        CPU {
            id,
            apicid,
            scheduler: 0,
            ts: taskstate::new(),
            gdt,
            started: false,
            ncli: 0,
            intena: false,
            proc: 0,
        }
    }

    pub fn cpuid(&self) -> (r: usize)
        ensures
            r == self.id,
    {
        self.id
    }
}

/// Whether a slot holds the processor with local APIC id `apicid`.
pub open spec fn slot_has(slot: Option<CPU>, apicid: u8) -> bool {
    match slot {
        Some(c) => c.apicid == apicid,
        None => false,
    }
}

/// The processors found at boot, in the order they were found.
#[derive(Debug)]
pub struct CPUArray {
    ncpu: usize,
    cpus: Vec<Option<CPU>>,
}

impl CPUArray {
    /// The processors recorded so far.
    pub closed spec fn spec_cpus(&self) -> Seq<Option<CPU>> {
        self.cpus@
    }

    /// How many processors are recorded.
    pub closed spec fn spec_len(&self) -> nat {
        self.ncpu as nat
    }

    /// The first `len` slots hold processors and the rest are empty.
    pub open spec fn wf(&self) -> bool {
        &&& self.spec_cpus().len() == NCPU
        &&& self.spec_len() <= NCPU
        &&& forall|i: int|
            0 <= i < NCPU ==> (#[trigger] self.spec_cpus()[i] is Some <==> i < self.spec_len())
    }

    /// No processor yet.
    pub fn new() -> (r: Self)
        ensures
            r.wf(),
            r.spec_len() == 0,
    {
        let mut cpus: Vec<Option<CPU>> = Vec::new();
        let mut i: usize = 0;
        while i < NCPU
            invariant
                i <= NCPU,
                cpus@.len() == i,
                forall|j: int| 0 <= j < i ==> (#[trigger] cpus@[j]) is None,
            decreases NCPU - i,
        {
            cpus.push(None);
            i = i + 1;
        }
        CPUArray { ncpu: 0, cpus }
    }

    /// Every slot, recorded or empty.
    pub fn slice(&self) -> (r: &[Option<CPU>])
        ensures
            r@ == self.spec_cpus(),
    {
        self.cpus.as_slice()
    }

    pub fn len(&self) -> (r: usize)
        ensures
            r == self.spec_len(),
    {
        self.ncpu
    }

    /// Records processor `id` with local APIC id `apicid` in the next slot.
    pub fn add(&mut self, id: usize, apicid: u8)
        requires
            old(self).wf(),
            old(self).spec_len() < NCPU,
        ensures
            final(self).wf(),
            final(self).spec_len() == old(self).spec_len() + 1,
            final(self).spec_cpus().len() == NCPU,
            forall|i: int|
                0 <= i < NCPU && i != old(self).spec_len() ==> #[trigger] final(self).spec_cpus()[i]
                    == old(self).spec_cpus()[i],
            final(self).spec_cpus()[old(self).spec_len() as int] is Some,
            final(self).spec_cpus()[old(self).spec_len() as int]->0.id == id,
            slot_has(final(self).spec_cpus()[old(self).spec_len() as int], apicid),
    {
        let n = self.ncpu;
        self.cpus.set(n, Some(CPU::new(id, apicid)));
        self.ncpu = n + 1;
    }

    /// The processor in slot `idx`.
    pub fn borrow(&self, idx: usize) -> (r: &CPU)
        requires
            self.wf(),
            idx < self.spec_len(),
        ensures
            self.spec_cpus()[idx as int] == Some(*r),
    {
        proof {
            assert(self.spec_cpus()[idx as int] is Some);
        }
        self.cpus[idx].as_ref().unwrap()
    }

    /// The processor in slot `idx`, to change in place.
    pub fn borrow_mut(&mut self, idx: usize) -> (r: &mut CPU)
        requires
            old(self).wf(),
            idx < old(self).spec_len(),
        ensures
            old(self).spec_cpus()[idx as int] == Some(*r),
            final(self).spec_len() == old(self).spec_len(),
            final(self).spec_cpus() == old(self).spec_cpus().update(idx as int, Some(*final(r))),
    {
        proof {
            assert(self.spec_cpus()[idx as int] is Some);
        }
        self.cpus[idx].as_mut().unwrap()
    }

    /// The index of the processor with local APIC id `apicid`, if one is recorded.
    pub fn find(&self, apicid: u8) -> (r: Option<usize>)
        requires
            self.wf(),
        ensures
            r matches Some(i) ==> i < self.spec_len() && slot_has(self.spec_cpus()[i as int], apicid),
            r is None ==> forall|i: int|
                0 <= i < self.spec_len() ==> !slot_has(#[trigger] self.spec_cpus()[i], apicid),
    {
        let mut i: usize = 0;
        while i < self.ncpu
            invariant
                self.wf(),
                i <= self.spec_len(),
                forall|j: int| 0 <= j < i ==> !slot_has(#[trigger] self.spec_cpus()[j], apicid),
            decreases self.spec_len() - i,
        {
            match &self.cpus[i] {
                Some(c) => {
                    if c.apicid == apicid {
                        return Some(i);
                    }
                },
                None => {},
            }
            i = i + 1;
        }
        None
    }
}

/// Sets up processor `c`'s kernel and user code and data segments, each
/// spanning the whole address space; loading the table is left to the caller.
pub fn seg_init(c: &mut CPU)
    ensures
        final(c).gdt[KCODE as int]@ == seg_bits(STA_X | STA_R, 0, 0xffff_ffff, 0),
        final(c).gdt[KDATA as int]@ == seg_bits(STA_W, 0, 0xffff_ffff, 0),
        final(c).gdt[UCODE as int]@ == seg_bits(STA_X | STA_R, 0, 0xffff_ffff, DPL_USER),
        final(c).gdt[UDATA as int]@ == seg_bits(STA_W, 0, 0xffff_ffff, DPL_USER),
        forall|i: int|
            0 <= i < NSEGS && i != KCODE && i != KDATA && i != UCODE && i != UDATA
                ==> #[trigger] final(c).gdt[i] == old(c).gdt[i],
        final(c).id == old(c).id,
        final(c).apicid == old(c).apicid,
{
    c.gdt[KCODE] = SegDesc::new(STA_X | STA_R, 0, 0xffff_ffff, 0);
    c.gdt[KDATA] = SegDesc::new(STA_W, 0, 0xffff_ffff, 0);
    c.gdt[UCODE] = SegDesc::new(STA_X | STA_R, 0, 0xffff_ffff, DPL_USER);
    c.gdt[UDATA] = SegDesc::new(STA_W, 0, 0xffff_ffff, DPL_USER);
}

} // verus!

//! The interrupt descriptor table.

use vstd::prelude::*;

use crate::mmu::{GateDesc, DPL_USER, KCODE, STS_IG32, STS_TG32};

verus! {

/// Gates in the interrupt descriptor table.
pub const NIDT: usize = 256;

/// The vector of system calls.
pub const T_SYSCALL: usize = 64;

/// The selector of the kernel code segment.
pub const KCODE_SEL: u16 = 8;

/// Fills `idt` with an interrupt gate to `vectors[i]` in the kernel code
/// segment for each vector `i`, except that the system call vector gets a
/// trap gate callable from user mode.
pub fn tvinit(idt: &mut Vec<GateDesc>, vectors: &[u32])
    requires
        old(idt)@.len() == NIDT,
        vectors@.len() == NIDT,
    ensures
        final(idt)@.len() == NIDT,
        forall|i: int|
            0 <= i < NIDT ==> {
                let g = #[trigger] final(idt)@[i]@;
                &&& g & 0xffff == (vectors@[i] & 0xffff) as u64
                &&& (g >> 48u64) & 0xffff == ((vectors@[i] >> 16u32) & 0xffff) as u64
                &&& (g >> 16u64) & 0xffff == KCODE_SEL as u64
                &&& (g >> 32u64) & 0x1f == 0
                &&& (g >> 40u64) & 0x0f == (if i == T_SYSCALL {
                    STS_TG32
                } else {
                    STS_IG32
                }) as u64
                &&& (g >> 45u64) & 0x03 == (if i == T_SYSCALL {
                    DPL_USER
                } else {
                    0
                }) as u64
                &&& (g >> 47u64) & 0x01 == 1
            },
{
    assert(((KCODE as u16) << 3u16) == KCODE_SEL) by (bit_vector);
    let mut i: usize = 0;
    while i < NIDT
        invariant
            idt@.len() == NIDT,
            vectors@.len() == NIDT,
            i <= NIDT,
            forall|j: int|
                0 <= j < i ==> {
                    let g = #[trigger] idt@[j]@;
                    &&& g & 0xffff == (vectors@[j] & 0xffff) as u64
                    &&& (g >> 48u64) & 0xffff == ((vectors@[j] >> 16u32) & 0xffff) as u64
                    &&& (g >> 16u64) & 0xffff == KCODE_SEL as u64
                    &&& (g >> 32u64) & 0x1f == 0
                    &&& (g >> 40u64) & 0x0f == (if j == T_SYSCALL {
                        STS_TG32
                    } else {
                        STS_IG32
                    }) as u64
                    &&& (g >> 45u64) & 0x03 == (if j == T_SYSCALL {
                        DPL_USER
                    } else {
                        0
                    }) as u64
                    &&& (g >> 47u64) & 0x01 == 1
                },
        decreases NIDT - i,
    {
        let mut g = GateDesc::new();
        if i == T_SYSCALL {
            g.set_gate(true, KCODE_SEL, vectors[i], DPL_USER);
        } else {
            g.set_gate(false, KCODE_SEL, vectors[i], 0);
        }
        idt.set(i, g);
        i = i + 1;
    }
}

} // verus!

//! Routing of device interrupts through the I/O APIC.

use vstd::prelude::*;

verus! {

/// Redirection table base register.
pub const REG_TABLE: u32 = 0x10;

/// Vector of the first device interrupt.
pub const T_IRQ0: u32 = 32;

/// The register writes that route interrupt `irq`, edge-triggered, active
/// high and enabled, to the processor with APIC id `cpunum`: each pair is a
/// register index and the value written to it, in order.
pub fn ioapic_enable(irq: u32, cpunum: u32) -> (r: [(u32, u32); 2])
    requires
        REG_TABLE + 2 * irq + 1 <= u32::MAX,
    ensures
        r@[0] == ((REG_TABLE + 2 * irq) as u32, (T_IRQ0 + irq) as u32),
        r@[1] == ((REG_TABLE + 2 * irq + 1) as u32, cpunum << 24u32),
{
    [(REG_TABLE + 2 * irq, T_IRQ0 + irq), (REG_TABLE + 2 * irq + 1, cpunum << 24u32)]
}

} // verus!

//! Memory management for a small x86 kernel, over a model of physical
//! memory: typed addresses, a physical page allocator, and two-level page
//! tables for the kernel and for processes. Around it, the processor,
//! descriptor, interrupt and console structures the kernel boots with.

pub mod address;
pub mod common;
pub mod mmu;
pub mod pointer;

pub mod kalloc;
pub mod memory;
pub mod vm;

pub mod console;
pub mod elf;
pub mod file;
pub mod ioapic;
pub mod mp;
pub mod proc;
pub mod spinlock;
pub mod traps;
pub mod vga_buffer;
pub mod x86;

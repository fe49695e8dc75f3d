//! A mutual-exclusion lock's state, as the kernel records it for debugging.

use vstd::prelude::*;

use crate::proc::CPU;

verus! {

/// Entries in a lock's recorded call stack.
pub const NPCS: usize = 10;

/// A lock: whether it is held, a name to report it by, the processor that
/// holds it and the call stack that took it.
#[derive(Debug)]
pub struct SpinLock {
    pub locked: bool,
    pub name: Option<&'static str>,
    pub cpu: CPU,
    pub pcs: [u32; NPCS],
}

impl SpinLock {
    /// A free lock with no name.
    pub fn new() -> (r: Self)
        ensures
            !r.locked,
            r.name is None,
            forall|i: int| 0 <= i < NPCS ==> #[trigger] r.pcs@[i] == 0,
    {
        SpinLock { locked: false, name: None, cpu: CPU::new(0, 0), pcs: [0; NPCS] }
    }

    /// A free lock called `name`.
    pub fn with_name(name: &'static str) -> (r: Self)
        ensures
            !r.locked,
            r.name == Some(name),
            forall|i: int| 0 <= i < NPCS ==> #[trigger] r.pcs@[i] == 0,
    {
        SpinLock { locked: false, name: Some(name), cpu: CPU::new(0, 0), pcs: [0; NPCS] }
    }
}

} // verus!

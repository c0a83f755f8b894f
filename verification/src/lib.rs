//! Kernel memory allocators: a buddy byte-heap, a buddy frame allocator and a
//! first-fit linked-list heap, with machine-checked invariants.
use vstd::prelude::*;

pub mod power;
pub mod buddy;
pub mod frame;
pub mod heap;
pub mod list;
pub mod vga;
pub mod laws;

verus! {

/// Exit codes handed to the emulator's debug exit device.
#[derive(Debug, Clone, Copy, PartialEq, Eq, Structural)]
pub enum QemuExitCode {
    Success,
    Failed,
}

impl QemuExitCode {
    /// The wire value written to the exit port for this code.
    pub fn code(self) -> (r: u32)
        ensures
            self == QemuExitCode::Success ==> r == 0x10,
            self == QemuExitCode::Failed ==> r == 0x11,
    {
        match self {
            QemuExitCode::Success => 0x10,
            QemuExitCode::Failed => 0x11,
        }
    }
}

/// The fixed offset at which low physical memory is mapped into the
/// kernel's virtual address space.
pub const VIRTUAL_OFFSET: u64 = 0xC0000000;

/// The virtual address of a physical address under the fixed-offset
/// mapping, which covers only the first four gibibytes.
pub fn to_virt(phys_addr: u64) -> (r: Option<u64>)
    ensures
        r is Some <==> phys_addr < 0x100000000,
        r matches Some(v) ==> v == phys_addr + VIRTUAL_OFFSET,
{
    if phys_addr < 0x100000000 {
        Some(phys_addr + VIRTUAL_OFFSET)
    } else {
        None
    }
}

} // verus!

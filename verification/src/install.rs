//! Installing compiled programs into the running instance.

use vstd::prelude::*;

verus! {

/// Why a program could not be installed.
#[derive(Debug, Clone, Copy, PartialEq, Eq, Structural)]
pub enum InstallMirError {
    /// Installer state was corrupted and cannot be used to install new
    /// functions.
    InstallerPoisoned,
    /// The runtime encountered an error while instantiating the new
    /// functions. We have no further information.
    RuntimeError,
}

/// A source of free slots in the function table of the generated module.
pub trait FnTableSlotAllocator {
    /// Returns a free slot in the function table.
    fn allocate_slot(&mut self) -> usize;
}

} // verus!

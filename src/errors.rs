//! The errors of the borrow discipline.

use vstd::prelude::*;

verus! {

/// Errors reported by the fallible borrow operations of [`crate::cell::HedelCell`].
#[derive(Debug, Clone, Copy, PartialEq, Eq, Structural)]
pub enum HedelError {
    /// Shared access was requested while an exclusive guard is outstanding.
    ExclusiveActiveConflict,
    /// Exclusive access was requested while a shared or an exclusive guard is outstanding.
    BorrowActiveConflict,
    /// A raw access handle could not be formed. The cells of this crate never
    /// report it: it is kept so that callers can match on the full taxonomy.
    DegenerateAllocationFault,
}

} // verus!

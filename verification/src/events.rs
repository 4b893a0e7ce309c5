//! Signals emitted by strategies.

use vstd::prelude::*;

verus! {

#[derive(Debug, Clone, Copy, PartialEq, Eq, Structural)]
pub enum SignalDirection {
    /// Open or maintain a long position.
    Long,
    /// Open or maintain a short position.
    Short,
    /// Close any existing position.
    Exit,
    /// No action.
    Hold,
}

} // verus!

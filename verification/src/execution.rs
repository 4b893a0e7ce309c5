//! Execution models whose behaviour involves no price arithmetic.
//!
//! The cost models themselves (slippage, fees, funding payments) compute on
//! prices and live with the application's accounting; these markers select
//! them.

use vstd::prelude::*;

verus! {

/// Zero slippage — useful for unit tests and theoretical upper bounds.
#[derive(Debug, Clone, Copy, PartialEq, Eq, Structural)]
pub struct ZeroSlippage;

/// No funding ever settles.
#[derive(Debug, Clone, Copy, PartialEq, Eq, Structural)]
pub struct NoFunding;

/// Funding settles whenever a bar carries a funding rate; the model forwards
/// the bar's rate.
#[derive(Debug, Clone, Copy, PartialEq, Eq, Structural)]
pub struct PerpetualFunding;

} // verus!

//! Event-driven backtesting library: the verified core.
//!
//! The order-routing, data-feed, calendar and walk-forward scheduling logic
//! lives here with its contracts; the floating-point accounting is layered on
//! top of these types by the application crate.

pub mod data;
pub mod engine;
pub mod events;
pub mod execution;
pub mod portfolio;
pub mod sort;
pub mod strategy;
pub mod time;
pub mod types;
pub mod walkforward;

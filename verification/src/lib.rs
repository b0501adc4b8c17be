//! A verified backtesting library for a dip-buy / rise-sell trading strategy.
//!
//! Prices are held in integer minor units; cash and share quantities are held
//! as exact unsigned rationals, so every simulation result is an exact value
//! rather than a floating-point approximation. Network fetching, mail
//! delivery and the command-line surface live outside this crate; the crate
//! holds the simulation engine, the quote-stream builder, valuation, the
//! grid-search orchestrator, the buy-and-hold baseline and the alert decision,
//! each with a contract that pins its result down.

pub mod rat;
pub mod sim;
pub mod stream;
pub mod worth;
pub mod grid;
pub mod alert;
pub mod laws;

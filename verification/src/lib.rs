//! Finds currency amounts in free text and keeps per-currency totals.

pub mod text;
pub mod amount;
pub mod keyed;
pub mod currency;
pub mod scanner;
pub mod tally;
pub mod args;
pub mod format;
pub mod laws;

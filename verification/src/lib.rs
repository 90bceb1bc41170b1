//! OpenQuanter: a deterministic matching, margin and replay core.
pub mod backtest;
pub mod bytes;
pub mod cli;
pub mod data;
pub mod engine;
pub mod ledger;
pub mod margin;
pub mod sorting;
pub mod text;
pub mod types;
pub mod venue;

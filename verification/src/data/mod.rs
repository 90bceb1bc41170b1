//! The data plane: what was knowable, and when.
pub mod asof;
pub mod audit;
pub mod bitemporal;
pub mod checksum;
pub mod columnar;
pub mod declared;
pub mod error;
pub mod reader;
pub mod shape;
pub mod tick_laws;
pub mod ticks;

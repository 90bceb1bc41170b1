//! The core: events in, outputs out, and the account in between.
pub mod account_laws;
pub mod event;
pub mod kernel;
pub mod kernel_laws;
pub mod kind;
pub mod matcher;
pub mod order_laws;
pub mod sequencer;
pub mod shard;
pub mod sink;

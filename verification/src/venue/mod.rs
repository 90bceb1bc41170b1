//! The venue's order book, rebuilt from its depth stream.
pub mod book;
pub mod depth;
pub mod depth_laws;

//! Matching engines, from a bare replay of prices up to a measured book.
pub mod book;
pub mod cause_laws;
pub mod impact;
pub mod l0;
pub mod l0_laws;
pub mod l1;
pub mod l1_laws;
pub mod l2;
pub mod l2_laws;
pub mod observation;
pub mod tick;
pub mod tier_laws;

//! Journal record kinds. Append-only; values are permanent.
use vstd::prelude::*;

verus! {

pub const TICK: u16 = 1;

/// Submit as it was before orders stated open or close. Decoded, never
/// written: every order in such a journal was an open.
pub const SUBMIT_LEGACY: u16 = 2;

pub const CANCEL: u16 = 3;

pub const FUNDING: u16 = 4;

pub const TIME: u16 = 5;

pub const MARGIN_DEPOSIT: u16 = 6;

pub const SUBMIT: u16 = 7;

/// A fill the venue decided, rather than one the matcher produced.
pub const VENUE_FILL: u16 = 8;

/// A depth update from the venue. The one kind whose length is declared in
/// the payload rather than fixed.
pub const DEPTH: u16 = 9;

} // verus!

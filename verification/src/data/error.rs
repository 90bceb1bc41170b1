//! What goes wrong reading data.
use crate::text::{decimal, put, put_decimal, put_digits};
use vstd::prelude::*;

verus! {

/// Anything that went wrong reading data.
#[derive(Clone, Copy, Debug, PartialEq, Eq, Structural)]
pub enum Error {
    Truncated { needed: usize, available: usize },
    BadMagic { found: u32 },
    UnknownVersion { found: u16 },
    ChecksumMismatch { expected: u32, computed: u32 },
    /// Ticks must not go backwards in exchange time.
    OutOfOrder { index: usize, previous: i64, found: i64 },
}

/// A digit in base sixteen.
pub open spec fn hex_char(d: nat) -> char {
    if d < 10 {
        (48 + d) as char
    } else {
        (87 + d) as char
    }
}

/// The last `n` digits of a number in base sixteen.
pub open spec fn hex_digits(x: nat, n: nat) -> Seq<char>
    decreases n,
{
    if n == 0 {
        Seq::empty()
    } else {
        hex_digits(x / 16, (n - 1) as nat).push(hex_char(x % 16))
    }
}

/// A 32-bit number in base sixteen, at full width.
pub open spec fn hex(x: u32) -> Seq<char> {
    "0x"@ + hex_digits(x as nat, 8)
}

fn put_hex_digits(out: &mut String, x: u32, n: u32)
    ensures
        final(out)@ == old(out)@ + hex_digits(x as nat, n as nat),
    decreases n,
{
    if n == 0 {
        assert(out@ =~= old(out)@ + hex_digits(x as nat, 0));
        return ;
    }
    let ghost start = out@;
    put_hex_digits(out, x / 16, n - 1);
    let d: u8 = (x % 16) as u8;
    let c: char = if d < 10 {
        (48 + d) as char
    } else {
        (87 + d) as char
    };
    out.push(c);
    assert(out@ =~= start + hex_digits(x as nat, n as nat));
}

/// Append a 32-bit number in base sixteen, at full width.
pub fn put_hex(out: &mut String, x: u32)
    ensures
        final(out)@ == old(out)@ + hex(x),
{
    let ghost start = out@;
    put(out, "0x");
    put_hex_digits(out, x, 8);
    assert(out@ =~= start + hex(x));
}

impl Error {
    pub open spec fn text(self) -> Seq<char> {
        match self {
            Error::Truncated { needed, available } => "truncated: needed "@ + decimal(needed as int)
                + " bytes, "@ + decimal(available as int) + " available"@,
            Error::BadMagic { found } => "not a tick file: magic "@ + hex(found),
            Error::UnknownVersion { found } => "unknown tick file version "@ + decimal(
                found as int,
            ),
            Error::ChecksumMismatch { expected, computed } => "checksum mismatch: expected "@
                + hex(expected) + ", computed "@ + hex(computed),
            Error::OutOfOrder { index, previous, found } => "tick "@ + decimal(index as int)
                + " goes backwards: previous exchange time "@ + decimal(previous as int)
                + ", found "@ + decimal(found as int),
        }
    }

    /// The error in words.
    pub fn to_text(&self) -> (r: String)
        ensures
            r@ == self.text(),
    {
        match *self {
            Error::Truncated { needed, available } => {
                let mut out = "truncated: needed ".to_owned();
                put_digits(&mut out, needed as u64);
                put(&mut out, " bytes, ");
                put_digits(&mut out, available as u64);
                put(&mut out, " available");
                out
            },
            Error::BadMagic { found } => {
                let mut out = "not a tick file: magic ".to_owned();
                put_hex(&mut out, found);
                out
            },
            Error::UnknownVersion { found } => {
                let mut out = "unknown tick file version ".to_owned();
                put_digits(&mut out, found as u64);
                out
            },
            Error::ChecksumMismatch { expected, computed } => {
                let mut out = "checksum mismatch: expected ".to_owned();
                put_hex(&mut out, expected);
                put(&mut out, ", computed ");
                put_hex(&mut out, computed);
                out
            },
            Error::OutOfOrder { index, previous, found } => {
                let mut out = "tick ".to_owned();
                put_digits(&mut out, index as u64);
                put(&mut out, " goes backwards: previous exchange time ");
                put_decimal(&mut out, previous);
                put(&mut out, ", found ");
                put_decimal(&mut out, found);
                out
            },
        }
    }
}

} // verus!

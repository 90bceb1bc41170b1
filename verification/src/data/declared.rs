//! What a Parquet writer says of its own types, as far as it must be looked at
//! before it is gone by.
//!
//! A writer that knows Arrow keeps its schema among a file's entries, as a
//! message in letters and digits. The reader goes by it, but stops the program
//! on a union of more kinds than a union can have. So the message is searched
//! for one: every place in it where a field of a schema could stand.
use crate::data::shape::at;
use vstd::prelude::*;

verus! {

/// The six bits that a letter or digit stands for. Others stand for none.
pub open spec fn bits(c: char) -> int {
    if 'A' <= c <= 'Z' {
        c as int - 'A' as int
    } else if 'a' <= c <= 'z' {
        c as int - 'a' as int + 26
    } else if '0' <= c <= '9' {
        c as int - '0' as int + 52
    } else if c == '+' {
        62
    } else if c == '/' {
        63
    } else {
        0
    }
}

/// The byte at a place of the message that a text holds, four of its characters
/// to three bytes.
pub open spec fn byte_of(text: Seq<char>, j: int) -> int {
    let k = 4 * (j / 3);
    if j % 3 == 0 {
        4 * bits(text[k]) + bits(text[k + 1]) / 16
    } else if j % 3 == 1 {
        16 * (bits(text[k + 1]) % 16) + bits(text[k + 2]) / 4
    } else {
        64 * (bits(text[k + 2]) % 4) + bits(text[k + 3])
    }
}

/// The message that a text holds.
pub open spec fn message(text: Seq<char>) -> Seq<u8> {
    Seq::new(3 * (text.len() / 4), |j: int| byte_of(text, j) as u8)
}

fn bits_of(c: char) -> (r: u8)
    ensures
        r == bits(c),
        r < 64,
{
    if 'A' <= c && c <= 'Z' {
        (c as u32 - 'A' as u32) as u8
    } else if 'a' <= c && c <= 'z' {
        (c as u32 - 'a' as u32 + 26) as u8
    } else if '0' <= c && c <= '9' {
        (c as u32 - '0' as u32 + 52) as u8
    } else if c == '+' {
        62
    } else if c == '/' {
        63
    } else {
        0
    }
}

pub fn message_of(text: &Vec<char>) -> (r: Vec<u8>)
    ensures
        r@ == message(text@),
{
    let mut out: Vec<u8> = Vec::new();
    let mut i: usize = 0;
    while text.len() - i >= 4
        invariant
            i <= text@.len(),
            i % 4 == 0,
            out@ == message(text@).subrange(0, 3 * (i / 4) as int),
        decreases text@.len() - i,
    {
        let ghost had = out@;
        let a: u8 = bits_of(text[i]);
        let b: u8 = bits_of(text[i + 1]);
        let c: u8 = bits_of(text[i + 2]);
        let d: u8 = bits_of(text[i + 3]);
        out.push(4 * a + b / 16);
        out.push(16 * (b % 16) + c / 4);
        out.push(64 * (c % 4) + d);
        proof {
            let all = message(text@);
            let j = 3 * (i / 4) as int;
            assert(had.len() == j);
            assert(j / 3 == i / 4 && (j + 1) / 3 == i / 4 && (j + 2) / 3 == i / 4);
            assert(all[j] == 4 * a + b / 16);
            assert(all[j + 1] == 16 * (b % 16) + c / 4);
            assert(all[j + 2] == 64 * (c % 4) + d);
            assert(out@ =~= all.subrange(0, j + 3));
        }
        i = i + 4;
    }
    assert(out@ =~= message(text@));
    out
}

/// The number of two bytes at a place, or a negative number where there is none.
pub open spec fn short(s: Seq<u8>, i: int) -> int {
    if at(s, i) < 0 || at(s, i + 1) < 0 {
        -1
    } else {
        at(s, i) + 256 * at(s, i + 1)
    }
}

/// The number of four bytes at a place, or a negative number where there is none.
pub open spec fn long(s: Seq<u8>, i: int) -> int {
    if short(s, i) < 0 || short(s, i + 2) < 0 {
        -1
    } else {
        short(s, i) + 65536 * short(s, i + 2)
    }
}

/// How far into a table that stands at a place its field at a slot is, or nought
/// where it has no such field.
pub open spec fn slot(s: Seq<u8>, table: int, k: int) -> int {
    let back = if long(s, table) >= 0x8000_0000 {
        long(s, table) - 0x1_0000_0000
    } else {
        long(s, table)
    };
    let slots = table - back;
    if long(s, table) < 0 || k + 2 > short(s, slots) || short(s, slots + k) < 0 {
        0
    } else {
        short(s, slots + k)
    }
}

/// Whether a field stands at a place that is a union of more kinds than there
/// can be.
pub open spec fn wide_union(s: Seq<u8>, table: int) -> bool {
    let kind = slot(s, table, 8);
    let children = slot(s, table, 14);
    let list = table + children + long(s, table + children);
    &&& kind > 0 && at(s, table + kind) == 14
    &&& children > 0 && long(s, table + children) >= 0
    &&& long(s, list) > 128 && list + 4 + 4 * long(s, list) <= s.len()
}

/// Whether no such field stands anywhere.
#[verifier::opaque]
pub open spec fn message_sound(s: Seq<u8>) -> bool {
    forall|k: int| 0 <= k && 4 * k < s.len() ==> !#[trigger] wide_union(s, 4 * k)
}

fn short_at(s: &Vec<u8>, i: i128) -> (r: i128)
    requires
        i < i128::MAX,
    ensures
        r == short(s@, i as int),
        r < 0x1_0000,
{
    let n: i128 = s.len() as i128;
    if i < 0 || i + 1 >= n {
        return -1;
    }
    s[i as usize] as i128 + 256 * s[(i + 1) as usize] as i128
}

fn long_at(s: &Vec<u8>, i: i128) -> (r: i128)
    requires
        i < i128::MAX - 2,
    ensures
        r == long(s@, i as int),
        r < 0x1_0000_0000,
{
    let low: i128 = short_at(s, i);
    let high: i128 = short_at(s, i + 2);
    if low < 0 || high < 0 {
        return -1;
    }
    low + 65536 * high
}

fn slot_at(s: &Vec<u8>, table: i128, k: i128) -> (r: i128)
    requires
        0 <= table <= usize::MAX,
        0 <= k <= 100,
    ensures
        r == slot(s@, table as int, k as int),
        0 <= r < 0x1_0000,
{
    let mut back: i128 = long_at(s, table);
    if back < 0 {
        return 0;
    }
    if back >= 0x8000_0000 {
        back = back - 0x1_0000_0000;
    }
    let slots: i128 = table - back;
    let size: i128 = short_at(s, slots);
    if k + 2 > size {
        return 0;
    }
    let r: i128 = short_at(s, slots + k);
    if r < 0 {
        0
    } else {
        r
    }
}

fn is_wide_union(s: &Vec<u8>, table: usize) -> (r: bool)
    requires
        table < s@.len(),
    ensures
        r == wide_union(s@, table as int),
{
    let n: i128 = s.len() as i128;
    let t: i128 = table as i128;
    let kind: i128 = slot_at(s, t, 8);
    if kind == 0 || t + kind >= n || s[(t + kind) as usize] != 14 {
        return false;
    }
    let children: i128 = slot_at(s, t, 14);
    if children == 0 {
        return false;
    }
    let away: i128 = long_at(s, t + children);
    if away < 0 {
        return false;
    }
    let list: i128 = t + children + away;
    let count: i128 = long_at(s, list);
    count > 128 && list + 4 + 4 * count <= n
}

pub fn is_message_sound(s: &Vec<u8>) -> (r: bool)
    ensures
        r == message_sound(s@),
{
    proof {
        reveal(message_sound);
    }
    let mut t: usize = 0;
    while t < s.len()
        invariant
            t % 4 == 0,
            forall|k: int|
                0 <= k && 4 * k < t && 4 * k < s@.len() ==> !#[trigger] wide_union(s@, 4 * k),
        decreases s@.len() - t,
    {
        proof {
            reveal(message_sound);
        }
        if is_wide_union(s, t) {
            assert(wide_union(s@, 4 * (t / 4) as int));
            return false;
        }
        assert forall|k: int| 0 <= k && 4 * k < t + 4 && 4 * k < s@.len() implies !#[trigger]
            wide_union(s@, 4 * k) by {
            if 4 * k >= t {
                assert(4 * k == t);
            }
        }
        if s.len() - t <= 4 {
            return true;
        }
        t = t + 4;
    }
    true
}

} // verus!

//! CRC-32, whole or block by block.
//!
//! The checksum is kept as a register that each byte is shifted through, so it
//! can be accumulated over blocks without holding them together.
use vstd::prelude::*;

verus! {

/// The reversed generator polynomial.
pub const POLYNOMIAL: u32 = 0xEDB8_8320;

/// The register before any byte.
pub const START: u32 = 0xFFFF_FFFF;

/// One shift of the register: a bit leaves, and where it was set the
/// polynomial is taken off.
pub open spec fn shifted(r: u32) -> u32 {
    if r & 1 == 1 {
        (r >> 1) ^ 0xEDB8_8320
    } else {
        r >> 1
    }
}

/// Eight shifts of the register: a byte leaves.
pub open spec fn byte_shifted(r: u32) -> u32 {
    shifted(shifted(shifted(shifted(shifted(shifted(shifted(shifted(r))))))))
}

/// The register once a byte has gone through it.
pub open spec fn stepped(r: u32, b: u8) -> u32 {
    byte_shifted(r ^ (b as u32))
}

/// The register once a run of bytes has gone through it.
pub open spec fn register(r: u32, bytes: Seq<u8>) -> u32
    decreases bytes.len(),
{
    if bytes.len() == 0 {
        r
    } else {
        stepped(register(r, bytes.drop_last()), bytes.last())
    }
}

/// The checksum of a run of bytes.
pub open spec fn checksum(bytes: Seq<u8>) -> u32 {
    register(0xFFFF_FFFF, bytes) ^ 0xFFFF_FFFF
}

/// Only the low byte of the register meets the polynomial within eight shifts;
/// the rest moves down. This is what lets a table of 256 entries stand for the
/// eight shifts.
proof fn lemma_low_byte(r: u32)
    ensures
        byte_shifted(r) == (r >> 8) ^ byte_shifted(r & 0xFF),
{
    assert(byte_shifted(r) == (r >> 8) ^ byte_shifted(r & 0xFF)) by (bit_vector);
}

fn shift_byte(r: u32) -> (s: u32)
    ensures
        s == byte_shifted(r),
{
    let mut crc: u32 = r;
    let mut bit: u32 = 0;
    reveal_with_fuel(shifts, 9);
    while bit < 8
        invariant
            bit <= 8,
            crc == shifts(r, bit as nat),
        decreases 8 - bit,
    {
        crc = if crc & 1 == 1 {
            (crc >> 1) ^ POLYNOMIAL
        } else {
            crc >> 1
        };
        bit += 1;
    }
    crc
}

/// A number of shifts of the register.
spec fn shifts(r: u32, n: nat) -> u32
    decreases n,
{
    if n == 0 {
        r
    } else {
        shifted(shifts(r, (n - 1) as nat))
    }
}

/// A checksum being accumulated.
#[derive(Clone, Debug)]
pub struct Accumulator {
    state: u32,
    table: Vec<u32>,
}

impl Accumulator {
    /// The register so far.
    pub closed spec fn held(&self) -> u32 {
        self.state
    }

    /// The table holds eight shifts of every byte.
    pub closed spec fn wf(&self) -> bool {
        &&& self.table@.len() == 256
        &&& forall|i: int|
            0 <= i < 256 ==> #[trigger] self.table@[i] == byte_shifted(i as u32)
    }

    pub fn new() -> (r: Self)
        ensures
            r.wf(),
            r.held() == START,
    {
        let mut table: Vec<u32> = Vec::new();
        let mut i: u32 = 0;
        while i < 256
            invariant
                i <= 256,
                table@.len() == i,
                forall|k: int| 0 <= k < i ==> #[trigger] table@[k] == byte_shifted(k as u32),
            decreases 256 - i,
        {
            table.push(shift_byte(i));
            i += 1;
        }
        Accumulator { state: START, table }
    }

    /// Take a block in.
    pub fn update(&mut self, bytes: &[u8])
        requires
            old(self).wf(),
        ensures
            final(self).wf(),
            final(self).held() == register(old(self).held(), bytes@),
    {
        let ghost start = self.state;
        let mut i: usize = 0;
        assert(bytes@.subrange(0, 0) =~= Seq::<u8>::empty());
        while i < bytes.len()
            invariant
                i <= bytes@.len(),
                self.wf(),
                self.state == register(start, bytes@.subrange(0, i as int)),
            decreases bytes@.len() - i,
        {
            let b: u8 = bytes[i];
            let crc: u32 = self.state;
            let low: u32 = (crc ^ (b as u32)) & 0xFF;
            proof {
                let w: u32 = b as u32;
                let r: u32 = crc ^ w;
                lemma_low_byte(r);
                assert(low < 256) by (bit_vector)
                    requires
                        low == (crc ^ w) & 0xFF,
                ;
                assert(r >> 8 == crc >> 8) by (bit_vector)
                    requires
                        r == crc ^ w,
                        w < 256,
                ;
                let now = bytes@.subrange(0, i + 1);
                assert(now.drop_last() =~= bytes@.subrange(0, i as int));
                assert(now.last() == b);
            }
            self.state = (crc >> 8) ^ self.table[low as usize];
            i += 1;
        }
        assert(bytes@.subrange(0, i as int) =~= bytes@);
    }

    /// The checksum of everything taken in.
    pub fn finish(self) -> (r: u32)
        ensures
            r == self.held() ^ START,
    {
        self.state ^ START
    }

    /// The checksum of everything taken in so far.
    pub fn value(&self) -> (r: u32)
        ensures
            r == self.held() ^ START,
    {
        self.state ^ START
    }
}

/// The checksum of a run of bytes.
pub fn crc32(bytes: &[u8]) -> (r: u32)
    ensures
        r == checksum(bytes@),
{
    let mut crc = Accumulator::new();
    crc.update(bytes);
    crc.finish()
}

/// Where blocks are cut does not matter: two blocks taken in one after the
/// other leave the register where their joining would.
pub proof fn law_blocks_join(r: u32, a: Seq<u8>, b: Seq<u8>)
    ensures
        register(register(r, a), b) == register(r, a + b),
    decreases b.len(),
{
    if b.len() == 0 {
        assert(a + b =~= a);
    } else {
        law_blocks_join(r, a, b.drop_last());
        assert((a + b).drop_last() =~= a + b.drop_last());
    }
}

proof fn lemma_step_separates(r: u32, s: u32, b: u8)
    requires
        r != s,
    ensures
        stepped(r, b) != stepped(s, b),
{
    let w: u32 = b as u32;
    assert(byte_shifted(r ^ w) != byte_shifted(s ^ w)) by (bit_vector)
        requires
            r != s,
    ;
}

proof fn lemma_bytes_separate(r: u32, a: u8, b: u8)
    requires
        a != b,
    ensures
        stepped(r, a) != stepped(r, b),
{
    let v: u32 = a as u32;
    let w: u32 = b as u32;
    assert(byte_shifted(r ^ v) != byte_shifted(r ^ w)) by (bit_vector)
        requires
            v != w,
    ;
}

proof fn lemma_registers_stay_apart(r: u32, s: u32, bytes: Seq<u8>)
    requires
        r != s,
    ensures
        register(r, bytes) != register(s, bytes),
    decreases bytes.len(),
{
    if bytes.len() > 0 {
        lemma_registers_stay_apart(r, s, bytes.drop_last());
        lemma_step_separates(
            register(r, bytes.drop_last()),
            register(s, bytes.drop_last()),
            bytes.last(),
        );
    }
}

/// One damaged byte is always caught: changing any single byte changes the
/// checksum.
pub proof fn law_one_damaged_byte_is_caught(bytes: Seq<u8>, at: int, b: u8)
    requires
        0 <= at < bytes.len(),
        bytes[at] != b,
    ensures
        checksum(bytes.update(at, b)) != checksum(bytes),
{
    let other = bytes.update(at, b);
    let head = bytes.subrange(0, at);
    let tail = bytes.subrange(at + 1, bytes.len() as int);
    assert(bytes =~= head.push(bytes[at]) + tail);
    assert(other =~= head.push(b) + tail);
    let r = register(START, head);
    assert(head.push(bytes[at]).drop_last() =~= head);
    assert(head.push(b).drop_last() =~= head);
    lemma_bytes_separate(r, bytes[at], b);
    let x = register(START, head.push(bytes[at]));
    let y = register(START, head.push(b));
    lemma_registers_stay_apart(x, y, tail);
    law_blocks_join(START, head.push(bytes[at]), tail);
    law_blocks_join(START, head.push(b), tail);
    let p = register(START, bytes);
    let q = register(START, other);
    assert(p ^ 0xFFFF_FFFF != q ^ 0xFFFF_FFFF) by (bit_vector)
        requires
            p != q,
    ;
}

} // verus!

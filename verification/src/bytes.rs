//! Little-endian integers in byte strings.
use vstd::prelude::*;

verus! {

/// 256 to the power `n`.
pub open spec fn pow256(n: nat) -> nat
    decreases n,
{
    if n == 0 {
        1
    } else {
        256 * pow256((n - 1) as nat)
    }
}

/// The low `n` bytes of `x`, least significant first.
pub open spec fn le_bytes(x: nat, n: nat) -> Seq<u8>
    decreases n,
{
    if n == 0 {
        Seq::empty()
    } else {
        seq![(x % 256) as u8] + le_bytes(x / 256, (n - 1) as nat)
    }
}

/// The integer a byte string spells, least significant byte first.
pub open spec fn le_value(s: Seq<u8>) -> nat
    decreases s.len(),
{
    if s.len() == 0 {
        0
    } else {
        s[0] as nat + 256 * le_value(s.drop_first())
    }
}

/// The two's complement bits of `x`, as a natural number.
pub open spec fn bits_of(x: i64) -> nat {
    if x < 0 {
        (x + 0x1_0000_0000_0000_0000) as nat
    } else {
        x as nat
    }
}

/// The `i64` with the given two's complement bits.
pub open spec fn from_bits(n: nat) -> i64 {
    if n >= 0x8000_0000_0000_0000 {
        (n - 0x1_0000_0000_0000_0000) as i64
    } else {
        n as i64
    }
}

/// The eight bytes of `x`.
pub open spec fn i64_bytes(x: i64) -> Seq<u8> {
    le_bytes(bits_of(x), 8)
}

/// The `i64` spelled by eight bytes.
pub open spec fn i64_value(s: Seq<u8>) -> i64 {
    from_bits(le_value(s))
}

pub proof fn lemma_pow256()
    ensures
        pow256(0) == 1,
        pow256(1) == 0x100,
        pow256(2) == 0x1_0000,
        pow256(4) == 0x1_0000_0000,
        pow256(8) == 0x1_0000_0000_0000_0000,
{
    reveal_with_fuel(pow256, 9);
}

pub proof fn lemma_le_bytes_len(x: nat, n: nat)
    ensures
        le_bytes(x, n).len() == n,
    decreases n,
{
    if n > 0 {
        lemma_le_bytes_len(x / 256, (n - 1) as nat);
    }
}

/// Reading back what was written gives the number, when it fits.
pub proof fn lemma_le_round_trip(x: nat, n: nat)
    requires
        x < pow256(n),
    ensures
        le_bytes(x, n).len() == n,
        le_value(le_bytes(x, n)) == x,
    decreases n,
{
    lemma_le_bytes_len(x, n);
    if n > 0 {
        let m = (n - 1) as nat;
        assert(x / 256 < pow256(m)) by (nonlinear_arith)
            requires
                x < 256 * pow256(m),
        ;
        lemma_le_round_trip(x / 256, m);
        assert(le_bytes(x, n).drop_first() =~= le_bytes(x / 256, m));
    }
}

pub proof fn lemma_le_value_bound(s: Seq<u8>)
    ensures
        le_value(s) < pow256(s.len()),
    decreases s.len(),
{
    if s.len() > 0 {
        lemma_le_value_bound(s.drop_first());
    }
}

/// An `i64` survives being written and read.
pub proof fn lemma_i64_round_trip(x: i64)
    ensures
        i64_bytes(x).len() == 8,
        i64_value(i64_bytes(x)) == x,
{
    lemma_pow256();
    lemma_le_round_trip(bits_of(x), 8);
}

/// A `u64` survives being written and read.
pub proof fn lemma_u64_round_trip(x: u64)
    ensures
        le_bytes(x as nat, 8).len() == 8,
        le_value(le_bytes(x as nat, 8)) == x,
{
    lemma_pow256();
    lemma_le_round_trip(x as nat, 8);
}

/// A `u32` survives being written and read.
pub proof fn lemma_u32_round_trip(x: nat)
    requires
        x < 0x1_0000_0000,
    ensures
        le_bytes(x, 4).len() == 4,
        le_value(le_bytes(x, 4)) == x,
{
    lemma_pow256();
    lemma_le_round_trip(x, 4);
}

/// Append the low `n` bytes of `x`.
pub fn put_le(out: &mut Vec<u8>, x: u64, n: usize)
    ensures
        final(out)@ == old(out)@ + le_bytes(x as nat, n as nat),
{
    let ghost start = out@;
    let mut rest: u64 = x;
    let mut i: usize = 0;
    while i < n
        invariant
            i <= n,
            start + le_bytes(x as nat, n as nat) == out@ + le_bytes(rest as nat, (n - i) as nat),
        decreases n - i,
    {
        let ghost before = out@;
        let ghost r = rest as nat;
        out.push((rest % 256) as u8);
        rest = rest / 256;
        i += 1;
        proof {
            assert(out@ + le_bytes(rest as nat, (n - i) as nat) =~= before + le_bytes(
                r,
                (n - i + 1) as nat,
            ));
        }
    }
    assert(out@ + le_bytes(rest as nat, 0) =~= out@);
}

/// Append an `i64`.
pub fn put_i64(out: &mut Vec<u8>, x: i64)
    ensures
        final(out)@ == old(out)@ + i64_bytes(x),
{
    assert((x as u64) == (if x < 0 { x + 0x1_0000_0000_0000_0000 } else { x as int })) by (bit_vector);
    put_le(out, x as u64, 8);
}

/// Append a `u64`.
pub fn put_u64(out: &mut Vec<u8>, x: u64)
    ensures
        final(out)@ == old(out)@ + le_bytes(x as nat, 8),
{
    put_le(out, x, 8);
}

/// Read the `n` bytes at `at` as an unsigned integer.
pub fn get_le(b: &[u8], at: usize, n: usize) -> (r: u64)
    requires
        n <= 8,
        at + n <= b@.len(),
    ensures
        r == le_value(b@.subrange(at as int, at + n)),
{
    let total: usize = b.len();
    let mut acc: u64 = 0;
    let mut k: usize = n;
    while k > 0
        invariant
            k <= n <= 8,
            at + n <= total == b@.len(),
            acc == le_value(b@.subrange(at + k, at + n)),
        decreases k,
    {
        let ghost tail = b@.subrange(at + k, at + n);
        k -= 1;
        proof {
            let whole = b@.subrange(at + k, at + n);
            assert(whole.drop_first() =~= tail);
            lemma_le_value_bound(tail);
            lemma_le_value_bound(whole);
            lemma_pow256_mono(whole.len(), 8);
            lemma_pow256();
        }
        acc = acc * 256 + b[at + k] as u64;
    }
    acc
}

proof fn lemma_pow256_mono(a: nat, b: nat)
    requires
        a <= b,
    ensures
        pow256(a) <= pow256(b),
    decreases b,
{
    if a < b {
        lemma_pow256_mono(a, (b - 1) as nat);
    }
}

/// Read the eight bytes at `at` as an `i64`.
pub fn get_i64(b: &[u8], at: usize) -> (r: i64)
    requires
        at + 8 <= b@.len(),
    ensures
        r == i64_value(b@.subrange(at as int, at + 8)),
{
    let u: u64 = get_le(b, at, 8);
    assert((u as i64) == (if u >= 0x8000_0000_0000_0000 { u - 0x1_0000_0000_0000_0000 } else {
        u as int
    })) by (bit_vector);
    u as i64
}

/// Bytes stand least significant first: the first is the remainder by 256, and
/// those behind it spell the quotient. A negative number is written as its
/// distance above the lowest, and so reads back below nought.
pub proof fn law_bytes_stand_least_first(x: nat, n: nat, s: Seq<u8>, v: i64)
    ensures
        le_bytes(x, n + 1)[0] == x % 256,
        le_bytes(x, n + 1).drop_first() == le_bytes(x / 256, n),
        s.len() > 0 ==> le_value(s) == s[0] + 256 * le_value(s.drop_first()),
        le_value(Seq::empty()) == 0,
        v >= 0 ==> bits_of(v) == v,
        v < 0 ==> bits_of(v) == v + 2 * 0x8000_0000_0000_0000,
        from_bits(bits_of(v)) == v,
{
    assert(le_bytes(x, n + 1).drop_first() =~= le_bytes(x / 256, n));
}

} // verus!

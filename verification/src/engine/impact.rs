//! How much a taker order moves the price against itself.
//!
//! The square-root law: the cost scales with the square root of the order's
//! share of volume. The penalty of an order of `qty` in an observation that
//! traded `traded` lots over a high-low `range` is
//! `coefficient / 100 * range * sqrt(qty / traded)`, rounded down to a tick.
//! It is found in whole numbers, by comparing squares.
use vstd::prelude::*;

verus! {

/// How much a taker order moves the price against itself.
///
/// The coefficient is not derivable from tick data and has to be supplied.
#[derive(Clone, Copy, Debug, PartialEq, Eq, Structural)]
pub struct Impact {
    /// Coefficient, in hundredths. Zero models no impact. At 100 an order
    /// taking the whole observation's volume pays its entire range.
    pub coefficient: u32,
}

impl Default for Impact {
    fn default() -> (r: Self)
        ensures
            r.coefficient == 0,
    {
        Impact { coefficient: 0 }
    }
}

/// Whether a penalty of `p` ticks is within the law: `100 p` is at most
/// `coefficient * range * sqrt(qty / traded)`, squared.
pub open spec fn within(p: int, coefficient: u32, range: int, qty: int, traded: int) -> bool {
    (10_000 * traded) * (p * p) <= (coefficient * coefficient * qty) * (range * range)
}

/// Whether `p` is the penalty: the largest number of ticks within the law, up
/// to the largest `i64`.
pub open spec fn is_penalty(
    p: int,
    coefficient: u32,
    range: int,
    qty: int,
    traded: int,
) -> bool {
    &&& 0 <= p <= i64::MAX
    &&& within(p, coefficient, range, qty, traded)
    &&& p == i64::MAX || !within(p + 1, coefficient, range, qty, traded)
}

/// The penalty in ticks.
pub open spec fn penalty_of(coefficient: u32, range: int, qty: int, traded: int) -> int {
    choose|p: int| is_penalty(p, coefficient, range, qty, traded)
}

/// There is one penalty.
pub proof fn lemma_penalty_unique(
    p: int,
    q: int,
    coefficient: u32,
    range: int,
    qty: int,
    traded: int,
)
    requires
        traded > 0,
        is_penalty(p, coefficient, range, qty, traded),
        is_penalty(q, coefficient, range, qty, traded),
    ensures
        p == q,
{
    if p < q {
        lemma_within_monotone(p + 1, q, coefficient, range, qty, traded);
    }
    if q < p {
        lemma_within_monotone(q + 1, p, coefficient, range, qty, traded);
    }
}

proof fn lemma_within_monotone(
    p: int,
    q: int,
    coefficient: u32,
    range: int,
    qty: int,
    traded: int,
)
    requires
        0 <= p <= q,
        traded > 0,
        within(q, coefficient, range, qty, traded),
    ensures
        within(p, coefficient, range, qty, traded),
{
    assert(p * p <= q * q) by (nonlinear_arith)
        requires
            0 <= p <= q,
    ;
    let v = 10_000 * traded;
    let pp = p * p;
    let qq = q * q;
    assert(v * pp <= v * qq) by (nonlinear_arith)
        requires
            v > 0,
            pp <= qq,
    ;
}

/// A larger order, or a wider observation, is never penalised less, and more
/// market volume never penalises more.
pub proof fn law_penalty_is_monotone(
    coefficient: u32,
    range1: int,
    range2: int,
    qty1: int,
    qty2: int,
    traded1: int,
    traded2: int,
    p1: int,
    p2: int,
)
    requires
        0 <= range1 <= range2,
        0 <= qty1 <= qty2,
        0 < traded2 <= traded1,
        is_penalty(p1, coefficient, range1, qty1, traded1),
        is_penalty(p2, coefficient, range2, qty2, traded2),
    ensures
        p1 <= p2,
{
    if p1 > p2 {
        let c = coefficient as int * coefficient as int;
        let a1 = coefficient * coefficient * qty1;
        let a2 = coefficient * coefficient * qty2;
        assert(a1 == c * qty1 && a2 == c * qty2);
        assert(0 <= a1 <= a2) by (nonlinear_arith)
            requires
                c >= 0,
                0 <= qty1 <= qty2,
                a1 == c * qty1,
                a2 == c * qty2,
        ;
        let b1 = range1 * range1;
        let b2 = range2 * range2;
        assert(0 <= b1 <= b2) by (nonlinear_arith)
            requires
                0 <= range1 <= range2,
                b1 == range1 * range1,
                b2 == range2 * range2,
        ;
        assert(a1 * b1 <= a2 * b2) by (nonlinear_arith)
            requires
                0 <= a1 <= a2,
                0 <= b1 <= b2,
        ;
        let s = (p2 + 1) * (p2 + 1);
        let s1 = p1 * p1;
        assert(0 <= s <= s1) by (nonlinear_arith)
            requires
                0 <= p2 + 1 <= p1,
                s == (p2 + 1) * (p2 + 1),
                s1 == p1 * p1,
        ;
        let v1 = 10_000 * traded1;
        let v2 = 10_000 * traded2;
        assert(v2 * s <= v1 * s1) by (nonlinear_arith)
            requires
                0 <= v2 <= v1,
                0 <= s <= s1,
        ;
        assert(within(p2 + 1, coefficient, range2, qty2, traded2));
    }
}

/// 2 to the power 64.
pub const HALF: u128 = 0x1_0000_0000_0000_0000;

/// Both halves of a product of two `u128`.
fn product(x: u128, y: u128) -> (r: (u128, u128))
    ensures
        r.0 * 0x1_0000_0000_0000_0000_0000_0000_0000_0000 + r.1 == x * y,
{
    let x1: u128 = x / HALF;
    let x0: u128 = x % HALF;
    let y1: u128 = y / HALF;
    let y0: u128 = y % HALF;
    proof {
        lemma_small(x0, y0);
        lemma_small(x0, y1);
        lemma_small(x1, y0);
        lemma_small(x1, y1);
    }
    let p00: u128 = x0 * y0;
    let p01: u128 = x0 * y1;
    let p10: u128 = x1 * y0;
    let p11: u128 = x1 * y1;
    let mid: u128 = p00 / HALF + p01 % HALF + p10 % HALF;
    let lo: u128 = (mid % HALF) * HALF + p00 % HALF;
    let hi: u128 = p11 + p01 / HALF + p10 / HALF + mid / HALF;
    proof {
        assert(x * y == p11 * 0x1_0000_0000_0000_0000_0000_0000_0000_0000 + (p01 + p10)
            * 0x1_0000_0000_0000_0000 + p00) by (nonlinear_arith)
            requires
                x == x1 * 0x1_0000_0000_0000_0000 + x0,
                y == y1 * 0x1_0000_0000_0000_0000 + y0,
                p00 == x0 * y0,
                p01 == x0 * y1,
                p10 == x1 * y0,
                p11 == x1 * y1,
        ;
    }
    (hi, lo)
}

proof fn lemma_small(a: u128, b: u128)
    by (nonlinear_arith)
    requires
        a < HALF,
        b < HALF,
    ensures
        a * b <= 0xffff_ffff_ffff_fffe_0000_0000_0000_0001,
{
}

/// Whether `a * b <= c * d`.
fn product_at_most(a: u128, b: u128, c: u128, d: u128) -> (r: bool)
    ensures
        r == (a * b <= c * d),
{
    let left = product(a, b);
    let right = product(c, d);
    left.0 < right.0 || left.0 == right.0 && left.1 <= right.1
}

/// The penalty in ticks.
pub fn penalty(coefficient: u32, range: i64, qty: i64, traded: i64) -> (r: i64)
    requires
        range >= 0,
        qty >= 0,
        traded > 0,
    ensures
        is_penalty(r as int, coefficient, range as int, qty as int, traded as int),
        r == penalty_of(coefficient, range as int, qty as int, traded as int),
{
    proof {
        assert(coefficient * coefficient <= 0xffff_fffe_0000_0001) by (nonlinear_arith)
            requires
                0 <= coefficient <= 0xffff_ffff,
        ;
    }
    let square: u128 = coefficient as u128 * coefficient as u128;
    proof {
        assert(0 <= square * qty <= 0xffff_fffe_0000_0001 * 0x7fff_ffff_ffff_ffff)
            by (nonlinear_arith)
            requires
                0 <= square <= 0xffff_fffe_0000_0001,
                0 <= qty <= 0x7fff_ffff_ffff_ffff,
        ;
        assert(0 <= range * range <= 0x7fff_ffff_ffff_ffff * 0x7fff_ffff_ffff_ffff)
            by (nonlinear_arith)
            requires
                0 <= range <= 0x7fff_ffff_ffff_ffff,
        ;
    }
    let a: u128 = square * qty as u128;
    let b: u128 = range as u128 * range as u128;
    let v: u128 = 10_000 * traded as u128;
    let mut lo: u64 = 0;
    let mut hi: u64 = 0x8000_0000_0000_0000;
    assert(v * 0 <= a * b) by (nonlinear_arith)
        requires
            a >= 0,
            b >= 0,
    ;
    while hi - lo > 1
        invariant
            lo < hi <= 0x8000_0000_0000_0000,
            traded > 0,
            v == 10_000 * traded,
            a == coefficient * coefficient * qty,
            b == range * range,
            within(lo as int, coefficient, range as int, qty as int, traded as int),
            hi == 0x8000_0000_0000_0000 || !within(
                hi as int,
                coefficient,
                range as int,
                qty as int,
                traded as int,
            ),
        decreases hi - lo,
    {
        let mid: u64 = lo + (hi - lo) / 2;
        proof {
            assert(mid * mid <= 0x7fff_ffff_ffff_ffff * 0x7fff_ffff_ffff_ffff) by (nonlinear_arith)
                requires
                    0 <= mid <= 0x7fff_ffff_ffff_ffff,
            ;
        }
        let s: u128 = mid as u128 * mid as u128;
        if product_at_most(v, s, a, b) {
            lo = mid;
        } else {
            hi = mid;
        }
    }
    proof {
        let p = penalty_of(coefficient, range as int, qty as int, traded as int);
        assert(is_penalty(lo as int, coefficient, range as int, qty as int, traded as int));
        lemma_penalty_unique(
            lo as int,
            p,
            coefficient,
            range as int,
            qty as int,
            traded as int,
        );
    }
    lo as i64
}

} // verus!

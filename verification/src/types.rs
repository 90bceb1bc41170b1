//! The integers every other module speaks in.
//!
//! Prices are ticks, quantities are lots, money is a fixed-point integer and
//! time is nanoseconds. Nothing here is a floating-point number, so a result
//! computed on one machine is the result computed on every other.
//!
//! Sums and products saturate at the ends of `i64` instead of wrapping: an
//! account that reaches either end stays there, on every build.
use vstd::prelude::*;

verus! {

/// Money units per unit of account currency.
pub const CASH_SCALE: i64 = 100_000_000;

/// Ratio units per whole.
pub const RATIO_SCALE: i64 = 100_000_000;

/// `x`, held to the range of `i64`.
pub open spec fn clamp_i64(x: int) -> i64 {
    if x > i64::MAX {
        i64::MAX
    } else if x < i64::MIN {
        i64::MIN
    } else {
        x as i64
    }
}

/// Integer quotient rounded toward zero.
pub open spec fn quotient(num: int, den: int) -> int
    recommends
        den != 0,
{
    let n = if den < 0 {
        -num
    } else {
        num
    };
    let d = if den < 0 {
        -den
    } else {
        den
    };
    if n >= 0 {
        n / d
    } else {
        -((-n) / d)
    }
}

/// Distance from zero.
pub open spec fn magnitude(x: int) -> int {
    if x < 0 {
        -x
    } else {
        x
    }
}

/// Hold a wide integer to the range of `i64`.
pub fn saturate(x: i128) -> (r: i64)
    ensures
        r == clamp_i64(x as int),
{
    if x > i64::MAX as i128 {
        i64::MAX
    } else if x < i64::MIN as i128 {
        i64::MIN
    } else {
        x as i64
    }
}

/// The sum, saturating.
pub fn sat_add(a: i64, b: i64) -> (r: i64)
    ensures
        r == clamp_i64(a + b),
{
    saturate(a as i128 + b as i128)
}

/// The difference, saturating.
pub fn sat_sub(a: i64, b: i64) -> (r: i64)
    ensures
        r == clamp_i64(a - b),
{
    saturate(a as i128 - b as i128)
}

/// The product, saturating.
pub fn sat_mul(a: i64, b: i64) -> (r: i64)
    ensures
        r == clamp_i64(a * b),
{
    let wide: i128 = wide_mul(a, b);
    saturate(wide)
}

/// The product of two `i64`, which always fits in `i128`.
pub fn wide_mul(a: i64, b: i64) -> (r: i128)
    ensures
        r == a * b,
        magnitude(r as int) <= 0x4000_0000_0000_0000_0000_0000_0000_0000,
{
    proof {
        lemma_product_bound(a as int, b as int, 0x8000_0000_0000_0000, 0x8000_0000_0000_0000);
    }
    (a as i128) * (b as i128)
}

/// Distance from zero, saturating at `i64::MAX`.
pub fn sat_abs(a: i64) -> (r: i64)
    ensures
        r == clamp_i64(magnitude(a as int)),
        r >= 0,
{
    if a >= 0 {
        a
    } else if a == i64::MIN {
        i64::MAX
    } else {
        -a
    }
}

/// Quotient rounded toward zero, by a positive divisor.
pub fn truncated_div(num: i128, den: i128) -> (r: i128)
    requires
        den > 0,
    ensures
        r == quotient(num as int, den as int),
        magnitude(r as int) <= magnitude(num as int),
{
    proof {
        assert(magnitude(num as int) / (den as int) <= magnitude(num as int)) by (nonlinear_arith)
            requires
                den > 0,
                magnitude(num as int) >= 0,
        ;
    }
    if num >= 0 {
        num / den
    } else if num == i128::MIN {
        // The one magnitude with no positive counterpart: take one divisor off
        // first, divide, and give it back.
        if den == i128::MAX {
            proof {
                assert(quotient(num as int, den as int) == -1) by (nonlinear_arith)
                    requires
                        num == i128::MIN,
                        den == i128::MAX,
                ;
            }
            return -1;
        }
        let rest: i128 = -(num + den);
        let q: i128 = rest / den;
        proof {
            let n = -(num as int);
            let d = den as int;
            assert(n / d == (n - d) / d + 1) by (nonlinear_arith)
                requires
                    d > 0,
            ;
            assert(rest == n - d);
        }
        -q - 1
    } else {
        -((-num) / den)
    }
}

/// Quotient rounded toward zero, by any divisor but zero.
pub fn signed_div(num: i128, den: i128) -> (r: i128)
    requires
        den != 0,
        num > i128::MIN,
        den > i128::MIN,
    ensures
        r == quotient(num as int, den as int),
{
    if den < 0 {
        truncated_div(-num, -den)
    } else {
        truncated_div(num, den)
    }
}

/// A bound on a product from bounds on its factors.
pub proof fn lemma_product_bound(a: int, b: int, m: int, n: int)
    by (nonlinear_arith)
    requires
        magnitude(a) <= m,
        magnitude(b) <= n,
    ensures
        magnitude(a * b) <= m * n,
{
}

/// An instant, or a length of time, in nanoseconds.
#[derive(Clone, Copy, Debug, PartialEq, Eq, PartialOrd, Ord, Hash, Default, Structural)]
pub struct Nanos(pub i64);

/// A price in ticks.
#[derive(Clone, Copy, Debug, PartialEq, Eq, PartialOrd, Ord, Hash, Default, Structural)]
pub struct PriceTicks(pub i64);

/// A quantity in lots. Signed where it is a position: positive is long.
#[derive(Clone, Copy, Debug, PartialEq, Eq, PartialOrd, Ord, Hash, Default, Structural)]
pub struct QtyLots(pub i64);

/// Money, in units of one over [`CASH_SCALE`].
#[derive(Clone, Copy, Debug, PartialEq, Eq, PartialOrd, Ord, Hash, Default, Structural)]
pub struct Cash(pub i64);

/// A dimensionless rate, in units of one over [`RATIO_SCALE`].
#[derive(Clone, Copy, Debug, PartialEq, Eq, PartialOrd, Ord, Hash, Default, Structural)]
pub struct Ratio(pub i64);

/// A caller's order identifier.
#[derive(Clone, Copy, Debug, PartialEq, Eq, PartialOrd, Ord, Hash, Default, Structural)]
pub struct OrderId(pub u64);

/// An execution identifier, dense from one within an engine.
#[derive(Clone, Copy, Debug, PartialEq, Eq, PartialOrd, Ord, Hash, Default, Structural)]
pub struct TradeId(pub u64);

/// An instrument.
#[derive(Clone, Copy, Debug, PartialEq, Eq, PartialOrd, Ord, Hash, Default, Structural)]
pub struct InstrumentId(pub u32);

/// Which way an order trades.
#[derive(Clone, Copy, Debug, PartialEq, Eq, Hash, Structural)]
pub enum Side {
    Buy,
    Sell,
}

/// Whether an order adds to a position or reduces one.
#[derive(Clone, Copy, Debug, PartialEq, Eq, Hash, Structural)]
pub enum Offset {
    Open,
    Close,
}

/// Whether a fill rested in the book or took from it.
#[derive(Clone, Copy, Debug, PartialEq, Eq, Hash, Structural)]
pub enum Liquidity {
    Maker,
    Taker,
}

/// When something happened at the venue and when it was heard of here.
#[derive(Clone, Copy, Debug, PartialEq, Eq, Hash, Default, Structural)]
pub struct Stamp {
    pub exch: Nanos,
    pub local: Nanos,
}

/// One execution.
#[derive(Clone, Copy, Debug, PartialEq, Eq, Hash, Structural)]
pub struct Fill {
    pub stamp: Stamp,
    pub instrument: InstrumentId,
    pub order: OrderId,
    pub trade: TradeId,
    pub side: Side,
    pub offset: Offset,
    pub price: PriceTicks,
    pub qty: QtyLots,
    pub liquidity: Liquidity,
}

/// A limit order with its price, or a market order without one.
#[derive(Clone, Copy, Debug, PartialEq, Eq, Hash, Structural)]
pub enum OrderKind {
    Limit { price: PriceTicks },
    Market,
}

/// An accepted order with quantity left to trade.
#[derive(Clone, Copy, Debug, PartialEq, Eq, Hash, Structural)]
pub struct Working {
    pub id: OrderId,
    pub side: Side,
    pub kind: OrderKind,
    /// Quantity not yet traded.
    pub remaining: QtyLots,
    pub stamp: Stamp,
    pub offset: Offset,
}

impl InstrumentId {
    pub fn new(id: u32) -> (r: Self)
        ensures
            r == InstrumentId(id),
    {
        InstrumentId(id)
    }
}

impl OrderId {
    pub fn new(id: u64) -> (r: Self)
        ensures
            r == OrderId(id),
    {
        OrderId(id)
    }
}

impl Nanos {
    pub fn from_secs(secs: i64) -> (r: Self)
        ensures
            r.0 == clamp_i64(secs * 1_000_000_000),
    {
        Nanos(sat_mul(secs, 1_000_000_000))
    }
}

impl Stamp {
    /// A stamp from the venue's clock and this machine's.
    pub fn new(exch: i64, local: i64) -> (r: Self)
        ensures
            r == (Stamp { exch: Nanos(exch), local: Nanos(local) }),
    {
        Stamp { exch: Nanos(exch), local: Nanos(local) }
    }

    /// A stamp for data with one clock.
    pub fn synthetic(ns: i64) -> (r: Self)
        ensures
            r == (Stamp { exch: Nanos(ns), local: Nanos(ns) }),
    {
        Stamp { exch: Nanos(ns), local: Nanos(ns) }
    }
}

impl Side {
    pub open spec fn spec_sign(self) -> int {
        match self {
            Side::Buy => 1,
            Side::Sell => -1,
        }
    }

    /// One for a buy, minus one for a sell.
    pub fn sign(self) -> (r: i64)
        ensures
            r == self.spec_sign(),
    {
        match self {
            Side::Buy => 1,
            Side::Sell => -1,
        }
    }
}

impl QtyLots {
    /// The sum, saturating.
    pub fn add(self, other: QtyLots) -> (r: QtyLots)
        ensures
            r.0 == clamp_i64(self.0 + other.0),
    {
        QtyLots(sat_add(self.0, other.0))
    }

    pub fn is_zero(self) -> (r: bool)
        ensures
            r == (self.0 == 0),
    {
        self.0 == 0
    }
}

impl Cash {
    /// Whole units of account currency.
    pub fn from_units(units: i64) -> (r: Cash)
        ensures
            r.0 == clamp_i64(units * CASH_SCALE),
    {
        Cash(sat_mul(units, CASH_SCALE))
    }

    pub open spec fn plus(self, other: Cash) -> Cash {
        Cash(clamp_i64(self.0 + other.0))
    }

    pub open spec fn minus(self, other: Cash) -> Cash {
        Cash(clamp_i64(self.0 - other.0))
    }

    pub open spec fn times(self, rate: Ratio) -> Cash {
        Cash(clamp_i64(quotient(self.0 * rate.0, RATIO_SCALE as int)))
    }

    /// The sum, saturating.
    pub fn add(self, other: Cash) -> (r: Cash)
        ensures
            r == self.plus(other),
    {
        Cash(sat_add(self.0, other.0))
    }

    /// The difference, saturating.
    pub fn sub(self, other: Cash) -> (r: Cash)
        ensures
            r == self.minus(other),
    {
        Cash(sat_sub(self.0, other.0))
    }

    /// This amount times a rate, rounded toward zero.
    pub fn scaled(self, rate: Ratio) -> (r: Cash)
        ensures
            r == self.times(rate),
    {
        Cash(saturate(truncated_div(wide_mul(self.0, rate.0), RATIO_SCALE as i128)))
    }
}

impl Ratio {
    /// Parts per million.
    pub fn from_ppm(ppm: i64) -> (r: Ratio)
        ensures
            r.0 == clamp_i64(ppm * 100),
    {
        Ratio(sat_mul(ppm, 100))
    }

    /// Whole percents.
    pub fn from_percent(percent: i64) -> (r: Ratio)
        ensures
            r.0 == clamp_i64(percent * 1_000_000),
    {
        Ratio(sat_mul(percent, 1_000_000))
    }
}

impl Fill {
    pub open spec fn spec_delta(self) -> QtyLots {
        QtyLots(clamp_i64(self.qty.0 * self.side.spec_sign()))
    }

    /// What this fill does to a netted position: its quantity, signed by side.
    pub fn position_delta(&self) -> (r: QtyLots)
        ensures
            r == self.spec_delta(),
    {
        QtyLots(sat_mul(self.qty.0, self.side.sign()))
    }
}

impl Working {
    pub open spec fn spec_price(self) -> Option<PriceTicks> {
        match self.kind {
            OrderKind::Limit { price } => Some(price),
            OrderKind::Market => None,
        }
    }

    pub fn id(&self) -> (r: OrderId)
        ensures
            r == self.id,
    {
        self.id
    }

    pub fn side(&self) -> (r: Side)
        ensures
            r == self.side,
    {
        self.side
    }

    /// The limit price, or `None` for a market order.
    pub fn price(&self) -> (r: Option<PriceTicks>)
        ensures
            r == self.spec_price(),
    {
        match self.kind {
            OrderKind::Limit { price } => Some(price),
            OrderKind::Market => None,
        }
    }

    pub fn offset(&self) -> (r: Offset)
        ensures
            r == self.offset,
    {
        self.offset
    }

    pub fn remaining(&self) -> (r: QtyLots)
        ensures
            r == self.remaining,
    {
        self.remaining
    }
}

/// A working limit order.
pub fn limit_order(
    id: OrderId,
    side: Side,
    price: PriceTicks,
    qty: QtyLots,
    stamp: Stamp,
    offset: Offset,
) -> (r: Working)
    ensures
        r == (Working {
            id,
            side,
            kind: OrderKind::Limit { price },
            remaining: qty,
            stamp,
            offset,
        }),
{
    Working { id, side, kind: OrderKind::Limit { price }, remaining: qty, stamp, offset }
}

/// A working market order.
pub fn market_order(id: OrderId, side: Side, qty: QtyLots, stamp: Stamp, offset: Offset) -> (r:
    Working)
    ensures
        r == (Working { id, side, kind: OrderKind::Market, remaining: qty, stamp, offset }),
{
    Working { id, side, kind: OrderKind::Market, remaining: qty, stamp, offset }
}

/// A number held to the range of `i64` is itself where it fits, and the nearer
/// end of the range where it does not.
pub proof fn law_saturation_is_exact_inside(x: int)
    ensures
        i64::MIN <= x <= i64::MAX ==> clamp_i64(x) == x,
        x > i64::MAX ==> clamp_i64(x) == i64::MAX,
        x < i64::MIN ==> clamp_i64(x) == i64::MIN,
{
}

/// A quotient is cut toward nought: it has the sign of the division or is
/// nought, and what is left over is smaller than the divisor and has the sign
/// of the dividend.
pub proof fn law_a_quotient_is_cut_toward_nought(num: int, den: int)
    requires
        den != 0,
    ensures
        magnitude(num - quotient(num, den) * den) < magnitude(den),
        num >= 0 ==> num - quotient(num, den) * den >= 0,
        num <= 0 ==> num - quotient(num, den) * den <= 0,
{
    let d = magnitude(den);
    let m = magnitude(num);
    let q = m / d;
    assert(q * d <= m < q * d + d) by (nonlinear_arith)
        requires
            d > 0,
            q == m / d,
    ;
    assert((-q) * d == -(q * d)) by (nonlinear_arith);
    assert(q * (-d) == -(q * d)) by (nonlinear_arith);
    assert((-q) * (-d) == q * d) by (nonlinear_arith);
}

/// Sums and differences of money are exact until they leave the range, and a
/// sum undoes a difference.
pub proof fn law_money_adds_up(a: Cash, b: Cash)
    ensures
        i64::MIN <= a.0 + b.0 <= i64::MAX ==> a.plus(b).0 == a.0 + b.0,
        i64::MIN <= a.0 - b.0 <= i64::MAX ==> a.minus(b).0 == a.0 - b.0,
        a.plus(b) == b.plus(a),
        i64::MIN <= a.0 - b.0 <= i64::MAX ==> a.minus(b).plus(b) == a,
{
}

/// A buy adds its quantity to a position, and a sell takes it off.
pub proof fn law_a_fill_moves_the_position_by_its_quantity(f: Fill)
    requires
        f.qty.0 > i64::MIN,
    ensures
        f.side == Side::Buy ==> f.spec_delta().0 == f.qty.0,
        f.side == Side::Sell ==> f.spec_delta().0 == -f.qty.0,
{
}

} // verus!

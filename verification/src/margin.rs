//! Contracts, margin brackets and funding.
use crate::types::{
    clamp_i64, magnitude, sat_abs, saturate, wide_mul, Cash, Nanos, PriceTicks, QtyLots, Ratio,
};
use vstd::prelude::*;

verus! {

/// A linear contract: money per tick of price per lot of quantity.
#[derive(Clone, Copy, Debug, PartialEq, Eq, Structural)]
pub struct Contract {
    pub tick_value: i64,
}

/// `x * n`, held to the range of `i64`.
fn clamp_mul(x: i128, n: i64) -> (r: i64)
    ensures
        r == clamp_i64(x * n),
{
    if n == 0 || x == 0 {
        assert(x * n == 0) by (nonlinear_arith)
            requires
                n == 0 || x == 0,
        ;
        return 0;
    }
    if x > i64::MAX as i128 || x < i64::MIN as i128 {
        // One factor alone leaves the range, so the product does.
        let up = (x > 0) == (n > 0);
        proof {
            assert(x > 0 && n > 0 ==> x * n >= x) by (nonlinear_arith);
            assert(x > 0 && n < 0 ==> x * n <= -x) by (nonlinear_arith);
            assert(x < 0 && n > 0 ==> x * n <= x) by (nonlinear_arith);
            assert(x < 0 && n < 0 ==> x * n >= -x) by (nonlinear_arith);
        }
        return if up {
            i64::MAX
        } else {
            i64::MIN
        };
    }
    saturate(wide_mul(x as i64, n))
}

impl Contract {
    pub fn new(tick_value: i64) -> (r: Self)
        ensures
            r == (Contract { tick_value }),
    {
        Contract { tick_value }
    }

    /// The value of `qty` lots at `price`, signed as the quantity is.
    pub open spec fn value(self, price: PriceTicks, qty: QtyLots) -> Cash {
        Cash(clamp_i64(price.0 * qty.0 * self.tick_value))
    }

    /// What a position of `qty` lots entered at `entry` has gained at `mark`.
    pub open spec fn gain(self, entry: PriceTicks, mark: PriceTicks, qty: QtyLots) -> Cash {
        Cash(clamp_i64((mark.0 - entry.0) * qty.0 * self.tick_value))
    }

    /// The value of `qty` lots at `price`, signed as the quantity is.
    pub fn notional(&self, price: PriceTicks, qty: QtyLots) -> (r: Cash)
        ensures
            r == self.value(price, qty),
    {
        Cash(clamp_mul(wide_mul(price.0, qty.0), self.tick_value))
    }

    /// What a position of `qty` lots entered at `entry` has gained at `mark`.
    pub fn unrealized(&self, entry: PriceTicks, mark: PriceTicks, qty: QtyLots) -> (r: Cash)
        ensures
            r == self.gain(entry, mark, qty),
    {
        let moved: i128 = mark.0 as i128 - entry.0 as i128;
        proof {
            crate::types::lemma_product_bound(
                moved as int,
                qty.0 as int,
                0xffff_ffff_ffff_ffff,
                0x8000_0000_0000_0000,
            );
        }
        let lots: i128 = moved * qty.0 as i128;
        Cash(clamp_mul(lots, self.tick_value))
    }
}

/// One bracket of a maintenance table.
#[derive(Clone, Copy, Debug, PartialEq, Eq, Structural)]
pub struct MarginTier {
    /// The largest notional this bracket covers.
    pub max_notional: Cash,
    /// Maintenance as a share of notional.
    pub rate: Ratio,
    /// What is taken off, so the requirement is continuous across brackets.
    pub amount: Cash,
}

/// Maintenance brackets, by notional.
#[derive(Clone, Debug, PartialEq, Eq)]
pub struct TierTable {
    tiers: Vec<MarginTier>,
}

impl View for TierTable {
    type V = Seq<MarginTier>;

    closed spec fn view(&self) -> Seq<MarginTier> {
        self.tiers@
    }
}

/// At least one bracket, each wider than the one before.
pub open spec fn brackets(tiers: Seq<MarginTier>) -> bool {
    &&& tiers.len() > 0
    &&& forall|i: int, j: int|
        0 <= i < j < tiers.len() ==> (#[trigger] tiers[i]).max_notional.0 < (
        #[trigger] tiers[j]).max_notional.0
}

/// The bracket a notional falls in: the first that covers it, else the last.
pub open spec fn bracket_of(tiers: Seq<MarginTier>, notional: Cash) -> MarginTier
    decreases tiers.len(),
{
    if tiers.len() <= 1 || notional.0 <= tiers[0].max_notional.0 {
        tiers[0]
    } else {
        bracket_of(tiers.drop_first(), notional)
    }
}

/// The margin a position must keep.
pub open spec fn required(
    tiers: Seq<MarginTier>,
    contract: Contract,
    mark: PriceTicks,
    qty: QtyLots,
) -> Cash {
    let notional = Cash(clamp_i64(magnitude(contract.value(mark, qty).0 as int)));
    let tier = bracket_of(tiers, notional);
    notional.times(tier.rate).minus(tier.amount)
}

/// A bracket from whole units and parts per million.
pub open spec fn bracket(max_units: int, rate_ppm: int, amount_units: int) -> MarginTier {
    MarginTier {
        max_notional: Cash(clamp_i64(max_units * 100_000_000)),
        rate: Ratio(clamp_i64(rate_ppm * 100)),
        amount: Cash(clamp_i64(amount_units * 100_000_000)),
    }
}

/// Ten brackets in the shape a large perpetual uses.
pub open spec fn example_brackets() -> Seq<MarginTier> {
    seq![
        bracket(50_000, 4_000, 0),
        bracket(250_000, 5_000, 50),
        bracket(1_000_000, 10_000, 1_300),
        bracket(10_000_000, 25_000, 16_300),
        bracket(20_000_000, 50_000, 266_300),
        bracket(50_000_000, 100_000, 1_266_300),
        bracket(100_000_000, 125_000, 2_516_300),
        bracket(200_000_000, 150_000, 5_016_300),
        bracket(300_000_000, 250_000, 25_016_300),
        bracket(500_000_000, 500_000, 100_016_300),
    ]
}

impl TierTable {
    /// A table of brackets, or nothing where there is none or where one is no
    /// wider than the one before it.
    pub fn new(tiers: Vec<MarginTier>) -> (r: Option<Self>)
        ensures
            r is Some <==> brackets(tiers@),
            r matches Some(t) ==> t@ == tiers@,
    {
        if tiers.len() == 0 {
            return None;
        }
        let mut i: usize = 1;
        while i < tiers.len()
            invariant
                1 <= i <= tiers@.len(),
                forall|a: int, b: int|
                    0 <= a < b < i ==> (#[trigger] tiers@[a]).max_notional.0 < (
                    #[trigger] tiers@[b]).max_notional.0,
            decreases tiers@.len() - i,
        {
            if tiers[i - 1].max_notional.0 >= tiers[i].max_notional.0 {
                proof {
                    assert(tiers@[i - 1].max_notional.0 >= tiers@[i as int].max_notional.0);
                }
                return None;
            }
            i += 1;
        }
        Some(TierTable { tiers })
    }

    /// Another table with the same brackets.
    pub fn duplicate(&self) -> (r: Self)
        ensures
            r@ == self@,
    {
        let mut tiers: Vec<MarginTier> = Vec::new();
        let mut i: usize = 0;
        while i < self.tiers.len()
            invariant
                i <= self.tiers@.len(),
                tiers@ == self.tiers@.subrange(0, i as int),
            decreases self.tiers@.len() - i,
        {
            tiers.push(self.tiers[i]);
            i += 1;
            assert(tiers@ =~= self.tiers@.subrange(0, i as int));
        }
        assert(tiers@ =~= self.tiers@);
        TierTable { tiers }
    }

    /// A ten-bracket table in the shape a large perpetual uses.
    pub fn example_btcusdt() -> (r: Self)
        ensures
            brackets(r@),
            r@ == example_brackets(),
    {
        let mut tiers: Vec<MarginTier> = Vec::new();
        tiers.push(Self::tier(50_000, 4_000, 0));
        tiers.push(Self::tier(250_000, 5_000, 50));
        tiers.push(Self::tier(1_000_000, 10_000, 1_300));
        tiers.push(Self::tier(10_000_000, 25_000, 16_300));
        tiers.push(Self::tier(20_000_000, 50_000, 266_300));
        tiers.push(Self::tier(50_000_000, 100_000, 1_266_300));
        tiers.push(Self::tier(100_000_000, 125_000, 2_516_300));
        tiers.push(Self::tier(200_000_000, 150_000, 5_016_300));
        tiers.push(Self::tier(300_000_000, 250_000, 25_016_300));
        tiers.push(Self::tier(500_000_000, 500_000, 100_016_300));
        assert(tiers@ =~= example_brackets());
        TierTable { tiers }
    }

    /// A bracket from whole units and parts per million.
    fn tier(max_units: i64, rate_ppm: i64, amount_units: i64) -> (r: MarginTier)
        ensures
            r == bracket(max_units as int, rate_ppm as int, amount_units as int),
    {
        MarginTier {
            max_notional: Cash::from_units(max_units),
            rate: Ratio::from_ppm(rate_ppm),
            amount: Cash::from_units(amount_units),
        }
    }

    /// The margin a position must keep.
    pub fn maintenance(&self, contract: Contract, mark: PriceTicks, qty: QtyLots) -> (r: Cash)
        requires
            self@.len() > 0,
        ensures
            r == required(self@, contract, mark, qty),
    {
        let notional = Cash(sat_abs(contract.notional(mark, qty).0));
        let mut i: usize = 0;
        let total: usize = self.tiers.len();
        assert(self.tiers@.subrange(0, self.tiers@.len() as int) =~= self.tiers@);
        while i + 1 < total && notional.0 > self.tiers[i].max_notional.0
            invariant
                i < total == self.tiers@.len(),
                bracket_of(self.tiers@, notional) == bracket_of(
                    self.tiers@.subrange(i as int, self.tiers@.len() as int),
                    notional,
                ),
            decreases total - i,
        {
            proof {
                let rest = self.tiers@.subrange(i as int, self.tiers@.len() as int);
                assert(rest.drop_first() =~= self.tiers@.subrange(
                    i + 1,
                    self.tiers@.len() as int,
                ));
            }
            i += 1;
        }
        let tier = self.tiers[i];
        notional.scaled(tier.rate).sub(tier.amount)
    }
}

/// A position and the collateral behind it.
#[derive(Clone, Copy, Debug, PartialEq, Eq, Structural)]
pub struct MarginedPosition {
    pub contract: Contract,
    pub entry: PriceTicks,
    pub qty: QtyLots,
    pub balance: Cash,
}

impl MarginedPosition {
    pub fn new(contract: Contract, entry: PriceTicks, qty: QtyLots, balance: Cash) -> (r: Self)
        ensures
            r == (MarginedPosition { contract, entry, qty, balance }),
    {
        MarginedPosition { contract, entry, qty, balance }
    }

    pub open spec fn equity_at(self, mark: PriceTicks) -> Cash {
        self.balance.plus(self.contract.gain(self.entry, mark, self.qty))
    }

    /// Whether equity at `mark` is below what the position must keep.
    pub open spec fn under_water(self, tiers: Seq<MarginTier>, mark: PriceTicks) -> bool {
        self.equity_at(mark).0 < required(tiers, self.contract, mark, self.qty).0
    }

    /// Whether equity at `mark` is below what the position must keep.
    pub fn is_liquidatable(&self, table: &TierTable, mark: PriceTicks) -> (r: bool)
        requires
            table@.len() > 0,
        ensures
            r == self.under_water(table@, mark),
    {
        let equity = self.balance.add(
            self.contract.unrealized(self.entry, mark, self.qty),
        );
        equity.0 < table.maintenance(self.contract, mark, self.qty).0
    }

    /// A price at which the position is closed while one tick nearer its entry
    /// it is not. Nothing for a flat position, for one that is already below
    /// its requirement at entry, and for one that survives as far as prices
    /// go.
    pub fn liquidation_price(&self, table: &TierTable) -> (r: Option<PriceTicks>)
        requires
            table@.len() > 0,
        ensures
            r is Some <==> !self.under_water(table@, self.entry) && ({
                ||| self.qty.0 > 0 && self.entry.0 > 0 && self.under_water(table@, PriceTicks(0))
                ||| self.qty.0 < 0 && self.entry.0 < i64::MAX && self.under_water(
                    table@,
                    PriceTicks(i64::MAX),
                )
            }),
            r matches Some(p) ==> {
                &&& self.under_water(table@, p)
                &&& self.qty.0 > 0 ==> 0 <= p.0 < self.entry.0 && !self.under_water(
                    table@,
                    PriceTicks((p.0 + 1) as i64),
                )
                &&& self.qty.0 < 0 ==> p.0 > self.entry.0 && !self.under_water(
                    table@,
                    PriceTicks((p.0 - 1) as i64),
                )
            },
    {
        if self.qty.0 == 0 || self.is_liquidatable(table, self.entry) {
            return None;
        }
        if self.qty.0 > 0 {
            if self.entry.0 <= 0 || !self.is_liquidatable(table, PriceTicks(0)) {
                return None;
            }
            let mut dead: i64 = 0;
            let mut alive: i64 = self.entry.0;
            while alive - dead > 1
                invariant
                    table@.len() > 0,
                    0 <= dead < alive <= self.entry.0,
                    self.under_water(table@, PriceTicks(dead)),
                    !self.under_water(table@, PriceTicks(alive)),
                decreases alive - dead,
            {
                let mid: i64 = dead + (alive - dead) / 2;
                if self.is_liquidatable(table, PriceTicks(mid)) {
                    dead = mid;
                } else {
                    alive = mid;
                }
            }
            Some(PriceTicks(dead))
        } else {
            if self.entry.0 == i64::MAX || !self.is_liquidatable(table, PriceTicks(i64::MAX)) {
                return None;
            }
            let mut dead: i64 = i64::MAX;
            let mut alive: i64 = self.entry.0;
            while alive < dead - 1
                invariant
                    table@.len() > 0,
                    self.entry.0 <= alive < dead,
                    self.under_water(table@, PriceTicks(dead)),
                    !self.under_water(table@, PriceTicks(alive)),
                decreases dead - alive,
            {
                let gap: i128 = dead as i128 - alive as i128;
                let mid: i64 = (alive as i128 + gap / 2) as i64;
                if self.is_liquidatable(table, PriceTicks(mid)) {
                    dead = mid;
                } else {
                    alive = mid;
                }
            }
            Some(PriceTicks(dead))
        }
    }
}

/// A funding rate, when it settles and at what mark.
#[derive(Clone, Copy, Debug, PartialEq, Eq, Structural)]
pub struct FundingRate {
    pub at: Nanos,
    pub rate: Ratio,
    pub mark: PriceTicks,
}

impl FundingRate {
    pub fn new(at: Nanos, rate: Ratio, mark: PriceTicks) -> (r: Self)
        ensures
            r == (FundingRate { at, rate, mark }),
    {
        FundingRate { at, rate, mark }
    }

    /// What a position receives: a long pays a positive rate.
    pub open spec fn payment(self, contract: Contract, qty: QtyLots) -> Cash {
        Cash(0).minus(contract.value(self.mark, qty).times(self.rate))
    }

    /// What a position receives: a long pays a positive rate.
    pub fn settle(&self, contract: Contract, qty: QtyLots) -> (r: Cash)
        ensures
            r == self.payment(contract, qty),
    {
        Cash(0).sub(contract.notional(self.mark, qty).scaled(self.rate))
    }
}

/// Funding settlements, in the order they are given.
#[derive(Clone, Debug, Default, PartialEq, Eq)]
pub struct FundingSchedule {
    rates: Vec<FundingRate>,
}

impl View for FundingSchedule {
    type V = Seq<FundingRate>;

    closed spec fn view(&self) -> Seq<FundingRate> {
        self.rates@
    }
}

/// Whether a settlement falls behind `after` and no later than `upto`.
pub open spec fn falls_between(r: FundingRate, after: Nanos, upto: Nanos) -> bool {
    after.0 < r.at.0 <= upto.0
}

/// The settlements of a schedule that fall behind `after` and no later than
/// `upto`.
pub open spec fn due(rates: Seq<FundingRate>, after: Nanos, upto: Nanos) -> Seq<FundingRate> {
    rates.filter(|x: FundingRate| falls_between(x, after, upto))
}

impl FundingSchedule {
    /// No settlements.
    pub fn none() -> (r: Self)
        ensures
            r@ == Seq::<FundingRate>::empty(),
    {
        FundingSchedule { rates: Vec::new() }
    }

    /// The settlements given, in the order given.
    pub fn new(rates: Vec<FundingRate>) -> (r: Self)
        ensures
            r@ == rates@,
    {
        FundingSchedule { rates }
    }

    pub fn is_empty(&self) -> (r: bool)
        ensures
            r == (self@.len() == 0),
    {
        self.rates.len() == 0
    }

    /// Another schedule with the same settlements.
    pub fn duplicate(&self) -> (r: Self)
        ensures
            r@ == self@,
    {
        let mut rates: Vec<FundingRate> = Vec::new();
        let mut i: usize = 0;
        while i < self.rates.len()
            invariant
                i <= self.rates@.len(),
                rates@ == self.rates@.subrange(0, i as int),
            decreases self.rates@.len() - i,
        {
            rates.push(self.rates[i]);
            i += 1;
            assert(rates@ =~= self.rates@.subrange(0, i as int));
        }
        assert(rates@ =~= self.rates@);
        FundingSchedule { rates }
    }

    /// The settlements behind `after` and no later than `upto`. Half-open, so
    /// consecutive intervals settle nothing twice and skip nothing.
    pub fn between(&self, after: Nanos, upto: Nanos) -> (r: Vec<FundingRate>)
        ensures
            r@ == due(self@, after, upto),
    {
        let ghost test = |x: FundingRate| falls_between(x, after, upto);
        let mut out: Vec<FundingRate> = Vec::new();
        let mut i: usize = 0;
        proof {
            reveal(Seq::filter);
            assert(self.rates@.subrange(0, 0) =~= Seq::<FundingRate>::empty());
        }
        while i < self.rates.len()
            invariant
                i <= self.rates@.len(),
                test == (|x: FundingRate| falls_between(x, after, upto)),
                out@ == self.rates@.subrange(0, i as int).filter(test),
            decreases self.rates@.len() - i,
        {
            let x = self.rates[i];
            proof {
                reveal(Seq::filter);
                assert(self.rates@.subrange(0, i + 1).drop_last() =~= self.rates@.subrange(
                    0,
                    i as int,
                ));
            }
            if after.0 < x.at.0 && x.at.0 <= upto.0 {
                out.push(x);
            }
            i += 1;
        }
        assert(self.rates@.subrange(0, i as int) =~= self.rates@);
        out
    }
}

/// Two intervals that meet settle together what their union settles: nothing
/// falls in both, and nothing falls between.
pub proof fn law_intervals_partition(r: FundingRate, a: Nanos, b: Nanos, c: Nanos)
    requires
        a.0 <= b.0 <= c.0,
    ensures
        falls_between(r, a, c) == (falls_between(r, a, b) || falls_between(r, b, c)),
        !(falls_between(r, a, b) && falls_between(r, b, c)),
{
}

} // verus!

//! What an account is worth: what a fill costs, what it earns, and what is
//! owed on it.
use crate::ledger::event::EventView;
use crate::ledger::kernel::{KernelView, Output, PositionMode, StateView, Step};
use crate::ledger::kernel_laws::fits;
use crate::margin::{bracket_of, brackets, example_brackets, required, Contract, FundingRate, MarginTier};
use crate::types::{
    quotient, Cash, Fill, Liquidity, Nanos, Offset, PriceTicks, QtyLots, Ratio, Side,
};
use vstd::prelude::*;

verus! {

/// How far apart two numbers are.
pub open spec fn apart(a: int, b: int) -> int {
    if a < b {
        b - a
    } else {
        a - b
    }
}

/// The lots a fill adds to a position, negative for a sell.
pub open spec fn lots(fill: Fill) -> int {
    match fill.side {
        Side::Buy => fill.qty.0 as int,
        Side::Sell => -fill.qty.0,
    }
}

/// Whether `n` lots can be held, long or short.
pub open spec fn holdable(n: int) -> bool {
    -i64::MAX <= n <= i64::MAX
}

proof fn lemma_quotient(n: int, d: int)
    requires
        d > 0,
    ensures
        apart(quotient(n, d) * d, n) < d,
        n >= 0 ==> 0 <= quotient(n, d) * d <= n && quotient(n, d) >= 0,
        n <= 0 ==> n <= quotient(n, d) * d <= 0 && quotient(n, d) <= 0,
{
    let m = if n >= 0 {
        n
    } else {
        -n
    };
    let q = m / d;
    assert(q * d <= m < q * d + d && q >= 0) by (nonlinear_arith)
        requires
            d > 0,
            m >= 0,
            q == m / d,
    ;
    assert((-q) * d == -(q * d)) by (nonlinear_arith);
    assert(0 <= q * d) by (nonlinear_arith)
        requires
            q >= 0,
            d > 0,
    ;
}

proof fn lemma_average(e: int, h: int, p: int, a: int)
    requires
        0 <= h,
        0 <= a,
        0 < h + a,
    ensures
        ({
            let q = quotient(e * h + p * a, h + a);
            &&& apart(q * (h + a), e * h + p * a) < h + a
            &&& h == 0 ==> q == p
            &&& e <= p ==> q <= p
            &&& p <= e ==> p <= q
            &&& h > 0 && e <= p ==> e <= q
            &&& h > 0 && p <= e ==> q <= e
        }),
{
    let n = e * h + p * a;
    let t = h + a;
    let q = quotient(n, t);
    lemma_quotient(n, t);
    let lo = if e <= p {
        e
    } else {
        p
    };
    let hi = if e <= p {
        p
    } else {
        e
    };
    assert(lo * t <= n <= hi * t) by (nonlinear_arith)
        requires
            n == e * h + p * a,
            t == h + a,
            0 <= h,
            0 <= a,
            lo <= e <= hi,
            lo <= p <= hi,
    ;
    assert(lo <= q <= hi) by (nonlinear_arith)
        requires
            lo * t <= n <= hi * t,
            t > 0,
            q * t - n < t,
            n - q * t < t,
            n >= 0 ==> 0 <= q * t <= n,
            n <= 0 ==> n <= q * t <= 0,
    ;
    if h == 0 {
        assert(p * t == n) by (nonlinear_arith)
            requires
                n == e * h + p * a,
                t == h + a,
                h == 0,
        ;
        assert(q == p) by (nonlinear_arith)
            requires
                p * t == n,
                t > 0,
                q * t - n < t,
                n - q * t < t,
        ;
    }
}

/// A fill that adds to a position keeps its cost: the new entry times the new
/// size is what the old position cost and what the fill costs, to less than a
/// tick for each lot held. The entry lies between the two prices, nothing is
/// realized, and the cash is what it was.
pub proof fn law_adding_keeps_the_cost(s: StateView, fill: Fill)
    requires
        s.mode == PositionMode::OneWay,
        fill.qty.0 > 0,
        s.qty.0 == 0 || (s.qty.0 > 0) == (fill.side == Side::Buy),
        holdable(s.qty.0 as int),
        holdable(s.qty.0 + lots(fill)),
    ensures
        ({
            let after = s.fill(fill);
            let size = apart(after.qty.0 as int, 0);
            &&& after.qty.0 == s.qty.0 + lots(fill)
            &&& apart(
                after.entry.0 * after.qty.0,
                s.entry.0 * s.qty.0 + fill.price.0 * lots(fill),
            ) < size
            &&& s.qty.0 == 0 ==> after.entry == fill.price
            &&& s.qty.0 != 0 && s.entry.0 <= fill.price.0 ==> s.entry.0 <= after.entry.0
                <= fill.price.0
            &&& s.qty.0 != 0 && fill.price.0 <= s.entry.0 ==> fill.price.0 <= after.entry.0
                <= s.entry.0
            &&& after.realized == s.realized
            &&& after.balance == s.balance
            &&& after == (StateView { qty: after.qty, entry: after.entry, ..s })
        }),
{
    let h = apart(s.qty.0 as int, 0);
    let a = fill.qty.0 as int;
    let e = s.entry.0 as int;
    let p = fill.price.0 as int;
    lemma_average(e, h, p, a);
    let q = quotient(e * h + p * a, h + a);
    assert(fill.qty.0 * fill.side.spec_sign() == lots(fill));
    assert(s.fill(fill).entry.0 == q);
    assert(e * (-h) == -(e * h)) by (nonlinear_arith);
    assert(p * (-a) == -(p * a)) by (nonlinear_arith);
    assert(q * (-(h + a)) == -(q * (h + a))) by (nonlinear_arith);
}

/// Adding at a price leaves equity at that mark unchanged, to less than a
/// tick's value for each lot held.
pub proof fn law_adding_keeps_equity(s: StateView, fill: Fill)
    requires
        s.mode == PositionMode::OneWay,
        fill.qty.0 > 0,
        s.qty.0 == 0 || (s.qty.0 > 0) == (fill.side == Side::Buy),
        s.short_qty.0 == 0,
        s.mark == fill.price,
        s.contract.tick_value > 0,
        holdable(s.qty.0 as int),
        holdable(s.qty.0 + lots(fill)),
        i64::MIN < s.unrealized().0 < i64::MAX,
        i64::MIN < s.equity().0 < i64::MAX,
        i64::MIN < s.fill(fill).unrealized().0 < i64::MAX,
        i64::MIN < s.fill(fill).equity().0 < i64::MAX,
    ensures
        apart(s.fill(fill).equity().0 as int, s.equity().0 as int) < apart(
            s.qty.0 + lots(fill),
            0,
        ) * s.contract.tick_value,
{
    law_adding_keeps_the_cost(s, fill);
    let after = s.fill(fill);
    let v = s.contract.tick_value as int;
    let m = s.mark.0 as int;
    let d = lots(fill);
    let (q, e) = (s.qty.0 as int, s.entry.0 as int);
    let (q2, e2) = (after.qty.0 as int, after.entry.0 as int);
    let size = apart(q2, 0);
    let gap = e2 * q2 - (e * q + m * d);
    let g1 = (m - e) * q;
    let g2 = (m - e2) * q2;
    assert(g2 - g1 == -gap) by (nonlinear_arith)
        requires
            g1 == (m - e) * q,
            g2 == (m - e2) * q2,
            q2 == q + d,
            gap == e2 * q2 - (e * q + m * d),
    ;
    assert(q == 0 ==> g1 * v == 0) by (nonlinear_arith)
        requires
            g1 == (m - e) * q,
    ;
    assert(g2 * v - g1 * v == -gap * v) by (nonlinear_arith)
        requires
            g2 - g1 == -gap,
    ;
    assert(-(size * v) < -gap * v < size * v) by (nonlinear_arith)
        requires
            -size < gap < size,
            v > 0,
    ;
    assert(s.unrealized().0 == g1 * v);
    assert(after.unrealized().0 == g2 * v);
}

/// Under hedge accounting an open adds to the leg its side names, and keeps
/// that leg's cost: to less than a tick for each lot held, the leg's new entry
/// times its new size is what it cost and what the fill costs.
pub proof fn law_opening_keeps_the_cost(s: StateView, fill: Fill)
    requires
        s.mode == PositionMode::Hedge,
        fill.offset == Offset::Open,
        fill.qty.0 > 0,
        s.qty.0 >= 0,
        -i64::MAX <= s.short_qty.0 <= 0,
        fill.side == Side::Buy ==> holdable(s.qty.0 + fill.qty.0),
        fill.side == Side::Sell ==> holdable(s.short_qty.0 - fill.qty.0),
    ensures
        ({
            let after = s.fill(fill);
            &&& fill.side == Side::Buy ==> {
                &&& after == (StateView { qty: after.qty, entry: after.entry, ..s })
                &&& after.qty.0 == s.qty.0 + fill.qty.0
                &&& apart(
                    after.entry.0 * after.qty.0,
                    s.entry.0 * s.qty.0 + fill.price.0 * fill.qty.0,
                ) < after.qty.0
                &&& s.qty.0 == 0 ==> after.entry == fill.price
            }
            &&& fill.side == Side::Sell ==> {
                &&& after == (StateView {
                    short_qty: after.short_qty,
                    short_entry: after.short_entry,
                    ..s
                })
                &&& after.short_qty.0 == s.short_qty.0 - fill.qty.0
                &&& apart(
                    after.short_entry.0 * after.short_qty.0,
                    s.short_entry.0 * s.short_qty.0 - fill.price.0 * fill.qty.0,
                ) < -after.short_qty.0
                &&& s.short_qty.0 == 0 ==> after.short_entry == fill.price
            }
        }),
{
    let (h, e) = match fill.side {
        Side::Buy => (s.qty.0 as int, s.entry.0 as int),
        Side::Sell => (-s.short_qty.0 as int, s.short_entry.0 as int),
    };
    let a = fill.qty.0 as int;
    let p = fill.price.0 as int;
    lemma_average(e, h, p, a);
    let q = quotient(e * h + p * a, h + a);
    assert(1 * (h + a) == h + a);
    assert((-1) * (h + a) == -(h + a));
    assert(e * (-h) == -(e * h)) by (nonlinear_arith);
    assert(q * (-(h + a)) == -(q * (h + a))) by (nonlinear_arith);
}

/// What `n` lots entered at `entry` bring at `price`.
pub open spec fn earned(c: Contract, entry: PriceTicks, price: PriceTicks, n: int) -> int {
    (price.0 - entry.0) * n * c.tick_value
}

/// A fill against a position realizes the difference between its price and the
/// entry on the lots it closes, and no more. What is left keeps its entry,
/// what is turned over starts at the fill's price, and a flat position has
/// none.
pub proof fn law_closing_realizes_the_difference(s: StateView, fill: Fill)
    requires
        s.mode == PositionMode::OneWay,
        fill.qty.0 > 0,
        s.qty.0 != 0,
        (s.qty.0 > 0) == (fill.side == Side::Sell),
        holdable(s.qty.0 as int),
    ensures
        ({
            let after = s.fill(fill);
            let size = apart(s.qty.0 as int, 0);
            let closed = if fill.qty.0 <= size {
                -lots(fill)
            } else {
                s.qty.0 as int
            };
            let pnl = earned(s.contract, s.entry, fill.price, closed);
            &&& after.qty.0 == s.qty.0 + lots(fill)
            &&& fill.qty.0 < size ==> after.entry == s.entry
            &&& fill.qty.0 == size ==> after.entry.0 == 0
            &&& fill.qty.0 > size ==> after.entry == fill.price
            &&& fits(pnl) && fits(s.realized.0 + pnl) ==> after.realized.0 == s.realized.0 + pnl
            &&& fits(pnl) && fits(s.balance.0 + pnl) ==> after.balance.0 == s.balance.0 + pnl
            &&& after == (StateView {
                qty: after.qty,
                entry: after.entry,
                realized: after.realized,
                balance: after.balance,
                ..s
            })
        }),
{
    let size = apart(s.qty.0 as int, 0);
    assert(fill.qty.0 * fill.side.spec_sign() == lots(fill));
    let closed = if fill.qty.0 <= size {
        fill.qty.0 as int
    } else {
        size
    };
    assert(closed * 1 == closed);
    assert(closed * (-1) == -closed);
}

/// Under hedge accounting a close realizes the difference between its price
/// and the leg's entry on the lots it closes, which are no more than the leg
/// holds. What is left of the leg keeps its entry.
pub proof fn law_closing_a_leg_realizes_the_difference(s: StateView, fill: Fill)
    requires
        s.mode == PositionMode::Hedge,
        fill.offset == Offset::Close,
        fill.qty.0 > 0,
        s.qty.0 >= 0,
        -i64::MAX <= s.short_qty.0 <= 0,
    ensures
        ({
            let after = s.fill(fill);
            let size = match fill.side {
                Side::Sell => s.qty.0 as int,
                Side::Buy => -s.short_qty.0 as int,
            };
            let closed = if fill.qty.0 <= size {
                fill.qty.0 as int
            } else {
                size
            };
            let pnl = match fill.side {
                Side::Sell => earned(s.contract, s.entry, fill.price, closed),
                Side::Buy => earned(s.contract, s.short_entry, fill.price, -closed),
            };
            &&& fill.side == Side::Sell ==> {
                &&& after.qty.0 == s.qty.0 - closed
                &&& after.short_qty == s.short_qty
                &&& after.short_entry == s.short_entry
                &&& closed < size ==> after.entry == s.entry
            }
            &&& fill.side == Side::Buy ==> {
                &&& after.short_qty.0 == s.short_qty.0 + closed
                &&& after.qty == s.qty
                &&& after.entry == s.entry
                &&& closed < size ==> after.short_entry == s.short_entry
            }
            &&& fits(pnl) && fits(s.realized.0 + pnl) ==> after.realized.0 == s.realized.0 + pnl
            &&& fits(pnl) && fits(s.balance.0 + pnl) ==> after.balance.0 == s.balance.0 + pnl
        }),
{
    let size = match fill.side {
        Side::Sell => s.qty.0 as int,
        Side::Buy => -s.short_qty.0 as int,
    };
    let closed = if fill.qty.0 <= size {
        fill.qty.0 as int
    } else {
        size
    };
    assert(closed * 1 == closed);
    assert(closed * (-1) == -closed);
    assert((fill.price.0 - s.entry.0) * 0 * s.contract.tick_value == 0) by (nonlinear_arith);
    assert((fill.price.0 - s.short_entry.0) * (-0int) * s.contract.tick_value == 0)
        by (nonlinear_arith);
}

/// A share of an amount is the amount times the rate over its scale, cut
/// toward nought.
pub proof fn law_a_share_is_cut_toward_nought(amount: Cash, rate: Ratio)
    requires
        apart(amount.0 * rate.0, 0) <= i64::MAX * 100_000_000,
    ensures
        apart(amount.times(rate).0 * 100_000_000, amount.0 * rate.0) < 100_000_000,
        apart(amount.times(rate).0 * 100_000_000, 0) <= apart(amount.0 * rate.0, 0),
{
    lemma_quotient(amount.0 * rate.0, 100_000_000);
}

/// A fill is charged its notional times the rate of the liquidity it took or
/// made, to less than the smallest amount; and the charge leaves the balance
/// and is counted among the fees.
pub proof fn law_a_fill_is_charged_its_share(s: StateView, fill: Fill, worth: int, rate: Ratio)
    requires
        worth == fill.price.0 * fill.qty.0 * s.contract.tick_value,
        fits(worth),
        rate == (if fill.liquidity == Liquidity::Taker {
            s.fee_schedule.taker
        } else {
            s.fee_schedule.maker
        }),
        apart(worth * rate.0, 0) <= i64::MAX * 100_000_000,
    ensures
        ({
            let fee = s.fee_schedule.fee(s.contract, fill).0;
            let charged = StateView {
                fees: s.settle(fill).fees,
                balance: Cash((s.balance.0 - fee) as i64),
                ..s
            };
            &&& apart(fee * 100_000_000, worth * rate.0) < 100_000_000
            &&& apart(fee * 100_000_000, 0) <= apart(worth * rate.0, 0)
            &&& fits(s.fees.0 + fee) ==> s.settle(fill).fees.0 == s.fees.0 + fee
            &&& fits(s.balance.0 - fee) && fits(s.fees.0 + fee) ==> s.settle(fill) == charged.fill(
                fill,
            )
        }),
{
    law_a_share_is_cut_toward_nought(Cash(worth as i64), rate);
    crate::ledger::kernel::lemma_fill_keeps(
        StateView {
            fees: s.fees.plus(s.fee_schedule.fee(s.contract, fill)),
            balance: s.balance.minus(s.fee_schedule.fee(s.contract, fill)),
            ..s
        },
        fill,
    );
}

/// Equity is the balance and what both legs have gained at the mark.
pub proof fn law_equity_is_balance_and_gains(s: StateView)
    requires
        ({
            let long = earned(s.contract, s.entry, s.mark, s.qty.0 as int);
            let short = earned(s.contract, s.short_entry, s.mark, s.short_qty.0 as int);
            fits(long) && fits(short) && fits(long + short) && fits(s.balance.0 + long + short)
        }),
    ensures
        s.unrealized().0 == earned(s.contract, s.entry, s.mark, s.qty.0 as int) + earned(
            s.contract,
            s.short_entry,
            s.mark,
            s.short_qty.0 as int,
        ),
        s.equity().0 == s.balance.0 + s.unrealized().0,
{
    let a = s.mark.0 - s.entry.0;
    let b = s.mark.0 - s.short_entry.0;
    let v = s.contract.tick_value as int;
    assert(a * 0 * v == 0 && b * 0 * v == 0) by (nonlinear_arith);
}

proof fn lemma_bracket_is(tiers: Seq<MarginTier>, notional: Cash, i: int)
    requires
        0 <= i < tiers.len(),
        notional.0 <= tiers[i].max_notional.0 || i == tiers.len() - 1,
        forall|j: int| 0 <= j < i ==> (#[trigger] tiers[j]).max_notional.0 < notional.0,
    ensures
        bracket_of(tiers, notional) == tiers[i],
    decreases tiers.len(),
{
    if i > 0 {
        assert(tiers[0].max_notional.0 < notional.0);
        let rest = tiers.drop_first();
        assert forall|j: int| 0 <= j < i - 1 implies (#[trigger] rest[j]).max_notional.0
            < notional.0 by {
            assert(rest[j] == tiers[j + 1]);
        }
        lemma_bracket_is(rest, notional, i - 1);
        assert(rest[i - 1] == tiers[i]);
    }
}

/// What a position must keep is the rate of its bracket on its notional, less
/// the bracket's amount, long and short alike. Its bracket is the narrowest
/// that covers the notional, or the widest of all where none does.
pub proof fn law_the_bracket_sets_the_requirement(
    tiers: Seq<MarginTier>,
    contract: Contract,
    mark: PriceTicks,
    qty: QtyLots,
    worth: int,
    i: int,
)
    requires
        brackets(tiers),
        0 <= i < tiers.len(),
        worth == apart(mark.0 * qty.0 * contract.tick_value, 0),
        worth <= i64::MAX,
        worth <= tiers[i].max_notional.0 || i == tiers.len() - 1,
        i > 0 ==> tiers[i - 1].max_notional.0 < worth,
        apart(worth * tiers[i].rate.0, 0) <= i64::MAX * 100_000_000,
        i64::MIN < required(tiers, contract, mark, qty).0 < i64::MAX,
    ensures
        apart(
            (required(tiers, contract, mark, qty).0 + tiers[i].amount.0) * 100_000_000,
            worth * tiers[i].rate.0,
        ) < 100_000_000,
{
    assert forall|j: int| 0 <= j < i implies (#[trigger] tiers[j]).max_notional.0 < worth by {
        if j < i - 1 {
            assert(tiers[j].max_notional.0 < tiers[i - 1].max_notional.0);
        }
    }
    let notional = Cash(worth as i64);
    assert(contract.value(mark, qty).0 == mark.0 * qty.0 * contract.tick_value);
    lemma_bracket_is(tiers, notional, i);
    law_a_share_is_cut_toward_nought(notional, tiers[i].rate);
}

proof fn lemma_products(a: int, b: int, c: int, m: int, r: int, q: int)
    requires
        m == a,
        r == b,
        q == c,
    ensures
        m * r == a * b,
        m * q == a * c,
{
}

/// The example table asks for no jump: where one bracket ends and the next
/// begins, both ask for the same, and every bracket asks a higher rate than
/// the one before it.
pub proof fn law_the_example_table_is_continuous(i: int)
    requires
        0 <= i < 9,
    ensures
        ({
            let a = example_brackets()[i];
            let b = example_brackets()[i + 1];
            &&& example_brackets().len() == 10
            &&& a.max_notional.0 * a.rate.0 - a.amount.0 * 100_000_000 == a.max_notional.0
                * b.rate.0 - b.amount.0 * 100_000_000
            &&& 0 < a.rate.0 < b.rate.0 <= 50_000_000
            &&& 0 < a.max_notional.0 < b.max_notional.0
            &&& example_brackets()[0].amount.0 == 0
        }),
{
    let t = example_brackets();
    let (m, r, q) = (t[i].max_notional.0 as int, t[i].rate.0 as int, t[i + 1].rate.0 as int);
    if i == 0 {
        lemma_products(5_000_000_000_000, 400_000, 500_000, m, r, q);
    } else if i == 1 {
        lemma_products(25_000_000_000_000, 500_000, 1_000_000, m, r, q);
    } else if i == 2 {
        lemma_products(100_000_000_000_000, 1_000_000, 2_500_000, m, r, q);
    } else if i == 3 {
        lemma_products(1_000_000_000_000_000, 2_500_000, 5_000_000, m, r, q);
    } else if i == 4 {
        lemma_products(2_000_000_000_000_000, 5_000_000, 10_000_000, m, r, q);
    } else if i == 5 {
        lemma_products(5_000_000_000_000_000, 10_000_000, 12_500_000, m, r, q);
    } else if i == 6 {
        lemma_products(10_000_000_000_000_000, 12_500_000, 15_000_000, m, r, q);
    } else if i == 7 {
        lemma_products(20_000_000_000_000_000, 15_000_000, 25_000_000, m, r, q);
    } else if i == 8 {
        lemma_products(30_000_000_000_000_000, 25_000_000, 50_000_000, m, r, q);
    }
}

/// Whether the account is closed is a matter of equity and requirement alone:
/// it is closed when what it is worth at the mark is less than what it must
/// keep there, and never while it is flat or margin is not enforced.
pub proof fn law_the_account_is_closed_below_its_requirement(s: StateView, gain: int)
    requires
        s.short_qty.0 == 0,
        gain == earned(s.contract, s.entry, s.mark, s.qty.0 as int),
        fits(gain),
        fits(s.balance.0 + gain),
    ensures
        s.must_close(s.mark) == (s.enforce_liquidation && s.qty.0 != 0 && s.balance.0 + gain
            < required(s.table, s.contract, s.mark, s.qty).0),
{
    lemma_equity_of_one_leg(s, gain);
}

proof fn lemma_equity_of_one_leg(s: StateView, gain: int)
    requires
        s.short_qty.0 == 0,
        gain == earned(s.contract, s.entry, s.mark, s.qty.0 as int),
        fits(gain),
        fits(s.balance.0 + gain),
    ensures
        s.equity().0 == s.balance.0 + gain,
        s.qty.0 != 0 ==> s.maintenance(s.mark) == required(s.table, s.contract, s.mark, s.qty),
{
    let b = s.mark.0 - s.short_entry.0;
    let v = s.contract.tick_value as int;
    assert(b * 0 * v == 0) by (nonlinear_arith);
    law_equity_is_balance_and_gains(s);
}

/// A liquidation pays out what both legs have gained at the mark, and says at
/// what price, how many lots, and what is left.
pub proof fn law_a_liquidation_pays_both_legs(step: Step, mark: PriceTicks, pnl: int)
    requires
        step.kernel.state.must_close(mark),
        ({
            let s = step.kernel.state;
            let long = earned(s.contract, s.entry, mark, s.qty.0 as int);
            let short = earned(s.contract, s.short_entry, mark, s.short_qty.0 as int);
            &&& pnl == long + short
            &&& fits(long) && fits(short) && fits(pnl)
            &&& fits(s.balance.0 + pnl) && fits(s.realized.0 + pnl)
            &&& fits(s.qty.0 + s.short_qty.0)
        }),
    ensures
        ({
            let s = step.kernel.state;
            let after = step.check(mark).kernel.state;
            &&& after.balance.0 == s.balance.0 + pnl
            &&& after.realized.0 == s.realized.0 + pnl
            &&& after.fees == s.fees && after.funding == s.funding
            &&& after.qty.0 == 0 && after.short_qty.0 == 0
            &&& after.entry.0 == 0 && after.short_entry.0 == 0
            &&& step.check(mark).outputs == step.outputs.push(
                Output::Liquidated {
                    at: s.now,
                    price: mark,
                    qty: QtyLots((s.qty.0 + s.short_qty.0) as i64),
                    equity: Cash((s.balance.0 + pnl) as i64),
                },
            )
        }),
{
}

/// A long pays a positive rate and a short receives it: the payment is the
/// position's notional at the mark times the rate, against the position, to
/// less than the smallest amount.
pub proof fn law_funding_is_paid_on_the_notional(
    f: FundingRate,
    contract: Contract,
    qty: QtyLots,
    worth: int,
)
    requires
        worth == f.mark.0 * qty.0 * contract.tick_value,
        fits(worth),
        apart(worth * f.rate.0, 0) <= i64::MAX * 100_000_000,
    ensures
        apart(f.payment(contract, qty).0 * 100_000_000, -(worth * f.rate.0)) < 100_000_000,
        worth * f.rate.0 >= 0 ==> f.payment(contract, qty).0 <= 0,
        worth * f.rate.0 <= 0 ==> f.payment(contract, qty).0 >= 0,
{
    lemma_quotient(worth * f.rate.0, 100_000_000);
}

/// Two positions of one size on opposite sides pay each other: what one pays
/// the other receives.
pub proof fn law_funding_cancels_out(f: FundingRate, contract: Contract, a: QtyLots, b: QtyLots)
    requires
        b.0 == -a.0,
        fits(f.mark.0 * a.0 * contract.tick_value),
        fits(-(f.mark.0 * a.0 * contract.tick_value)),
        apart(f.mark.0 * a.0 * contract.tick_value * f.rate.0, 0) <= i64::MAX * 100_000_000,
    ensures
        f.payment(contract, b).0 == -f.payment(contract, a).0,
{
    let v = contract.tick_value as int;
    let m = f.mark.0 as int;
    let n = a.0 as int;
    let r = f.rate.0 as int;
    assert(m * (-n) * v == -(m * n * v)) by (nonlinear_arith);
    let w = m * n * v;
    assert((-w) * r == -(w * r)) by (nonlinear_arith);
    lemma_quotient(w * r, 100_000_000);
}

/// Funding moves the balance of an account with a position by the payment, and
/// counts it as funding; it is not trading profit.
pub proof fn law_funding_moves_the_balance(
    k: KernelView,
    at: Nanos,
    rate: Ratio,
    mark: PriceTicks,
    paid: int,
)
    requires
        k.state.qty.0 != 0,
        !k.state.enforce_liquidation,
        paid == (FundingRate { at, rate, mark }).payment(k.state.contract, k.state.qty).0,
        fits(k.state.balance.0 + paid),
        fits(k.state.funding.0 + paid),
    ensures
        ({
            let step = k.apply(EventView::Funding { at, rate, mark });
            &&& step.kernel.state == (StateView {
                now: at,
                balance: Cash((k.state.balance.0 + paid) as i64),
                funding: Cash((k.state.funding.0 + paid) as i64),
                ..k.state
            })
            &&& step.kernel.working == k.working
            &&& step.outputs == seq![Output::Funded { amount: Cash(paid as i64), at }]
        }),
{
    reveal(KernelView::apply);
    let step = k.apply(EventView::Funding { at, rate, mark });
    assert(step.outputs =~= seq![Output::Funded { amount: Cash(paid as i64), at }]);
}

/// Both legs have their requirement: what an account must keep is what the
/// long asks and what the short asks, and a flat leg asks nothing. Under hedge
/// accounting the account is closed when its equity is less than both.
pub proof fn law_both_legs_are_required(s: StateView, long: int, short: int)
    requires
        long == (if s.qty.0 == 0 {
            0
        } else {
            required(s.table, s.contract, s.mark, s.qty).0 as int
        }),
        short == (if s.short_qty.0 == 0 {
            0
        } else {
            required(s.table, s.contract, s.mark, s.short_qty).0 as int
        }),
        fits(long + short),
    ensures
        s.maintenance(s.mark).0 == long + short,
        s.mode == PositionMode::Hedge ==> s.must_close(s.mark) == (s.enforce_liquidation && !(
        s.qty.0 == 0 && s.short_qty.0 == 0) && s.equity().0 < long + short),
{
}

} // verus!

//! What L2 measures: the queue an order joins, and what taking costs.
use crate::engine::l0::L0Fill;
use crate::engine::l1::{arrived, worsened, Delay, L1View, Pending, Policy, Queued};
use crate::engine::l2::{shown, walked, L2View, Pricing};
use crate::engine::tick::Tick;
use crate::types::{Fill, Liquidity, Nanos, PriceTicks, Side, Working};
use crate::venue::book::{
    cost_from, displayed, given, is_plan, law_taking_depletes, law_two_takes_are_one,
    left_behind, lemma_sweep_fits, plan_cost, planned, swept, taken_from, SideView, Sweep,
};
use crate::venue::depth::Level;
use vstd::prelude::*;

verus! {

/// How much a sweep takes from each level.
spec fn taking(levels: Seq<Level>, want: int) -> Seq<int>
    decreases levels.len(),
{
    if levels.len() == 0 {
        Seq::empty()
    } else {
        let take = given(levels[0], want);
        seq![take] + taking(levels.drop_first(), want - take)
    }
}

proof fn lemma_taking(levels: Seq<Level>, want: int)
    requires
        0 <= want,
    ensures
        is_plan(levels, taking(levels, want)),
        planned(taking(levels, want)) == taken_from(levels, want),
        plan_cost(levels, taking(levels, want)) == cost_from(levels, want),
    decreases levels.len(),
{
    if levels.len() > 0 {
        let take = given(levels[0], want);
        let rest = taking(levels.drop_first(), want - take);
        lemma_taking(levels.drop_first(), want - take);
        let all = taking(levels, want);
        assert(all.drop_first() =~= rest);
        assert forall|i: int| 0 <= i < all.len() implies 0 <= #[trigger] all[i] && (all[i] == 0
            || all[i] <= levels[i].qty) by {
            if i > 0 {
                assert(all[i] == rest[i - 1]);
                assert(levels.drop_first()[i - 1] == levels[i]);
            }
        }
    }
}

/// What a sweep reports can be had: some way of taking no more from each level
/// than stands there takes as much and costs as much.
pub proof fn law_a_sweep_can_be_had(levels: Seq<Level>, qty: int)
    requires
        qty <= i64::MAX,
    ensures
        exists|plan: Seq<int>| #[trigger]
            is_plan(levels, plan) && planned(plan) == swept(levels, qty).taken && plan_cost(
                levels,
                plan,
            ) == swept(levels, qty).cost,
{
    let want = if qty > 0 {
        qty
    } else {
        0
    };
    lemma_sweep_fits(levels, qty);
    lemma_taking(levels, want);
    assert(is_plan(levels, taking(levels, want)));
}

/// A sweep gets the quantity asked for, or runs out having taken everything
/// displayed.
pub proof fn law_a_sweep_runs_out_only_of_depth(levels: Seq<Level>, qty: int)
    requires
        0 <= qty <= i64::MAX,
    ensures
        swept(levels, qty).exhausted == (displayed(levels) < qty),
        !swept(levels, qty).exhausted ==> swept(levels, qty).taken == qty,
        swept(levels, qty).exhausted ==> swept(levels, qty).taken == displayed(levels),
{
    lemma_sweep_fits(levels, qty);
    law_taking_depletes(levels, qty);
}

/// The price of a walk is its average, rounded to a tick against the taker:
/// the least whole price at which a buyer pays for what it took, and the
/// largest at which a seller is not overpaid. There is one wherever the book
/// goes deep enough.
pub proof fn law_a_walk_is_the_average(sweep: Sweep, side: Side)
    requires
        0 <= sweep.cost <= i64::MAX * sweep.taken,
        sweep.taken > 0,
    ensures
        match walked(sweep, side) {
            Some(p) => {
                &&& !sweep.exhausted
                &&& side == Side::Buy ==> (p.0 - 1) * sweep.taken < sweep.cost <= p.0 * sweep.taken
                &&& side == Side::Sell ==> p.0 * sweep.taken <= sweep.cost < (p.0 + 1)
                    * sweep.taken
            },
            None => sweep.exhausted,
        },
{
    let c = sweep.cost as int;
    let t = sweep.taken as int;
    let up = (c + t - 1) / t;
    let down = c / t;
    assert((up - 1) * t < c <= up * t) by (nonlinear_arith)
        requires
            up == (c + t - 1) / t,
            t > 0,
    ;
    assert(down * t <= c < (down + 1) * t) by (nonlinear_arith)
        requires
            down == c / t,
            t > 0,
    ;
    assert(0 <= down <= i64::MAX) by (nonlinear_arith)
        requires
            down * t <= c,
            c < (down + 1) * t,
            0 <= c <= i64::MAX * t,
            t > 0,
    ;
    assert(0 <= up <= i64::MAX) by (nonlinear_arith)
        requires
            (up - 1) * t < c,
            c <= up * t,
            0 <= c <= i64::MAX * t,
            t > 0,
    ;
}

proof fn lemma_cost_bound(levels: Seq<Level>, want: int)
    requires
        0 <= want,
        forall|i: int| 0 <= i < levels.len() ==> 0 <= (#[trigger] levels[i]).price,
    ensures
        0 <= cost_from(levels, want) <= i64::MAX * taken_from(levels, want),
    decreases levels.len(),
{
    if levels.len() > 0 {
        let take = given(levels[0], want);
        let rest = levels.drop_first();
        assert forall|i: int| 0 <= i < rest.len() implies 0 <= (#[trigger] rest[i]).price by {
            assert(rest[i] == levels[i + 1]);
        }
        lemma_cost_bound(rest, want - take);
        let p = levels[0].price as int;
        let more = taken_from(rest, want - take);
        assert(0 <= p * take <= i64::MAX * take) by (nonlinear_arith)
            requires
                0 <= p <= i64::MAX,
                0 <= take,
        ;
        assert(i64::MAX * (take + more) == i64::MAX * take + i64::MAX * more) by (nonlinear_arith);
    }
}

/// Whether every level of a side stands at a price a market can have.
pub open spec fn priced(side: SideView) -> bool {
    forall|i: int| 0 <= i < side.levels.len() ==> 0 <= (#[trigger] side.levels[i]).price
}

/// A taker the book goes deep enough for pays what walking it costs, or its
/// own price where that is worse: a buy walks the asks and pays no less than
/// they ask, a sell walks the bids and receives no more than they bid, both to
/// the tick. The quantity is gone from the side it walked and from no other,
/// and the fill is counted as measured.
pub proof fn law_a_taker_pays_for_the_walk(
    p: Pricing,
    policy: Policy,
    f: L0Fill,
    tick: Tick,
    traded: i64,
)
    requires
        f.fill.liquidity == Liquidity::Taker,
        f.fill.qty.0 > 0,
        priced(p.asks),
        priced(p.bids),
        p.swept < u64::MAX,
    ensures
        ({
            let next = p.price(policy, f, tick, traded);
            let paid = next.fills.last();
            let qty = f.fill.qty.0 as int;
            &&& next.fills.drop_last() == p.fills
            &&& paid == (L0Fill { fill: Fill { price: paid.fill.price, ..f.fill }, ..f })
            &&& f.fill.side == Side::Buy && displayed(p.asks.levels) >= qty ==> {
                let cost = cost_from(p.asks.levels, qty);
                &&& paid.fill.price.0 >= f.fill.price.0
                &&& paid.fill.price.0 * qty >= cost
                &&& paid.fill.price.0 == f.fill.price.0 || (paid.fill.price.0 - 1) * qty < cost
                &&& displayed(next.asks.levels) == displayed(p.asks.levels) - qty
                &&& next.bids == p.bids
                &&& next.swept == p.swept + 1
                &&& next.unswept == p.unswept
            }
            &&& f.fill.side == Side::Sell && displayed(p.bids.levels) >= qty ==> {
                let cost = cost_from(p.bids.levels, qty);
                &&& paid.fill.price.0 <= f.fill.price.0
                &&& paid.fill.price.0 * qty <= cost
                &&& paid.fill.price.0 == f.fill.price.0 || (paid.fill.price.0 + 1) * qty > cost
                &&& displayed(next.bids.levels) == displayed(p.bids.levels) - qty
                &&& next.asks == p.asks
                &&& next.swept == p.swept + 1
                &&& next.unswept == p.unswept
            }
        }),
{
    let qty = f.fill.qty.0 as int;
    let side = match f.fill.side {
        Side::Buy => p.asks,
        Side::Sell => p.bids,
    };
    let next = p.price(policy, f, tick, traded);
    assert(next.fills.drop_last() =~= p.fills);
    lemma_sweep_fits(side.levels, qty);
    law_taking_depletes(side.levels, qty);
    law_a_sweep_runs_out_only_of_depth(side.levels, qty);
    lemma_cost_bound(side.levels, qty);
    crate::engine::tier_laws::law_impact_never_helps(policy, f, tick, traded);
    if displayed(side.levels) >= qty {
        let sweep = swept(side.levels, qty);
        law_a_walk_is_the_average(sweep, f.fill.side);
        let walk = walked(sweep, f.fill.side)->Some_0.0 as int;
        let own = f.fill.price.0 as int;
        let paid = next.fills.last().fill.price.0 as int;
        assert(f.fill.side == Side::Buy ==> paid * qty >= walk * qty) by (nonlinear_arith)
            requires
                f.fill.side == Side::Buy ==> paid >= walk,
                qty > 0,
        ;
        assert(f.fill.side == Side::Sell ==> paid * qty <= walk * qty) by (nonlinear_arith)
            requires
                f.fill.side == Side::Sell ==> paid <= walk,
                qty > 0,
        ;
    }
}

/// A taker the book does not go deep enough for is charged by the policy, and
/// counted as not measured. A maker fill is left alone and takes nothing.
pub proof fn law_what_the_book_cannot_price_keeps_the_policy(
    p: Pricing,
    policy: Policy,
    f: L0Fill,
    tick: Tick,
    traded: i64,
)
    requires
        p.unswept < u64::MAX,
    ensures
        ({
            let next = p.price(policy, f, tick, traded);
            &&& f.fill.liquidity == Liquidity::Maker ==> next == (Pricing {
                fills: p.fills.push(f),
                ..p
            })
            &&& f.fill.liquidity == Liquidity::Taker && f.fill.qty.0 > 0 && displayed(
                match f.fill.side {
                    Side::Buy => p.asks.levels,
                    Side::Sell => p.bids.levels,
                },
            ) < f.fill.qty.0 ==> {
                &&& next.fills == p.fills.push(worsened(policy, f, tick, traded))
                &&& next.unswept == p.unswept + 1
                &&& next.swept == p.swept
            }
        }),
{
    let side = match f.fill.side {
        Side::Buy => p.asks,
        Side::Sell => p.bids,
    };
    if f.fill.qty.0 > 0 {
        law_a_sweep_runs_out_only_of_depth(side.levels, f.fill.qty.0 as int);
    }
}

/// Two takers of one observation share one book: the second pays for what the
/// first left, so between them they pay at least what one taker of both sizes
/// would.
pub proof fn law_takers_share_one_book(
    p: Pricing,
    policy: Policy,
    first: L0Fill,
    second: L0Fill,
    tick: Tick,
    traded: i64,
)
    requires
        first.fill.liquidity == Liquidity::Taker,
        second.fill.liquidity == Liquidity::Taker,
        first.fill.side == Side::Buy,
        second.fill.side == Side::Buy,
        first.fill.qty.0 > 0,
        second.fill.qty.0 > 0,
        p.asks.wf(),
        priced(p.asks),
        priced(p.bids),
        p.swept + 1 < u64::MAX,
        displayed(p.asks.levels) >= first.fill.qty.0 + second.fill.qty.0,
    ensures
        ({
            let done = p.price_all(policy, seq![first, second], tick, traded);
            let n = p.fills.len() as int;
            let a = first.fill.qty.0 as int;
            let b = second.fill.qty.0 as int;
            &&& done.fills.len() == n + 2
            &&& done.fills[n].fill.price.0 * a + done.fills[n + 1].fill.price.0 * b >= cost_from(
                p.asks.levels,
                a + b,
            )
            &&& displayed(done.asks.levels) == displayed(p.asks.levels) - a - b
        }),
{
    let both = seq![first, second];
    let one = seq![first];
    let a = first.fill.qty.0 as int;
    let b = second.fill.qty.0 as int;
    assert(both.drop_last() =~= one);
    assert(one.drop_last() =~= Seq::<L0Fill>::empty());
    assert(p.price_all(policy, one.drop_last(), tick, traded) == p);
    assert(one.last() == first);
    let mid = p.price(policy, first, tick, traded);
    assert(p.price_all(policy, one, tick, traded) == mid);
    let done = p.price_all(policy, both, tick, traded);
    assert(both.last() == second);
    assert(done == mid.price(policy, second, tick, traded));
    law_a_taker_pays_for_the_walk(p, policy, first, tick, traded);
    law_taking_depletes(p.asks.levels, a);
    law_two_takes_are_one(p.asks.levels, a, b);
    lemma_left_priced(p.asks.levels, a);
    law_a_taker_pays_for_the_walk(mid, policy, second, tick, traded);
    let n = p.fills.len() as int;
    assert(done.fills[n] == mid.fills[n]);
}

proof fn lemma_left_priced(levels: Seq<Level>, want: int)
    requires
        forall|i: int| 0 <= i < levels.len() ==> 0 <= (#[trigger] levels[i]).price,
    ensures
        ({
            let left = left_behind(levels, want);
            forall|i: int| 0 <= i < left.len() ==> 0 <= (#[trigger] left[i]).price
        }),
    decreases levels.len(),
{
    if levels.len() > 0 {
        let rest = levels.drop_first();
        assert forall|i: int| 0 <= i < rest.len() implies 0 <= (#[trigger] rest[i]).price by {
            assert(rest[i] == levels[i + 1]);
        }
        let take = given(levels[0], want);
        lemma_left_priced(rest, want - take);
        let left = left_behind(levels, want);
        let others = left_behind(rest, want - take);
        assert forall|i: int| 0 <= i < left.len() implies 0 <= (#[trigger] left[i]).price by {
            if take > 0 && take == levels[0].qty {
                assert(left[i] == others[i]);
            } else if i > 0 {
                assert(left[i] == others[i - 1]);
            } else {
                assert(levels[0].price >= 0);
            }
        }
    }
}

/// What is shown at a price is what the level there displays, and nothing
/// where no level stands.
pub proof fn law_shown_is_the_level(side: SideView, price: i64)
    requires
        side.wf(),
    ensures
        forall|i: int|
            0 <= i < side.levels.len() && (#[trigger] side.levels[i]).price == price ==> shown(
                side.levels,
                price,
            ) == side.levels[i].qty,
        (forall|i: int| 0 <= i < side.levels.len() ==> (#[trigger] side.levels[i]).price != price)
            ==> shown(side.levels, price) == 0,
    decreases side.levels.len(),
{
    let levels = side.levels;
    if levels.len() > 0 {
        let rest = SideView { levels: levels.drop_first(), ..side };
        assert forall|i: int, j: int| 0 <= i < j < rest.levels.len() implies rest.better(
            #[trigger] rest.levels[i].price,
            #[trigger] rest.levels[j].price,
        ) by {
            assert(side.better(levels[i + 1].price, levels[j + 1].price));
        }
        assert forall|i: int| 0 <= i < rest.levels.len() implies (#[trigger] rest.levels[i]).qty
            != 0 by {
            assert(levels[i + 1].qty != 0);
        }
        law_shown_is_the_level(rest, price);
        assert forall|i: int| 0 <= i < levels.len() && (#[trigger] levels[i]).price
            == price implies shown(levels, price) == levels[i].qty by {
            if i > 0 {
                assert(side.better(levels[0].price, levels[i].price));
                assert(rest.levels[i - 1] == levels[i]);
            }
        }
        if forall|i: int| 0 <= i < levels.len() ==> (#[trigger] levels[i]).price != price {
            assert forall|i: int| 0 <= i < rest.levels.len() implies (
            #[trigger] rest.levels[i]).price != price by {
                assert(rest.levels[i] == levels[i + 1]);
            }
            assert(levels[0].price != price);
        }
    }
}

/// An order sent to L2 stands behind what its own side displays at its price:
/// a buy behind the bids there, a sell behind the asks.
pub proof fn law_an_order_joins_what_is_displayed(
    v: L2View,
    order: Working,
    now: Nanos,
    price: PriceTicks,
    i: int,
)
    requires
        v.venue.wf(),
        order.spec_price() == Some(price),
        v.inner.policy.latency.entry == Delay::Fixed(Nanos(0)),
        order.side == Side::Buy ==> 0 <= i < v.venue.bids.levels.len() && v.venue.bids.levels[i].price
            == price.0 && v.venue.bids.levels[i].qty > 0,
        order.side == Side::Sell ==> 0 <= i < v.venue.asks.levels.len() && v.venue.asks.levels[i].price
            == price.0 && v.venue.asks.levels[i].qty > 0,
    ensures
        v.submit(order, now) == (L2View {
            inner: L1View {
                queued: v.inner.queued.push(
                    Queued {
                        remaining: match order.side {
                            Side::Buy => v.venue.bids.levels[i].qty,
                            Side::Sell => v.venue.asks.levels[i].qty,
                        },
                        order,
                    },
                ),
                ..v.inner
            },
            ..v
        }),
{
    law_shown_is_the_level(v.venue.bids, price.0);
    law_shown_is_the_level(v.venue.asks, price.0);
}

/// Where its own side displays nothing at its price, an order goes into the
/// book at once.
pub proof fn law_an_order_alone_at_its_price_is_first(
    v: L2View,
    order: Working,
    now: Nanos,
    price: PriceTicks,
)
    requires
        v.venue.wf(),
        order.spec_price() == Some(price),
        v.inner.policy.latency.entry == Delay::Fixed(Nanos(0)),
        order.side == Side::Buy ==> forall|i: int|
            0 <= i < v.venue.bids.levels.len() ==> (#[trigger] v.venue.bids.levels[i]).price
                != price.0,
        order.side == Side::Sell ==> forall|i: int|
            0 <= i < v.venue.asks.levels.len() ==> (#[trigger] v.venue.asks.levels[i]).price
                != price.0,
    ensures
        v.submit(order, now) == (L2View {
            inner: L1View { inner: v.inner.inner.submit(order), ..v.inner },
            ..v
        }),
{
    law_shown_is_the_level(v.venue.bids, price.0);
    law_shown_is_the_level(v.venue.asks, price.0);
}

/// The first taker of an observation walks the book the venue displays, a buy
/// its asks and a sell its bids; and the observation leaves that book as the
/// venue displayed it.
pub proof fn law_the_first_taker_walks_the_venues_book(v: L2View, tick: Tick)
    requires
        v.inner.policy.latency.response == Delay::Fixed(Nanos(0)),
        v.inner.observe(tick).fills.len() > 0,
        v.inner.observe(tick).fills[0].fill.liquidity == Liquidity::Taker,
        v.inner.observe(tick).fills[0].fill.qty.0 > 0,
        priced(v.venue.asks),
        priced(v.venue.bids),
        v.swept < u64::MAX,
    ensures
        ({
            let made = v.inner.observe(tick).fills;
            let own = made[0].fill;
            let told = v.on_tick(tick).fills;
            let paid = told[0].fill.price.0;
            let qty = own.qty.0 as int;
            &&& told.len() == made.len()
            &&& own.side == Side::Buy && displayed(v.venue.asks.levels) >= qty ==> {
                let cost = cost_from(v.venue.asks.levels, qty);
                paid * qty >= cost && paid >= own.price.0 && (paid == own.price.0 || (paid - 1)
                    * qty < cost)
            }
            &&& own.side == Side::Sell && displayed(v.venue.bids.levels) >= qty ==> {
                let cost = cost_from(v.venue.bids.levels, qty);
                paid * qty <= cost && paid <= own.price.0 && (paid == own.price.0 || (paid + 1)
                    * qty > cost)
            }
            &&& v.on_tick(tick).engine.venue == v.venue
        }),
{
    let raw = v.inner.observe(tick);
    let traded = v.inner.traded(tick);
    let policy = v.inner.policy;
    let begin = Pricing {
        bids: v.venue.bids,
        asks: v.venue.asks,
        fills: Seq::empty(),
        swept: v.swept,
        unswept: v.unswept,
    };
    let now = tick.stamp.exch;
    crate::engine::l1_laws::lemma_place_all_keeps(
        L1View { pending: v.inner.pending.filter(|p: Pending| !arrived(p, now)), ..v.inner },
        v.inner.pending.filter(|p: Pending| arrived(p, now)),
        traded,
    );
    let one = seq![raw.fills[0]];
    let rest = raw.fills.drop_first();
    assert(one + rest =~= raw.fills);
    assert(one.drop_last() =~= Seq::<L0Fill>::empty());
    assert(begin.price_all(policy, one.drop_last(), tick, traded) == begin);
    assert(one.last() == raw.fills[0]);
    let first = begin.price(policy, raw.fills[0], tick, traded);
    assert(begin.price_all(policy, one, tick, traded) == first);
    law_a_taker_pays_for_the_walk(begin, policy, raw.fills[0], tick, traded);
    assert(first.fills.len() == 1);
    lemma_priced_in_turn(begin, policy, one, rest, tick, traded);
    crate::engine::tier_laws::law_pricing_never_helps(first, policy, rest, tick, traded);
    lemma_priced_stand(first, policy, rest, tick, traded);
}

proof fn lemma_priced_in_turn(
    p: Pricing,
    policy: Policy,
    a: Seq<L0Fill>,
    b: Seq<L0Fill>,
    tick: Tick,
    traded: i64,
)
    ensures
        p.price_all(policy, a + b, tick, traded) == p.price_all(policy, a, tick, traded).price_all(
            policy,
            b,
            tick,
            traded,
        ),
    decreases b.len(),
{
    if b.len() == 0 {
        assert(a + b =~= a);
    } else {
        lemma_priced_in_turn(p, policy, a, b.drop_last(), tick, traded);
        assert((a + b).drop_last() =~= a + b.drop_last());
        assert((a + b).last() == b.last());
    }
}

proof fn lemma_priced_stand(
    p: Pricing,
    policy: Policy,
    raw: Seq<L0Fill>,
    tick: Tick,
    traded: i64,
)
    ensures
        p.price_all(policy, raw, tick, traded).fills.len() == p.fills.len() + raw.len(),
        forall|i: int|
            0 <= i < p.fills.len() ==> #[trigger] p.price_all(policy, raw, tick, traded).fills[i]
                == p.fills[i],
    decreases raw.len(),
{
    if raw.len() > 0 {
        lemma_priced_stand(p, policy, raw.drop_last(), tick, traded);
    }
}

} // verus!

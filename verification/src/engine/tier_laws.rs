//! What relates the tiers to one another.
use crate::engine::impact::{is_penalty, penalty_of, within};
use crate::engine::l0::L0Fill;
use crate::engine::l0_laws::{law_remove_is_exact, unique};
use crate::engine::l1::{arrived, worsened, L1View, Pending, Policy, Queued};
use crate::engine::l2::{no_better, shown, L2View, Pricing};
use crate::engine::tick::Tick;
use crate::types::{Liquidity, Nanos, OrderId, PriceTicks, Side, Working};
use crate::venue::book::swept;
use crate::venue::depth::Level;
use vstd::prelude::*;

verus! {

/// An L1 engine that models nothing and holds nothing of its own.
pub open spec fn bare(v: L1View) -> bool {
    &&& v.policy.nothing()
    &&& v.pending.len() == 0
    &&& v.queued.len() == 0
    &&& v.delayed.len() == 0
}

proof fn lemma_filter_empty<T>(s: Seq<T>, test: spec_fn(T) -> bool)
    requires
        s.len() == 0,
    ensures
        s.filter(test) == Seq::<T>::empty(),
{
    reveal(Seq::filter);
    assert(s =~= Seq::<T>::empty());
}

proof fn lemma_bare_observe(v: L1View, tick: Tick)
    requires
        bare(v),
    ensures
        v.observe(tick).fills == v.inner.on_tick(tick).fills,
        v.observe(tick).engine == (L1View { inner: v.inner.on_tick(tick).engine, ..v }),
{
    let now = tick.stamp.exch;
    lemma_filter_empty(v.pending, |p: Pending| !arrived(p, now));
    lemma_filter_empty(v.pending, |p: Pending| arrived(p, now));
    assert(v.pending =~= Seq::<Pending>::empty());
    assert(v.queued =~= Seq::<Queued>::empty());
    assert(v.observe(tick).engine =~= (L1View { inner: v.inner.on_tick(tick).engine, ..v }));
}

proof fn lemma_bare_prices(v: L1View, fills: Seq<L0Fill>, tick: Tick, traded: i64)
    requires
        bare(v),
    ensures
        fills.map_values(|f: L0Fill| worsened(v.policy, f, tick, traded)) == fills,
{
    assert(fills.map_values(|f: L0Fill| worsened(v.policy, f, tick, traded)) =~= fills);
}

/// With a policy that models nothing, L1 fills what L0 fills, and holds what
/// L0 holds; placing and withdrawing orders reach L0 unchanged.
pub proof fn law_a_transparent_l1_is_l0(
    v: L1View,
    tick: Tick,
    order: Working,
    now: Nanos,
    id: OrderId,
)
    requires
        bare(v),
    ensures
        bare(v.on_tick(tick).engine),
        v.on_tick(tick).fills == v.inner.on_tick(tick).fills,
        v.on_tick(tick).engine.inner == v.inner.on_tick(tick).engine,
        bare(v.submit(order, now)),
        v.submit(order, now).inner == v.inner.submit(order),
        bare(v.cancel(id)),
        v.cancel(id).inner == v.inner.cancel(id),
{
    lemma_bare_observe(v, tick);
    let run = v.observe(tick);
    lemma_bare_prices(v, run.fills, tick, v.traded(tick));
}

/// An L2 engine over a transparent policy that has seen no depth.
pub open spec fn unfed(v: L2View) -> bool {
    &&& bare(v.inner)
    &&& v.venue.bids.levels.len() == 0
    &&& v.venue.asks.levels.len() == 0
}

proof fn lemma_unfed_prices(p: Pricing, policy: Policy, raw: Seq<L0Fill>, tick: Tick, traded: i64)
    requires
        policy.nothing(),
        p.bids.levels.len() == 0,
        p.asks.levels.len() == 0,
    ensures
        ({
            let done = p.price_all(policy, raw, tick, traded);
            &&& done.fills == p.fills + raw
            &&& done.swept == p.swept
            &&& done.bids.levels.len() == 0
            &&& done.asks.levels.len() == 0
        }),
    decreases raw.len(),
{
    if raw.len() == 0 {
        assert(p.fills + raw =~= p.fills);
    } else {
        lemma_unfed_prices(p, policy, raw.drop_last(), tick, traded);
        let before = p.price_all(policy, raw.drop_last(), tick, traded);
        let f = raw.last();
        let hit = before.against(f.fill.side);
        assert(hit.levels =~= Seq::<Level>::empty());
        let next = before.price(policy, f, tick, traded);
        assert(p.fills + raw =~= (p.fills + raw.drop_last()).push(f));
    }
}

/// An L2 that has been given no depth, over a transparent policy, fills what
/// L0 fills, and claims to have measured nothing.
pub proof fn law_an_unfed_l2_is_l0(v: L2View, tick: Tick, order: Working, now: Nanos)
    requires
        unfed(v),
    ensures
        unfed(v.on_tick(tick).engine),
        v.on_tick(tick).fills == v.inner.inner.on_tick(tick).fills,
        v.on_tick(tick).engine.inner.inner == v.inner.inner.on_tick(tick).engine,
        v.on_tick(tick).engine.swept == v.swept,
        unfed(v.submit(order, now)),
        v.submit(order, now).inner.inner == v.inner.inner.submit(order),
{
    lemma_bare_observe(v.inner, tick);
    let raw = v.inner.observe(tick);
    let begin = Pricing {
        bids: v.venue.bids,
        asks: v.venue.asks,
        fills: Seq::empty(),
        swept: v.swept,
        unswept: v.unswept,
    };
    lemma_unfed_prices(begin, v.inner.policy, raw.fills, tick, v.inner.traded(tick));
    assert(Seq::<L0Fill>::empty() + raw.fills =~= raw.fills);
    match order.spec_price() {
        None => {},
        Some(p) => {
            assert(shown(v.venue.bids.levels, p.0) == 0);
            assert(shown(v.venue.asks.levels, p.0) == 0);
        },
    }
}

/// A fill no better for the one who took than another.
pub open spec fn no_better_than(worse: L0Fill, base: L0Fill) -> bool {
    &&& worse == (L0Fill {
        fill: crate::types::Fill { price: worse.fill.price, ..base.fill },
        ..base
    })
    &&& match base.fill.side {
        Side::Buy => worse.fill.price.0 >= base.fill.price.0,
        Side::Sell => worse.fill.price.0 <= base.fill.price.0,
    }
}

/// Impact changes a fill's price and nothing else, and never for the better.
pub proof fn law_impact_never_helps(policy: Policy, f: L0Fill, tick: Tick, traded: i64)
    ensures
        no_better_than(worsened(policy, f, tick, traded), f),
        f.fill.liquidity == Liquidity::Maker ==> worsened(policy, f, tick, traded) == f,
{
    let spread = crate::types::clamp_i64(tick.high.0 - tick.low.0);
    let c = policy.impact.coefficient;
    if c == 0 || f.fill.liquidity != Liquidity::Taker || traded <= 0 || spread <= 0
        || f.fill.qty.0 <= 0 {
    } else {
        lemma_a_penalty_exists(c, spread as int, f.fill.qty.0 as int, traded as int, 0);
    }
}

/// Counting up from any number within the law reaches the penalty.
proof fn lemma_a_penalty_exists(c: u32, range: int, qty: int, traded: int, from: int)
    requires
        0 <= from <= i64::MAX,
        range >= 0,
        qty >= 0,
        traded > 0,
        from == 0 || within(from, c, range, qty, traded),
    ensures
        0 <= penalty_of(c, range, qty, traded) <= i64::MAX,
    decreases i64::MAX - from,
{
    if from == 0 {
        assert((10_000 * traded) * (0int * 0int) == 0);
        let a = c * c * qty;
        assert(a >= 0) by (nonlinear_arith)
            requires
                a == c * c * qty,
                qty >= 0,
        ;
        let b = range * range;
        assert(a * b >= 0) by (nonlinear_arith)
            requires
                a >= 0,
                b == range * range,
        ;
    }
    if from == i64::MAX || !within(from + 1, c, range, qty, traded) {
        assert(is_penalty(from, c, range, qty, traded));
    } else {
        lemma_a_penalty_exists(c, range, qty, traded, from + 1);
    }
}

/// Walking the book changes a fill's price and nothing else, and never for
/// the better: climbing a tier cannot improve a fill.
pub proof fn law_a_walk_never_helps(f: L0Fill, walk: PriceTicks)
    ensures
        no_better_than(no_better(f, walk), f),
{
}

/// Every fill an L2 engine prices is no better than L0 made it.
pub proof fn law_pricing_never_helps(
    p: Pricing,
    policy: Policy,
    raw: Seq<L0Fill>,
    tick: Tick,
    traded: i64,
)
    ensures
        ({
            let done = p.price_all(policy, raw, tick, traded);
            &&& done.fills.len() == p.fills.len() + raw.len()
            &&& forall|i: int|
                0 <= i < raw.len() ==> no_better_than(
                    #[trigger] done.fills[p.fills.len() + i],
                    raw[i],
                )
        }),
    decreases raw.len(),
{
    if raw.len() > 0 {
        law_pricing_never_helps(p, policy, raw.drop_last(), tick, traded);
        let before = p.price_all(policy, raw.drop_last(), tick, traded);
        let done = p.price_all(policy, raw, tick, traded);
        law_impact_never_helps(policy, raw.last(), tick, traded);
        assert forall|i: int| 0 <= i < raw.len() implies no_better_than(
            #[trigger] done.fills[p.fills.len() + i],
            raw[i],
        ) by {
            if i < raw.len() - 1 {
                assert(done.fills[p.fills.len() + i] == before.fills[p.fills.len() + i]);
                assert(raw.drop_last()[i] == raw[i]);
            }
        }
    }
}

/// A withdrawn order is gone from wherever it was: not on its way, not in a
/// queue, and, where it was in the book, not there either.
pub proof fn law_a_cancel_reaches_every_place(v: L1View, id: OrderId)
    requires
        unique(v.inner.book),
    ensures
        !v.cancel(id).shadows(id),
        !v.shadows(id) ==> v.cancel(id).inner.book.find(id) is None,
{
    let w = v.cancel(id);
    if v.shadows(id) {
        let keep_p = |p: Pending| p.order.id != id;
        let keep_q = |q: Queued| q.order.id != id;
        assert forall|i: int| 0 <= i < w.pending.len() implies (#[trigger] w.pending[i]).order.id
            != id by {
            v.pending.lemma_filter_pred(keep_p, i);
        }
        assert forall|i: int| 0 <= i < w.queued.len() implies (#[trigger] w.queued[i]).order.id
            != id by {
            v.queued.lemma_filter_pred(keep_q, i);
        }
    } else {
        law_remove_is_exact(v.inner.book, id);
    }
}

proof fn lemma_place_all_pending(v: L1View, list: Seq<Pending>, volume: i64)
    ensures
        v.place_all(list, volume).pending == v.pending,
        v.place_all(list, volume).policy == v.policy,
    decreases list.len(),
{
    if list.len() > 0 {
        lemma_place_all_pending(v, list.drop_last(), volume);
    }
}

/// An order that has not reached the venue does not trade: it is still on
/// its way after the observation.
pub proof fn law_an_order_in_flight_cannot_trade(v: L1View, tick: Tick, i: int)
    requires
        0 <= i < v.pending.len(),
        v.pending[i].live_at.0 > tick.stamp.exch.0,
    ensures
        v.on_tick(tick).engine.pending.contains(v.pending[i]),
{
    let now = tick.stamp.exch;
    let away = |p: Pending| !arrived(p, now);
    v.pending.lemma_filter_contains(away, i);
    lemma_place_all_pending(
        L1View { pending: v.pending.filter(away), ..v },
        v.pending.filter(|p: Pending| arrived(p, now)),
        v.traded(tick),
    );
}

/// A volume counter that goes backwards credits no queue.
pub proof fn law_volume_never_refunds(v: L1View, tick: Tick)
    ensures
        v.traded(tick) >= 0,
        v.prev_volume matches Some(p) ==> tick.volume.0 <= p.0 ==> v.traded(tick) == 0,
{
}

} // verus!

//! What L1 charges a taker, and how long it keeps an order waiting.
use crate::engine::book::{law_insert_keeps_priority, BookView};
use crate::engine::cause_laws::{
    law_every_fill_has_its_cause, law_no_order_is_lost, law_nothing_due_is_left, lemma_with_unique,
    reached, trades,
};
use crate::engine::impact::{is_penalty, lemma_penalty_unique, penalty_of};
use crate::engine::l0::{L0Fill, L0View};
use crate::engine::l0_laws::unique;
use crate::engine::l1::{
    arrived, known, mixed, promoted, still_waiting, submitted, waited, worsened, Delay, Delayed,
    L1View, Pending, Policy, QueueAhead, Queued,
};
use crate::engine::tick::Tick;
use crate::types::{Fill, Liquidity, Nanos, OrderId, PriceTicks, Side, Working};
use vstd::prelude::*;

verus! {

/// `p` is the whole part of `c / 100 * range * sqrt(qty / traded)`, or the
/// largest `i64` where that is smaller.
pub open spec fn is_root(p: int, c: int, range: int, qty: int, traded: int) -> bool {
    &&& 0 <= p <= i64::MAX
    &&& (100 * p) * (100 * p) * traded <= (c * range) * (c * range) * qty
    &&& p == i64::MAX || (c * range) * (c * range) * qty < (100 * (p + 1)) * (100 * (p + 1))
        * traded
}

proof fn lemma_root_is_penalty(p: int, c: u32, range: int, qty: int, traded: int)
    requires
        traded > 0,
        is_root(p, c as int, range, qty, traded),
    ensures
        penalty_of(c, range, qty, traded) == p,
{
    let k = c as int;
    assert((k * range) * (k * range) * qty == (k * k * qty) * (range * range)) by (nonlinear_arith);
    assert((100 * p) * (100 * p) * traded == (10_000 * traded) * (p * p)) by (nonlinear_arith);
    let s = p + 1;
    assert((100 * s) * (100 * s) * traded == (10_000 * traded) * (s * s)) by (nonlinear_arith);
    assert(is_penalty(p, c, range, qty, traded));
    let chosen = penalty_of(c, range, qty, traded);
    lemma_penalty_unique(p, chosen, c, range, qty, traded);
}

/// A taker is charged the square-root penalty, on either side: a buy pays it
/// on top of its price, and a sell receives that much less. Nothing else of
/// the fill changes.
pub proof fn law_impact_is_the_square_root(
    policy: Policy,
    f: L0Fill,
    tick: Tick,
    traded: i64,
    p: int,
)
    requires
        policy.impact.coefficient > 0,
        f.fill.liquidity == Liquidity::Taker,
        f.fill.qty.0 > 0,
        traded > 0,
        0 < tick.high.0 - tick.low.0 <= i64::MAX,
        is_root(
            p,
            policy.impact.coefficient as int,
            tick.high.0 - tick.low.0,
            f.fill.qty.0 as int,
            traded as int,
        ),
    ensures
        ({
            let paid = worsened(policy, f, tick, traded);
            &&& paid == (L0Fill { fill: Fill { price: paid.fill.price, ..f.fill }, ..f })
            &&& f.fill.side == Side::Buy && f.fill.price.0 + p <= i64::MAX ==> paid.fill.price.0
                == f.fill.price.0 + p
            &&& f.fill.side == Side::Sell && f.fill.price.0 - p >= i64::MIN ==> paid.fill.price.0
                == f.fill.price.0 - p
            &&& f.fill.side == Side::Buy && f.fill.price.0 + p > i64::MAX ==> paid.fill.price.0
                == i64::MAX
            &&& f.fill.side == Side::Sell && f.fill.price.0 - p < i64::MIN ==> paid.fill.price.0
                == i64::MIN
        }),
{
    lemma_root_is_penalty(
        p,
        policy.impact.coefficient,
        tick.high.0 - tick.low.0,
        f.fill.qty.0 as int,
        traded as int,
    );
}

/// A sell and a buy of one size are charged alike: short of the ends of the
/// scale, what one pays more the other receives less.
pub proof fn law_both_sides_are_charged_alike(
    policy: Policy,
    buy: L0Fill,
    sell: L0Fill,
    tick: Tick,
    traded: i64,
)
    requires
        buy.fill.side == Side::Buy,
        sell.fill.side == Side::Sell,
        buy.fill.qty == sell.fill.qty,
        buy.fill.liquidity == sell.fill.liquidity,
        worsened(policy, buy, tick, traded).fill.price.0 < i64::MAX,
        worsened(policy, sell, tick, traded).fill.price.0 > i64::MIN,
    ensures
        worsened(policy, buy, tick, traded).fill.price.0 - buy.fill.price.0 == sell.fill.price.0
            - worsened(policy, sell, tick, traded).fill.price.0,
{
    crate::engine::tier_laws::law_impact_never_helps(policy, buy, tick, traded);
    crate::engine::tier_laws::law_impact_never_helps(policy, sell, tick, traded);
}

/// Where nothing traded or moved, where the fill made liquidity or has no
/// size, and where no impact is modelled, a fill keeps its price.
pub proof fn law_without_impact_a_fill_keeps_its_price(
    policy: Policy,
    f: L0Fill,
    tick: Tick,
    traded: i64,
)
    requires
        policy.impact.coefficient == 0 || f.fill.liquidity == Liquidity::Maker || f.fill.qty.0 <= 0
            || traded <= 0 || tick.high.0 <= tick.low.0,
    ensures
        worsened(policy, f, tick, traded) == f,
{
}

/// Without a response latency an observation tells the fills it made, each
/// charged against the volume that traded since the observation before.
pub proof fn law_each_fill_is_charged_what_traded(v: L1View, tick: Tick)
    requires
        v.policy.latency.response == Delay::Fixed(Nanos(0)),
        v.prev_volume matches Some(prev) ==> tick.volume.0 - prev.0 <= i64::MAX,
    ensures
        ({
            let told = v.on_tick(tick).fills;
            let made = v.observe(tick).fills;
            &&& told.len() == made.len()
            &&& v.on_tick(tick).engine.prev_volume == Some(tick.volume)
            &&& forall|i: int, d: i64|
                0 <= i < made.len() && (match v.prev_volume {
                    None => d == 0,
                    Some(prev) => d == if tick.volume.0 >= prev.0 {
                        tick.volume.0 - prev.0
                    } else {
                        0
                    },
                }) ==> told[i] == #[trigger] worsened(v.policy, made[i], tick, d)
        }),
{
    let now = tick.stamp.exch;
    lemma_place_all_keeps(
        L1View { pending: v.pending.filter(|p: Pending| !arrived(p, now)), ..v },
        v.pending.filter(|p: Pending| arrived(p, now)),
        v.traded(tick),
    );
}

pub proof fn lemma_place_all_keeps(v: L1View, list: Seq<Pending>, volume: i64)
    ensures
        v.place_all(list, volume).pending == v.pending,
        v.place_all(list, volume).policy == v.policy,
        v.place_all(list, volume).delayed == v.delayed,
        v.place_all(list, volume).prev_volume == v.prev_volume,
        v.queued.len() <= v.place_all(list, volume).queued.len(),
        v.place_all(list, volume).queued.subrange(0, v.queued.len() as int) == v.queued,
    decreases list.len(),
{
    if list.len() > 0 {
        lemma_place_all_keeps(v, list.drop_last(), volume);
        let before = v.place_all(list.drop_last(), volume);
        let after = v.place_all(list, volume);
        assert(after.queued.subrange(0, v.queued.len() as int) =~= before.queued.subrange(
            0,
            v.queued.len() as int,
        ));
    } else {
        assert(v.queued.subrange(0, v.queued.len() as int) =~= v.queued);
    }
}

/// A queue is worked off by what trades at its price. An observation that
/// trades there takes exactly its volume off the queue, and the order is at
/// the front once nothing is left; one that goes clean through leaves nothing
/// ahead; and one that does not reach the price leaves the queue as it was.
pub proof fn law_a_queue_is_worked_off(q: Queued, tick: Tick, traded: i64, price: PriceTicks)
    requires
        q.order.spec_price() == Some(price),
        q.remaining > 0,
        traded >= 0,
    ensures
        tick.low.0 <= price.0 <= tick.high.0 ==> match waited(q, tick, traded) {
            Some(w) => w.remaining == q.remaining - traded && w.remaining > 0 && w.order == q.order,
            None => traded >= q.remaining,
        },
        q.order.side == Side::Buy && tick.high.0 < price.0 ==> waited(q, tick, traded) is None,
        q.order.side == Side::Sell && tick.low.0 > price.0 ==> waited(q, tick, traded) is None,
        q.order.side == Side::Buy && tick.low.0 > price.0 && tick.high.0 >= price.0 ==> waited(
            q,
            tick,
            traded,
        ) == Some(q),
        q.order.side == Side::Sell && tick.high.0 < price.0 && tick.low.0 <= price.0 ==> waited(
            q,
            tick,
            traded,
        ) == Some(q),
{
}

/// Two observations that trade at an order's price work off its queue as one
/// that trades their volume would.
pub proof fn law_a_queue_counts_all_its_volume(
    q: Queued,
    first: Tick,
    second: Tick,
    a: i64,
    b: i64,
    both: i64,
    price: PriceTicks,
)
    requires
        q.order.spec_price() == Some(price),
        q.remaining > 0,
        a >= 0,
        b >= 0,
        both == a + b,
        first.low.0 <= price.0 <= first.high.0,
        second.low.0 <= price.0 <= second.high.0,
    ensures
        waited(q, second, both) == (match waited(q, first, a) {
            Some(rest) => waited(rest, second, b),
            None => None,
        }),
{
}

/// Every order in a queue is still waiting after an observation, or has
/// reached the front: none is lost, and none is in both places.
pub proof fn law_no_queue_loses_an_order(queued: Seq<Queued>, tick: Tick, traded: i64)
    ensures
        still_waiting(queued, tick, traded).len() + promoted(queued, tick, traded).len()
            == queued.len(),
        forall|i: int|
            0 <= i < queued.len() ==> match waited(#[trigger] queued[i], tick, traded) {
                Some(q) => still_waiting(queued, tick, traded).contains(q),
                None => promoted(queued, tick, traded).contains(queued[i].order),
            },
    decreases queued.len(),
{
    if queued.len() > 0 {
        let rest = queued.drop_last();
        law_no_queue_loses_an_order(rest, tick, traded);
        let stay = still_waiting(queued, tick, traded);
        let front = promoted(queued, tick, traded);
        let stayed = still_waiting(rest, tick, traded);
        let fronted = promoted(rest, tick, traded);
        assert forall|i: int| 0 <= i < queued.len() implies match waited(
            #[trigger] queued[i],
            tick,
            traded,
        ) {
            Some(q) => stay.contains(q),
            None => front.contains(queued[i].order),
        } by {
            if i < rest.len() {
                assert(rest[i] == queued[i]);
                match waited(queued[i], tick, traded) {
                    Some(q) => {
                        let k = choose|k: int| 0 <= k < stayed.len() && stayed[k] == q;
                        assert(stay[k] == q);
                    },
                    None => {
                        let k = choose|k: int|
                            0 <= k < fronted.len() && fronted[k] == queued[i].order;
                        assert(front[k] == queued[i].order);
                    },
                }
            } else {
                match waited(queued[i], tick, traded) {
                    Some(q) => {
                        assert(stay[stay.len() - 1] == q);
                    },
                    None => {
                        assert(front[front.len() - 1] == queued[i].order);
                    },
                }
            }
        }
    }
}

/// An order with more ahead of it than traded at its price is still waiting
/// after the observation, with exactly that volume less ahead of it.
pub proof fn law_an_order_waits_its_turn(v: L1View, tick: Tick, i: int, price: PriceTicks)
    requires
        0 <= i < v.queued.len(),
        v.queued[i].order.spec_price() == Some(price),
        tick.low.0 <= price.0 <= tick.high.0,
        v.prev_volume matches Some(prev) && 0 <= tick.volume.0 - prev.0 < v.queued[i].remaining,
    ensures
        exists|k: int|
            0 <= k < v.on_tick(tick).engine.queued.len() && (
            #[trigger] v.on_tick(tick).engine.queued[k]).order == v.queued[i].order
                && v.on_tick(tick).engine.queued[k].remaining == v.queued[i].remaining - (
            tick.volume.0 - v.prev_volume->Some_0.0),
{
    let now = tick.stamp.exch;
    let traded = v.traded(tick);
    let start = L1View { pending: v.pending.filter(|p: Pending| !arrived(p, now)), ..v };
    let list = v.pending.filter(|p: Pending| arrived(p, now));
    lemma_place_all_keeps(start, list, traded);
    let landed = start.place_all(list, traded);
    assert(landed.queued.subrange(0, v.queued.len() as int)[i] == v.queued[i]);
    assert(landed.queued[i] == v.queued[i]);
    law_no_queue_loses_an_order(landed.queued, tick, traded);
    let stay = still_waiting(landed.queued, tick, traded);
    let q = waited(v.queued[i], tick, traded)->Some_0;
    let k = choose|k: int| 0 <= k < stay.len() && stay[k] == q;
    assert(v.on_tick(tick).engine.queued == stay);
    assert(v.on_tick(tick).engine.queued[k] == q);
}

/// What stands ahead of an order as it is placed. A market order queues for
/// nothing. A limit order stands behind what was measured; else behind the
/// fixed number of lots, or behind the multiple, in hundredths, of the volume
/// it arrived in. An order with nothing ahead goes into the book.
pub proof fn law_an_order_joins_the_back(
    v: L1View,
    order: Working,
    volume: Option<i64>,
    measured: Option<i64>,
)
    ensures
        ({
            let placed = v.place(order, volume, measured);
            let booked = L1View { inner: v.inner.submit(order), ..v };
            &&& order.spec_price() is None ==> placed == booked
            &&& order.spec_price() is Some ==> (measured matches Some(m) ==> if m > 0 {
                placed == (L1View {
                    queued: v.queued.push(Queued { remaining: m, order }),
                    ..v
                })
            } else {
                placed == booked
            })
            &&& order.spec_price() is Some && measured is None && v.policy.queue is Nothing
                ==> placed == booked
            &&& order.spec_price() is Some && measured is None ==> (v.policy.queue
                matches QueueAhead::Fixed(lots) ==> if lots.0 > 0 {
                placed == (L1View {
                    queued: v.queued.push(Queued { remaining: lots.0, order }),
                    ..v
                })
            } else {
                placed == booked
            })
            &&& order.spec_price() is Some && measured is None ==> (v.policy.queue
                matches QueueAhead::VolumeMultiple(m) ==> {
                &&& volume is None ==> placed == booked
                &&& volume matches Some(n) ==> m * n < 100 ==> placed == booked
                &&& volume matches Some(n) ==> 100 <= m * n && m * n <= 100 * i64::MAX ==> {
                    &&& placed == (L1View {
                        queued: v.queued.push(
                            Queued { remaining: placed.queued.last().remaining, order },
                        ),
                        ..v
                    })
                    &&& 100 * placed.queued.last().remaining <= m * n < 100 * (
                    placed.queued.last().remaining + 1)
                }
            })
        }),
{
}

/// An order is live when its latency has passed since it was sent, and until
/// then it is in neither the book nor a queue. Without a latency it is placed
/// at once.
pub proof fn law_an_order_is_live_after_its_latency(
    v: L1View,
    order: Working,
    now: Nanos,
    measured: Option<i64>,
)
    ensures
        ({
            let sent = v.submit_with_queue(order, now, measured);
            &&& v.policy.latency.entry == Delay::Fixed(Nanos(0)) ==> sent == v.place(
                order,
                None,
                measured,
            )
            &&& v.policy.latency.entry matches Delay::Fixed(d) ==> d.0 != 0 && i64::MIN <= now.0
                + d.0 <= i64::MAX ==> {
                &&& sent.pending.len() == v.pending.len() + 1
                &&& sent.pending.drop_last() == v.pending
                &&& sent.pending.last().live_at.0 == now.0 + d.0
                &&& sent.pending.last().order == order
                &&& sent.pending.last().ahead == measured
                &&& sent.inner == v.inner
                &&& sent.queued == v.queued
            }
            &&& v.policy.latency.entry matches Delay::Measured { p50, p90, p99, p999 } ==> p50.0 > 0
                && p50.0 <= p90.0 <= p99.0 <= p999.0 && 0 <= now.0 && now.0 + p999.0 <= i64::MAX
                ==> {
                &&& sent.pending.len() == v.pending.len() + 1
                &&& sent.pending.drop_last() == v.pending
                &&& now.0 + p50.0 <= sent.pending.last().live_at.0 <= now.0 + p999.0
                &&& sent.pending.last().live_at.0 == now.0 + v.policy.latency.entry.spec_at(
                    order.id.0,
                ).0
                &&& sent.pending.last().order == order
                &&& sent.pending.last().ahead == measured
                &&& sent.inner == v.inner
                &&& sent.queued == v.queued
            }
        }),
{
    let sent = v.submit_with_queue(order, now, measured);
    if !v.policy.latency.entry.spec_is_zero() {
        assert(sent.pending.drop_last() =~= v.pending);
    }
}

/// Once its latency has passed, an order is no longer on its way.
pub proof fn law_an_order_arrives(v: L1View, tick: Tick)
    ensures
        forall|i: int|
            0 <= i < v.on_tick(tick).engine.pending.len() ==> (
            #[trigger] v.on_tick(tick).engine.pending[i]).live_at.0 > tick.stamp.exch.0,
{
    let now = tick.stamp.exch;
    let away = |p: Pending| !arrived(p, now);
    lemma_place_all_keeps(
        L1View { pending: v.pending.filter(away), ..v },
        v.pending.filter(|p: Pending| arrived(p, now)),
        v.traded(tick),
    );
    assert(v.on_tick(tick).engine.pending == v.pending.filter(away));
    assert forall|i: int| 0 <= i < v.pending.filter(away).len() implies (
    #[trigger] v.pending.filter(away)[i]).live_at.0 > tick.stamp.exch.0 by {
        v.pending.lemma_filter_pred(away, i);
    }
}

proof fn lemma_filters_share<T>(s: Seq<T>, test: spec_fn(T) -> bool, other: spec_fn(T) -> bool)
    requires
        forall|x: T| #[trigger] test(x) == !other(x),
    ensures
        s.filter(test).len() + s.filter(other).len() == s.len(),
    decreases s.len(),
{
    reveal(Seq::filter);
    if s.len() > 0 {
        lemma_filters_share(s.drop_last(), test, other);
    }
}

/// The strategy hears of a fill when its response latency has passed since the
/// observation that made it, and not before. No fill is lost: each is told or
/// still to be told.
pub proof fn law_a_fill_is_told_after_its_latency(
    v: L1View,
    tick: Tick,
    fills: Seq<L0Fill>,
    d: Nanos,
)
    requires
        v.policy.latency.response == Delay::Fixed(d),
        d.0 > 0,
        tick.stamp.exch.0 + d.0 <= i64::MAX,
    ensures
        ({
            let told = v.release(tick, fills);
            &&& told.fills.len() + told.engine.delayed.len() == v.delayed.len() + fills.len()
            &&& forall|i: int|
                0 <= i < fills.len() ==> told.engine.delayed.contains(
                    (Delayed {
                        known_at: Nanos((tick.stamp.exch.0 + d.0) as i64),
                        fill: #[trigger] fills[i],
                    }),
                )
            &&& forall|i: int|
                0 <= i < v.delayed.len() ==> if (#[trigger] v.delayed[i]).known_at.0
                    <= tick.stamp.exch.0 {
                    told.fills.contains(v.delayed[i].fill)
                } else {
                    told.engine.delayed.contains(v.delayed[i])
                }
            &&& forall|i: int|
                0 <= i < told.engine.delayed.len() ==> (
                #[trigger] told.engine.delayed[i]).known_at.0 > tick.stamp.exch.0
        }),
{
    let now = tick.stamp.exch;
    let response = v.policy.latency.response;
    let all = v.delayed + fills.map_values(
        |f: L0Fill|
            Delayed {
                known_at: Nanos(
                    crate::types::clamp_i64(now.0 + response.spec_at(f.fill.order.0).0),
                ),
                fill: f,
            },
    );
    let late = |x: Delayed| !known(x, now);
    let due = |x: Delayed| known(x, now);
    let told = v.release(tick, fills);
    lemma_filters_share(all, late, due);
    assert(told.engine.delayed == all.filter(late));
    let heard = all.filter(due);
    assert(told.fills == heard.map_values(|x: Delayed| x.fill));
    assert forall|i: int| 0 <= i < fills.len() implies told.engine.delayed.contains(
        (Delayed { known_at: Nanos((now.0 + d.0) as i64), fill: #[trigger] fills[i] }),
    ) by {
        all.lemma_filter_contains(late, v.delayed.len() + i);
    }
    assert forall|i: int| 0 <= i < v.delayed.len() implies if (
    #[trigger] v.delayed[i]).known_at.0 <= now.0 {
        told.fills.contains(v.delayed[i].fill)
    } else {
        told.engine.delayed.contains(v.delayed[i])
    } by {
        assert(all[i] == v.delayed[i]);
        if v.delayed[i].known_at.0 <= now.0 {
            all.lemma_filter_contains(due, i);
            let k = choose|k: int| 0 <= k < heard.len() && heard[k] == all[i];
            assert(told.fills[k] == heard[k].fill);
        } else {
            all.lemma_filter_contains(late, i);
        }
    }
    assert forall|i: int| 0 <= i < told.engine.delayed.len() implies (
    #[trigger] told.engine.delayed[i]).known_at.0 > now.0 by {
        all.lemma_filter_pred(late, i);
    }
}

/// A draw is made of its key alone, by SplitMix64: the key is moved on by the
/// golden ratio, and its bits are folded and multiplied twice, all modulo two
/// to the sixty-fourth.
pub proof fn law_a_draw_is_mixed_of_its_key(key: u64, z: u64, x: u64, y: u64)
    requires
        z as int == (key + 0x9E37_79B9_7F4A_7C15) % 0x1_0000_0000_0000_0000,
        x as int == ((z ^ (z >> 30)) * 0xBF58_476D_1CE4_E5B9) % 0x1_0000_0000_0000_0000,
        y as int == ((x ^ (x >> 27)) * 0x94D0_49BB_1331_11EB) % 0x1_0000_0000_0000_0000,
    ensures
        mixed(key) == y ^ (y >> 31),
{
}

/// Of a thousand ranks the first five hundred draw the median, the next four
/// hundred the ninetieth percentile, the next ninety the ninety-ninth, and the
/// last ten the longest; a constant delay draws itself.
pub proof fn law_a_delay_goes_by_its_rank(
    p50: Nanos,
    p90: Nanos,
    p99: Nanos,
    p999: Nanos,
    key: u64,
    rank: int,
)
    requires
        rank == mixed(key) as int % 1000,
    ensures
        ({
            let d = Delay::Measured { p50, p90, p99, p999 }.spec_at(key);
            &&& 0 <= rank < 500 ==> d == p50
            &&& 500 <= rank < 900 ==> d == p90
            &&& 900 <= rank < 990 ==> d == p99
            &&& 990 <= rank < 1000 ==> d == p999
        }),
        Delay::Fixed(p50).spec_at(key) == p50,
{
}

/// A policy models nothing exactly where no order can be held back by it, no
/// fill reported late, and no price moved.
pub proof fn law_a_policy_that_models_nothing(p: Policy)
    ensures
        p.nothing() ==> p.queue is Nothing && p.impact.coefficient == 0 && forall|key: u64|
            (#[trigger] p.latency.entry.spec_at(key)).0 == 0,
        p.nothing() ==> forall|key: u64| (#[trigger] p.latency.response.spec_at(key)).0 == 0,
        p.queue is Nothing && p.impact.coefficient == 0 && p.latency.entry == Delay::Fixed(Nanos(0))
            && p.latency.response == Delay::Fixed(Nanos(0)) ==> p.nothing(),
{
}

/// A fill whose report is drawn from measured delays is told after the delay
/// its own order draws.
pub proof fn law_a_fill_is_told_after_the_delay_it_draws(
    v: L1View,
    tick: Tick,
    fills: Seq<L0Fill>,
    i: int,
    d: int,
)
    requires
        !(v.policy.latency.response.spec_is_zero()),
        0 <= i < fills.len(),
        d == v.policy.latency.response.spec_at(fills[i].fill.order.0).0,
        d > 0,
        tick.stamp.exch.0 + d <= i64::MAX,
    ensures
        v.release(tick, fills).engine.delayed.contains(
            (Delayed { known_at: Nanos((tick.stamp.exch.0 + d) as i64), fill: fills[i] }),
        ),
{
    let now = tick.stamp.exch;
    let response = v.policy.latency.response;
    let all = v.delayed + fills.map_values(
        |f: L0Fill|
            Delayed {
                known_at: Nanos(
                    crate::types::clamp_i64(now.0 + response.spec_at(f.fill.order.0).0),
                ),
                fill: f,
            },
    );
    let late = |x: Delayed| !known(x, now);
    all.lemma_filter_contains(late, v.delayed.len() + i);
}

/// Arrivals are placed in the order they were sent, each by the volume of the
/// observation it arrives in and by the queue that was measured when it was
/// sent.
pub proof fn law_arrivals_are_placed_in_order(
    v: L1View,
    a: Seq<Pending>,
    b: Seq<Pending>,
    p: Pending,
    volume: i64,
)
    ensures
        v.place_all(a + b, volume) == v.place_all(a, volume).place_all(b, volume),
        v.place_all(seq![p], volume) == v.place(p.order, Some(volume), p.ahead),
    decreases b.len(),
{
    let one = seq![p];
    assert(one.drop_last() =~= Seq::<Pending>::empty());
    assert(v.place_all(one.drop_last(), volume) == v);
    assert(one.last() == p);
    if b.len() == 0 {
        assert(a + b =~= a);
    } else {
        law_arrivals_are_placed_in_order(v, a, b.drop_last(), p, volume);
        assert((a + b).drop_last() =~= a + b.drop_last());
        assert((a + b).last() == b.last());
    }
}

/// An order that arrives in an observation which does not trade at its price
/// stands behind the multiple, in hundredths, of the volume that traded there.
pub proof fn law_an_arrival_queues_behind_its_volume(
    v: L1View,
    tick: Tick,
    p: Pending,
    price: PriceTicks,
    m: u32,
    traded: int,
)
    requires
        v.pending == seq![p],
        v.queued.len() == 0,
        p.live_at.0 <= tick.stamp.exch.0,
        p.ahead is None,
        p.order.spec_price() == Some(price),
        match p.order.side {
            Side::Buy => price.0 < tick.low.0 <= tick.high.0,
            Side::Sell => tick.low.0 <= tick.high.0 < price.0,
        },
        v.policy.queue == QueueAhead::VolumeMultiple(m),
        v.prev_volume matches Some(prev) && traded == tick.volume.0 - prev.0,
        0 <= traded <= i64::MAX,
        100 <= m * traded <= 100 * i64::MAX,
    ensures
        ({
            let after = v.on_tick(tick).engine;
            &&& after.pending.len() == 0
            &&& after.queued.len() == 1
            &&& after.queued[0].order == p.order
            &&& 100 * after.queued[0].remaining <= m * traded < 100 * (after.queued[0].remaining
                + 1)
        }),
{
    let now = tick.stamp.exch;
    let away = |x: Pending| !arrived(x, now);
    let here = |x: Pending| arrived(x, now);
    reveal_with_fuel(Seq::filter, 3);
    let one = seq![p];
    assert(one.drop_last() =~= Seq::<Pending>::empty());
    assert(one.drop_last().filter(away) =~= Seq::<Pending>::empty());
    assert(one.drop_last().filter(here) =~= Seq::<Pending>::empty());
    assert(one.filter(away) =~= Seq::<Pending>::empty());
    assert(one.filter(here) =~= one);
    let start = L1View { pending: v.pending.filter(away), ..v };
    assert(v.traded(tick) == traded);
    law_arrivals_are_placed_in_order(start, Seq::empty(), Seq::empty(), p, traded as i64);
    law_an_order_joins_the_back(start, p.order, Some(traded as i64), None);
    let landed = start.place(p.order, Some(traded as i64), None);
    assert(start.place_all(v.pending.filter(here), traded as i64) == landed);
    assert(landed.queued.len() == 1);
    let q = landed.queued[0];
    assert(landed.queued.drop_last() =~= Seq::<Queued>::empty());
    assert(landed.queued.last() == q);
    law_a_queue_is_worked_off(q, tick, traded as i64, price);
    reveal_with_fuel(still_waiting, 2);
    assert(still_waiting(landed.queued, tick, traded as i64) =~= seq![q]);
}

/// A book in order whose ids are unique.
#[verifier::opaque]
spec fn sound(b: BookView) -> bool {
    b.wf() && unique(b)
}

/// Whether a book has an order.
#[verifier::opaque]
spec fn has(b: BookView, order: Working) -> bool {
    b.find(order.id) matches Some(r) && r.order == order
}

/// Whether a book has no order of an id.
#[verifier::opaque]
spec fn lacks(b: BookView, id: OrderId) -> bool {
    b.find(id) is None
}

proof fn lemma_with_apart(b: BookView, order: Working)
    requires
        sound(b),
        lacks(b, order.id),
    ensures
        sound(b.with(order)),
        has(b.with(order), order),
        forall|x: Working|
            x.id != order.id && #[trigger] has(b, x) ==> has(b.with(order), x),
        forall|id: OrderId|
            id != order.id && #[trigger] lacks(b, id) ==> lacks(b.with(order), id),
{
    reveal(sound);
    reveal(has);
    reveal(lacks);
    lemma_with_unique(b, order);
    law_insert_keeps_priority(b, order);
    assert forall|x: Working| x.id != order.id && #[trigger] has(b, x) implies has(
        b.with(order),
        x,
    ) by {
        assert(b.with(order).find(x.id) == b.find(x.id));
    }
    assert forall|id: OrderId| id != order.id && #[trigger] lacks(b, id) implies lacks(
        b.with(order),
        id,
    ) by {
        assert(b.with(order).find(id) == b.find(id));
    }
}

proof fn lemma_submitted(inner: L0View, orders: Seq<Working>)
    requires
        sound(inner.book),
        forall|i: int| 0 <= i < orders.len() ==> lacks(inner.book, (#[trigger] orders[i]).id),
        forall|i: int, j: int|
            0 <= i < j < orders.len() ==> (#[trigger] orders[i]).id != (#[trigger] orders[j]).id,
    ensures
        sound(submitted(inner, orders).book),
        forall|i: int|
            0 <= i < orders.len() ==> has(submitted(inner, orders).book, #[trigger] orders[i]),
        forall|id: OrderId|
            lacks(inner.book, id) && (forall|i: int|
                0 <= i < orders.len() ==> (#[trigger] orders[i]).id != id) ==> #[trigger] lacks(
                submitted(inner, orders).book,
                id,
            ),
    decreases orders.len(),
{
    if orders.len() > 0 {
        let rest = orders.drop_last();
        let last = orders.last();
        assert(orders[orders.len() - 1] == last);
        assert forall|i: int| 0 <= i < rest.len() implies lacks(
            inner.book,
            (#[trigger] rest[i]).id,
        ) && rest[i].id != last.id by {
            assert(rest[i] == orders[i]);
        }
        assert forall|i: int, j: int| 0 <= i < j < rest.len() implies (#[trigger] rest[i]).id != (
        #[trigger] rest[j]).id by {
            assert(rest[i] == orders[i] && rest[j] == orders[j]);
        }
        lemma_submitted(inner, rest);
        let before = submitted(inner, rest).book;
        let after = submitted(inner, orders).book;
        assert(lacks(before, last.id));
        lemma_with_apart(before, last);
        assert(after == before.with(last));
        assert forall|i: int| 0 <= i < orders.len() implies has(after, #[trigger] orders[i]) by {
            if i < rest.len() {
                assert(rest[i] == orders[i]);
                assert(has(before, rest[i]));
            }
        }
        assert forall|id: OrderId|
            lacks(inner.book, id) && (forall|i: int|
                0 <= i < orders.len() ==> (#[trigger] orders[i]).id != id) implies #[trigger] lacks(
            after,
            id,
        ) by {
            assert(orders[orders.len() - 1].id != id);
            assert forall|i: int| 0 <= i < rest.len() implies (#[trigger] rest[i]).id != id by {
                assert(rest[i] == orders[i]);
            }
            assert(lacks(before, id));
        }
    }
}

proof fn lemma_reached_trades(front: L0View, order: Working, tick: Tick)
    requires
        sound(front.book),
        has(front.book, order),
        order.remaining.0 > 0,
        reached(tick, order),
    ensures
        trades(front.on_tick(tick).fills, order.id),
{
    reveal(sound);
    reveal(has);
    law_no_order_is_lost(front, tick, order.id);
    law_nothing_due_is_left(front, tick, order.id);
}

proof fn lemma_absent_trades_not(front: L0View, id: OrderId, tick: Tick)
    requires
        sound(front.book),
        lacks(front.book, id),
    ensures
        !trades(front.on_tick(tick).fills, id),
{
    reveal(sound);
    reveal(lacks);
    let fills = front.on_tick(tick).fills;
    if trades(fills, id) {
        let k = choose|k: int| 0 <= k < fills.len() && (#[trigger] fills[k]).fill.order == id;
        law_every_fill_has_its_cause(front, tick, k);
    }
}

proof fn lemma_promoted_apart(queued: Seq<Queued>, tick: Tick, traded: i64)
    requires
        forall|i: int, j: int|
            0 <= i < j < queued.len() ==> (#[trigger] queued[i]).order.id != (
            #[trigger] queued[j]).order.id,
    ensures
        ({
            let front = promoted(queued, tick, traded);
            &&& forall|k: int|
                0 <= k < front.len() ==> exists|i: int|
                    0 <= i < queued.len() && (#[trigger] queued[i]).order == #[trigger] front[k]
            &&& forall|i: int, j: int|
                0 <= i < j < front.len() ==> (#[trigger] front[i]).id != (#[trigger] front[j]).id
        }),
    decreases queued.len(),
{
    if queued.len() > 0 {
        let rest = queued.drop_last();
        assert forall|i: int, j: int| 0 <= i < j < rest.len() implies (
        #[trigger] rest[i]).order.id != (#[trigger] rest[j]).order.id by {
            assert(rest[i] == queued[i] && rest[j] == queued[j]);
        }
        lemma_promoted_apart(rest, tick, traded);
        let before = promoted(rest, tick, traded);
        let front = promoted(queued, tick, traded);
        let n = queued.len() - 1;
        assert forall|k: int| 0 <= k < before.len() implies exists|i: int|
            0 <= i < rest.len() && (#[trigger] queued[i]).order == #[trigger] before[k] by {
            let i = choose|i: int|
                0 <= i < rest.len() && (#[trigger] rest[i]).order == before[k];
            assert(queued[i] == rest[i]);
        }
        assert forall|k: int| 0 <= k < front.len() implies exists|i: int|
            0 <= i < queued.len() && (#[trigger] queued[i]).order == #[trigger] front[k] by {
            if k < before.len() {
                let i = choose|i: int|
                    0 <= i < rest.len() && (#[trigger] queued[i]).order == before[k];
                assert(queued[i].order == front[k]);
            } else {
                assert(queued[n].order == front[k]);
            }
        }
        assert forall|i: int, j: int| 0 <= i < j < front.len() implies (
        #[trigger] front[i]).id != (#[trigger] front[j]).id by {
            assert(front[i] == before[i]);
            if j < before.len() {
                assert(front[j] == before[j]);
            } else {
                let a = choose|a: int|
                    0 <= a < rest.len() && (#[trigger] queued[a]).order == before[i];
                assert(queued[a].order.id != queued[n].order.id);
            }
        }
    }
}

/// An order that reaches the front of its queue trades in the same
/// observation, where that reaches its price; and one that has not reached the
/// front does not trade, whatever the observation reaches.
pub proof fn law_the_front_of_a_queue_trades_at_once(v: L1View, tick: Tick, i: int)
    requires
        v.wf(),
        unique(v.inner.book),
        v.pending.len() == 0,
        0 <= i < v.queued.len(),
        v.queued[i].order.remaining.0 > 0,
        forall|k: int|
            0 <= k < v.queued.len() ==> v.inner.book.find((#[trigger] v.queued[k]).order.id) is None,
        forall|j: int, k: int|
            0 <= j < k < v.queued.len() ==> (#[trigger] v.queued[j]).order.id != (
            #[trigger] v.queued[k]).order.id,
    ensures
        waited(v.queued[i], tick, v.traded(tick)) is None && reached(tick, v.queued[i].order)
            ==> trades(v.observe(tick).fills, v.queued[i].order.id),
        waited(v.queued[i], tick, v.traded(tick)) is Some ==> !trades(
            v.observe(tick).fills,
            v.queued[i].order.id,
        ),
{
    let traded = v.traded(tick);
    let orders = promoted(v.queued, tick, traded);
    let front = submitted(v.inner, orders);
    let order = v.queued[i].order;
    lemma_observes_the_front(v, tick);
    lemma_promoted_apart(v.queued, tick, traded);
    assert(sound(v.inner.book)) by {
        reveal(sound);
    }
    assert forall|k: int| 0 <= k < v.queued.len() implies lacks(
        v.inner.book,
        (#[trigger] v.queued[k]).order.id,
    ) by {
        reveal(lacks);
        assert(v.inner.book.find(v.queued[k].order.id) is None);
    }
    assert forall|k: int| 0 <= k < orders.len() implies lacks(
        v.inner.book,
        (#[trigger] orders[k]).id,
    ) by {
        let a = choose|a: int|
            0 <= a < v.queued.len() && (#[trigger] v.queued[a]).order == orders[k];
        assert(lacks(v.inner.book, v.queued[a].order.id));
    }
    lemma_submitted(v.inner, orders);
    law_no_queue_loses_an_order(v.queued, tick, traded);
    if waited(v.queued[i], tick, traded) is None {
        let k = choose|k: int| 0 <= k < orders.len() && orders[k] == order;
        assert(has(front.book, orders[k]));
        if reached(tick, order) {
            lemma_reached_trades(front, order, tick);
        }
    } else {
        assert forall|k: int| 0 <= k < orders.len() implies (#[trigger] orders[k]).id
            != order.id by {
            lemma_promoted_waits(v.queued, tick, traded, k);
            let a = choose|a: int|
                0 <= a < v.queued.len() && (#[trigger] v.queued[a]).order == orders[k] && waited(
                    v.queued[a],
                    tick,
                    traded,
                ) is None;
            if a < i {
                assert(v.queued[a].order.id != v.queued[i].order.id);
            } else if i < a {
                assert(v.queued[i].order.id != v.queued[a].order.id);
            }
        }
        assert(lacks(v.inner.book, v.queued[i].order.id));
        assert(lacks(front.book, order.id));
        lemma_absent_trades_not(front, order.id, tick);
    }
}

/// With nothing on its way, L0 sees the observation with the orders that have
/// reached the front in its book.
proof fn lemma_observes_the_front(v: L1View, tick: Tick)
    requires
        v.pending.len() == 0,
    ensures
        v.observe(tick).fills == submitted(
            v.inner,
            promoted(v.queued, tick, v.traded(tick)),
        ).on_tick(tick).fills,
{
    let now = tick.stamp.exch;
    reveal(Seq::filter);
    assert(v.pending.filter(|p: Pending| !arrived(p, now)) =~= v.pending);
    assert(v.pending.filter(|p: Pending| arrived(p, now)).len() == 0);
}

proof fn lemma_promoted_waits(queued: Seq<Queued>, tick: Tick, traded: i64, k: int)
    requires
        0 <= k < promoted(queued, tick, traded).len(),
    ensures
        exists|a: int|
            0 <= a < queued.len() && (#[trigger] queued[a]).order == promoted(
                queued,
                tick,
                traded,
            )[k] && waited(queued[a], tick, traded) is None,
    decreases queued.len(),
{
    let rest = queued.drop_last();
    let before = promoted(rest, tick, traded);
    let n = queued.len() - 1;
    if k < before.len() {
        lemma_promoted_waits(rest, tick, traded, k);
        let a = choose|a: int|
            0 <= a < rest.len() && (#[trigger] rest[a]).order == before[k] && waited(
                rest[a],
                tick,
                traded,
            ) is None;
        assert(queued[a] == rest[a]);
    } else {
        assert(queued[n].order == promoted(queued, tick, traded)[k]);
    }
}

} // verus!

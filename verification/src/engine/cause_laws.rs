//! Why each order traded at an observation, and why each did not.
use crate::engine::book::{
    ask_rank, bid_rank, law_remove_keeps_priority, lemma_seat, limit_of, seat, seated,
    BookView, Resting,
};
use crate::engine::l0::{
    arrival_of, arrives_before, in_order, lemma_without_shrinks, passed_down, passed_over,
    passed_up, Arrival, FillReason, L0Fill, L0View, Run, Terms,
};
use crate::engine::l0_laws::{
    law_nothing_reached_is_left, law_remove_is_exact, lemma_all_index, lemma_find, lemma_found,
    lemma_market_list, unique,
};
use crate::engine::tick::Tick;
use crate::sorting::{law_ordered_is_in_order, law_ordered_keeps_elements};
use crate::types::{Liquidity, OrderId, PriceTicks, Side, Stamp, Working};
use vstd::prelude::*;

verus! {

/// The first of some prices that is there: a price of nought is a missing one.
pub open spec fn first_there(a: PriceTicks, b: PriceTicks, c: PriceTicks) -> int {
    if a.0 > 0 {
        a.0 as int
    } else if b.0 > 0 {
        b.0 as int
    } else {
        c.0 as int
    }
}

/// Whether the move from the previous observation's price passed over an
/// order: a sell above that price and no higher than the highest seen since,
/// or, where nothing higher was seen, a buy below it and no lower than the
/// lowest.
pub open spec fn passed(v: L0View, tick: Tick, order: Working) -> bool {
    let high = first_there(tick.high, tick.last, tick.last);
    let low = first_there(tick.low, tick.last, tick.last);
    match (v.prev_price, order.spec_price()) {
        (Some(prev), Some(limit)) => match order.side {
            Side::Sell => prev.0 < limit.0 <= high,
            Side::Buy => high <= prev.0 && low <= limit.0 < prev.0,
        },
        _ => false,
    }
}

/// Whether the observation itself reached an order: a buy at or above the ask,
/// else the low, else the last; a sell at or below the bid, else the high,
/// else the last.
pub open spec fn reached(tick: Tick, order: Working) -> bool {
    order.spec_price() matches Some(limit) && match order.side {
        Side::Buy => {
            let at = first_there(tick.ask, tick.low, tick.last);
            at > 0 && limit.0 >= at
        },
        Side::Sell => {
            let at = first_there(tick.bid, tick.high, tick.last);
            at > 0 && limit.0 <= at
        },
    }
}

/// Whether an order of the other side rested at a price this one reaches.
pub open spec fn met(v: L0View, order: Working) -> bool {
    exists|id: OrderId|
        match (#[trigger] v.book.find(id), order.spec_price()) {
            (Some(r), Some(ours)) => r.order.side != order.side && match r.order.spec_price() {
                Some(theirs) => match order.side {
                    Side::Buy => ours.0 >= theirs.0,
                    Side::Sell => ours.0 <= theirs.0,
                },
                None => false,
            },
            _ => false,
        }
}

/// The better of an order's own price and a reference, where there is one.
pub open spec fn better_of(side: Side, limit: int, seen: int) -> int {
    match side {
        Side::Buy => if 0 < seen && seen < limit {
            seen
        } else {
            limit
        },
        Side::Sell => if 0 < seen && limit < seen {
            seen
        } else {
            limit
        },
    }
}

/// What an observation may fill an order on, and why.
pub open spec fn allows(v: L0View, tick: Tick, order: Working, t: Terms) -> bool {
    let seen = match order.side {
        Side::Buy => first_there(tick.ask, tick.last, tick.last),
        Side::Sell => first_there(tick.bid, tick.last, tick.last),
    };
    match t.reason {
        FillReason::Market => {
            &&& order.spec_price() is None
            &&& t.price.0 == seen
            &&& t.liquidity == Liquidity::Taker
            &&& t.stamp == tick.stamp
        },
        FillReason::GapCrossed => {
            &&& passed(v, tick, order)
            &&& order.spec_price() == Some(t.price)
            &&& t.liquidity == Liquidity::Maker
            &&& t.stamp == (match v.prev_stamp {
                Some(s) => s,
                None => tick.stamp,
            })
        },
        FillReason::Crossed => {
            &&& order.spec_price() matches Some(limit) && {
                ||| reached(tick, order) && t.price.0 == better_of(order.side, limit.0 as int, seen)
                ||| met(v, order) && t.price == limit
            }
            &&& t.liquidity == Liquidity::Maker
            &&& t.stamp == tick.stamp
        },
    }
}

/// A fill of all of an order that was in the book, for a cause and on its
/// terms.
pub open spec fn caused(v: L0View, tick: Tick, f: L0Fill) -> bool {
    v.book.find(f.fill.order) matches Some(r) && {
        &&& f.fill.qty == r.order.remaining
        &&& f.fill.side == r.order.side
        &&& f.fill.offset == r.order.offset
        &&& f.fill.instrument == v.instrument
        &&& allows(
            v,
            tick,
            r.order,
            (Terms {
                price: f.fill.price,
                liquidity: f.fill.liquidity,
                reason: f.reason,
                stamp: f.fill.stamp,
            }),
        )
    }
}

/// Whether some fill is of an order.
pub open spec fn trades(fills: Seq<L0Fill>, id: OrderId) -> bool {
    exists|i: int| 0 <= i < fills.len() && (#[trigger] fills[i]).fill.order == id
}

/// A run whose every fill has a cause, and whose every order is still there,
/// was filled, or had nothing left to fill. `kept` is what the book held at
/// some earlier point.
spec fn traced(v: L0View, kept: BookView, tick: Tick, run: Run) -> bool {
    &&& unique(run.engine.book)
    &&& run.engine.book.wf()
    &&& run.engine.instrument == v.instrument
    &&& forall|id: OrderId|
        (#[trigger] run.engine.book.find(id)) is Some ==> run.engine.book.find(id) == v.book.find(id)
            && run.engine.book.find(id) == kept.find(id)
    &&& forall|i: int| 0 <= i < run.fills.len() ==> caused(v, tick, #[trigger] run.fills[i])
    &&& forall|id: OrderId|
        (#[trigger] v.book.find(id)) is Some && v.book.find(id)->Some_0.order.remaining.0 > 0
            ==> run.engine.book.find(id) is Some || trades(run.fills, id)
}

proof fn lemma_traced_execute(
    v: L0View,
    kept: BookView,
    tick: Tick,
    run: Run,
    r: Resting,
    terms: Terms,
)
    requires
        traced(v, kept, tick, run),
        run.engine.book.find(r.order.id) == Some(r),
        allows(v, tick, r.order, terms),
    ensures
        traced(v, kept, tick, run.execute(r, terms)),
        run.execute(r, terms).engine.book == run.engine.book.without(r.order.id),
        run.execute(r, terms).engine.book.find(r.order.id) is None,
        forall|other: OrderId|
            other != r.order.id ==> #[trigger] run.execute(r, terms).engine.book.find(other)
                == run.engine.book.find(other),
{
    let next = run.execute(r, terms);
    law_remove_is_exact(run.engine.book, r.order.id);
    law_remove_keeps_priority(run.engine.book, r.order.id);
    assert forall|i: int| 0 <= i < next.fills.len() implies caused(
        v,
        tick,
        #[trigger] next.fills[i],
    ) by {
        if i < run.fills.len() {
            assert(next.fills[i] == run.fills[i]);
        }
    }
    assert forall|id: OrderId|
        (#[trigger] v.book.find(id)) is Some && v.book.find(id)->Some_0.order.remaining.0
            > 0 implies next.engine.book.find(id) is Some || trades(next.fills, id) by {
        if id == r.order.id {
            assert(next.fills[next.fills.len() - 1].fill.order == id);
        } else if run.engine.book.find(id) is None {
            let i = choose|i: int|
                0 <= i < run.fills.len() && (#[trigger] run.fills[i]).fill.order == id;
            assert(next.fills[i] == run.fills[i]);
        } else {
            assert(next.engine.book.find(id) == run.engine.book.find(id));
        }
    }
}

proof fn lemma_traced_gap(
    v: L0View,
    kept: BookView,
    tick: Tick,
    run: Run,
    list: Seq<Arrival>,
    stamp: Stamp,
)
    requires
        traced(v, kept, tick, run),
        stamp == (match v.prev_stamp {
            Some(s) => s,
            None => tick.stamp,
        }),
        forall|i: int|
            0 <= i < list.len() ==> (v.book.find((#[trigger] list[i]).1) matches Some(r) ==> passed(
                v,
                tick,
                r.order,
            )),
    ensures
        traced(v, kept, tick, run.gap(list, stamp)),
        forall|i: int|
            0 <= i < list.len() ==> run.gap(list, stamp).engine.book.find(
                (#[trigger] list[i]).1,
            ) is None,
    decreases list.len(),
{
    if list.len() > 0 {
        let front = list.drop_last();
        assert forall|i: int| 0 <= i < front.len() implies (v.book.find(
            (#[trigger] front[i]).1,
        ) matches Some(r) ==> passed(v, tick, r.order)) by {
            assert(front[i] == list[i]);
        }
        lemma_traced_gap(v, kept, tick, run, front, stamp);
        let before = run.gap(front, stamp);
        let after = run.gap(list, stamp);
        let id = list.last().1;
        assert(list[list.len() - 1].1 == id);
        if before.engine.book.find(id) is Some {
            let k = lemma_found(before.engine.book, id);
            let r = before.engine.book.find(id)->Some_0;
            let terms = Terms {
                price: match r.order.spec_price() {
                    Some(p) => p,
                    None => PriceTicks(0),
                },
                liquidity: Liquidity::Maker,
                reason: FillReason::GapCrossed,
                stamp,
            };
            lemma_traced_execute(v, kept, tick, before, r, terms);
        }
        assert forall|i: int| 0 <= i < list.len() implies after.engine.book.find(
            (#[trigger] list[i]).1,
        ) is None by {
            if i < front.len() {
                assert(front[i] == list[i]);
                assert(before.engine.book.find(front[i].1) is None);
            }
        }
    }
}

proof fn lemma_traced_market(
    v: L0View,
    kept: BookView,
    tick: Tick,
    run: Run,
    list: Seq<Resting>,
    price: PriceTicks,
    stamp: Stamp,
)
    requires
        traced(v, kept, tick, run),
        forall|i: int|
            0 <= i < list.len() ==> run.engine.book.find((#[trigger] list[i]).order.id) == Some(
                list[i],
            ) && allows(
                v,
                tick,
                list[i].order,
                (Terms { price, liquidity: Liquidity::Taker, reason: FillReason::Market, stamp }),
            ),
        forall|i: int, j: int|
            0 <= i < j < list.len() ==> (#[trigger] list[i]).order.id != (
            #[trigger] list[j]).order.id,
    ensures
        traced(v, kept, tick, run.market(list, price, stamp)),
        forall|i: int|
            0 <= i < list.len() ==> run.market(list, price, stamp).engine.book.find(
                (#[trigger] list[i]).order.id,
            ) is None,
        forall|id: OrderId|
            (forall|i: int| 0 <= i < list.len() ==> (#[trigger] list[i]).order.id != id)
                ==> #[trigger] run.market(list, price, stamp).engine.book.find(id)
                == run.engine.book.find(id),
    decreases list.len(),
{
    if list.len() > 0 {
        let front = list.drop_last();
        let r = list.last();
        let terms = Terms {
            price,
            liquidity: Liquidity::Taker,
            reason: FillReason::Market,
            stamp,
        };
        assert(list[list.len() - 1] == r);
        assert forall|i: int| 0 <= i < front.len() implies run.engine.book.find(
            (#[trigger] front[i]).order.id,
        ) == Some(front[i]) && allows(v, tick, front[i].order, terms) by {
            assert(front[i] == list[i]);
        }
        assert forall|i: int, j: int| 0 <= i < j < front.len() implies (
        #[trigger] front[i]).order.id != (#[trigger] front[j]).order.id by {
            assert(front[i] == list[i]);
            assert(front[j] == list[j]);
        }
        lemma_traced_market(v, kept, tick, run, front, price, stamp);
        let before = run.market(front, price, stamp);
        assert forall|i: int| 0 <= i < front.len() implies (#[trigger] front[i]).order.id
            != r.order.id by {
            assert(front[i] == list[i]);
        }
        assert(before.engine.book.find(r.order.id) == Some(r));
        lemma_traced_execute(v, kept, tick, before, r, terms);
        let after = run.market(list, price, stamp);
        assert forall|i: int| 0 <= i < list.len() implies after.engine.book.find(
            (#[trigger] list[i]).order.id,
        ) is None by {
            if i < front.len() {
                assert(front[i] == list[i]);
                assert(before.engine.book.find(front[i].order.id) is None);
            }
        }
        assert forall|id: OrderId|
            (forall|i: int| 0 <= i < list.len() ==> (#[trigger] list[i]).order.id != id)
            implies #[trigger] after.engine.book.find(id) == run.engine.book.find(id) by {
            assert(list[list.len() - 1].order.id != id);
            assert forall|i: int| 0 <= i < front.len() implies (#[trigger] front[i]).order.id
                != id by {
                assert(front[i] == list[i]);
            }
            assert(before.engine.book.find(id) == run.engine.book.find(id));
        }
    }
}

/// Whether every resting buy that reaches `trigger` may be filled on the terms
/// given to it.
spec fn bids_allowed(v: L0View, tick: Tick, trigger: PriceTicks, fair: PriceTicks) -> bool {
    forall|id: OrderId|
        #[trigger] v.book.find(id) matches Some(r) ==> (r.order.side == Side::Buy
            ==> (r.order.spec_price() matches Some(p) ==> p.0 >= trigger.0 ==> allows(
            v,
            tick,
            r.order,
            Run::bid_terms(p, fair, tick.stamp),
        )))
}

/// Whether every resting sell that reaches `trigger` may be filled on the
/// terms given to it.
spec fn asks_allowed(v: L0View, tick: Tick, trigger: PriceTicks, fair: PriceTicks) -> bool {
    forall|id: OrderId|
        #[trigger] v.book.find(id) matches Some(r) ==> (r.order.side == Side::Sell
            ==> (r.order.spec_price() matches Some(p) ==> p.0 <= trigger.0 ==> allows(
            v,
            tick,
            r.order,
            Run::ask_terms(p, fair, tick.stamp),
        )))
}

proof fn lemma_traced_bids(
    v: L0View,
    kept: BookView,
    tick: Tick,
    run: Run,
    trigger: PriceTicks,
    fair: PriceTicks,
)
    requires
        traced(v, kept, tick, run),
        bids_allowed(v, tick, trigger, fair),
    ensures
        traced(v, kept, tick, run.cross_bids(trigger, fair, tick.stamp)),
    decreases run.engine.book.len(),
{
    let bids = run.engine.book.bids;
    if bids.len() == 0 || bids[0].order.spec_price() is None || limit_of(bids[0]) < trigger.0 {
    } else {
        let price = bids[0].order.spec_price().unwrap();
        lemma_all_index(run.engine.book);
        lemma_find(run.engine.book, 0);
        lemma_without_shrinks(run.engine.book, bids[0].order.id);
        let terms = Run::bid_terms(price, fair, tick.stamp);
        assert(v.book.find(bids[0].order.id) == Some(bids[0]));
        lemma_traced_execute(v, kept, tick, run, bids[0], terms);
        lemma_traced_bids(v, kept, tick, run.execute(bids[0], terms), trigger, fair);
    }
}

proof fn lemma_traced_asks(
    v: L0View,
    kept: BookView,
    tick: Tick,
    run: Run,
    trigger: PriceTicks,
    fair: PriceTicks,
)
    requires
        traced(v, kept, tick, run),
        asks_allowed(v, tick, trigger, fair),
    ensures
        traced(v, kept, tick, run.cross_asks(trigger, fair, tick.stamp)),
    decreases run.engine.book.len(),
{
    let asks = run.engine.book.asks;
    if asks.len() == 0 || asks[0].order.spec_price() is None || limit_of(asks[0]) > trigger.0 {
    } else {
        let price = asks[0].order.spec_price().unwrap();
        lemma_all_index(run.engine.book);
        lemma_find(run.engine.book, run.engine.book.bids.len() as int);
        lemma_without_shrinks(run.engine.book, asks[0].order.id);
        let terms = Run::ask_terms(price, fair, tick.stamp);
        assert(v.book.find(asks[0].order.id) == Some(asks[0]));
        lemma_traced_execute(v, kept, tick, run, asks[0], terms);
        lemma_traced_asks(v, kept, tick, run.execute(asks[0], terms), trigger, fair);
    }
}

/// The listed orders are those the move passed over, and all of them.
proof fn lemma_passed_list(v: L0View, prev: PriceTicks, tick: Tick)
    requires
        v.wf(),
        unique(v.book),
        v.prev_price == Some(prev),
    ensures
        ({
            let list = in_order(passed_over(v.book, prev, tick));
            &&& forall|i: int|
                0 <= i < list.len() ==> (v.book.find((#[trigger] list[i]).1) matches Some(r)
                    ==> passed(v, tick, r.order))
            &&& forall|k: int|
                0 <= k < v.book.all().len() && passed(v, tick, (#[trigger] v.book.all()[k]).order)
                    ==> list.contains(arrival_of(v.book.all()[k]))
        }),
{
    let b = v.book;
    let raw = passed_over(b, prev, tick);
    let list = in_order(raw);
    law_ordered_keeps_elements(raw, |x: Arrival, y: Arrival| arrives_before(x, y));
    lemma_all_index(b);
    let up = tick.up_spec().0 as int;
    let dn = tick.dn_spec().0 as int;
    assert forall|i: int| 0 <= i < list.len() implies (b.find((#[trigger] list[i]).1) matches Some(
        r,
    ) ==> passed(v, tick, r.order)) by {
        assert(list.contains(list[i]));
        assert(raw.contains(list[i]));
        let j = choose|j: int| 0 <= j < raw.len() && raw[j] == list[i];
        if up > prev.0 {
            let test = |r: Resting| passed_up(r, prev.0 as int, up);
            let taken = b.asks.filter(test);
            assert(raw[j] == arrival_of(taken[j]));
            b.asks.lemma_filter_pred(test, j);
            b.asks.lemma_filter_contains_rev(test, taken[j]);
            let k = choose|k: int| 0 <= k < b.asks.len() && b.asks[k] == taken[j];
            lemma_find(b, b.bids.len() + k);
        } else {
            let test = |r: Resting| passed_down(r, prev.0 as int, dn);
            let taken = b.bids.filter(test);
            assert(raw[j] == arrival_of(taken[j]));
            b.bids.lemma_filter_pred(test, j);
            b.bids.lemma_filter_contains_rev(test, taken[j]);
            let k = choose|k: int| 0 <= k < b.bids.len() && b.bids[k] == taken[j];
            lemma_find(b, k);
        }
    }
    let nb = b.bids.len() as int;
    let na = b.asks.len() as int;
    let nm = b.market_buys.len() as int;
    assert forall|k: int|
        0 <= k < b.all().len() && passed(v, tick, (#[trigger] b.all()[k]).order) implies list.contains(
        arrival_of(b.all()[k]),
    ) by {
        let r = b.all()[k];
        if k < nb {
            assert(b.bids[k] == r);
            let test = |x: Resting| passed_down(x, prev.0 as int, dn);
            b.bids.lemma_filter_contains(test, k);
            let taken = b.bids.filter(test);
            let j = choose|j: int| 0 <= j < taken.len() && taken[j] == r;
            assert(raw[j] == arrival_of(r));
        } else if k < nb + na {
            assert(b.asks[k - nb] == r);
            let test = |x: Resting| passed_up(x, prev.0 as int, up);
            b.asks.lemma_filter_contains(test, k - nb);
            let taken = b.asks.filter(test);
            let j = choose|j: int| 0 <= j < taken.len() && taken[j] == r;
            assert(raw[j] == arrival_of(r));
        } else if k < nb + na + nm {
            assert(b.market_buys[k - nb - na] == r);
        } else {
            assert(b.market_sells[k - nb - na - nm] == r);
        }
        assert(raw.contains(arrival_of(r)));
    }
}

/// What is found as a market order stands among the market orders.
proof fn lemma_found_market(b: BookView, id: OrderId)
    requires
        b.wf(),
        b.find(id) is Some,
        b.find(id)->Some_0.order.spec_price() is None,
    ensures
        ({
            let r = b.find(id)->Some_0;
            &&& r.order.id == id
            &&& r.order.side == Side::Buy ==> b.market_buys.contains(r)
            &&& r.order.side == Side::Sell ==> b.market_sells.contains(r)
        }),
{
    let k = lemma_found(b, id);
    lemma_all_index(b);
    let nb = b.bids.len() as int;
    let na = b.asks.len() as int;
    let nm = b.market_buys.len() as int;
    if k < nb {
        assert(b.bids[k] == b.all()[k]);
    } else if k < nb + na {
        assert(b.asks[k - nb] == b.all()[k]);
    } else if k < nb + na + nm {
        assert(b.market_buys[k - nb - na] == b.all()[k]);
    } else {
        assert(b.market_sells[k - nb - na - nm] == b.all()[k]);
    }
}

proof fn lemma_crossing_allowed(v: L0View, tick: Tick)
    requires
        v.book.wf(),
    ensures
        tick.buy_trigger_spec().0 > 0 ==> bids_allowed(
            v,
            tick,
            tick.buy_trigger_spec(),
            tick.buy_reference_spec(),
        ),
        tick.sell_trigger_spec().0 > 0 ==> asks_allowed(
            v,
            tick,
            tick.sell_trigger_spec(),
            tick.sell_reference_spec(),
        ),
{
}

/// The whole of an observation, with what the book held behind the gap and
/// behind the market orders.
proof fn lemma_traced(v: L0View, tick: Tick)
    requires
        v.wf(),
        unique(v.book),
    ensures
        ({
            let gapped = (Run { engine: v, fills: Seq::empty() }).gap_fill(tick);
            let sold = gapped.take_market(tick);
            let done = v.on_tick(tick);
            &&& unique(gapped.engine.book)
            &&& v.prev_price matches Some(prev) ==> forall|i: int|
                0 <= i < in_order(passed_over(v.book, prev, tick)).len()
                    ==> gapped.engine.book.find(
                    (#[trigger] in_order(passed_over(v.book, prev, tick))[i]).1,
                ) is None
            &&& forall|id: OrderId|
                (#[trigger] sold.engine.book.find(id)) matches Some(r)
                    ==> r.order.spec_price() is Some
            &&& traced(v, gapped.engine.book, tick, done)
            &&& traced(v, sold.engine.book, tick, done)
        }),
{
    let run0 = Run { engine: v, fills: Seq::empty() };
    assert(traced(v, v.book, tick, run0));
    let gapped = run0.gap_fill(tick);
    match v.prev_price {
        None => {},
        Some(prev) => {
            let stamp = match v.prev_stamp {
                Some(s) => s,
                None => tick.stamp,
            };
            lemma_passed_list(v, prev, tick);
            lemma_traced_gap(
                v,
                v.book,
                tick,
                run0,
                in_order(passed_over(v.book, prev, tick)),
                stamp,
            );
        },
    }
    assert(traced(v, v.book, tick, gapped));
    let g = gapped.engine.book;
    assert(traced(v, g, tick, gapped));
    lemma_market_list(g);
    let buys = g.market_buys;
    lemma_traced_market(v, g, tick, gapped, buys, tick.buy_reference_spec(), tick.stamp);
    let bought = gapped.market(buys, tick.buy_reference_spec(), tick.stamp);
    lemma_market_list(bought.engine.book);
    let sells = bought.engine.book.market_sells;
    lemma_traced_market(v, g, tick, bought, sells, tick.sell_reference_spec(), tick.stamp);
    let sold = gapped.take_market(tick);
    let m = sold.engine.book;
    lemma_traced_market(
        v,
        bought.engine.book,
        tick,
        bought,
        sells,
        tick.sell_reference_spec(),
        tick.stamp,
    );
    assert forall|id: OrderId| (#[trigger] m.find(id)) is Some implies m.find(
        id,
    )->Some_0.order.spec_price() is Some by {
        let r = m.find(id)->Some_0;
        if r.order.spec_price() is None {
            assert(bought.engine.book.find(id) == Some(r));
            assert(g.find(id) == Some(r));
            if r.order.side == Side::Buy {
                lemma_found_market(g, id);
                let k = choose|k: int| 0 <= k < buys.len() && buys[k] == r;
                assert(bought.engine.book.find(buys[k].order.id) is None);
            } else {
                lemma_found_market(bought.engine.book, id);
                let k = choose|k: int| 0 <= k < sells.len() && sells[k] == r;
                assert(m.find(sells[k].order.id) is None);
            }
        }
    }
    assert(traced(v, m, tick, sold));
    lemma_crossing_allowed(v, tick);
    lemma_traced_rest(v, g, tick, sold);
    lemma_traced_rest(v, m, tick, sold);
    assert(v.on_tick(tick).fills == gapped.cross(tick).uncross(tick.stamp).fills);
}

/// What follows the market orders.
proof fn lemma_traced_rest(v: L0View, kept: BookView, tick: Tick, sold: Run)
    requires
        v.wf(),
        traced(v, kept, tick, sold),
    ensures
        ({
            let bids = if tick.buy_trigger_spec().0 > 0 {
                sold.cross_bids(tick.buy_trigger_spec(), tick.buy_reference_spec(), tick.stamp)
            } else {
                sold
            };
            let crossed = if tick.sell_trigger_spec().0 > 0 {
                bids.cross_asks(tick.sell_trigger_spec(), tick.sell_reference_spec(), tick.stamp)
            } else {
                bids
            };
            traced(v, kept, tick, crossed.uncross(tick.stamp))
        }),
{
    lemma_crossing_allowed(v, tick);
    let bids = if tick.buy_trigger_spec().0 > 0 {
        lemma_traced_bids(
            v,
            kept,
            tick,
            sold,
            tick.buy_trigger_spec(),
            tick.buy_reference_spec(),
        );
        sold.cross_bids(tick.buy_trigger_spec(), tick.buy_reference_spec(), tick.stamp)
    } else {
        sold
    };
    let crossed = if tick.sell_trigger_spec().0 > 0 {
        lemma_traced_asks(
            v,
            kept,
            tick,
            bids,
            tick.sell_trigger_spec(),
            tick.sell_reference_spec(),
        );
        bids.cross_asks(tick.sell_trigger_spec(), tick.sell_reference_spec(), tick.stamp)
    } else {
        bids
    };
    let b = crossed.engine.book;
    if b.crossed() {
        let best_bid = PriceTicks(limit_of(b.bids[0]) as i64);
        let best_ask = PriceTicks(limit_of(b.asks[0]) as i64);
        let none = PriceTicks(0);
        lemma_all_index(b);
        lemma_find(b, 0);
        lemma_find(b, b.bids.len() as int);
        let bid = b.bids[0];
        let ask = b.asks[0];
        assert(v.book.find(bid.order.id) == Some(bid));
        assert(v.book.find(ask.order.id) == Some(ask));
        assert forall|id: OrderId| #[trigger] v.book.find(id) matches Some(r) ==> (r.order.side
            == Side::Buy ==> (r.order.spec_price() matches Some(p) ==> p.0 >= best_ask.0 ==> allows(
            v,
            tick,
            r.order,
            Run::bid_terms(p, none, tick.stamp),
        ))) by {
            if let Some(r) = v.book.find(id) {
                if r.order.side == Side::Buy && r.order.spec_price() is Some
                    && r.order.spec_price()->Some_0.0 >= best_ask.0 {
                    assert(v.book.find(ask.order.id) is Some);
                    assert(met(v, r.order));
                }
            }
        }
        lemma_traced_bids(v, kept, tick, crossed, best_ask, none);
        assert forall|id: OrderId| #[trigger] v.book.find(id) matches Some(r) ==> (r.order.side
            == Side::Sell ==> (r.order.spec_price() matches Some(p) ==> p.0 <= best_bid.0
            ==> allows(v, tick, r.order, Run::ask_terms(p, none, tick.stamp)))) by {
            if let Some(r) = v.book.find(id) {
                if r.order.side == Side::Sell && r.order.spec_price() is Some
                    && r.order.spec_price()->Some_0.0 <= best_bid.0 {
                    assert(v.book.find(bid.order.id) is Some);
                    assert(met(v, r.order));
                }
            }
        }
        let bought = crossed.cross_bids(best_ask, none, tick.stamp);
        lemma_traced_asks(v, kept, tick, bought, best_bid, none);
    }
}

/// Every fill has its cause, and the price and time that go with it. A market
/// order takes, at the quote or else the last price. An order the price passed
/// over between two observations made liquidity at its own price, at the time
/// of the earlier. One the observation reached made liquidity at its own price
/// or at a better quote; one that met a resting order, at its own.
pub proof fn law_every_fill_has_its_cause(v: L0View, tick: Tick, i: int)
    requires
        v.wf(),
        unique(v.book),
        0 <= i < v.on_tick(tick).fills.len(),
    ensures
        caused(v, tick, v.on_tick(tick).fills[i]),
{
    lemma_traced(v, tick);
}

/// No order is lost: one with anything left to trade is still in the book as
/// it was, or was filled.
pub proof fn law_no_order_is_lost(v: L0View, tick: Tick, id: OrderId)
    requires
        v.wf(),
        unique(v.book),
    ensures
        v.book.find(id) matches Some(r) ==> r.order.remaining.0 > 0 ==> v.on_tick(
            tick,
        ).engine.book.find(id) == Some(r) || trades(v.on_tick(tick).fills, id),
{
    lemma_traced(v, tick);
}

/// Nothing that ought to have traded is left: no market order, nothing the
/// price passed over, and nothing the observation reached.
pub proof fn law_nothing_due_is_left(v: L0View, tick: Tick, id: OrderId)
    requires
        v.wf(),
        unique(v.book),
    ensures
        v.on_tick(tick).engine.book.find(id) matches Some(r) ==> {
            &&& r.order.spec_price() is Some
            &&& !passed(v, tick, r.order)
            &&& !reached(tick, r.order)
        },
{
    lemma_traced(v, tick);
    law_nothing_reached_is_left(v, tick);
    let b = v.on_tick(tick).engine.book;
    if b.find(id) is Some {
        let r = b.find(id)->Some_0;
        let gapped = (Run { engine: v, fills: Seq::empty() }).gap_fill(tick);
        let sold = gapped.take_market(tick);
        assert(sold.engine.book.find(id) == Some(r));
        assert(gapped.engine.book.find(id) == Some(r));
        let k0 = lemma_found(v.book, id);
        if passed(v, tick, r.order) {
            let prev = v.prev_price->Some_0;
            lemma_passed_list(v, prev, tick);
            let list = in_order(passed_over(v.book, prev, tick));
            assert(v.book.all()[k0] == r);
            let i = choose|i: int| 0 <= i < list.len() && list[i] == arrival_of(r);
            assert(gapped.engine.book.find(list[i].1) is None);
        }
        let k = lemma_found(b, id);
        lemma_all_index(b);
        let nb = b.bids.len() as int;
        let na = b.asks.len() as int;
        let nm = b.market_buys.len() as int;
        if k < nb {
            assert(b.bids[k] == r);
        } else if k < nb + na {
            assert(b.asks[k - nb] == r);
        } else if k < nb + na + nm {
            assert(b.market_buys[k - nb - na] == r);
        } else {
            assert(b.market_sells[k - nb - na - nm] == r);
        }
    }
}

/// A place in front of or behind resting orders is among them.
pub proof fn lemma_rank_fits(s: Seq<Resting>, price: int)
    ensures
        0 <= bid_rank(s, price) <= s.len(),
        0 <= ask_rank(s, price) <= s.len(),
    decreases s.len(),
{
    if s.len() > 0 {
        lemma_rank_fits(s.drop_first(), price);
    }
}

/// With unique ids, an order with a new one can be looked up once it is in the
/// book, and every other order as before.
pub proof fn lemma_with_unique(b: BookView, order: Working)
    requires
        unique(b),
        b.find(order.id) is None,
    ensures
        unique(b.with(order)),
        b.with(order).find(order.id) matches Some(r) && r.order == order,
        forall|id: OrderId|
            id != order.id ==> #[trigger] b.with(order).find(id) == b.find(id),
{
    let r = Resting { order, arrival: b.next_arrival };
    let c = b.with(order);
    let nb = b.bids.len() as int;
    let na = b.asks.len() as int;
    let nm = b.market_buys.len() as int;
    let at = match (order.side, order.spec_price()) {
        (Side::Buy, None) => nb + na + nm,
        (Side::Sell, None) => nb + na + nm + b.market_sells.len(),
        (Side::Buy, Some(p)) => bid_rank(b.bids, p.0 as int),
        (Side::Sell, Some(p)) => nb + ask_rank(b.asks, p.0 as int),
    };
    if let Some(p) = order.spec_price() {
        lemma_rank_fits(b.bids, p.0 as int);
        lemma_rank_fits(b.asks, p.0 as int);
    }
    assert(c.all() =~= b.all().insert(at, r));
    assert forall|k: int| 0 <= k < b.all().len() implies (#[trigger] b.all()[k]).order.id
        != order.id by {
        if b.all()[k].order.id == order.id {
            lemma_find(b, k);
        }
    }
    assert forall|i: int, j: int| 0 <= i < j < c.all().len() implies (
    #[trigger] c.all()[i]).order.id != (#[trigger] c.all()[j]).order.id by {
        let i0 = if i < at {
            i
        } else {
            i - 1
        };
        let j0 = if j < at {
            j
        } else {
            j - 1
        };
        if i != at && j != at {
            assert(b.all()[i0].order.id != b.all()[j0].order.id);
        } else if i == at {
            assert(b.all()[j0].order.id != order.id);
        } else {
            assert(b.all()[i0].order.id != order.id);
        }
    }
    lemma_find(c, at);
    assert forall|id: OrderId| id != order.id implies #[trigger] c.find(id) == b.find(id) by {
        if b.find(id) is Some {
            let k = lemma_found(b, id);
            let k2 = if k < at {
                k
            } else {
                k + 1
            };
            assert(c.all()[k2] == b.all()[k]);
            lemma_find(c, k2);
        } else if c.find(id) is Some {
            let k2 = lemma_found(c, id);
            let k = if k2 < at {
                k2
            } else {
                k2 - 1
            };
            assert(b.all()[k] == c.all()[k2]);
            lemma_find(b, k);
        }
    }
}

/// When an order of the book arrived.
pub open spec fn arrived_at(b: BookView, id: OrderId) -> int {
    match b.find(id) {
        Some(r) => r.arrival as int,
        None => 0,
    }
}

/// Whether fills are all of orders that arrived no later than `last`, and come
/// in the order their orders arrived in.
spec fn in_arrival_order(b: BookView, fills: Seq<L0Fill>, last: int) -> bool {
    &&& forall|i: int|
        0 <= i < fills.len() ==> arrived_at(b, (#[trigger] fills[i]).fill.order) <= last
    &&& forall|i: int, j: int|
        0 <= i < j < fills.len() ==> arrived_at(b, (#[trigger] fills[i]).fill.order) <= arrived_at(
            b,
            (#[trigger] fills[j]).fill.order,
        )
}

proof fn lemma_gap_in_order(v: L0View, tick: Tick, run: Run, list: Seq<Arrival>, stamp: Stamp)
    requires
        traced(v, v.book, tick, run),
        run.fills.len() == 0,
        stamp == (match v.prev_stamp {
            Some(s) => s,
            None => tick.stamp,
        }),
        forall|i: int|
            0 <= i < list.len() ==> (v.book.find((#[trigger] list[i]).1) matches Some(r) ==> passed(
                v,
                tick,
                r.order,
            ) && r.arrival == list[i].0),
        forall|i: int, j: int|
            0 <= i < j < list.len() ==> (#[trigger] list[i]).0 <= (#[trigger] list[j]).0,
    ensures
        list.len() == 0 ==> run.gap(list, stamp).fills.len() == 0,
        list.len() > 0 ==> in_arrival_order(
            v.book,
            run.gap(list, stamp).fills,
            list.last().0 as int,
        ),
    decreases list.len(),
{
    if list.len() > 0 {
        let front = list.drop_last();
        assert forall|i: int| 0 <= i < front.len() implies (v.book.find(
            (#[trigger] front[i]).1,
        ) matches Some(r) ==> passed(v, tick, r.order) && r.arrival == front[i].0) by {
            assert(front[i] == list[i]);
        }
        assert forall|i: int, j: int| 0 <= i < j < front.len() implies (#[trigger] front[i]).0 <= (
        #[trigger] front[j]).0 by {
            assert(front[i] == list[i] && front[j] == list[j]);
        }
        lemma_gap_in_order(v, tick, run, front, stamp);
        lemma_traced_gap(v, v.book, tick, run, front, stamp);
        let before = run.gap(front, stamp);
        let after = run.gap(list, stamp);
        let n = list.len() - 1;
        let last = list[n].0 as int;
        assert(list.last() == list[n]);
        if front.len() > 0 {
            assert(list[n - 1] == front.last());
            assert(list[n - 1].0 <= list[n].0);
        }
        assert(in_arrival_order(v.book, before.fills, last));
        let id = list[n].1;
        if before.engine.book.find(id) is Some {
            let k = lemma_found(before.engine.book, id);
            assert(arrived_at(v.book, id) == last);
            if after.fills.len() > before.fills.len() {
                assert(after.fills.drop_last() =~= before.fills);
                assert(after.fills.last().fill.order == id);
                assert forall|i: int| 0 <= i < before.fills.len() implies #[trigger] after.fills[i]
                    == before.fills[i] by {}
            }
        }
    }
}

/// Whether fills were added, none of them for what the price passed over.
spec fn adds_no_gap(a: Seq<L0Fill>, b: Seq<L0Fill>) -> bool {
    &&& a.len() <= b.len()
    &&& forall|i: int| 0 <= i < a.len() ==> #[trigger] b[i] == a[i]
    &&& forall|i: int| a.len() <= i < b.len() ==> (#[trigger] b[i]).reason != FillReason::GapCrossed
}

proof fn lemma_market_adds(run: Run, list: Seq<Resting>, price: PriceTicks, stamp: Stamp)
    ensures
        adds_no_gap(run.fills, run.market(list, price, stamp).fills),
    decreases list.len(),
{
    if list.len() > 0 {
        lemma_market_adds(run, list.drop_last(), price, stamp);
    }
}

proof fn lemma_bids_add(run: Run, trigger: PriceTicks, fair: PriceTicks, stamp: Stamp)
    ensures
        adds_no_gap(run.fills, run.cross_bids(trigger, fair, stamp).fills),
    decreases run.engine.book.len(),
{
    let bids = run.engine.book.bids;
    if bids.len() == 0 || bids[0].order.spec_price() is None || limit_of(bids[0]) < trigger.0 {
    } else {
        lemma_without_shrinks(run.engine.book, bids[0].order.id);
        let terms = Run::bid_terms(bids[0].order.spec_price().unwrap(), fair, stamp);
        let next = run.execute(bids[0], terms);
        lemma_bids_add(next, trigger, fair, stamp);
        assert(adds_no_gap(run.fills, next.fills));
        let done = run.cross_bids(trigger, fair, stamp);
        assert forall|i: int| 0 <= i < run.fills.len() implies #[trigger] done.fills[i]
            == run.fills[i] by {
            assert(done.fills[i] == next.fills[i]);
        }
        assert forall|i: int| run.fills.len() <= i < done.fills.len() implies (
        #[trigger] done.fills[i]).reason != FillReason::GapCrossed by {
            if i < next.fills.len() {
                assert(done.fills[i] == next.fills[i]);
            }
        }
    }
}

proof fn lemma_asks_add(run: Run, trigger: PriceTicks, fair: PriceTicks, stamp: Stamp)
    ensures
        adds_no_gap(run.fills, run.cross_asks(trigger, fair, stamp).fills),
    decreases run.engine.book.len(),
{
    let asks = run.engine.book.asks;
    if asks.len() == 0 || asks[0].order.spec_price() is None || limit_of(asks[0]) > trigger.0 {
    } else {
        lemma_without_shrinks(run.engine.book, asks[0].order.id);
        let terms = Run::ask_terms(asks[0].order.spec_price().unwrap(), fair, stamp);
        let next = run.execute(asks[0], terms);
        lemma_asks_add(next, trigger, fair, stamp);
        assert(adds_no_gap(run.fills, next.fills));
        let done = run.cross_asks(trigger, fair, stamp);
        assert forall|i: int| 0 <= i < run.fills.len() implies #[trigger] done.fills[i]
            == run.fills[i] by {
            assert(done.fills[i] == next.fills[i]);
        }
        assert forall|i: int| run.fills.len() <= i < done.fills.len() implies (
        #[trigger] done.fills[i]).reason != FillReason::GapCrossed by {
            if i < next.fills.len() {
                assert(done.fills[i] == next.fills[i]);
            }
        }
    }
}

proof fn lemma_adds_chain(a: Seq<L0Fill>, b: Seq<L0Fill>, c: Seq<L0Fill>)
    requires
        adds_no_gap(a, b),
        adds_no_gap(b, c),
    ensures
        adds_no_gap(a, c),
{
    assert forall|i: int| 0 <= i < a.len() implies #[trigger] c[i] == a[i] by {
        assert(c[i] == b[i]);
    }
    assert forall|i: int| a.len() <= i < c.len() implies (#[trigger] c[i]).reason
        != FillReason::GapCrossed by {
        if i < b.len() {
            assert(c[i] == b[i]);
        }
    }
}

/// What follows the gap adds no fill for it.
proof fn lemma_rest_adds(gapped: Run, tick: Tick)
    ensures
        adds_no_gap(gapped.fills, gapped.cross(tick).uncross(tick.stamp).fills),
{
    let buys = gapped.engine.book.market_buys;
    let bought = gapped.market(buys, tick.buy_reference_spec(), tick.stamp);
    lemma_market_adds(gapped, buys, tick.buy_reference_spec(), tick.stamp);
    let sells = bought.engine.book.market_sells;
    let sold = gapped.take_market(tick);
    lemma_market_adds(bought, sells, tick.sell_reference_spec(), tick.stamp);
    lemma_adds_chain(gapped.fills, bought.fills, sold.fills);
    let bids = if tick.buy_trigger_spec().0 > 0 {
        lemma_bids_add(sold, tick.buy_trigger_spec(), tick.buy_reference_spec(), tick.stamp);
        sold.cross_bids(tick.buy_trigger_spec(), tick.buy_reference_spec(), tick.stamp)
    } else {
        sold
    };
    lemma_adds_chain(gapped.fills, sold.fills, bids.fills);
    let crossed = gapped.cross(tick);
    if tick.sell_trigger_spec().0 > 0 {
        lemma_asks_add(bids, tick.sell_trigger_spec(), tick.sell_reference_spec(), tick.stamp);
    }
    lemma_adds_chain(gapped.fills, bids.fills, crossed.fills);
    let b = crossed.engine.book;
    if b.crossed() {
        let best_bid = PriceTicks(limit_of(b.bids[0]) as i64);
        let best_ask = PriceTicks(limit_of(b.asks[0]) as i64);
        let none = PriceTicks(0);
        lemma_bids_add(crossed, best_ask, none, tick.stamp);
        let taken = crossed.cross_bids(best_ask, none, tick.stamp);
        lemma_adds_chain(gapped.fills, crossed.fills, taken.fills);
        lemma_asks_add(taken, best_bid, none, tick.stamp);
        lemma_adds_chain(
            gapped.fills,
            taken.fills,
            taken.cross_asks(best_bid, none, tick.stamp).fills,
        );
    }
}

/// What the price passed over trades first, and in the order the orders
/// arrived: no fill for another cause comes before one for this, and of two for
/// this the earlier arrival is the earlier fill.
pub proof fn law_what_was_passed_over_trades_in_order_of_arrival(
    v: L0View,
    tick: Tick,
    i: int,
    j: int,
)
    requires
        v.wf(),
        unique(v.book),
        0 <= i < j < v.on_tick(tick).fills.len(),
        v.on_tick(tick).fills[j].reason == FillReason::GapCrossed,
    ensures
        v.on_tick(tick).fills[i].reason == FillReason::GapCrossed,
        arrived_at(v.book, v.on_tick(tick).fills[i].fill.order) <= arrived_at(
            v.book,
            v.on_tick(tick).fills[j].fill.order,
        ),
{
    let run0 = Run { engine: v, fills: Seq::empty() };
    let gapped = run0.gap_fill(tick);
    lemma_rest_adds(gapped, tick);
    let done = v.on_tick(tick).fills;
    assert(done == gapped.cross(tick).uncross(tick.stamp).fills);
    assert(j < gapped.fills.len());
    assert(done[i] == gapped.fills[i] && done[j] == gapped.fills[j]);
    let prev = v.prev_price->Some_0;
    let stamp = match v.prev_stamp {
        Some(s) => s,
        None => tick.stamp,
    };
    let list = in_order(passed_over(v.book, prev, tick));
    lemma_passed_list(v, prev, tick);
    lemma_passed_arrivals(v, prev, tick);
    assert(traced(v, v.book, tick, run0));
    lemma_gap_in_order(v, tick, run0, list, stamp);
    lemma_gap_reasons(run0, list, stamp);
}

proof fn lemma_gap_reasons(run: Run, list: Seq<Arrival>, stamp: Stamp)
    requires
        run.fills.len() == 0,
    ensures
        forall|i: int|
            0 <= i < run.gap(list, stamp).fills.len() ==> (#[trigger] run.gap(
                list,
                stamp,
            ).fills[i]).reason == FillReason::GapCrossed,
    decreases list.len(),
{
    if list.len() > 0 {
        lemma_gap_reasons(run, list.drop_last(), stamp);
    }
}

/// The list is in order of arrival, and says of each order when it arrived.
proof fn lemma_passed_arrivals(v: L0View, prev: PriceTicks, tick: Tick)
    requires
        v.wf(),
        unique(v.book),
    ensures
        ({
            let list = in_order(passed_over(v.book, prev, tick));
            &&& forall|i: int, j: int|
                0 <= i < j < list.len() ==> (#[trigger] list[i]).0 <= (#[trigger] list[j]).0
            &&& forall|i: int|
                0 <= i < list.len() ==> (v.book.find((#[trigger] list[i]).1) matches Some(r)
                    ==> r.arrival == list[i].0)
        }),
{
    let b = v.book;
    let raw = passed_over(b, prev, tick);
    let list = in_order(raw);
    let le = |x: Arrival, y: Arrival| arrives_before(x, y);
    law_ordered_keeps_elements(raw, le);
    law_ordered_is_in_order(raw, le);
    assert forall|i: int, j: int| 0 <= i < j < list.len() implies (#[trigger] list[i]).0 <= (
    #[trigger] list[j]).0 by {
        assert(le(list[i], list[j]));
    }
    lemma_all_index(b);
    let up = tick.up_spec().0 as int;
    let dn = tick.dn_spec().0 as int;
    assert forall|i: int| 0 <= i < list.len() implies (b.find((#[trigger] list[i]).1) matches Some(
        r,
    ) ==> r.arrival == list[i].0) by {
        assert(list.contains(list[i]));
        assert(raw.contains(list[i]));
        let j = choose|j: int| 0 <= j < raw.len() && raw[j] == list[i];
        if up > prev.0 {
            let test = |r: Resting| passed_up(r, prev.0 as int, up);
            let taken = b.asks.filter(test);
            assert(raw[j] == arrival_of(taken[j]));
            b.asks.lemma_filter_contains_rev(test, taken[j]);
            let k = choose|k: int| 0 <= k < b.asks.len() && b.asks[k] == taken[j];
            lemma_find(b, b.bids.len() + k);
        } else {
            let test = |r: Resting| passed_down(r, prev.0 as int, dn);
            let taken = b.bids.filter(test);
            assert(raw[j] == arrival_of(taken[j]));
            b.bids.lemma_filter_contains_rev(test, taken[j]);
            let k = choose|k: int| 0 <= k < b.bids.len() && b.bids[k] == taken[j];
            lemma_find(b, k);
        }
    }
}

/// An order restated in place keeps its place in the order of arrival, and no
/// other order is touched; one restated as nothing is gone.
pub proof fn law_an_order_is_restated_in_place(b: BookView, id: OrderId, order: Working)
    requires
        unique(b),
        order.id == id,
        b.find(id) is Some,
    ensures
        b.replaced(id, Some(order)).find(id) == Some(
            (Resting { order, arrival: b.find(id)->Some_0.arrival }),
        ),
        b.replaced(id, Some(order)).len() == b.len(),
        b.replaced(id, None).find(id) is None,
        b.replaced(id, None).len() == b.len() - 1,
        forall|i: int|
            0 <= i < b.all().len() && (#[trigger] b.all()[i]).order.id != id ==> b.replaced(
                id,
                Some(order),
            ).all()[i] == b.all()[i],
{
    let c = b.replaced(id, Some(order));
    law_remove_is_exact(b, id);
    let k = lemma_found(b, id);
    assert(b.without(id).all() == b.all().remove(k));
    lemma_all_index(b.without(id));
    lemma_all_index(b);
    lemma_all_index(c);
    lemma_seat(b.bids, id);
    lemma_seat(b.asks, id);
    lemma_seat(b.market_buys, id);
    lemma_seat(b.market_sells, id);
    let nb = b.bids.len() as int;
    let na = b.asks.len() as int;
    let nm = b.market_buys.len() as int;
    let at = if seated(b.bids, id) {
        seat(b.bids, id)
    } else if seated(b.asks, id) {
        nb + seat(b.asks, id)
    } else if seated(b.market_buys, id) {
        nb + na + seat(b.market_buys, id)
    } else {
        nb + na + nm + seat(b.market_sells, id)
    };
    let r = Resting { order, arrival: b.find(id)->Some_0.arrival };
    assert(c.all() =~= b.all().update(at, r));
    assert(b.all()[at].order.id == id);
    assert(unique(c)) by {
        assert forall|i: int, j: int| 0 <= i < j < c.all().len() implies (
        #[trigger] c.all()[i]).order.id != (#[trigger] c.all()[j]).order.id by {
            assert(b.all()[i].order.id != b.all()[j].order.id);
        }
    }
    lemma_find(c, at);
}

} // verus!

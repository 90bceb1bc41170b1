//! What holds of every observation an L0 engine is shown.
use crate::engine::book::{
    law_remove_keeps_priority, lemma_seat, limit_of, seat, seated, BookView, Resting,
};
use crate::engine::l0::{
    arrival_of, arrives_before, in_order, lemma_without_shrinks, passed_down, passed_over, passed_up,
    Arrival, FillReason, L0Fill, L0View, Run, Terms,
};
use crate::sorting::law_ordered_keeps_elements;
use crate::engine::tick::Tick;
use crate::types::{Liquidity, OrderId, PriceTicks, Side, Stamp, Working};
use vstd::prelude::*;

verus! {

/// No two orders in the book share an id.
pub open spec fn unique(b: BookView) -> bool {
    forall|i: int, j: int|
        0 <= i < j < b.all().len() ==> (#[trigger] b.all()[i]).order.id != (
        #[trigger] b.all()[j]).order.id
}

/// The price an order that takes is filled at.
pub open spec fn reference(tick: Tick, side: Side) -> PriceTicks {
    match side {
        Side::Buy => tick.buy_reference_spec(),
        Side::Sell => tick.sell_reference_spec(),
    }
}

/// A price an observation may fill an order at: a limit order's own, or the
/// observation's where that is better for the order; a market order's is the
/// observation's.
pub open spec fn price_allowed(order: Working, price: PriceTicks, tick: Tick) -> bool {
    let seen = reference(tick, order.side);
    match (order.spec_price(), order.side) {
        (Some(p), Side::Buy) => price == p || price == seen && 0 < seen.0 < p.0,
        (Some(p), Side::Sell) => price == p || price == seen && seen.0 > 0 && seen.0 > p.0,
        (None, _) => price == seen,
    }
}

/// A fill that trades all of an order that was in the book, on its own terms.
pub open spec fn honours(start: BookView, tick: Tick, f: L0Fill) -> bool {
    match start.find(f.fill.order) {
        None => false,
        Some(r) => {
            &&& f.fill.qty == r.order.remaining
            &&& f.fill.qty.0 > 0
            &&& f.fill.side == r.order.side
            &&& f.fill.offset == r.order.offset
            &&& price_allowed(r.order, f.fill.price, tick)
        },
    }
}

/// A run that has so far filled only orders of `start`, each once.
pub open spec fn faithful(start: BookView, tick: Tick, run: Run) -> bool {
    &&& unique(run.engine.book)
    &&& run.engine.book.wf()
    &&& forall|id: OrderId|
        (#[trigger] run.engine.book.find(id)) is Some ==> run.engine.book.find(id) == start.find(id)
    &&& forall|i: int|
        0 <= i < run.fills.len() ==> honours(start, tick, #[trigger] run.fills[i])
            && run.engine.book.find(run.fills[i].fill.order) is None
    &&& forall|i: int, j: int|
        0 <= i < j < run.fills.len() ==> (#[trigger] run.fills[i]).fill.order != (
        #[trigger] run.fills[j]).fill.order
}

/// The place of an element of each list among all orders.
pub proof fn lemma_all_index(b: BookView)
    ensures
        b.all().len() == b.len(),
        forall|i: int| 0 <= i < b.bids.len() ==> #[trigger] b.bids[i] == b.all()[i],
        forall|i: int|
            0 <= i < b.asks.len() ==> #[trigger] b.asks[i] == b.all()[b.bids.len() + i],
        forall|i: int|
            0 <= i < b.market_buys.len() ==> #[trigger] b.market_buys[i] == b.all()[b.bids.len()
                + b.asks.len() + i],
        forall|i: int|
            0 <= i < b.market_sells.len() ==> #[trigger] b.market_sells[i] == b.all()[b.bids.len()
                + b.asks.len() + b.market_buys.len() + i],
{
}

/// With unique ids, looking an order up by its id finds it.
pub proof fn lemma_find(b: BookView, k: int)
    requires
        unique(b),
        0 <= k < b.all().len(),
    ensures
        b.find(b.all()[k].order.id) == Some(b.all()[k]),
{
    let id = b.all()[k].order.id;
    lemma_all_index(b);
    lemma_seat(b.bids, id);
    lemma_seat(b.asks, id);
    lemma_seat(b.market_buys, id);
    lemma_seat(b.market_sells, id);
    let nb = b.bids.len() as int;
    let na = b.asks.len() as int;
    let nm = b.market_buys.len() as int;
    if seated(b.bids, id) {
        assert(b.all()[seat(b.bids, id)].order.id == id);
    } else if seated(b.asks, id) {
        assert(b.all()[nb + seat(b.asks, id)].order.id == id);
    } else if seated(b.market_buys, id) {
        assert(b.all()[nb + na + seat(b.market_buys, id)].order.id == id);
    } else if seated(b.market_sells, id) {
        assert(b.all()[nb + na + nm + seat(b.market_sells, id)].order.id == id);
    } else {
        if k < nb {
            assert(b.bids[k].order.id == id);
        } else if k < nb + na {
            assert(b.asks[k - nb].order.id == id);
        } else if k < nb + na + nm {
            assert(b.market_buys[k - nb - na].order.id == id);
        } else {
            assert(b.market_sells[k - nb - na - nm].order.id == id);
        }
        assert(false);
    }
}

/// What a lookup finds is in the book.
pub proof fn lemma_found(b: BookView, id: OrderId) -> (k: int)
    requires
        b.find(id) is Some,
    ensures
        0 <= k < b.all().len(),
        b.find(id) == Some(b.all()[k]),
        b.all()[k].order.id == id,
        b.without(id).all() == b.all().remove(k),
{
    lemma_all_index(b);
    lemma_seat(b.bids, id);
    lemma_seat(b.asks, id);
    lemma_seat(b.market_buys, id);
    lemma_seat(b.market_sells, id);
    let nb = b.bids.len() as int;
    let na = b.asks.len() as int;
    let nm = b.market_buys.len() as int;
    let k = if seated(b.bids, id) {
        seat(b.bids, id)
    } else if seated(b.asks, id) {
        nb + seat(b.asks, id)
    } else if seated(b.market_buys, id) {
        nb + na + seat(b.market_buys, id)
    } else {
        nb + na + nm + seat(b.market_sells, id)
    };
    assert(b.without(id).all() =~= b.all().remove(k));
    k
}

/// With unique ids, removing an order removes it and nothing else.
pub proof fn law_remove_is_exact(b: BookView, id: OrderId)
    requires
        unique(b),
    ensures
        unique(b.without(id)),
        b.without(id).find(id) is None,
        forall|other: OrderId|
            other != id ==> #[trigger] b.without(id).find(other) == b.find(other),
{
    let c = b.without(id);
    if b.find(id) is Some {
        let k = lemma_found(b, id);
        assert forall|i: int, j: int| 0 <= i < j < c.all().len() implies (
        #[trigger] c.all()[i]).order.id != (#[trigger] c.all()[j]).order.id by {
            let i0 = if i < k {
                i
            } else {
                i + 1
            };
            let j0 = if j < k {
                j
            } else {
                j + 1
            };
            assert(b.all()[i0].order.id != b.all()[j0].order.id);
        }
        if c.find(id) is Some {
            let i = lemma_found(c, id);
            let i0 = if i < k {
                i
            } else {
                i + 1
            };
            assert(b.all()[i0].order.id == id);
            if i0 < k {
                assert(b.all()[i0].order.id != b.all()[k].order.id);
            } else {
                assert(b.all()[k].order.id != b.all()[i0].order.id);
            }
        }
        assert forall|other: OrderId| other != id implies #[trigger] c.find(other) == b.find(
            other,
        ) by {
            if c.find(other) is Some {
                let i = lemma_found(c, other);
                let i0 = if i < k {
                    i
                } else {
                    i + 1
                };
                lemma_find(b, i0);
            } else if b.find(other) is Some {
                let i0 = lemma_found(b, other);
                let i = if i0 < k {
                    i0
                } else {
                    i0 - 1
                };
                assert(c.all()[i] == b.all()[i0]);
                lemma_find(c, i);
            }
        }
    } else {
        assert(c == b);
    }
}

proof fn lemma_faithful_execute(start: BookView, tick: Tick, run: Run, r: Resting, terms: Terms)
    requires
        faithful(start, tick, run),
        run.engine.book.find(r.order.id) == Some(r),
        price_allowed(r.order, terms.price, tick),
    ensures
        faithful(start, tick, run.execute(r, terms)),
        run.execute(r, terms).engine.book == run.engine.book.without(r.order.id),
{
    let next = run.execute(r, terms);
    law_remove_is_exact(run.engine.book, r.order.id);
    law_remove_keeps_priority(run.engine.book, r.order.id);
    assert forall|i: int| 0 <= i < next.fills.len() implies honours(start, tick, #[trigger] next.fills[i])
        && next.engine.book.find(next.fills[i].fill.order) is None by {
        if i < run.fills.len() {
            assert(next.fills[i] == run.fills[i]);
            let id = run.fills[i].fill.order;
            assert(run.engine.book.find(id) is None);
            assert(next.engine.book.find(id) is None);
        }
    }
    assert forall|i: int, j: int| 0 <= i < j < next.fills.len() implies (
    #[trigger] next.fills[i]).fill.order != (#[trigger] next.fills[j]).fill.order by {
        assert(next.fills[i] == run.fills[i]);
        if j < run.fills.len() {
            assert(next.fills[j] == run.fills[j]);
        }
    }
}

/// Whatever stands under `id` is a limit order.
pub open spec fn limit_only(b: BookView, id: OrderId) -> bool {
    b.find(id) matches Some(r) ==> r.order.spec_price() is Some
}

/// What the price passed over is limit orders.
proof fn lemma_passed_over_limits(b: BookView, prev: PriceTicks, tick: Tick)
    requires
        b.wf(),
        unique(b),
    ensures
        forall|i: int|
            0 <= i < in_order(passed_over(b, prev, tick)).len() ==> limit_only(
                b,
                (#[trigger] in_order(passed_over(b, prev, tick))[i]).1,
            ),
{
    let raw = passed_over(b, prev, tick);
    let list = in_order(raw);
    law_ordered_keeps_elements(raw, |x: Arrival, y: Arrival| arrives_before(x, y));
    lemma_all_index(b);
    let up = tick.up_spec().0 as int;
    let dn = tick.dn_spec().0 as int;
    assert forall|i: int| 0 <= i < list.len() implies limit_only(b, (#[trigger] list[i]).1) by {
        assert(list.contains(list[i]));
        assert(raw.contains(list[i]));
        let j = choose|j: int| 0 <= j < raw.len() && raw[j] == list[i];
        if up > prev.0 {
            let test = |r: Resting| passed_up(r, prev.0 as int, up);
            let kept = b.asks.filter(test);
            assert(raw[j] == arrival_of(kept[j]));
            b.asks.lemma_filter_contains_rev(test, kept[j]);
            let k = choose|k: int| 0 <= k < b.asks.len() && b.asks[k] == kept[j];
            lemma_find(b, b.bids.len() + k);
        } else {
            let test = |r: Resting| passed_down(r, prev.0 as int, dn);
            let kept = b.bids.filter(test);
            assert(raw[j] == arrival_of(kept[j]));
            b.bids.lemma_filter_contains_rev(test, kept[j]);
            let k = choose|k: int| 0 <= k < b.bids.len() && b.bids[k] == kept[j];
            lemma_find(b, k);
        }
    }
}

proof fn lemma_faithful_gap(start: BookView, tick: Tick, run: Run, list: Seq<Arrival>, stamp: Stamp)
    requires
        faithful(start, tick, run),
        forall|i: int|
            0 <= i < list.len() ==> limit_only(start, (#[trigger] list[i]).1),
    ensures
        faithful(start, tick, run.gap(list, stamp)),
    decreases list.len(),
{
    if list.len() > 0 {
        assert forall|i: int| 0 <= i < list.drop_last().len() implies limit_only(
            start,
            (#[trigger] list.drop_last()[i]).1,
        ) by {
            assert(list.drop_last()[i] == list[i]);
        }
        lemma_faithful_gap(start, tick, run, list.drop_last(), stamp);
        assert(limit_only(start, list[list.len() - 1].1));
        let before = run.gap(list.drop_last(), stamp);
        let id = list.last().1;
        if before.engine.book.find(id) is Some {
            let k = lemma_found(before.engine.book, id);
            let r = before.engine.book.find(id).unwrap();
            let price = match r.order.spec_price() {
                Some(p) => p,
                None => PriceTicks(0),
            };
            lemma_faithful_execute(
                start, tick,
                before,
                r,
                Terms {
                    price,
                    liquidity: Liquidity::Maker,
                    reason: FillReason::GapCrossed,
                    stamp,
                },
            );
        }
    }
}

/// Market orders trade while they are in the book, and each is until it does.
proof fn lemma_faithful_market(
    start: BookView,
    tick: Tick,
    run: Run,
    list: Seq<Resting>,
    side: Side,
    stamp: Stamp,
)
    requires
        faithful(start, tick, run),
        forall|i: int|
            0 <= i < list.len() ==> run.engine.book.find((#[trigger] list[i]).order.id) == Some(
                list[i],
            ) && list[i].order.spec_price() is None && list[i].order.side == side,
        forall|i: int, j: int|
            0 <= i < j < list.len() ==> (#[trigger] list[i]).order.id != (
            #[trigger] list[j]).order.id,
    ensures
        faithful(start, tick, run.market(list, reference(tick, side), stamp)),
        forall|id: OrderId|
            (forall|i: int| 0 <= i < list.len() ==> (#[trigger] list[i]).order.id != id)
                ==> #[trigger] run.market(list, reference(tick, side), stamp).engine.book.find(id)
                == run.engine.book.find(id),
    decreases list.len(),
{
    if list.len() > 0 {
        let front = list.drop_last();
        let r = list.last();
        assert(list[list.len() - 1] == r);
        assert forall|i: int| 0 <= i < front.len() implies run.engine.book.find(
            (#[trigger] front[i]).order.id,
        ) == Some(front[i]) && front[i].order.spec_price() is None && front[i].order.side == side by {
            assert(front[i] == list[i]);
        }
        assert forall|i: int, j: int| 0 <= i < j < front.len() implies (
        #[trigger] front[i]).order.id != (#[trigger] front[j]).order.id by {
            assert(front[i] == list[i]);
            assert(front[j] == list[j]);
        }
        lemma_faithful_market(start, tick, run, front, side, stamp);
        let before = run.market(front, reference(tick, side), stamp);
        assert forall|i: int| 0 <= i < front.len() implies (#[trigger] front[i]).order.id
            != r.order.id by {
            assert(front[i] == list[i]);
        }
        assert(before.engine.book.find(r.order.id) == Some(r));
        let terms = Terms {
            price: reference(tick, side),
            liquidity: Liquidity::Taker,
            reason: FillReason::Market,
            stamp,
        };
        lemma_faithful_execute(start, tick, before, r, terms);
        law_remove_is_exact(before.engine.book, r.order.id);
        assert forall|id: OrderId|
            (forall|i: int| 0 <= i < list.len() ==> (#[trigger] list[i]).order.id != id)
            implies #[trigger] run.market(list, reference(tick, side), stamp).engine.book.find(id)
            == run.engine.book.find(id) by {
            assert(list[list.len() - 1].order.id != id);
            assert forall|i: int| 0 <= i < front.len() implies (#[trigger] front[i]).order.id
                != id by {
                assert(front[i] == list[i]);
            }
            assert(before.engine.book.find(id) == run.engine.book.find(id));
        }
    }
}

proof fn lemma_faithful_bids(
    start: BookView, tick: Tick,
    run: Run,
    trigger: PriceTicks,
    fair: PriceTicks,
    stamp: Stamp,
)
    requires
        faithful(start, tick, run),
        fair == reference(tick, Side::Buy) || fair.0 <= 0,
    ensures
        faithful(start, tick, run.cross_bids(trigger, fair, stamp)),
    decreases run.engine.book.len(),
{
    let bids = run.engine.book.bids;
    if bids.len() == 0 || bids[0].order.spec_price() is None || limit_of(bids[0]) < trigger.0 {
    } else {
        let price = bids[0].order.spec_price().unwrap();
        lemma_all_index(run.engine.book);
        lemma_find(run.engine.book, 0);
        lemma_without_shrinks(run.engine.book, bids[0].order.id);
        let terms = Run::bid_terms(price, fair, stamp);
        lemma_faithful_execute(start, tick, run, bids[0], terms);
        lemma_faithful_bids(start, tick, run.execute(bids[0], terms), trigger, fair, stamp);
    }
}

proof fn lemma_faithful_asks(
    start: BookView, tick: Tick,
    run: Run,
    trigger: PriceTicks,
    fair: PriceTicks,
    stamp: Stamp,
)
    requires
        faithful(start, tick, run),
        fair == reference(tick, Side::Sell) || fair.0 <= 0,
    ensures
        faithful(start, tick, run.cross_asks(trigger, fair, stamp)),
    decreases run.engine.book.len(),
{
    let asks = run.engine.book.asks;
    if asks.len() == 0 || asks[0].order.spec_price() is None || limit_of(asks[0]) > trigger.0 {
    } else {
        let price = asks[0].order.spec_price().unwrap();
        lemma_all_index(run.engine.book);
        lemma_find(run.engine.book, run.engine.book.bids.len() as int);
        lemma_without_shrinks(run.engine.book, asks[0].order.id);
        let terms = Run::ask_terms(price, fair, stamp);
        lemma_faithful_execute(start, tick, run, asks[0], terms);
        lemma_faithful_asks(start, tick, run.execute(asks[0], terms), trigger, fair, stamp);
    }
}

/// Every fill trades all of an order that was resting, at a price no worse
/// than it asked for; no order is filled twice, and a filled order has left
/// the book. What stays in the book is what was there.
pub proof fn law_fills_are_faithful(v: L0View, tick: Tick)
    requires
        v.wf(),
        unique(v.book),
    ensures
        faithful(v.book, tick, v.on_tick(tick)),
{
    let run0 = Run { engine: v, fills: Seq::empty() };
    assert(faithful(v.book, tick, run0));
    let gapped = run0.gap_fill(tick);
    match v.prev_price {
        None => {},
        Some(prev) => {
            let stamp = match v.prev_stamp {
                Some(s) => s,
                None => tick.stamp,
            };
            lemma_passed_over_limits(v.book, prev, tick);
            lemma_faithful_gap(v.book, tick, run0, in_order(passed_over(v.book, prev, tick)), stamp);
        },
    }
    lemma_market_list(gapped.engine.book);
    let buys = gapped.engine.book.market_buys;
    lemma_faithful_market(v.book, tick, gapped, buys, Side::Buy, tick.stamp);
    let bought = gapped.market(buys, tick.buy_reference_spec(), tick.stamp);
    lemma_market_list(bought.engine.book);
    let sells = bought.engine.book.market_sells;
    lemma_faithful_market(v.book, tick, bought, sells, Side::Sell, tick.stamp);
    let sold = gapped.take_market(tick);
    if tick.buy_trigger_spec().0 > 0 {
        lemma_faithful_bids(
            v.book, tick,
            sold,
            tick.buy_trigger_spec(),
            tick.buy_reference_spec(),
            tick.stamp,
        );
    }
    let bids = if tick.buy_trigger_spec().0 > 0 {
        sold.cross_bids(tick.buy_trigger_spec(), tick.buy_reference_spec(), tick.stamp)
    } else {
        sold
    };
    if tick.sell_trigger_spec().0 > 0 {
        lemma_faithful_asks(
            v.book, tick,
            bids,
            tick.sell_trigger_spec(),
            tick.sell_reference_spec(),
            tick.stamp,
        );
    }
    let crossed = gapped.cross(tick);
    assert(faithful(v.book, tick, crossed));
    let b = crossed.engine.book;
    if b.crossed() {
        let best_bid = PriceTicks(limit_of(b.bids[0]) as i64);
        let best_ask = PriceTicks(limit_of(b.asks[0]) as i64);
        let none = PriceTicks(0);
        lemma_faithful_bids(v.book, tick, crossed, best_ask, none, tick.stamp);
        let bought = crossed.cross_bids(best_ask, none, tick.stamp);
        lemma_faithful_asks(v.book, tick, bought, best_bid, none, tick.stamp);
    }
    let done = crossed.uncross(tick.stamp);
    assert(faithful(v.book, tick, done));
    assert(v.on_tick(tick).fills == done.fills);
    assert(v.on_tick(tick).engine.book == done.engine.book);
}

/// The market orders of a book can each be looked up.
pub proof fn lemma_market_list(b: BookView)
    requires
        b.wf(),
        unique(b),
    ensures
        forall|i: int|
            0 <= i < b.market_buys.len() ==> b.find((#[trigger] b.market_buys[i]).order.id) == Some(
                b.market_buys[i],
            ) && b.market_buys[i].order.spec_price() is None && b.market_buys[i].order.side
                == Side::Buy,
        forall|i: int, j: int|
            0 <= i < j < b.market_buys.len() ==> (#[trigger] b.market_buys[i]).order.id != (
            #[trigger] b.market_buys[j]).order.id,
        forall|i: int|
            0 <= i < b.market_sells.len() ==> b.find((#[trigger] b.market_sells[i]).order.id)
                == Some(b.market_sells[i]) && b.market_sells[i].order.spec_price() is None
                && b.market_sells[i].order.side == Side::Sell,
        forall|i: int, j: int|
            0 <= i < j < b.market_sells.len() ==> (#[trigger] b.market_sells[i]).order.id != (
            #[trigger] b.market_sells[j]).order.id,
{
    lemma_all_index(b);
    let nb = b.bids.len() as int;
    let na = b.asks.len() as int;
    let nm = b.market_buys.len() as int;
    assert forall|i: int| 0 <= i < b.market_buys.len() implies b.find(
        (#[trigger] b.market_buys[i]).order.id,
    ) == Some(b.market_buys[i]) by {
        lemma_find(b, nb + na + i);
    }
    assert forall|i: int| 0 <= i < b.market_sells.len() implies b.find(
        (#[trigger] b.market_sells[i]).order.id,
    ) == Some(b.market_sells[i]) by {
        lemma_find(b, nb + na + nm + i);
    }
    assert forall|i: int, j: int| 0 <= i < j < b.market_buys.len() implies (
    #[trigger] b.market_buys[i]).order.id != (#[trigger] b.market_buys[j]).order.id by {
        assert(b.all()[nb + na + i].order.id != b.all()[nb + na + j].order.id);
    }
    assert forall|i: int, j: int| 0 <= i < j < b.market_sells.len() implies (
    #[trigger] b.market_sells[i]).order.id != (#[trigger] b.market_sells[j]).order.id by {
        assert(b.all()[nb + na + nm + i].order.id != b.all()[nb + na + nm + j].order.id);
    }
}

/// An order withdrawn before an observation is not filled by it.
pub proof fn law_cancelled_orders_never_fill(v: L0View, id: OrderId, tick: Tick)
    requires
        v.wf(),
        unique(v.book),
    ensures
        forall|i: int|
            0 <= i < v.cancel(id).on_tick(tick).fills.len() ==> (#[trigger] v.cancel(id).on_tick(
                tick,
            ).fills[i]).fill.order != id,
{
    let w = v.cancel(id);
    law_remove_is_exact(v.book, id);
    law_remove_keeps_priority(v.book, id);
    law_fills_are_faithful(w, tick);
    assert forall|i: int| 0 <= i < w.on_tick(tick).fills.len() implies (#[trigger] w.on_tick(
        tick,
    ).fills[i]).fill.order != id by {
        assert(honours(w.book, tick, w.on_tick(tick).fills[i]));
    }
}

/// Every bid stands below `trigger`.
pub open spec fn bids_below(b: BookView, trigger: PriceTicks) -> bool {
    forall|i: int| 0 <= i < b.bids.len() ==> limit_of(#[trigger] b.bids[i]) < trigger.0
}

/// Every ask stands above `trigger`.
pub open spec fn asks_above(b: BookView, trigger: PriceTicks) -> bool {
    forall|i: int| 0 <= i < b.asks.len() ==> limit_of(#[trigger] b.asks[i]) > trigger.0
}

proof fn lemma_execute_wf(run: Run, r: Resting, terms: Terms)
    requires
        run.engine.wf(),
    ensures
        run.execute(r, terms).engine.wf(),
        forall|t: PriceTicks|
            #[trigger] bids_below(run.engine.book, t) ==> bids_below(
                run.execute(r, terms).engine.book,
                t,
            ),
        forall|t: PriceTicks|
            #[trigger] asks_above(run.engine.book, t) ==> asks_above(
                run.execute(r, terms).engine.book,
                t,
            ),
{
    let id = r.order.id;
    let b = run.engine.book;
    let c = b.without(id);
    law_remove_keeps_priority(b, id);
    lemma_seat(b.bids, id);
    assert forall|t: PriceTicks| #[trigger] bids_below(b, t) implies bids_below(c, t) by {
        assert forall|i: int| 0 <= i < c.bids.len() implies limit_of(#[trigger] c.bids[i])
            < t.0 by {
            if seated(b.bids, id) {
                let i0 = if i < seat(b.bids, id) {
                    i
                } else {
                    i + 1
                };
                assert(c.bids[i] == b.bids[i0]);
            } else {
                assert(c.bids == b.bids);
            }
        }
    }
    lemma_seat(b.asks, id);
    assert forall|t: PriceTicks| #[trigger] asks_above(b, t) implies asks_above(c, t) by {
        assert forall|i: int| 0 <= i < c.asks.len() implies limit_of(#[trigger] c.asks[i])
            > t.0 by {
            if !seated(b.bids, id) && seated(b.asks, id) {
                let i0 = if i < seat(b.asks, id) {
                    i
                } else {
                    i + 1
                };
                assert(c.asks[i] == b.asks[i0]);
            } else {
                assert(c.asks == b.asks);
            }
        }
    }
}

proof fn lemma_gap_wf(run: Run, list: Seq<Arrival>, stamp: Stamp)
    requires
        run.engine.wf(),
    ensures
        run.gap(list, stamp).engine.wf(),
    decreases list.len(),
{
    if list.len() > 0 {
        lemma_gap_wf(run, list.drop_last(), stamp);
        let before = run.gap(list.drop_last(), stamp);
        if before.engine.book.find(list.last().1) is Some {
            let r = before.engine.book.find(list.last().1).unwrap();
            let price = match r.order.spec_price() {
                Some(p) => p,
                None => PriceTicks(0),
            };
            lemma_execute_wf(
                before,
                r,
                Terms {
                    price,
                    liquidity: Liquidity::Maker,
                    reason: FillReason::GapCrossed,
                    stamp,
                },
            );
        }
    }
}

proof fn lemma_market_wf(run: Run, list: Seq<Resting>, price: PriceTicks, stamp: Stamp)
    requires
        run.engine.wf(),
    ensures
        run.market(list, price, stamp).engine.wf(),
    decreases list.len(),
{
    if list.len() > 0 {
        lemma_market_wf(run, list.drop_last(), price, stamp);
        lemma_execute_wf(
            run.market(list.drop_last(), price, stamp),
            list.last(),
            Terms { price, liquidity: Liquidity::Taker, reason: FillReason::Market, stamp },
        );
    }
}

proof fn lemma_bids_reached(
    run: Run,
    trigger: PriceTicks,
    fair: PriceTicks,
    stamp: Stamp,
)
    requires
        run.engine.wf(),
    ensures
        run.cross_bids(trigger, fair, stamp).engine.wf(),
        bids_below(run.cross_bids(trigger, fair, stamp).engine.book, trigger),
        forall|t: PriceTicks|
            #[trigger] bids_below(run.engine.book, t) ==> bids_below(
                run.cross_bids(trigger, fair, stamp).engine.book,
                t,
            ),
        forall|t: PriceTicks|
            #[trigger] asks_above(run.engine.book, t) ==> asks_above(
                run.cross_bids(trigger, fair, stamp).engine.book,
                t,
            ),
    decreases run.engine.book.len(),
{
    let bids = run.engine.book.bids;
    if bids.len() == 0 {
    } else if bids[0].order.spec_price() is None || limit_of(bids[0]) < trigger.0 {
        assert forall|i: int| 0 <= i < bids.len() implies limit_of(#[trigger] bids[i])
            < trigger.0 by {
            if i > 0 {
                assert(limit_of(bids[0]) >= limit_of(bids[i]));
            }
        }
    } else {
        let price = bids[0].order.spec_price().unwrap();
        let terms = Run::bid_terms(price, fair, stamp);
        lemma_without_shrinks(run.engine.book, bids[0].order.id);
        lemma_execute_wf(run, bids[0], terms);
        lemma_bids_reached(run.execute(bids[0], terms), trigger, fair, stamp);
        let next = run.execute(bids[0], terms);
        let done = run.cross_bids(trigger, fair, stamp);
        assert forall|t: PriceTicks| #[trigger] bids_below(run.engine.book, t) implies bids_below(
            done.engine.book,
            t,
        ) by {
            assert(bids_below(next.engine.book, t));
        }
        assert forall|t: PriceTicks| #[trigger] asks_above(run.engine.book, t) implies asks_above(
            done.engine.book,
            t,
        ) by {
            assert(asks_above(next.engine.book, t));
        }
    }
}

proof fn lemma_asks_reached(
    run: Run,
    trigger: PriceTicks,
    fair: PriceTicks,
    stamp: Stamp,
)
    requires
        run.engine.wf(),
    ensures
        run.cross_asks(trigger, fair, stamp).engine.wf(),
        asks_above(run.cross_asks(trigger, fair, stamp).engine.book, trigger),
        forall|t: PriceTicks|
            #[trigger] bids_below(run.engine.book, t) ==> bids_below(
                run.cross_asks(trigger, fair, stamp).engine.book,
                t,
            ),
        forall|t: PriceTicks|
            #[trigger] asks_above(run.engine.book, t) ==> asks_above(
                run.cross_asks(trigger, fair, stamp).engine.book,
                t,
            ),
    decreases run.engine.book.len(),
{
    let asks = run.engine.book.asks;
    if asks.len() == 0 {
    } else if asks[0].order.spec_price() is None || limit_of(asks[0]) > trigger.0 {
        assert forall|i: int| 0 <= i < asks.len() implies limit_of(#[trigger] asks[i])
            > trigger.0 by {
            if i > 0 {
                assert(limit_of(asks[0]) <= limit_of(asks[i]));
            }
        }
    } else {
        let price = asks[0].order.spec_price().unwrap();
        let terms = Run::ask_terms(price, fair, stamp);
        lemma_without_shrinks(run.engine.book, asks[0].order.id);
        lemma_execute_wf(run, asks[0], terms);
        lemma_asks_reached(run.execute(asks[0], terms), trigger, fair, stamp);
        let next = run.execute(asks[0], terms);
        assert forall|t: PriceTicks| #[trigger] bids_below(run.engine.book, t) implies bids_below(
            run.cross_asks(trigger, fair, stamp).engine.book,
            t,
        ) by {
            assert(bids_below(next.engine.book, t));
        }
        assert forall|t: PriceTicks| #[trigger] asks_above(run.engine.book, t) implies asks_above(
            run.cross_asks(trigger, fair, stamp).engine.book,
            t,
        ) by {
            assert(asks_above(next.engine.book, t));
        }
    }
}

/// Resting orders that reach one another trade, and what is left does not
/// cross.
proof fn lemma_uncrossed(run: Run, stamp: Stamp)
    requires
        run.engine.wf(),
    ensures
        run.uncross(stamp).engine.wf(),
        forall|i: int, j: int|
            0 <= i < run.uncross(stamp).engine.book.bids.len() && 0 <= j < run.uncross(
                stamp,
            ).engine.book.asks.len() ==> limit_of(
                #[trigger] run.uncross(stamp).engine.book.bids[i],
            ) < limit_of(#[trigger] run.uncross(stamp).engine.book.asks[j]),
        forall|t: PriceTicks|
            #[trigger] bids_below(run.engine.book, t) ==> bids_below(
                run.uncross(stamp).engine.book,
                t,
            ),
        forall|t: PriceTicks|
            #[trigger] asks_above(run.engine.book, t) ==> asks_above(
                run.uncross(stamp).engine.book,
                t,
            ),
{
    let b = run.engine.book;
    let done = run.uncross(stamp);
    if b.crossed() {
        let best_bid = PriceTicks(limit_of(b.bids[0]) as i64);
        let best_ask = PriceTicks(limit_of(b.asks[0]) as i64);
        let none = PriceTicks(0);
        let bought = run.cross_bids(best_ask, none, stamp);
        lemma_bids_reached(run, best_ask, none, stamp);
        lemma_asks_reached(bought, best_bid, none, stamp);
        assert(bids_below(bought.engine.book, best_ask));
        assert(bids_below(done.engine.book, best_ask));
        assert(asks_above(done.engine.book, best_bid));
        assert forall|t: PriceTicks| #[trigger] bids_below(b, t) implies bids_below(
            done.engine.book,
            t,
        ) by {
            assert(bids_below(bought.engine.book, t));
        }
        assert forall|t: PriceTicks| #[trigger] asks_above(b, t) implies asks_above(
            done.engine.book,
            t,
        ) by {
            assert(asks_above(bought.engine.book, t));
        }
    } else {
        assert forall|i: int, j: int| 0 <= i < b.bids.len() && 0 <= j < b.asks.len() implies limit_of(
            #[trigger] b.bids[i],
        ) < limit_of(#[trigger] b.asks[j]) by {
            if i > 0 {
                assert(limit_of(b.bids[0]) >= limit_of(b.bids[i]));
            }
            if j > 0 {
                assert(limit_of(b.asks[0]) <= limit_of(b.asks[j]));
            }
        }
    }
}

/// What an observation comes to before resting orders meet one another.
proof fn lemma_reached(v: L0View, tick: Tick) -> (crossed: Run)
    requires
        v.wf(),
    ensures
        crossed == (Run { engine: v, fills: Seq::empty() }).gap_fill(tick).cross(tick),
        crossed.engine.wf(),
        v.on_tick(tick).engine.wf(),
        tick.buy_trigger_spec().0 > 0 ==> bids_below(
            v.on_tick(tick).engine.book,
            tick.buy_trigger_spec(),
        ),
        tick.sell_trigger_spec().0 > 0 ==> asks_above(
            v.on_tick(tick).engine.book,
            tick.sell_trigger_spec(),
        ),
{
    let run0 = Run { engine: v, fills: Seq::empty() };
    match v.prev_price {
        None => {},
        Some(prev) => {
            let stamp = match v.prev_stamp {
                Some(s) => s,
                None => tick.stamp,
            };
            lemma_gap_wf(run0, in_order(passed_over(v.book, prev, tick)), stamp);
        },
    }
    let gapped = run0.gap_fill(tick);
    lemma_market_wf(
        gapped,
        gapped.engine.book.market_buys,
        tick.buy_reference_spec(),
        tick.stamp,
    );
    let bought = gapped.market(
        gapped.engine.book.market_buys,
        tick.buy_reference_spec(),
        tick.stamp,
    );
    lemma_market_wf(
        bought,
        bought.engine.book.market_sells,
        tick.sell_reference_spec(),
        tick.stamp,
    );
    let sold = gapped.take_market(tick);
    if tick.buy_trigger_spec().0 > 0 {
        lemma_bids_reached(
            sold,
            tick.buy_trigger_spec(),
            tick.buy_reference_spec(),
            tick.stamp,
        );
    }
    let bids = if tick.buy_trigger_spec().0 > 0 {
        sold.cross_bids(tick.buy_trigger_spec(), tick.buy_reference_spec(), tick.stamp)
    } else {
        sold
    };
    if tick.sell_trigger_spec().0 > 0 {
        lemma_asks_reached(
            bids,
            tick.sell_trigger_spec(),
            tick.sell_reference_spec(),
            tick.stamp,
        );
    }
    let crossed = gapped.cross(tick);
    lemma_uncrossed(crossed, tick.stamp);
    if tick.buy_trigger_spec().0 > 0 {
        assert(bids_below(crossed.engine.book, tick.buy_trigger_spec()));
    }
    if tick.sell_trigger_spec().0 > 0 {
        assert(asks_above(crossed.engine.book, tick.sell_trigger_spec()));
    }
    crossed
}

/// After an observation no resting order stands where the observation reached:
/// every bid is below the price that would have filled it, every ask above.
pub proof fn law_nothing_reached_is_left(v: L0View, tick: Tick)
    requires
        v.wf(),
    ensures
        v.on_tick(tick).engine.wf(),
        tick.buy_trigger_spec().0 > 0 ==> bids_below(
            v.on_tick(tick).engine.book,
            tick.buy_trigger_spec(),
        ),
        tick.sell_trigger_spec().0 > 0 ==> asks_above(
            v.on_tick(tick).engine.book,
            tick.sell_trigger_spec(),
        ),
{
    let _ = lemma_reached(v, tick);
}

/// After an observation the resting book is not crossed: every bid is below
/// every ask.
pub proof fn law_the_book_is_not_crossed(v: L0View, tick: Tick, i: int, j: int)
    requires
        v.wf(),
        0 <= i < v.on_tick(tick).engine.book.bids.len(),
        0 <= j < v.on_tick(tick).engine.book.asks.len(),
    ensures
        limit_of(v.on_tick(tick).engine.book.bids[i]) < limit_of(
            v.on_tick(tick).engine.book.asks[j],
        ),
{
    let crossed = lemma_reached(v, tick);
    lemma_uncrossed(crossed, tick.stamp);
    let b = crossed.uncross(tick.stamp).engine.book;
    assert(limit_of(b.bids[i]) < limit_of(b.asks[j]));
}

/// Positive limit prices and a positive last price make every fill's price
/// positive, and every fill's quantity is.
pub proof fn law_fills_are_positive(v: L0View, tick: Tick, i: int)
    requires
        v.wf(),
        unique(v.book),
        tick.last.0 > 0,
        forall|k: int|
            0 <= k < v.book.all().len() ==> (#[trigger] v.book.all()[k]).order.spec_price() is None
                || limit_of(v.book.all()[k]) > 0,
        0 <= i < v.on_tick(tick).fills.len(),
    ensures
        v.on_tick(tick).fills[i].fill.price.0 > 0,
        v.on_tick(tick).fills[i].fill.qty.0 > 0,
{
    law_fills_are_faithful(v, tick);
    let f = v.on_tick(tick).fills[i];
    assert(honours(v.book, tick, f));
    let k = lemma_found(v.book, f.fill.order);
}

/// Trade ids count up by one from the engine's watermark.
pub open spec fn dense_from(base: int, run: Run) -> bool {
    &&& run.engine.trades == base + run.fills.len()
    &&& forall|i: int|
        0 <= i < run.fills.len() ==> (#[trigger] run.fills[i]).fill.trade.0 == base + 1 + i
}

proof fn lemma_dense_execute(base: int, run: Run, r: Resting, terms: Terms)
    requires
        dense_from(base, run),
    ensures
        run.engine.trades < u64::MAX ==> dense_from(base, run.execute(r, terms)),
        run.execute(r, terms).fills.len() >= run.fills.len(),
        run.execute(r, terms).engine.trades >= run.engine.trades,
{
}

proof fn lemma_grows_execute(run: Run, r: Resting, terms: Terms)
    ensures
        run.execute(r, terms).engine.trades >= run.engine.trades,
        run.execute(r, terms).engine.book.len() <= run.engine.book.len(),
        run.execute(r, terms).engine.trades - run.engine.trades <= 1,
{
    let b = run.engine.book;
    let id = r.order.id;
    lemma_seat(b.bids, id);
    lemma_seat(b.asks, id);
    lemma_seat(b.market_buys, id);
    lemma_seat(b.market_sells, id);
}

proof fn lemma_dense_gap(base: int, run: Run, list: Seq<Arrival>, stamp: Stamp)
    requires
        dense_from(base, run),
    ensures
        run.gap(list, stamp).engine.trades < u64::MAX ==> dense_from(base, run.gap(list, stamp)),
        run.gap(list, stamp).engine.trades >= run.engine.trades,
    decreases list.len(),
{
    if list.len() > 0 {
        lemma_dense_gap(base, run, list.drop_last(), stamp);
        let before = run.gap(list.drop_last(), stamp);
        if before.engine.book.find(list.last().1) is Some {
            let r = before.engine.book.find(list.last().1).unwrap();
            let price = match r.order.spec_price() {
                Some(p) => p,
                None => PriceTicks(0),
            };
            let terms = Terms {
                price,
                liquidity: Liquidity::Maker,
                reason: FillReason::GapCrossed,
                stamp,
            };
            lemma_grows_execute(before, r, terms);
            if before.engine.trades < u64::MAX {
                lemma_dense_execute(base, before, r, terms);
            }
        }
    }
}

proof fn lemma_dense_market(
    base: int,
    run: Run,
    list: Seq<Resting>,
    price: PriceTicks,
    stamp: Stamp,
)
    requires
        dense_from(base, run),
    ensures
        run.market(list, price, stamp).engine.trades < u64::MAX ==> dense_from(
            base,
            run.market(list, price, stamp),
        ),
        run.market(list, price, stamp).engine.trades >= run.engine.trades,
    decreases list.len(),
{
    if list.len() > 0 {
        lemma_dense_market(base, run, list.drop_last(), price, stamp);
        let before = run.market(list.drop_last(), price, stamp);
        let terms = Terms {
            price,
            liquidity: Liquidity::Taker,
            reason: FillReason::Market,
            stamp,
        };
        lemma_grows_execute(before, list.last(), terms);
        if before.engine.trades < u64::MAX {
            lemma_dense_execute(base, before, list.last(), terms);
        }
    }
}

proof fn lemma_dense_bids(
    base: int,
    run: Run,
    trigger: PriceTicks,
    fair: PriceTicks,
    stamp: Stamp,
)
    ensures
        dense_from(base, run) && run.cross_bids(trigger, fair, stamp).engine.trades < u64::MAX
            ==> dense_from(base, run.cross_bids(trigger, fair, stamp)),
        run.cross_bids(trigger, fair, stamp).engine.trades >= run.engine.trades,
    decreases run.engine.book.len(),
{
    let bids = run.engine.book.bids;
    if bids.len() == 0 || bids[0].order.spec_price() is None || limit_of(bids[0]) < trigger.0 {
    } else {
        let price = bids[0].order.spec_price().unwrap();
        let terms = Run::bid_terms(price, fair, stamp);
        lemma_without_shrinks(run.engine.book, bids[0].order.id);
        lemma_grows_execute(run, bids[0], terms);
        lemma_dense_bids(base, run.execute(bids[0], terms), trigger, fair, stamp);
        if dense_from(base, run) {
            lemma_dense_execute(base, run, bids[0], terms);
        }
    }
}

proof fn lemma_dense_asks(
    base: int,
    run: Run,
    trigger: PriceTicks,
    fair: PriceTicks,
    stamp: Stamp,
)
    ensures
        dense_from(base, run) && run.cross_asks(trigger, fair, stamp).engine.trades < u64::MAX
            ==> dense_from(base, run.cross_asks(trigger, fair, stamp)),
        run.cross_asks(trigger, fair, stamp).engine.trades >= run.engine.trades,
    decreases run.engine.book.len(),
{
    let asks = run.engine.book.asks;
    if asks.len() == 0 || asks[0].order.spec_price() is None || limit_of(asks[0]) > trigger.0 {
    } else {
        let price = asks[0].order.spec_price().unwrap();
        let terms = Run::ask_terms(price, fair, stamp);
        lemma_without_shrinks(run.engine.book, asks[0].order.id);
        lemma_grows_execute(run, asks[0], terms);
        lemma_dense_asks(base, run.execute(asks[0], terms), trigger, fair, stamp);
        if dense_from(base, run) {
            lemma_dense_execute(base, run, asks[0], terms);
        }
    }
}

/// The fills of an observation carry consecutive trade ids behind the
/// engine's watermark, which moves up by as many. Left out: an engine that
/// has reached the last `u64`.
pub proof fn law_trade_ids_are_dense(v: L0View, tick: Tick)
    requires
        v.on_tick(tick).engine.trades < u64::MAX,
    ensures
        dense_from(v.trades as int, v.on_tick(tick)),
{
    let base = v.trades as int;
    let run0 = Run { engine: v, fills: Seq::empty() };
    let gapped = run0.gap_fill(tick);
    match v.prev_price {
        None => {},
        Some(prev) => {
            let stamp = match v.prev_stamp {
                Some(s) => s,
                None => tick.stamp,
            };
            lemma_dense_gap(base, run0, in_order(passed_over(v.book, prev, tick)), stamp);
        },
    }
    let buys = gapped.engine.book.market_buys;
    let bought = gapped.market(buys, tick.buy_reference_spec(), tick.stamp);
    let sells = bought.engine.book.market_sells;
    let sold = bought.market(sells, tick.sell_reference_spec(), tick.stamp);
    let bids = if tick.buy_trigger_spec().0 > 0 {
        sold.cross_bids(tick.buy_trigger_spec(), tick.buy_reference_spec(), tick.stamp)
    } else {
        sold
    };
    lemma_dense_bids(
        base,
        sold,
        tick.buy_trigger_spec(),
        tick.buy_reference_spec(),
        tick.stamp,
    );
    lemma_dense_asks(
        base,
        bids,
        tick.sell_trigger_spec(),
        tick.sell_reference_spec(),
        tick.stamp,
    );
    let crossed = gapped.cross(tick);
    let b = crossed.engine.book;
    if b.crossed() {
        let best_bid = PriceTicks(limit_of(b.bids[0]) as i64);
        let best_ask = PriceTicks(limit_of(b.asks[0]) as i64);
        let none = PriceTicks(0);
        lemma_dense_bids(base, crossed, best_ask, none, tick.stamp);
        lemma_dense_asks(
            base,
            crossed.cross_bids(best_ask, none, tick.stamp),
            best_bid,
            none,
            tick.stamp,
        );
    }
    lemma_market_grows(bought, sells, tick.sell_reference_spec(), tick.stamp);
    lemma_market_grows(gapped, buys, tick.buy_reference_spec(), tick.stamp);
    if gapped.engine.trades < u64::MAX {
        lemma_dense_market(base, gapped, buys, tick.buy_reference_spec(), tick.stamp);
        lemma_dense_market(base, bought, sells, tick.sell_reference_spec(), tick.stamp);
    }
}

proof fn lemma_market_grows(run: Run, list: Seq<Resting>, price: PriceTicks, stamp: Stamp)
    ensures
        run.market(list, price, stamp).engine.trades >= run.engine.trades,
    decreases list.len(),
{
    if list.len() > 0 {
        lemma_market_grows(run, list.drop_last(), price, stamp);
        lemma_grows_execute(
            run.market(list.drop_last(), price, stamp),
            list.last(),
            Terms { price, liquidity: Liquidity::Taker, reason: FillReason::Market, stamp },
        );
    }
}

/// Bids that trade on one observation trade in price-time priority: of two,
/// the one with the better price first, and at one price the one that
/// arrived first.
pub proof fn law_bids_trade_in_priority(
    run: Run,
    trigger: PriceTicks,
    fair: PriceTicks,
    stamp: Stamp,
)
    requires
        run.engine.wf(),
        unique(run.engine.book),
    ensures
        ({
            let done = run.cross_bids(trigger, fair, stamp);
            let b = run.engine.book;
            &&& done.fills.len() >= run.fills.len()
            &&& forall|i: int|
                run.fills.len() <= i < done.fills.len() ==> seated(
                    b.bids,
                    (#[trigger] done.fills[i]).fill.order,
                )
            &&& forall|i: int, j: int|
                run.fills.len() <= i < j < done.fills.len() ==> seat(
                    b.bids,
                    (#[trigger] done.fills[i]).fill.order,
                ) < seat(b.bids, (#[trigger] done.fills[j]).fill.order)
            &&& forall|i: int| 0 <= i < run.fills.len() ==> #[trigger] done.fills[i] == run.fills[i]
        }),
    decreases run.engine.book.len(),
{
    let b = run.engine.book;
    let bids = b.bids;
    if bids.len() == 0 || bids[0].order.spec_price() is None || limit_of(bids[0]) < trigger.0 {
    } else {
        let first = bids[0];
        let price = first.order.spec_price().unwrap();
        let terms = Run::bid_terms(price, fair, stamp);
        let next = run.execute(first, terms);
        let c = next.engine.book;
        lemma_without_shrinks(b, first.order.id);
        lemma_seat(bids, first.order.id);
        law_remove_is_exact(b, first.order.id);
        law_remove_keeps_priority(b, first.order.id);
        assert(c.bids =~= bids.drop_first());
        law_bids_trade_in_priority(next, trigger, fair, stamp);
        let done = run.cross_bids(trigger, fair, stamp);
        assert(done == next.cross_bids(trigger, fair, stamp));
        assert forall|id: OrderId| seated(c.bids, id) implies #[trigger] seat(bids, id) == 1 + seat(
            c.bids,
            id,
        ) && seated(bids, id) by {
            lemma_seat(c.bids, id);
            lemma_all_index(b);
            let k = seat(c.bids, id);
            assert(bids[k + 1] == c.bids[k]);
            assert(b.all()[0].order.id != b.all()[k + 1].order.id);
        }
        assert forall|i: int| run.fills.len() <= i < done.fills.len() implies seated(
            bids,
            (#[trigger] done.fills[i]).fill.order,
        ) by {
            if i >= next.fills.len() {
                assert(seated(c.bids, done.fills[i].fill.order));
                let o = done.fills[i].fill.order;
                assert(seat(bids, o) == 1 + seat(c.bids, o));
            } else {
                assert(done.fills[i] == next.fills[i]);
            }
        }
        assert forall|i: int, j: int| run.fills.len() <= i < j < done.fills.len() implies seat(
            bids,
            (#[trigger] done.fills[i]).fill.order,
        ) < seat(bids, (#[trigger] done.fills[j]).fill.order) by {
            let oj = done.fills[j].fill.order;
            assert(seated(c.bids, oj));
            assert(seat(bids, oj) == 1 + seat(c.bids, oj));
            lemma_seat(c.bids, oj);
            if i >= next.fills.len() {
                let oi = done.fills[i].fill.order;
                assert(seated(c.bids, oi));
                assert(seat(bids, oi) == 1 + seat(c.bids, oi));
            } else {
                assert(done.fills[i] == next.fills[i]);
                assert(seat(bids, first.order.id) == 0);
            }
        }
        assert forall|i: int| 0 <= i < run.fills.len() implies #[trigger] done.fills[i]
            == run.fills[i] by {
            assert(next.fills[i] == run.fills[i]);
        }
    }
}

/// Asks that trade on one observation trade in price-time priority.
pub proof fn law_asks_trade_in_priority(
    run: Run,
    trigger: PriceTicks,
    fair: PriceTicks,
    stamp: Stamp,
)
    requires
        run.engine.wf(),
        unique(run.engine.book),
    ensures
        ({
            let done = run.cross_asks(trigger, fair, stamp);
            let b = run.engine.book;
            &&& done.fills.len() >= run.fills.len()
            &&& forall|i: int|
                run.fills.len() <= i < done.fills.len() ==> seated(
                    b.asks,
                    (#[trigger] done.fills[i]).fill.order,
                )
            &&& forall|i: int, j: int|
                run.fills.len() <= i < j < done.fills.len() ==> seat(
                    b.asks,
                    (#[trigger] done.fills[i]).fill.order,
                ) < seat(b.asks, (#[trigger] done.fills[j]).fill.order)
            &&& forall|i: int| 0 <= i < run.fills.len() ==> #[trigger] done.fills[i] == run.fills[i]
        }),
    decreases run.engine.book.len(),
{
    let b = run.engine.book;
    let asks = b.asks;
    if asks.len() == 0 || asks[0].order.spec_price() is None || limit_of(asks[0]) > trigger.0 {
    } else {
        let first = asks[0];
        let price = first.order.spec_price().unwrap();
        let terms = Run::ask_terms(price, fair, stamp);
        let next = run.execute(first, terms);
        let c = next.engine.book;
        let nb = b.bids.len() as int;
        lemma_without_shrinks(b, first.order.id);
        lemma_seat(asks, first.order.id);
        lemma_seat(b.bids, first.order.id);
        lemma_all_index(b);
        if seated(b.bids, first.order.id) {
            let k = seat(b.bids, first.order.id);
            assert(b.all()[k].order.id != b.all()[nb].order.id);
        }
        law_remove_is_exact(b, first.order.id);
        law_remove_keeps_priority(b, first.order.id);
        assert(c.asks =~= asks.drop_first());
        law_asks_trade_in_priority(next, trigger, fair, stamp);
        let done = run.cross_asks(trigger, fair, stamp);
        assert(done == next.cross_asks(trigger, fair, stamp));
        assert forall|id: OrderId| seated(c.asks, id) implies #[trigger] seat(asks, id) == 1 + seat(
            c.asks,
            id,
        ) && seated(asks, id) by {
            lemma_seat(c.asks, id);
            let k = seat(c.asks, id);
            assert(asks[k + 1] == c.asks[k]);
            assert(b.all()[nb].order.id != b.all()[nb + k + 1].order.id);
        }
        assert forall|i: int| run.fills.len() <= i < done.fills.len() implies seated(
            asks,
            (#[trigger] done.fills[i]).fill.order,
        ) by {
            if i >= next.fills.len() {
                assert(seated(c.asks, done.fills[i].fill.order));
                let o = done.fills[i].fill.order;
                assert(seat(asks, o) == 1 + seat(c.asks, o));
            } else {
                assert(done.fills[i] == next.fills[i]);
            }
        }
        assert forall|i: int, j: int| run.fills.len() <= i < j < done.fills.len() implies seat(
            asks,
            (#[trigger] done.fills[i]).fill.order,
        ) < seat(asks, (#[trigger] done.fills[j]).fill.order) by {
            let oj = done.fills[j].fill.order;
            assert(seated(c.asks, oj));
            assert(seat(asks, oj) == 1 + seat(c.asks, oj));
            lemma_seat(c.asks, oj);
            if i >= next.fills.len() {
                let oi = done.fills[i].fill.order;
                assert(seated(c.asks, oi));
                assert(seat(asks, oi) == 1 + seat(c.asks, oi));
            } else {
                assert(done.fills[i] == next.fills[i]);
                assert(seat(asks, first.order.id) == 0);
            }
        }
        assert forall|i: int| 0 <= i < run.fills.len() implies #[trigger] done.fills[i]
            == run.fills[i] by {
            assert(next.fills[i] == run.fills[i]);
        }
    }
}

} // verus!

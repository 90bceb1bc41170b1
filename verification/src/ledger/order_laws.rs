//! What becomes of an order.
use crate::engine::book::{
    ask_rank, bid_rank, law_insert_keeps_priority, law_remove_keeps_priority, lemma_seat, seat,
    seated, BookView, Resting,
};
use crate::engine::cause_laws::{lemma_rank_fits, lemma_with_unique};
use crate::engine::l0::L0Fill;
use crate::engine::l0_laws::{law_fills_are_faithful, law_remove_is_exact, unique};
use crate::engine::l1::{L1View, Pending, Queued};
use crate::engine::tick::Tick;
use crate::ledger::event::EventView;
use crate::ledger::kernel::{
    depth_applied, other_than, without_id, KernelView, Matching, Output, RejectReason, StateView,
    Step,
};
use crate::ledger::matcher::MatcherView;
use crate::margin::FundingRate;
use crate::types::{
    Cash, Fill, Nanos, Offset, OrderId, OrderKind, PriceTicks, QtyLots, Side, Stamp, Working,
};
use vstd::prelude::*;

verus! {

/// No two orders of an engine share an id: none in its book, and none that is
/// on its way or in a queue with one in its book.
pub open spec fn apart_in(e: L1View) -> bool {
    &&& unique(e.inner.book)
    &&& forall|id: OrderId| #[trigger] e.shadows(id) ==> e.inner.book.find(id) is None
}

/// No order of a matcher's book shares its id with another order it holds.
pub open spec fn held_apart(m: MatcherView) -> bool {
    match m {
        MatcherView::L0(e) => unique(e.book),
        MatcherView::L1(e) => apart_in(e),
        MatcherView::L2(e) => apart_in(e.inner),
    }
}

proof fn lemma_cancel_in(e: L1View, id: OrderId)
    requires
        apart_in(e),
    ensures
        apart_in(e.cancel(id)),
        !e.cancel(id).shadows(id),
        e.cancel(id).inner.book.find(id) is None,
        forall|other: OrderId|
            other != id ==> #[trigger] e.cancel(id).shadows(other) == e.shadows(other),
        forall|other: OrderId|
            other != id ==> #[trigger] e.cancel(id).inner.book.find(other)
                == e.inner.book.find(other),
{
    let w = e.cancel(id);
    if e.shadows(id) {
        let keep_p = |p: Pending| p.order.id != id;
        let keep_q = |q: Queued| q.order.id != id;
        assert forall|i: int| 0 <= i < w.pending.len() implies (#[trigger] w.pending[i]).order.id
            != id by {
            e.pending.lemma_filter_pred(keep_p, i);
        }
        assert forall|i: int| 0 <= i < w.queued.len() implies (#[trigger] w.queued[i]).order.id
            != id by {
            e.queued.lemma_filter_pred(keep_q, i);
        }
        assert forall|other: OrderId| other != id implies #[trigger] w.shadows(other) == e.shadows(
            other,
        ) by {
            lemma_shadows_without(e, id, other);
        }
        assert(w.inner == e.inner);
        assert(!w.shadows(id));
    } else {
        law_remove_is_exact(e.inner.book, id);
        assert(forall|other: OrderId| #[trigger] w.shadows(other) == e.shadows(other));
    }
    assert forall|other: OrderId| #[trigger] w.shadows(other) implies w.inner.book.find(
        other,
    ) is None by {
        assert(other != id);
        assert(e.shadows(other));
        assert(w.inner.book.find(other) == e.inner.book.find(other));
    }
}

proof fn lemma_seated_without(s: Seq<Resting>, id: OrderId, other: OrderId)
    requires
        seated(s, id),
        other != id,
    ensures
        seated(s.remove(seat(s, id)), other) == seated(s, other),
{
    let at = seat(s, id);
    let t = s.remove(at);
    lemma_seat(s, id);
    lemma_seat(s, other);
    lemma_seat(t, other);
    if seated(s, other) {
        let i = seat(s, other);
        let k = if i < at {
            i
        } else {
            i - 1
        };
        assert(t[k] == s[i]);
    }
    if seated(t, other) {
        let k = seat(t, other);
        let i = if k < at {
            k
        } else {
            k + 1
        };
        assert(s[i] == t[k]);
    }
}

proof fn lemma_book_without(b: BookView, id: OrderId, other: OrderId)
    requires
        other != id,
    ensures
        b.without(id).find(other) is Some == b.find(other) is Some,
{
    if seated(b.bids, id) {
        lemma_seated_without(b.bids, id, other);
    } else if seated(b.asks, id) {
        lemma_seated_without(b.asks, id, other);
    } else if seated(b.market_buys, id) {
        lemma_seated_without(b.market_buys, id, other);
    } else if seated(b.market_sells, id) {
        lemma_seated_without(b.market_sells, id, other);
    }
}

proof fn lemma_shadows_without(e: L1View, id: OrderId, other: OrderId)
    requires
        other != id,
    ensures
        e.cancel(id).shadows(other) == e.shadows(other),
{
    let w = e.cancel(id);
    if e.shadows(id) {
        let keep_p = |p: Pending| p.order.id != id;
        let keep_q = |q: Queued| q.order.id != id;
        if e.shadows(other) {
            if exists|i: int| 0 <= i < e.pending.len() && (#[trigger] e.pending[i]).order.id
                == other {
                let i = choose|i: int|
                    0 <= i < e.pending.len() && (#[trigger] e.pending[i]).order.id == other;
                e.pending.lemma_filter_contains(keep_p, i);
                let k = choose|k: int| 0 <= k < w.pending.len() && w.pending[k] == e.pending[i];
                assert(w.pending[k].order.id == other);
            } else {
                let i = choose|i: int|
                    0 <= i < e.queued.len() && (#[trigger] e.queued[i]).order.id == other;
                e.queued.lemma_filter_contains(keep_q, i);
                let k = choose|k: int| 0 <= k < w.queued.len() && w.queued[k] == e.queued[i];
                assert(w.queued[k].order.id == other);
            }
        }
        if w.shadows(other) {
            if exists|i: int| 0 <= i < w.pending.len() && (#[trigger] w.pending[i]).order.id
                == other {
                let i = choose|i: int|
                    0 <= i < w.pending.len() && (#[trigger] w.pending[i]).order.id == other;
                e.pending.lemma_filter_contains_rev(keep_p, w.pending[i]);
                let k = choose|k: int| 0 <= k < e.pending.len() && e.pending[k] == w.pending[i];
                assert(e.pending[k].order.id == other);
            } else {
                let i = choose|i: int|
                    0 <= i < w.queued.len() && (#[trigger] w.queued[i]).order.id == other;
                e.queued.lemma_filter_contains_rev(keep_q, w.queued[i]);
                let k = choose|k: int| 0 <= k < e.queued.len() && e.queued[k] == w.queued[i];
                assert(e.queued[k].order.id == other);
            }
        }
    }
}

/// Withdrawing an order leaves every other order where it is.
pub proof fn law_a_cancel_leaves_other_orders(m: MatcherView, id: OrderId, other: OrderId)
    requires
        other != id,
    ensures
        m.cancel(id).holds(other) == m.holds(other),
{
    lemma_book_without(m.base().book, id, other);
    match m {
        MatcherView::L0(e) => {},
        MatcherView::L1(e) => {
            lemma_shadows_without(e, id, other);
        },
        MatcherView::L2(e) => {
            lemma_shadows_without(e.inner, id, other);
        },
    }
}

/// Withdrawing an order takes it away from wherever the matcher held it, and
/// takes no other away.
pub proof fn law_a_cancel_takes_one_order_away(m: MatcherView, id: OrderId)
    requires
        held_apart(m),
    ensures
        held_apart(m.cancel(id)),
        !m.cancel(id).holds(id),
        forall|other: OrderId|
            other != id ==> #[trigger] m.cancel(id).holds(other) == m.holds(other),
{
    match m {
        MatcherView::L0(e) => {
            law_remove_is_exact(e.book, id);
        },
        MatcherView::L1(e) => {
            lemma_cancel_in(e, id);
        },
        MatcherView::L2(e) => {
            lemma_cancel_in(e.inner, id);
        },
    }
}

proof fn lemma_without(working: Seq<OrderId>, id: OrderId)
    ensures
        !without_id(working, id).contains(id),
        forall|other: OrderId|
            other != id ==> #[trigger] without_id(working, id).contains(other)
                == working.contains(other),
{
    let keep = other_than(id);
    let w = without_id(working, id);
    assert forall|i: int| 0 <= i < w.len() implies #[trigger] w[i] != id by {
        working.lemma_filter_pred(keep, i);
    }
    assert forall|other: OrderId| other != id implies #[trigger] w.contains(other)
        == working.contains(other) by {
        if working.contains(other) {
            let i = choose|i: int| 0 <= i < working.len() && working[i] == other;
            working.lemma_filter_contains(keep, i);
        }
        if w.contains(other) {
            working.lemma_filter_contains_rev(keep, other);
        }
    }
}

/// A cancel of an order the matcher holds ends it: it is no longer working,
/// nor held where no other order had its id, the kernel says that it was
/// cancelled and nothing else, and every other order is as it was. A cancel of
/// one the matcher does not hold changes nothing and says nothing.
pub proof fn law_a_cancel_ends_its_order(k: KernelView, id: OrderId, stamp: Stamp)
    ensures
        ({
            let step = k.apply(EventView::Cancel { id, stamp });
            let after = step.kernel;
            &&& held_apart(k.state.engine) ==> held_apart(after.state.engine)
                && !after.state.engine.holds(id)
            &&& forall|other: OrderId|
                other != id ==> #[trigger] after.state.engine.holds(other)
                    == k.state.engine.holds(other)
            &&& forall|other: OrderId|
                other != id ==> #[trigger] after.working.contains(other) == k.working.contains(
                    other,
                )
            &&& after.state == (StateView { engine: after.state.engine, ..k.state })
            &&& k.state.engine.holds(id) ==> step.outputs == seq![Output::Cancelled(id)]
                && !after.working.contains(id)
            &&& !k.state.engine.holds(id) ==> step.outputs.len() == 0 && after == k
        }),
{
    reveal(KernelView::apply);
    let engine = k.state.engine;
    if held_apart(engine) {
        law_a_cancel_takes_one_order_away(engine, id);
    }
    assert forall|other: OrderId| other != id implies #[trigger] engine.cancel(id).holds(other)
        == engine.holds(other) by {
        law_a_cancel_leaves_other_orders(engine, id, other);
    }
    lemma_without(k.working, id);
}

/// A submission is refused for a quantity that is not positive, else for an id
/// that is working already, else for want of a balance. A refusal is said, and
/// changes nothing. Else the order is working, and the matcher has it on the
/// terms it was sent with.
pub proof fn law_an_order_is_refused_for_cause(
    k: KernelView,
    id: OrderId,
    side: Side,
    price: Option<PriceTicks>,
    qty: QtyLots,
    offset: Offset,
    stamp: Stamp,
)
    ensures
        ({
            let step = k.apply(EventView::Submit { id, side, price, qty, offset, stamp });
            let order = Working {
                id,
                side,
                kind: match price {
                    Some(price) => OrderKind::Limit { price },
                    None => OrderKind::Market,
                },
                remaining: qty,
                stamp,
                offset,
            };
            let why = if qty.0 <= 0 {
                RejectReason::NonPositiveQty
            } else if k.working.contains(id) {
                RejectReason::DuplicateId
            } else {
                RejectReason::NoMargin
            };
            if qty.0 > 0 && !k.working.contains(id) && k.state.balance.0 > 0 {
                &&& step.outputs.len() == 0
                &&& step.kernel.working == k.working.push(id)
                &&& step.kernel.state == (StateView {
                    engine: k.state.engine.submit(order, stamp.exch),
                    ..k.state
                })
                &&& step.kernel.depth == k.depth
            } else {
                &&& step.outputs == seq![Output::Rejected { id, reason: why }]
                &&& step.kernel == k
            }
        }),
{
    reveal(KernelView::apply);
    let step = k.apply(EventView::Submit { id, side, price, qty, offset, stamp });
    if k.refusal(id, qty) is Some {
        assert(step.outputs =~= seq![Output::Rejected { id, reason: k.refusal(id, qty)->Some_0 }]);
    }
}

/// Margin paid in raises the balance by what was paid, and nothing else but the
/// time; and the time passing moves the time alone.
pub proof fn law_a_deposit_raises_the_balance(k: KernelView, amount: i64, at: Nanos)
    ensures
        ({
            let step = k.apply(EventView::MarginDeposit { amount, at });
            &&& i64::MIN <= k.state.balance.0 + amount <= i64::MAX ==> step.kernel.state == (
            StateView { now: at, balance: Cash((k.state.balance.0 + amount) as i64), ..k.state })
            &&& step.kernel.working == k.working
            &&& step.outputs.len() == 0
        }),
        ({
            let step = k.apply(EventView::Time(at));
            &&& step.kernel.state == (StateView { now: at, ..k.state })
            &&& step.kernel.working == k.working
            &&& step.outputs.len() == 0
        }),
{
    reveal(KernelView::apply);
}

/// A fill ends its order, and no other: it is said, and its order is no longer
/// working.
pub proof fn law_a_fill_ends_its_order(step: Step, fill: Fill)
    ensures
        ({
            let after = step.book_fill(fill);
            &&& after.outputs == step.outputs.push(Output::Filled(fill))
            &&& !after.kernel.working.contains(fill.order)
            &&& forall|other: OrderId|
                other != fill.order ==> #[trigger] after.kernel.working.contains(other)
                    == step.kernel.working.contains(other)
            &&& after.kernel.state == step.kernel.state.settle(fill)
        }),
{
    lemma_without(step.kernel.working, fill.order);
}

/// A fill the venue reports is booked at once, and its order leaves the
/// matcher.
pub proof fn law_a_venue_fill_is_booked(k: KernelView, fill: Fill)
    requires
        k.state.matching == Matching::Venue,
        !k.state.enforce_liquidation,
        held_apart(k.state.engine),
    ensures
        ({
            let step = k.apply(EventView::VenueFill(fill));
            let before = StateView {
                now: fill.stamp.exch,
                engine: step.kernel.state.engine,
                ..k.state
            };
            &&& step.outputs == seq![Output::Filled(fill)]
            &&& step.kernel.state == before.settle(fill)
            &&& !step.kernel.working.contains(fill.order)
            &&& !step.kernel.state.engine.holds(fill.order)
            &&& forall|other: OrderId|
                other != fill.order ==> #[trigger] step.kernel.state.engine.holds(other)
                    == k.state.engine.holds(other)
        }),
{
    reveal(KernelView::apply);
    law_a_cancel_takes_one_order_away(k.state.engine, fill.order);
    lemma_without(k.working, fill.order);
    let s = StateView {
        now: fill.stamp.exch,
        engine: k.state.engine.cancel(fill.order),
        ..k.state
    };
    lemma_settle_keeps(s, fill);
    let step = k.apply(EventView::VenueFill(fill));
    assert(step.outputs =~= seq![Output::Filled(fill)]);
}

proof fn lemma_settle_keeps(s: StateView, fill: Fill)
    ensures
        s.settle(fill).engine == s.engine,
        s.settle(fill).enforce_liquidation == s.enforce_liquidation,
        s.settle(fill).now == s.now,
        s.settle(fill).mark == s.mark,
{
}

/// An observation sets the mark and the time, and books every fill the matcher
/// makes of it, in order.
pub proof fn law_an_observation_books_its_fills(k: KernelView, tick: Tick)
    requires
        k.state.matching != Matching::Venue,
        !k.state.enforce_liquidation,
    ensures
        ({
            let step = k.apply(EventView::Tick(tick));
            let matched = k.state.engine.on_tick(tick);
            &&& step.outputs.len() == matched.fills.len()
            &&& forall|i: int|
                0 <= i < matched.fills.len() ==> #[trigger] step.outputs[i] == Output::Filled(
                    matched.fills[i].fill,
                )
            &&& forall|i: int|
                0 <= i < matched.fills.len() ==> !step.kernel.working.contains(
                    (#[trigger] matched.fills[i]).fill.order,
                )
            &&& step.kernel.state.engine == matched.engine
            &&& step.kernel.state.mark == tick.last
            &&& step.kernel.state.now == tick.stamp.exch
        }),
{
    reveal(KernelView::apply);
    let seen = StateView { now: tick.stamp.exch, mark: tick.last, ..k.state };
    let matched = k.state.engine.on_tick(tick);
    let start = k.start().with_state(StateView { engine: matched.engine, ..seen });
    lemma_booked(start, matched.fills);
}

proof fn lemma_booked(start: Step, fills: Seq<L0Fill>)
    requires
        start.outputs.len() == 0,
    ensures
        ({
            let step = start.book_all(fills);
            &&& step.outputs.len() == fills.len()
            &&& forall|i: int|
                0 <= i < fills.len() ==> #[trigger] step.outputs[i] == Output::Filled(
                    fills[i].fill,
                )
            &&& forall|i: int|
                0 <= i < fills.len() ==> !step.kernel.working.contains(
                    (#[trigger] fills[i]).fill.order,
                )
            &&& step.kernel.state.engine == start.kernel.state.engine
            &&& step.kernel.state.enforce_liquidation == start.kernel.state.enforce_liquidation
            &&& step.kernel.state.mark == start.kernel.state.mark
            &&& step.kernel.state.now == start.kernel.state.now
        }),
    decreases fills.len(),
{
    if fills.len() > 0 {
        let rest = fills.drop_last();
        lemma_booked(start, rest);
        let before = start.book_all(rest);
        let f = fills.last().fill;
        lemma_settle_keeps(before.kernel.state, f);
        law_a_fill_ends_its_order(before, f);
        let step = start.book_all(fills);
        assert forall|i: int| 0 <= i < fills.len() implies !step.kernel.working.contains(
            (#[trigger] fills[i]).fill.order,
        ) by {
            if i < rest.len() {
                assert(rest[i] == fills[i]);
            }
        }
    }
}

proof fn lemma_seated_insert(s: Seq<Resting>, at: int, r: Resting, id: OrderId)
    requires
        0 <= at <= s.len(),
    ensures
        seated(s.insert(at, r), id) == (seated(s, id) || r.order.id == id),
{
    let t = s.insert(at, r);
    lemma_seat(s, id);
    lemma_seat(t, id);
    assert(t[at] == r);
    if seated(s, id) {
        let i = seat(s, id);
        let k = if i < at {
            i
        } else {
            i + 1
        };
        assert(t[k] == s[i]);
    }
    if seated(t, id) && r.order.id != id {
        let k = seat(t, id);
        let i = if k < at {
            k
        } else {
            k - 1
        };
        assert(s[i] == t[k]);
    }
}

proof fn lemma_with_holds(b: BookView, order: Working, id: OrderId)
    ensures
        b.with(order).find(id) is Some == (b.find(id) is Some || order.id == id),
        b.with(order).len() == b.len() + 1,
{
    let r = Resting { order, arrival: b.next_arrival };
    match (order.side, order.spec_price()) {
        (Side::Buy, None) => {
            lemma_seated_insert(b.market_buys, b.market_buys.len() as int, r, id);
            assert(b.market_buys.insert(b.market_buys.len() as int, r) =~= b.market_buys.push(r));
        },
        (Side::Sell, None) => {
            lemma_seated_insert(b.market_sells, b.market_sells.len() as int, r, id);
            assert(b.market_sells.insert(b.market_sells.len() as int, r) =~= b.market_sells.push(
                r,
            ));
        },
        (Side::Buy, Some(p)) => {
            lemma_rank_fits(b.bids, p.0 as int);
            lemma_seated_insert(b.bids, bid_rank(b.bids, p.0 as int), r, id);
        },
        (Side::Sell, Some(p)) => {
            lemma_rank_fits(b.asks, p.0 as int);
            lemma_seated_insert(b.asks, ask_rank(b.asks, p.0 as int), r, id);
        },
    }
}

proof fn lemma_sent_holds(e: L1View, order: Working, now: Nanos, ahead: Option<i64>, id: OrderId)
    ensures
        ({
            let f = e.submit_with_queue(order, now, ahead);
            &&& (f.shadows(id) || f.inner.book.find(id) is Some) == (e.shadows(id)
                || e.inner.book.find(id) is Some || order.id == id)
            &&& f.held() == e.held() + 1
        }),
{
    let f = e.submit_with_queue(order, now, ahead);
    lemma_with_holds(e.inner.book, order, id);
    if f.pending.len() > e.pending.len() {
        assert(f.pending.drop_last() =~= e.pending);
        assert(f.pending[f.pending.len() - 1].order == order);
        assert forall|i: int| 0 <= i < e.pending.len() implies #[trigger] f.pending[i]
            == e.pending[i] by {}
        if e.shadows(id) {
            if exists|i: int| 0 <= i < e.pending.len() && (#[trigger] e.pending[i]).order.id == id {
                let i = choose|i: int|
                    0 <= i < e.pending.len() && (#[trigger] e.pending[i]).order.id == id;
                assert(f.pending[i].order.id == id);
            }
        }
        if f.shadows(id) && order.id != id {
            if exists|i: int| 0 <= i < f.pending.len() && (#[trigger] f.pending[i]).order.id == id {
                let i = choose|i: int|
                    0 <= i < f.pending.len() && (#[trigger] f.pending[i]).order.id == id;
                assert(e.pending[i].order.id == id);
            }
        }
    } else if f.queued.len() > e.queued.len() {
        assert(f.queued.drop_last() =~= e.queued);
        assert(f.queued[f.queued.len() - 1].order == order);
        assert forall|i: int| 0 <= i < e.queued.len() implies #[trigger] f.queued[i]
            == e.queued[i] by {}
        if e.shadows(id) {
            if exists|i: int| 0 <= i < e.queued.len() && (#[trigger] e.queued[i]).order.id == id {
                let i = choose|i: int|
                    0 <= i < e.queued.len() && (#[trigger] e.queued[i]).order.id == id;
                assert(f.queued[i].order.id == id);
            }
        }
        if f.shadows(id) && order.id != id {
            if exists|i: int| 0 <= i < f.queued.len() && (#[trigger] f.queued[i]).order.id == id {
                let i = choose|i: int|
                    0 <= i < f.queued.len() && (#[trigger] f.queued[i]).order.id == id;
                assert(e.queued[i].order.id == id);
            }
        }
    }
}

/// An order sent to a matcher is held by it, wherever it puts it, and every
/// other order is held or not as it was; the matcher holds one order more.
pub proof fn law_a_submitted_order_is_held(
    m: MatcherView,
    order: Working,
    now: Nanos,
    other: OrderId,
)
    ensures
        m.submit(order, now).holds(order.id),
        other != order.id ==> m.submit(order, now).holds(other) == m.holds(other),
        m.submit(order, now).held() == m.held() + 1,
{
    match m {
        MatcherView::L0(e) => {
            lemma_with_holds(e.book, order, order.id);
            lemma_with_holds(e.book, order, other);
        },
        MatcherView::L1(e) => {
            lemma_sent_holds(e, order, now, None, order.id);
            lemma_sent_holds(e, order, now, None, other);
        },
        MatcherView::L2(e) => {
            let ahead = match order.spec_price() {
                Some(p) => Some(e.displayed(order.side, p)),
                None => None,
            };
            lemma_sent_holds(e.inner, order, now, ahead, order.id);
            lemma_sent_holds(e.inner, order, now, ahead, other);
        },
    }
}

/// Over the barest matcher: no two orders share an id, and every order held is
/// working.
pub open spec fn orderly(k: KernelView) -> bool {
    &&& k.state.engine is L0
    &&& k.state.engine.wf()
    &&& unique(k.state.engine.base().book)
    &&& forall|id: OrderId| #[trigger] k.state.engine.holds(id) ==> k.working.contains(id)
}

proof fn lemma_booked_working(start: Step, fills: Seq<L0Fill>, id: OrderId)
    requires
        start.kernel.working.contains(id),
        forall|i: int| 0 <= i < fills.len() ==> (#[trigger] fills[i]).fill.order != id,
    ensures
        start.book_all(fills).kernel.working.contains(id),
        start.book_all(fills).kernel.state.engine == start.kernel.state.engine,
    decreases fills.len(),
{
    if fills.len() > 0 {
        let rest = fills.drop_last();
        assert forall|i: int| 0 <= i < rest.len() implies (#[trigger] rest[i]).fill.order != id by {
            assert(rest[i] == fills[i]);
        }
        lemma_booked_working(start, rest, id);
        assert(fills[fills.len() - 1].fill.order != id);
        let before = start.book_all(rest);
        lemma_without(before.kernel.working, fills.last().fill.order);
        lemma_settle_keeps(before.kernel.state, fills.last().fill);
    }
}

proof fn lemma_booked_engine(start: Step, fills: Seq<L0Fill>)
    ensures
        start.book_all(fills).kernel.state.engine == start.kernel.state.engine,
    decreases fills.len(),
{
    if fills.len() > 0 {
        lemma_booked_engine(start, fills.drop_last());
        let before = start.book_all(fills.drop_last());
        lemma_settle_keeps(before.kernel.state, fills.last().fill);
    }
}

proof fn lemma_check_orderly(step: Step, mark: PriceTicks)
    requires
        orderly(step.kernel),
    ensures
        orderly(step.check(mark).kernel),
{
}

proof fn lemma_submit_orderly(k: KernelView, order: Working)
    requires
        orderly(k),
    ensures
        orderly(k.on_submit(order).kernel),
{
    if k.refusal(order.id, order.remaining) is None {
        let book = k.state.engine.base().book;
        assert(!k.state.engine.holds(order.id));
        lemma_with_unique(book, order);
        law_insert_keeps_priority(book, order);
        let after = k.on_submit(order).kernel;
        assert(after.working[after.working.len() - 1] == order.id);
        assert forall|id: OrderId| #[trigger] after.state.engine.holds(id) implies after.working.contains(
            id,
        ) by {
            lemma_with_holds(book, order, id);
            if id != order.id {
                assert(k.state.engine.holds(id));
                let i = choose|i: int| 0 <= i < k.working.len() && k.working[i] == id;
                assert(after.working[i] == id);
            }
        }
    }
}

proof fn lemma_tick_orderly(k: KernelView, tick: Tick)
    requires
        orderly(k),
    ensures
        orderly(k.on_tick(tick).kernel),
{
    let seen = StateView { now: tick.stamp.exch, mark: tick.last, ..k.state };
    if k.state.matching == Matching::Venue {
        let step = k.start().with_state(seen);
        assert(orderly(step.kernel));
        lemma_check_orderly(step, tick.last);
    } else {
        let v = k.state.engine.base();
        let matched = k.state.engine.on_tick(tick);
        law_fills_are_faithful(v, tick);
        let start = k.start().with_state(StateView { engine: matched.engine, ..seen });
        let booked = start.book_all(matched.fills);
        lemma_booked_engine(start, matched.fills);
        assert(booked.kernel.state.engine == matched.engine);
        assert forall|id: OrderId| #[trigger] matched.engine.holds(id) implies booked.kernel.working.contains(
            id,
        ) by {
            assert(v.on_tick(tick).engine.book.find(id) is Some);
            assert(k.state.engine.holds(id));
            assert forall|i: int| 0 <= i < matched.fills.len() implies (
            #[trigger] matched.fills[i]).fill.order != id by {
                assert(v.on_tick(tick).engine.book.find(matched.fills[i].fill.order) is None);
            }
            lemma_booked_working(start, matched.fills, id);
        }
        assert(orderly(booked.kernel));
        lemma_check_orderly(booked, tick.last);
    }
}

proof fn lemma_cancel_orderly(k: KernelView, id: OrderId)
    requires
        orderly(k),
    ensures
        orderly(
            (KernelView {
                state: StateView { engine: k.state.engine.cancel(id), ..k.state },
                working: without_id(k.working, id),
                ..k
            }),
        ),
{
    law_a_cancel_takes_one_order_away(k.state.engine, id);
    law_remove_keeps_priority(k.state.engine.base().book, id);
    lemma_without(k.working, id);
    let engine = k.state.engine.cancel(id);
    assert forall|other: OrderId| #[trigger] engine.holds(other) implies without_id(
        k.working,
        id,
    ).contains(other) by {
        assert(other != id);
        assert(k.state.engine.holds(other));
    }
}

/// Over the barest matcher, whatever happens, no two orders come to share an
/// id, and every order held is working: so an order that has left the list of
/// working orders is held nowhere.
pub proof fn law_no_two_orders_share_an_id(k: KernelView, event: EventView)
    requires
        orderly(k),
    ensures
        orderly(k.apply(event).kernel),
        held_apart(k.state.engine),
{
    reveal(KernelView::apply);
    match event {
        EventView::Tick(tick) => {
            lemma_tick_orderly(k, tick);
        },
        EventView::Submit { id, side, price, qty, offset, stamp } => {
            lemma_submit_orderly(
                k,
                Working {
                    id,
                    side,
                    kind: match price {
                        Some(price) => OrderKind::Limit { price },
                        None => OrderKind::Market,
                    },
                    remaining: qty,
                    stamp,
                    offset,
                },
            );
        },
        EventView::Cancel { id, .. } => {
            lemma_cancel_orderly(k, id);
        },
        EventView::Funding { at, rate, mark } => {
            let s = StateView { now: at, ..k.state };
            if s.qty.0 != 0 {
                let step = k.on_funding(at, rate, mark);
                let amount = FundingRate { at, rate, mark }.payment(s.contract, s.qty);
                let paid = k.start().with_state(
                    StateView {
                        balance: s.balance.plus(amount),
                        funding: s.funding.plus(amount),
                        ..s
                    },
                ).say(Output::Funded { amount, at });
                assert(orderly(paid.kernel));
                lemma_check_orderly(paid, mark);
            }
        },
        EventView::VenueFill(fill) => {
            if k.state.matching == Matching::Venue {
                lemma_cancel_orderly(k, fill.order);
                let s = StateView {
                    now: fill.stamp.exch,
                    engine: k.state.engine.cancel(fill.order),
                    ..k.state
                };
                let booked = k.start().with_state(s).book_fill(fill);
                lemma_settle_keeps(s, fill);
                assert(orderly(booked.kernel));
                lemma_check_orderly(booked, fill.price);
            }
        },
        EventView::Depth(update) => {
            let after = depth_applied(k.state.engine, update);
            assert(k.state.engine.after_depth(k.state.engine, update));
            assert(after.after_depth(k.state.engine, update));
            assert(after == k.state.engine);
        },
        _ => {},
    }
}

/// What waits is what is held and not in the book; and setting a matcher's ids
/// moves where they count on from, and no order.
pub proof fn law_what_waits_is_held(m: MatcherView, orders: u64, trades: u64, id: OrderId)
    ensures
        m.held() == m.base().book.len() + m.waiting(),
        m.with_ids((orders, trades)).base().orders == orders,
        m.with_ids((orders, trades)).base().trades == trades,
        m.with_ids((orders, trades)).base().book == m.base().book,
        m.with_ids((orders, trades)).held() == m.held(),
        m.with_ids((orders, trades)).holds(id) == m.holds(id),
{
}

} // verus!

//! What becomes of what a strategy asks for, and what it is told.
use crate::backtest::run::{fills_in, liquidations_in, noted, noted_already, RunView};
use crate::backtest::strategy::{Ending, Intent, Said};
use crate::engine::l0::L0Fill;
use crate::engine::tick::Tick;
use crate::ledger::event::EventView;
use crate::ledger::kernel::{KernelView, Matching, Output, StateView, Step};
use crate::ledger::order_laws::{
    held_apart, law_a_cancel_ends_its_order, law_an_order_is_refused_for_cause,
};
use crate::types::{Offset, OrderId, PriceTicks, QtyLots, Side, Stamp};
use vstd::prelude::*;

verus! {

proof fn lemma_ask_cancel(run: RunView, id: OrderId, stamp: Stamp)
    ensures
        ({
            let after = run.ask(EventView::Cancel { id, stamp });
            let was = run.kernel.state.engine.holds(id);
            &&& held_apart(run.kernel.state.engine) ==> held_apart(after.kernel.state.engine)
                && !after.kernel.state.engine.holds(id)
            &&& forall|other: OrderId|
                other != id ==> #[trigger] after.kernel.state.engine.holds(other)
                    == run.kernel.state.engine.holds(other)
            &&& forall|other: OrderId|
                other != id ==> #[trigger] after.kernel.working.contains(other)
                    == run.kernel.working.contains(other)
            &&& !was ==> after.kernel == run.kernel && after.ended == run.ended
            &&& was ==> !after.kernel.working.contains(id)
            &&& was && noted_already(run.ended, id) ==> after.ended == run.ended
            &&& was && !noted_already(run.ended, id) ==> after.ended == run.ended.push(
                (id, Ending::Cancelled),
            )
        }),
{
    reveal(RunView::ask);
    law_a_cancel_ends_its_order(run.kernel, id, stamp);
    let step = run.kernel.apply(EventView::Cancel { id, stamp });
    reveal_with_fuel(noted, 2);
    if run.kernel.state.engine.holds(id) {
        assert(step.outputs.drop_last() =~= Seq::<Output>::empty());
        assert(step.outputs.last() == Output::Cancelled(id));
    }
}

proof fn lemma_withdraw_ends(run: RunView, ids: Seq<OrderId>, stamp: Stamp)
    ensures
        ({
            let after = run.withdraw(ids, stamp);
            let n = run.ended.len() as int;
            &&& held_apart(run.kernel.state.engine) ==> held_apart(after.kernel.state.engine)
            &&& forall|id: OrderId|
                !ids.contains(id) ==> #[trigger] after.kernel.state.engine.holds(id)
                    == run.kernel.state.engine.holds(id)
            &&& forall|id: OrderId|
                !run.kernel.state.engine.holds(id)
                    ==> !#[trigger] after.kernel.state.engine.holds(id)
            &&& held_apart(run.kernel.state.engine) ==> forall|id: OrderId|
                ids.contains(id) ==> !#[trigger] after.kernel.state.engine.holds(id)
            &&& forall|id: OrderId| #[trigger]
                after.kernel.working.contains(id) == (run.kernel.working.contains(id) && !(
                run.kernel.state.engine.holds(id) && ids.contains(id)))
            &&& n <= after.ended.len()
            &&& forall|i: int| 0 <= i < n ==> #[trigger] after.ended[i] == run.ended[i]
            &&& forall|i: int|
                n <= i < after.ended.len() ==> (#[trigger] after.ended[i]).1 == Ending::Cancelled
                    && ids.contains(after.ended[i].0)
            &&& forall|id: OrderId|
                ids.contains(id) && #[trigger] run.kernel.state.engine.holds(id) ==> noted_already(
                    after.ended,
                    id,
                )
        }),
    decreases ids.len(),
{
    if ids.len() > 0 {
        let rest = ids.drop_last();
        let last = ids.last();
        lemma_withdraw_ends(run, rest, stamp);
        let mid = run.withdraw(rest, stamp);
        lemma_ask_cancel(mid, last, stamp);
        let after = run.withdraw(ids, stamp);
        let n = run.ended.len() as int;
        assert(ids[ids.len() - 1] == last);
        assert forall|id: OrderId| #[trigger] ids.contains(id) == (rest.contains(id) || id
            == last) by {
            if rest.contains(id) {
                let k = choose|k: int| 0 <= k < rest.len() && rest[k] == id;
                assert(ids[k] == id);
            }
            if ids.contains(id) && id != last {
                let k = choose|k: int| 0 <= k < ids.len() && ids[k] == id;
                assert(rest[k] == id);
            }
        }
        assert forall|id: OrderId| !ids.contains(id) implies #[trigger]
            after.kernel.state.engine.holds(id) == run.kernel.state.engine.holds(id) by {
            assert(mid.kernel.state.engine.holds(id) == run.kernel.state.engine.holds(id));
        }
        assert forall|id: OrderId|
            !run.kernel.state.engine.holds(id) implies !#[trigger] after.kernel.state.engine.holds(
            id,
        ) by {
            assert(!mid.kernel.state.engine.holds(id));
        }
        if held_apart(run.kernel.state.engine) {
            assert forall|id: OrderId| ids.contains(id) implies !#[trigger]
                after.kernel.state.engine.holds(id) by {
                if id != last {
                    assert(!mid.kernel.state.engine.holds(id));
                }
            }
        }
        assert forall|id: OrderId| #[trigger]
            after.kernel.working.contains(id) == (run.kernel.working.contains(id) && !(
            run.kernel.state.engine.holds(id) && ids.contains(id))) by {
            assert(mid.kernel.working.contains(id) == (run.kernel.working.contains(id) && !(
            run.kernel.state.engine.holds(id) && rest.contains(id))));
            if !rest.contains(id) {
                assert(mid.kernel.state.engine.holds(id) == run.kernel.state.engine.holds(id));
            } else if id == last {
                assert(mid.kernel.state.engine.holds(id) ==> run.kernel.state.engine.holds(id));
            }
        }
        assert forall|id: OrderId|
            ids.contains(id) && #[trigger] run.kernel.state.engine.holds(id) implies noted_already(
            after.ended,
            id,
        ) by {
            if rest.contains(id) {
                assert(noted_already(mid.ended, id));
                let k = choose|k: int| 0 <= k < mid.ended.len() && (#[trigger] mid.ended[k]).0 == id;
                assert(after.ended[k].0 == id);
            } else {
                assert(mid.kernel.state.engine.holds(last));
                if !noted_already(mid.ended, last) {
                    assert(after.ended[after.ended.len() - 1].0 == last);
                }
            }
        }
    }
}

/// Withdrawing everything ends every order that was working and held by the
/// matcher: it is not working any more, nor held where no other order had its
/// id, and it is among the endings to be reported, as cancelled, unless an
/// ending of it was waiting to be reported already. Orders that were not both
/// are as they were.
pub proof fn law_cancel_all_ends_every_held_order(run: RunView, stamp: Stamp)
    ensures
        ({
            let after = run.act(Intent::CancelAll, stamp);
            let engine = run.kernel.state.engine;
            &&& forall|id: OrderId|
                run.kernel.working.contains(id) && #[trigger] engine.holds(id) ==> {
                    &&& !after.kernel.working.contains(id)
                    &&& held_apart(engine) ==> !after.kernel.state.engine.holds(id)
                    &&& (forall|i: int|
                        0 <= i < run.ended.len() ==> (#[trigger] run.ended[i]).0 != id)
                        ==> after.ended.contains((id, Ending::Cancelled))
                }
            &&& forall|id: OrderId|
                !(run.kernel.working.contains(id) && #[trigger] engine.holds(id)) ==> {
                    &&& after.kernel.working.contains(id) == run.kernel.working.contains(id)
                    &&& after.kernel.state.engine.holds(id) == engine.holds(id)
                }
            &&& run.ended.len() <= after.ended.len()
            &&& after.ended.subrange(0, run.ended.len() as int) == run.ended
        }),
{
    reveal(RunView::act);
    lemma_withdraw_ends(run, run.kernel.working, stamp);
    let after = run.act(Intent::CancelAll, stamp);
    assert(after == run.withdraw(run.kernel.working, stamp));
    let engine = run.kernel.state.engine;
    assert(after.ended.subrange(0, run.ended.len() as int) =~= run.ended);
    assert forall|id: OrderId|
        run.kernel.working.contains(id) && #[trigger] engine.holds(id) implies {
        &&& !after.kernel.working.contains(id)
        &&& held_apart(engine) ==> !after.kernel.state.engine.holds(id)
        &&& (forall|i: int| 0 <= i < run.ended.len() ==> (#[trigger] run.ended[i]).0 != id)
            ==> after.ended.contains((id, Ending::Cancelled))
    } by {
        assert(noted_already(after.ended, id));
        let k = choose|k: int| 0 <= k < after.ended.len() && (#[trigger] after.ended[k]).0 == id;
        if forall|i: int| 0 <= i < run.ended.len() ==> (#[trigger] run.ended[i]).0 != id {
            if k < run.ended.len() {
                assert(after.ended[k] == run.ended[k]);
                assert(run.ended[k].0 != id);
            }
            assert(after.ended[k] == (id, Ending::Cancelled));
        }
    }
}

/// Withdrawing one order does to the kernel what cancelling it does, and
/// placing one does what submitting it does, with the terms the strategy gave
/// and the time of the observation it answered.
pub proof fn law_an_intent_is_asked_as_given(
    run: RunView,
    id: OrderId,
    side: Side,
    price: PriceTicks,
    qty: QtyLots,
    offset: Offset,
    stamp: Stamp,
)
    ensures
        run.act(Intent::Cancel(id), stamp).kernel == run.kernel.apply(
            EventView::Cancel { id, stamp },
        ).kernel,
        run.act(Intent::Limit { id, side, price, qty, offset }, stamp).kernel == run.kernel.apply(
            EventView::Submit { id, side, price: Some(price), qty, offset, stamp },
        ).kernel,
        run.act(Intent::Market { id, side, qty, offset }, stamp).kernel == run.kernel.apply(
            EventView::Submit { id, side, price: None, qty, offset, stamp },
        ).kernel,
{
    reveal(RunView::act);
    reveal(RunView::ask);
}

/// A strategy is told that an order was accepted exactly where its quantity is
/// positive, its id is not working already and the account has a balance; and
/// an accepted order is working from then on.
pub proof fn law_an_order_is_accepted_for_cause(
    run: RunView,
    id: OrderId,
    side: Side,
    price: PriceTicks,
    qty: QtyLots,
    offset: Offset,
    stamp: Stamp,
)
    ensures
        ({
            let accepted = qty.0 > 0 && !run.kernel.working.contains(id)
                && run.kernel.state.balance.0 > 0;
            let limit = Intent::Limit { id, side, price, qty, offset };
            let market = Intent::Market { id, side, qty, offset };
            &&& run.placing(limit, stamp) == Some((id, accepted))
            &&& run.placing(market, stamp) == Some((id, accepted))
            &&& accepted ==> run.act(limit, stamp).kernel.working == run.kernel.working.push(id)
            &&& accepted ==> run.act(market, stamp).kernel.working == run.kernel.working.push(id)
            &&& !accepted ==> run.act(limit, stamp).kernel == run.kernel
            &&& !accepted ==> run.act(market, stamp).kernel == run.kernel
        }),
{
    reveal(RunView::act);
    reveal(RunView::ask);
    reveal(RunView::said);
    law_an_order_is_refused_for_cause(run.kernel, id, side, Some(price), qty, offset, stamp);
    law_an_order_is_refused_for_cause(run.kernel, id, side, None, qty, offset, stamp);
    let a = EventView::Submit { id, side, price: Some(price), qty, offset, stamp };
    let b = EventView::Submit { id, side, price: None, qty, offset, stamp };
    let x = run.kernel.apply(a).outputs;
    let y = run.kernel.apply(b).outputs;
    if !(qty.0 > 0 && !run.kernel.working.contains(id) && run.kernel.state.balance.0 > 0) {
        assert(x[0] is Rejected);
        assert(y[0] is Rejected);
    }
}

proof fn lemma_fills_booked(start: Step, fills: Seq<L0Fill>)
    requires
        start.outputs.len() == 0,
    ensures
        ({
            let outputs = start.book_all(fills).outputs;
            &&& outputs.len() == fills.len()
            &&& forall|i: int|
                0 <= i < fills.len() ==> #[trigger] outputs[i] == Output::Filled(fills[i].fill)
            &&& fills_in(outputs).len() == fills.len()
            &&& forall|i: int|
                0 <= i < fills.len() ==> #[trigger] fills_in(outputs)[i] == fills[i].fill
            &&& liquidations_in(outputs).len() == 0
        }),
    decreases fills.len(),
{
    if fills.len() > 0 {
        let rest = fills.drop_last();
        lemma_fills_booked(start, rest);
        let before = start.book_all(rest).outputs;
        let outputs = start.book_all(fills).outputs;
        assert(outputs.drop_last() =~= before);
        assert(outputs.last() == Output::Filled(fills.last().fill));
    }
}

/// A strategy is told every fill the matcher made at an observation, in order
/// and as it was made, and the run keeps it.
pub proof fn law_every_fill_is_told(run: RunView, tick: Tick)
    requires
        run.kernel.state.matching != Matching::Venue,
    ensures
        ({
            let made = run.kernel.state.engine.on_tick(tick).fills;
            let seen = run.observe(tick);
            &&& seen.fills.len() == made.len()
            &&& forall|i: int| 0 <= i < made.len() ==> #[trigger] seen.fills[i] == made[i].fill
            &&& seen.run.fills == run.fills + seen.fills
        }),
{
    reveal(RunView::observe);
    reveal(RunView::trade);
    reveal(RunView::funded);
    reveal(RunView::measured);
    reveal(KernelView::apply);
    let a = run.trade(tick);
    crate::backtest::run::lemma_fund_keeps(
        a,
        crate::margin::due(a.config.funding, a.last_funding, tick.stamp.exch),
    );
    let matched = run.kernel.state.engine.on_tick(tick);
    let seen = StateView { now: tick.stamp.exch, mark: tick.last, ..run.kernel.state };
    let start = run.kernel.start().with_state(StateView { engine: matched.engine, ..seen });
    lemma_fills_booked(start, matched.fills);
    let booked = start.book_all(matched.fills);
    let step = run.kernel.apply(EventView::Tick(tick));
    assert(step == booked.check(tick.last));
    if booked.kernel.state.must_close(tick.last) {
        assert(step.outputs.drop_last() =~= booked.outputs);
    }
}

/// Intents are carried out in the order given: a list in two parts is the
/// first part and then the second, and a list of one is that one.
pub proof fn law_intents_are_carried_out_in_order(
    run: RunView,
    a: Seq<Intent>,
    b: Seq<Intent>,
    one: Intent,
    stamp: Stamp,
)
    ensures
        run.act_all(a + b, stamp) == run.act_all(a, stamp).act_all(b, stamp),
        run.act_all(seq![one], stamp) == run.act(one, stamp),
        run.act_all(Seq::empty(), stamp) == run,
    decreases b.len(),
{
    let single = seq![one];
    assert(single.drop_last() =~= Seq::<Intent>::empty());
    assert(run.act_all(single.drop_last(), stamp) == run);
    assert(single.last() == one);
    if b.len() == 0 {
        assert(a + b =~= a);
    } else {
        law_intents_are_carried_out_in_order(run, a, b.drop_last(), one, stamp);
        assert((a + b).drop_last() =~= a + b.drop_last());
        assert((a + b).last() == b.last());
    }
}

/// At an observation a strategy is told its fills first, in order, then the
/// orders that ended, then the observation, all with one account; and of each
/// order it places, in order, whether it was accepted.
pub proof fn law_a_strategy_is_told_in_order(run: RunView, tick: Tick, i: int)
    ensures
        ({
            let seen = run.observe(tick);
            let told = run.tells(tick);
            let n = seen.fills.len() as int;
            let m = seen.ended.len() as int;
            &&& told.len() == n + m + 1
            &&& 0 <= i < n ==> told[i] == (Said::Fill {
                fill: seen.fills[i],
                context: seen.context,
            })
            &&& n <= i < n + m ==> told[i] == (Said::Ended {
                id: seen.ended[i - n].0,
                ending: seen.ended[i - n].1,
            })
            &&& told[n + m] == Said::Tick { context: seen.context }
        }),
{
}

/// An observation reports every ending that was waiting, and leaves none
/// waiting behind it.
pub proof fn law_an_observation_reports_what_ended(run: RunView, tick: Tick)
    ensures
        ({
            let seen = run.observe(tick);
            &&& seen.run.ended.len() == 0
            &&& run.ended.len() <= seen.ended.len()
            &&& seen.ended.subrange(0, run.ended.len() as int) == run.ended
            &&& seen.context == seen.run.context(tick)
        }),
{
    reveal(RunView::observe);
    reveal(RunView::trade);
    reveal(RunView::funded);
    reveal(RunView::measured);
    let step = run.kernel.apply(EventView::Tick(tick));
    let a = run.trade(tick);
    crate::backtest::run::lemma_fund_keeps(
        a,
        crate::margin::due(a.config.funding, a.last_funding, tick.stamp.exch),
    );
    crate::backtest::measure_laws::law_what_ended_is_noted(
        run.ended,
        step.outputs,
        step.kernel.working,
    );
    assert(run.observe(tick).ended.subrange(0, run.ended.len() as int) =~= run.ended);
}

} // verus!

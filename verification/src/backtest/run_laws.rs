//! What every run keeps, and what its two margin arms have in common.
use crate::backtest::run::{
    as_arrivals, as_views, conversed, counted_up, event_for, lemma_fund_keeps, liquidations_in, ran, ConfigView,
    MarginMode, RunResult, RunView,
};
use crate::backtest::strategy::{follows, lemma_follows_one_way, settled, Intent, Strategy};
use crate::engine::l0::L0Fill;
use crate::engine::observation::{Observation, ObservationView};
use crate::engine::tick::Tick;
use crate::ledger::event::EventView;
use crate::ledger::kernel::{KernelView, Matching, Output, StateView, Step};
use crate::margin::{due, FundingRate};
use crate::types::{Fill, Nanos, OrderId, OrderKind, PriceTicks, Ratio, Stamp, Working};
use vstd::prelude::*;

verus! {

/// A kernel whose venue may not close the account.
pub open spec fn unenforced(k: KernelView) -> KernelView {
    KernelView { state: StateView { enforce_liquidation: false, ..k.state }, ..k }
}

/// A run's control arm: the same run, with margin ignored.
pub open spec fn control(run: RunView) -> RunView {
    RunView {
        config: ConfigView { margin: MarginMode::Ignored, ..run.config },
        kernel: unenforced(run.kernel),
        ..run
    }
}

/// A single output that is no liquidation holds none.
proof fn lemma_quiet(outputs: Seq<Output>)
    requires
        outputs.len() <= 1,
        outputs.len() == 1 ==> !(outputs[0] is Liquidated),
    ensures
        liquidations_in(outputs).len() == 0,
{
    reveal_with_fuel(liquidations_in, 2);
}

spec fn relaxed(step: Step) -> Step {
    Step { kernel: unenforced(step.kernel), ..step }
}

proof fn lemma_fill_relaxed(s: StateView, fill: Fill)
    ensures
        (StateView { enforce_liquidation: false, ..s }).settle(fill) == (StateView {
            enforce_liquidation: false,
            ..s.settle(fill)
        }),
        s.settle(fill).enforce_liquidation == s.enforce_liquidation,
        s.settle(fill).table == s.table,
        s.settle(fill).engine == s.engine,
{
    assert((StateView { enforce_liquidation: false, ..s }).settle(fill) =~= (StateView {
        enforce_liquidation: false,
        ..s.settle(fill)
    }));
}

proof fn lemma_fills_relaxed(start: Step, fills: Seq<L0Fill>)
    ensures
        relaxed(start).book_all(fills) == relaxed(start.book_all(fills)),
        start.book_all(fills).kernel.state.enforce_liquidation
            == start.kernel.state.enforce_liquidation,
        liquidations_in(start.book_all(fills).outputs) == liquidations_in(start.outputs),
    decreases fills.len(),
{
    if fills.len() > 0 {
        lemma_fills_relaxed(start, fills.drop_last());
        let before = start.book_all(fills.drop_last());
        let f = fills.last().fill;
        lemma_fill_relaxed(before.kernel.state, f);
        let after = before.book_fill(f);
        assert(after.outputs.drop_last() =~= before.outputs);
        assert(relaxed(before).book_fill(f) =~= relaxed(after));
    }
}

proof fn lemma_check_relaxed(step: Step, mark: PriceTicks)
    requires
        liquidations_in(step.outputs).len() == 0,
    ensures
        relaxed(step).check(mark) == relaxed(step),
        liquidations_in(step.check(mark).outputs).len() == 0 ==> step.check(mark) == step,
        step.check(mark).kernel.state.enforce_liquidation
            == step.kernel.state.enforce_liquidation,
        !step.kernel.state.enforce_liquidation ==> step.check(mark) == step,
{
    let after = step.check(mark);
    if step.kernel.state.must_close(mark) {
        assert(after.outputs.drop_last() =~= step.outputs);
        assert(liquidations_in(after.outputs).len() == 1);
    }
}

/// Whether a step is the same with and without enforcement, unless it closes
/// the account.
spec fn relaxes(k: KernelView, step: Step, other: Step) -> bool {
    &&& liquidations_in(step.outputs).len() == 0 ==> other == relaxed(step)
    &&& step.kernel.state.enforce_liquidation == k.state.enforce_liquidation
    &&& !k.state.enforce_liquidation ==> liquidations_in(step.outputs).len() == 0
}

proof fn lemma_tick_relaxed(k: KernelView, tick: Tick)
    ensures
        relaxes(k, k.on_tick(tick), unenforced(k).on_tick(tick)),
{
    let u = unenforced(k);
    let seen = StateView { now: tick.stamp.exch, mark: tick.last, ..k.state };
    let useen = StateView { now: tick.stamp.exch, mark: tick.last, ..u.state };
    if k.state.matching == Matching::Venue {
        let start = k.start().with_state(seen);
        assert(u.start().with_state(useen) =~= relaxed(start));
        lemma_check_relaxed(start, tick.last);
    } else {
        let matched = k.state.engine.on_tick(tick);
        let begin = k.start().with_state(StateView { engine: matched.engine, ..seen });
        assert(u.start().with_state(StateView { engine: matched.engine, ..useen }) =~= relaxed(
            begin,
        ));
        lemma_fills_relaxed(begin, matched.fills);
        lemma_check_relaxed(begin.book_all(matched.fills), tick.last);
    }
}

proof fn lemma_funding_relaxed(k: KernelView, at: Nanos, rate: Ratio, mark: PriceTicks)
    ensures
        relaxes(k, k.on_funding(at, rate, mark), unenforced(k).on_funding(at, rate, mark)),
{
    let u = unenforced(k);
    let s = StateView { now: at, ..k.state };
    if s.qty.0 == 0 {
        assert(u.on_funding(at, rate, mark) =~= relaxed(k.on_funding(at, rate, mark)));
    } else {
        let amount = FundingRate { at, rate, mark }.payment(s.contract, s.qty);
        let step = k.start().with_state(
            StateView { balance: s.balance.plus(amount), funding: s.funding.plus(amount), ..s },
        ).say(Output::Funded { amount, at });
        let us = StateView { now: at, ..u.state };
        let ustep = u.start().with_state(
            StateView { balance: us.balance.plus(amount), funding: us.funding.plus(amount), ..us },
        ).say(Output::Funded { amount, at });
        assert(ustep =~= relaxed(step));
        lemma_quiet(step.outputs);
        lemma_check_relaxed(step, mark);
    }
}

proof fn lemma_venue_fill_relaxed(k: KernelView, fill: Fill)
    ensures
        relaxes(k, k.on_venue_fill(fill), unenforced(k).on_venue_fill(fill)),
{
    let u = unenforced(k);
    if k.state.matching == Matching::Venue {
        let start = k.start().with_state(
            StateView {
                now: fill.stamp.exch,
                engine: k.state.engine.cancel(fill.order),
                ..k.state
            },
        );
        let ustart = u.start().with_state(
            StateView {
                now: fill.stamp.exch,
                engine: u.state.engine.cancel(fill.order),
                ..u.state
            },
        );
        assert(ustart =~= relaxed(start));
        lemma_fill_relaxed(start.kernel.state, fill);
        let booked = start.book_fill(fill);
        lemma_quiet(booked.outputs);
        assert(relaxed(start).book_fill(fill) =~= relaxed(booked));
        lemma_check_relaxed(booked, fill.price);
    } else {
        lemma_quiet(k.on_venue_fill(fill).outputs);
        assert(u.on_venue_fill(fill) =~= relaxed(k.on_venue_fill(fill)));
    }
}

proof fn lemma_submit_relaxed(k: KernelView, order: Working)
    ensures
        relaxes(k, k.on_submit(order), unenforced(k).on_submit(order)),
        liquidations_in(k.on_submit(order).outputs).len() == 0,
{
    lemma_quiet(k.on_submit(order).outputs);
    assert(unenforced(k).on_submit(order) =~= relaxed(k.on_submit(order)));
}

proof fn lemma_cancel_relaxed(k: KernelView, id: OrderId)
    ensures
        relaxes(k, k.on_cancel(id), unenforced(k).on_cancel(id)),
        liquidations_in(k.on_cancel(id).outputs).len() == 0,
{
    lemma_quiet(k.on_cancel(id).outputs);
    assert(unenforced(k).on_cancel(id) =~= relaxed(k.on_cancel(id)));
}

/// An event that closes nothing does the same with and without enforcement.
proof fn lemma_apply_relaxed(k: KernelView, e: EventView)
    ensures
        relaxes(k, k.apply(e), unenforced(k).apply(e)),
        e is Submit || e is Cancel ==> liquidations_in(k.apply(e).outputs).len() == 0,
{
    reveal(KernelView::apply);
    match e {
        EventView::Tick(tick) => {
            lemma_tick_relaxed(k, tick);
        },
        EventView::Funding { at, rate, mark } => {
            lemma_funding_relaxed(k, at, rate, mark);
        },
        EventView::VenueFill(fill) => {
            lemma_venue_fill_relaxed(k, fill);
        },
        EventView::Submit { id, side, price, qty, offset, stamp } => {
            lemma_submit_relaxed(
                k,
                Working {
                    id,
                    side,
                    kind: match price {
                        Some(price) => OrderKind::Limit { price },
                        None => OrderKind::Market,
                    },
                    remaining: qty,
                    stamp,
                    offset,
                },
            );
        },
        EventView::Cancel { id, .. } => {
            lemma_cancel_relaxed(k, id);
        },
        _ => {
            assert(unenforced(k).apply(e) =~= relaxed(k.apply(e)));
        },
    }
}

/// What one step of a run does to the two arms: it adds to the liquidations,
/// adds none where margin is ignored, and where it adds none the control arm
/// takes the same step.
spec fn in_step(before: RunView, after: RunView, control_after: RunView) -> bool {
    &&& after.config == before.config
    &&& after.kernel.state.enforce_liquidation == before.kernel.state.enforce_liquidation
    &&& after.liquidations.len() >= before.liquidations.len()
    &&& !before.kernel.state.enforce_liquidation ==> after.liquidations == before.liquidations
    &&& after.liquidations.len() == before.liquidations.len() ==> control_after == control(after)
}

proof fn lemma_trade_in_step(run: RunView, tick: Tick)
    ensures
        in_step(run, run.trade(tick), control(run).trade(tick)),
        run.trade(tick).liquidations.len() == run.liquidations.len()
            ==> unenforced(run.kernel).apply(EventView::Tick(tick)) == relaxed(
            run.kernel.apply(EventView::Tick(tick)),
        ),
{
    reveal(RunView::trade);
    let e = EventView::Tick(tick);
    lemma_apply_relaxed(run.kernel, e);
    let step = run.kernel.apply(e);
    if liquidations_in(step.outputs).len() == 0 {
        assert(run.trade(tick).liquidations =~= run.liquidations);
        assert(control(run).trade(tick) =~= control(run.trade(tick)));
    }
}

proof fn lemma_fund_in_step(run: RunView, rates: Seq<FundingRate>)
    ensures
        in_step(run, run.fund(rates), control(run).fund(rates)),
    decreases rates.len(),
{
    if rates.len() > 0 {
        lemma_fund_in_step(run, rates.drop_last());
        let before = run.fund(rates.drop_last());
        let r = rates.last();
        let e = EventView::Funding { at: r.at, rate: r.rate, mark: r.mark };
        lemma_apply_relaxed(before.kernel, e);
        let step = before.kernel.apply(e);
        let after = run.fund(rates);
        if liquidations_in(step.outputs).len() == 0 {
            assert(after.liquidations =~= before.liquidations);
        }
        if after.liquidations.len() == run.liquidations.len() {
            assert(control(run).fund(rates) =~= control(after));
        }
    }
}

proof fn lemma_ask_in_step(run: RunView, e: EventView)
    requires
        e is Submit || e is Cancel,
    ensures
        in_step(run, run.ask(e), control(run).ask(e)),
        run.ask(e).liquidations == run.liquidations,
{
    reveal(RunView::ask);
    lemma_apply_relaxed(run.kernel, e);
    assert(control(run).ask(e) =~= control(run.ask(e)));
}

proof fn lemma_withdraw_in_step(run: RunView, ids: Seq<OrderId>, stamp: Stamp)
    ensures
        in_step(run, run.withdraw(ids, stamp), control(run).withdraw(ids, stamp)),
        run.withdraw(ids, stamp).liquidations == run.liquidations,
    decreases ids.len(),
{
    if ids.len() > 0 {
        lemma_withdraw_in_step(run, ids.drop_last(), stamp);
        lemma_ask_in_step(
            run.withdraw(ids.drop_last(), stamp),
            EventView::Cancel { id: ids.last(), stamp },
        );
    }
}

proof fn lemma_act_in_step(run: RunView, intent: Intent, stamp: Stamp)
    ensures
        in_step(run, run.act(intent, stamp), control(run).act(intent, stamp)),
        run.act(intent, stamp).liquidations == run.liquidations,
{
    reveal(RunView::act);
    match event_for(intent, stamp) {
        Some(e) => {
            lemma_ask_in_step(run, e);
        },
        None => {
            lemma_withdraw_in_step(run, run.kernel.working, stamp);
        },
    }
}

proof fn lemma_act_all_in_step(run: RunView, intents: Seq<Intent>, stamp: Stamp)
    ensures
        in_step(run, run.act_all(intents, stamp), control(run).act_all(intents, stamp)),
        run.act_all(intents, stamp).liquidations == run.liquidations,
    decreases intents.len(),
{
    if intents.len() > 0 {
        lemma_act_all_in_step(run, intents.drop_last(), stamp);
        lemma_act_in_step(run.act_all(intents.drop_last(), stamp), intents.last(), stamp);
    }
}

proof fn lemma_measured_in_step(run: RunView, tick: Tick)
    ensures
        in_step(run, run.measured(tick), control(run).measured(tick)),
        run.measured(tick).liquidations == run.liquidations,
{
    reveal(RunView::measured);
    assert(control(run).measured(tick) =~= control(run.measured(tick)));
}

proof fn lemma_funded_in_step(run: RunView, tick: Tick)
    ensures
        in_step(run, run.funded(tick), control(run).funded(tick)),
{
    reveal(RunView::funded);
    let rates = due(run.config.funding, run.last_funding, tick.stamp.exch);
    lemma_fund_in_step(run, rates);
    if run.fund(rates).liquidations.len() == run.liquidations.len() {
        assert(control(run).funded(tick) =~= control(run.funded(tick)));
    }
}

proof fn lemma_observe_in_step(run: RunView, tick: Tick)
    ensures
        in_step(run, run.observe(tick).run, control(run).observe(tick).run),
        run.observe(tick).run.liquidations.len() == run.liquidations.len() ==> {
            &&& control(run).observe(tick).fills == run.observe(tick).fills
            &&& control(run).observe(tick).ended == run.observe(tick).ended
            &&& control(run).observe(tick).context == run.observe(tick).context
        },
{
    reveal(RunView::observe);
    let a = run.trade(tick);
    let b = a.funded(tick);
    lemma_trade_in_step(run, tick);
    lemma_funded_in_step(a, tick);
    lemma_measured_in_step(b, tick);
    if b.liquidations.len() == run.liquidations.len() {
        let c = b.measured(tick);
        assert(control(run).trade(tick) == control(a));
        assert(control(a).funded(tick) == control(b));
        assert(control(b).measured(tick) == control(c));
        assert(control(run).observe(tick).run =~= control(run.observe(tick).run));
    }
}

proof fn lemma_arrive_in_step(run: RunView, o: ObservationView, intents: Seq<Intent>)
    ensures
        in_step(run, run.arrive(o, intents), control(run).arrive(o, intents)),
{
    match o {
        ObservationView::Tick(tick) => {
            lemma_observe_in_step(run, tick);
            lemma_act_all_in_step(run.observe(tick).run, intents, tick.stamp);
        },
        ObservationView::Depth(u) => {
            assert(control(run).depth(u) =~= control(run.depth(u)));
        },
        ObservationView::Snapshot { update_id, bids, asks } => {
            assert(control(run).snapshot(update_id, bids, asks) =~= control(
                run.snapshot(update_id, bids, asks),
            ));
        },
    }
}

proof fn lemma_runs_in_step(
    config: ConfigView,
    stream: Seq<ObservationView>,
    answers: Seq<Seq<Intent>>,
)
    ensures
        in_step(
            RunView::opened(config),
            ran(config, stream, answers),
            ran(ConfigView { margin: MarginMode::Ignored, ..config }, stream, answers),
        ),
    decreases stream.len(),
{
    let ignored = ConfigView { margin: MarginMode::Ignored, ..config };
    if stream.len() == 0 {
        assert(RunView::opened(ignored) =~= control(RunView::opened(config)));
    } else {
        lemma_runs_in_step(config, stream.drop_last(), answers);
        lemma_arrive_in_step(
            ran(config, stream.drop_last(), answers),
            stream.last(),
            answers[stream.len() - 1],
        );
    }
}

/// The control arm never liquidates, by construction.
pub proof fn law_ignored_margin_never_liquidates(
    config: ConfigView,
    stream: Seq<ObservationView>,
    answers: Seq<Seq<Intent>>,
)
    requires
        config.margin == MarginMode::Ignored,
    ensures
        ran(config, stream, answers).liquidations.len() == 0,
{
    lemma_runs_in_step(config, stream, answers);
}

/// The two margin arms differ only by liquidation: a run the venue never
/// closed is, to the last field, the run with margin ignored.
pub proof fn law_the_arms_agree_until_a_liquidation(
    config: ConfigView,
    stream: Seq<ObservationView>,
    answers: Seq<Seq<Intent>>,
)
    requires
        ran(config, stream, answers).liquidations.len() == 0,
    ensures
        ran(ConfigView { margin: MarginMode::Ignored, ..config }, stream, answers) == control(
            ran(config, stream, answers),
        ),
{
    lemma_runs_in_step(config, stream, answers);
}

/// How many of a stream's arrivals are ticks.
pub open spec fn ticks_in(stream: Seq<ObservationView>) -> nat
    decreases stream.len(),
{
    if stream.len() == 0 {
        0
    } else {
        ticks_in(stream.drop_last()) + if stream.last() is Tick {
            1nat
        } else {
            0
        }
    }
}

/// How many are depth updates.
pub open spec fn depths_in(stream: Seq<ObservationView>) -> nat
    decreases stream.len(),
{
    if stream.len() == 0 {
        0
    } else {
        depths_in(stream.drop_last()) + if stream.last() is Depth {
            1nat
        } else {
            0
        }
    }
}

proof fn lemma_counts_fit(stream: Seq<ObservationView>)
    ensures
        ticks_in(stream) + depths_in(stream) <= stream.len(),
    decreases stream.len(),
{
    if stream.len() > 0 {
        lemma_counts_fit(stream.drop_last());
    }
}

/// A strategy's intents move the kernel and the list of endings, and nothing
/// else.
proof fn lemma_intents_keep(run: RunView, intents: Seq<Intent>, stamp: Stamp)
    ensures
        run.act_all(intents, stamp) == (RunView {
            kernel: run.act_all(intents, stamp).kernel,
            ended: run.act_all(intents, stamp).ended,
            ..run
        }),
    decreases intents.len(),
{
    if intents.len() > 0 {
        lemma_intents_keep(run, intents.drop_last(), stamp);
        let before = run.act_all(intents.drop_last(), stamp);
        reveal(RunView::act);
        match event_for(intents.last(), stamp) {
            Some(_) => {
                reveal(RunView::ask);
            },
            None => {
                lemma_withdraw_keeps(before, before.kernel.working, stamp);
            },
        }
    }
}

proof fn lemma_withdraw_keeps(run: RunView, ids: Seq<OrderId>, stamp: Stamp)
    ensures
        run.withdraw(ids, stamp) == (RunView {
            kernel: run.withdraw(ids, stamp).kernel,
            ended: run.withdraw(ids, stamp).ended,
            ..run
        }),
    decreases ids.len(),
{
    if ids.len() > 0 {
        lemma_withdraw_keeps(run, ids.drop_last(), stamp);
        reveal(RunView::ask);
    }
}

/// The account an observation is measured at: traded and funded, and not yet
/// acted on.
pub open spec fn at_observation(run: RunView, tick: Tick) -> RunView {
    run.trade(tick).funded(tick)
}

/// What an observation does to what a run measures.
proof fn lemma_observed(run: RunView, tick: Tick)
    ensures
        ({
            let equity = at_observation(run, tick).kernel.state.equity();
            let after = run.observe(tick).run;
            &&& after.config == run.config
            &&& after.ticks == counted_up(run.ticks)
            &&& after.depth_applied == run.depth_applied
            &&& after.depth_refused == run.depth_refused
            &&& after.depth_unused == run.depth_unused
            &&& after.min_equity == if equity.0 < run.min_equity.0 {
                equity
            } else {
                run.min_equity
            }
            &&& after.equity_curve == if run.config.equity_every > 0 && counted_up(run.ticks)
                % run.config.equity_every == 0 {
                run.equity_curve.push(equity)
            } else {
                run.equity_curve
            }
        }),
{
    reveal(RunView::observe);
    reveal(RunView::trade);
    reveal(RunView::funded);
    reveal(RunView::measured);
    let a = run.trade(tick);
    lemma_fund_keeps(a, due(a.config.funding, a.last_funding, tick.stamp.exch));
}

/// Nothing a stream brings goes uncounted: a run counts every tick, and every
/// depth update among those applied, refused or unused.
pub proof fn law_every_arrival_is_counted(
    config: ConfigView,
    stream: Seq<ObservationView>,
    answers: Seq<Seq<Intent>>,
)
    requires
        stream.len() <= usize::MAX,
    ensures
        ({
            let run = ran(config, stream, answers);
            let read = run.depth_applied + run.depth_refused + run.depth_unused;
            &&& run.ticks == ticks_in(stream)
            &&& depths_in(stream) <= read <= stream.len() - ticks_in(stream)
        }),
    decreases stream.len(),
{
    if stream.len() > 0 {
        let rest = stream.drop_last();
        law_every_arrival_is_counted(config, rest, answers);
        lemma_counts_fit(rest);
        let before = ran(config, rest, answers);
        let intents = answers[stream.len() - 1];
        match stream.last() {
            ObservationView::Tick(tick) => {
                lemma_observed(before, tick);
                lemma_intents_keep(before.observe(tick).run, intents, tick.stamp);
            },
            _ => {},
        }
    }
}

/// The worst point is recorded, not the last: a run's lowest equity is no
/// higher than the balance it opened with, than any equity it sampled, or than
/// the equity at its latest observation.
pub proof fn law_the_lowest_equity_is_kept(
    config: ConfigView,
    stream: Seq<ObservationView>,
    answers: Seq<Seq<Intent>>,
)
    ensures
        ({
            let run = ran(config, stream, answers);
            &&& run.config == config
            &&& run.min_equity.0 <= config.starting_balance.0
            &&& forall|i: int|
                0 <= i < run.equity_curve.len() ==> run.min_equity.0 <= (
                #[trigger] run.equity_curve[i]).0
            &&& stream.len() > 0 ==> {
                let before = ran(config, stream.drop_last(), answers);
                &&& run.min_equity.0 <= before.min_equity.0
                &&& stream.last() matches ObservationView::Tick(tick) ==> run.min_equity.0
                    <= at_observation(before, tick).kernel.state.equity().0
            }
        }),
    decreases stream.len(),
{
    if stream.len() > 0 {
        let rest = stream.drop_last();
        law_the_lowest_equity_is_kept(config, rest, answers);
        let before = ran(config, rest, answers);
        let intents = answers[stream.len() - 1];
        match stream.last() {
            ObservationView::Tick(tick) => {
                lemma_observed(before, tick);
                lemma_intents_keep(before.observe(tick).run, intents, tick.stamp);
                let after = ran(config, stream, answers);
                assert forall|i: int|
                    0 <= i < after.equity_curve.len() implies after.min_equity.0 <= (
                #[trigger] after.equity_curve[i]).0 by {
                    if i < before.equity_curve.len() {
                        assert(after.equity_curve[i] == before.equity_curve[i]);
                    }
                }
            },
            _ => {},
        }
    }
}

/// A sampled run starts its curve at the opening balance and adds one point
/// every interval, so a curve of `n` points gives `n - 1` returns; a run that
/// samples nothing has no curve.
pub proof fn law_the_curve_has_a_point_per_interval(
    config: ConfigView,
    stream: Seq<ObservationView>,
    answers: Seq<Seq<Intent>>,
)
    requires
        stream.len() <= usize::MAX,
    ensures
        ({
            let run = ran(config, stream, answers);
            &&& run.config == config
            &&& config.equity_every == 0 ==> run.equity_curve.len() == 0
            &&& config.equity_every > 0 ==> {
                &&& run.equity_curve.len() == 1 + ticks_in(stream) as int
                    / config.equity_every as int
                &&& run.equity_curve[0] == config.starting_balance
            }
        }),
    decreases stream.len(),
{
    if stream.len() > 0 {
        let rest = stream.drop_last();
        law_the_curve_has_a_point_per_interval(config, rest, answers);
        law_every_arrival_is_counted(config, rest, answers);
        lemma_counts_fit(rest);
        let before = ran(config, rest, answers);
        let intents = answers[stream.len() - 1];
        match stream.last() {
            ObservationView::Tick(tick) => {
                lemma_observed(before, tick);
                lemma_intents_keep(before.observe(tick).run, intents, tick.stamp);
                if config.equity_every > 0 {
                    lemma_next_quotient(ticks_in(rest) as int, config.equity_every as int);
                }
            },
            _ => {},
        }
    } else if config.equity_every > 0 {
        assert(0int / config.equity_every as int == 0) by (nonlinear_arith)
            requires
                config.equity_every > 0,
        ;
    }
}

proof fn lemma_next_quotient(n: int, d: int)
    by (nonlinear_arith)
    requires
        n >= 0,
        d > 0,
    ensures
        (n + 1) % d == 0 ==> (n + 1) / d == n / d + 1,
        (n + 1) % d != 0 ==> (n + 1) / d == n / d,
{
}

/// A settled strategy, shown a stream, answers it in one way.
pub proof fn lemma_conversed_one_way<S: Strategy>(
    config: ConfigView,
    stream: Seq<ObservationView>,
    x: Seq<Seq<Intent>>,
    y: Seq<Seq<Intent>>,
    from: S,
    a: S,
    b: S,
)
    requires
        settled::<S>(),
        stream.len() <= x.len(),
        stream.len() <= y.len(),
        conversed(config, stream, x, from, a),
        conversed(config, stream, y, from, b),
    ensures
        a == b,
        x.subrange(0, stream.len() as int) == y.subrange(0, stream.len() as int),
        ran(config, stream, x) == ran(config, stream, y),
    decreases stream.len(),
{
    let n = stream.len() as int;
    if n > 0 {
        let less = stream.drop_last();
        let p = choose|p: S|
            conversed(config, less, x, from, p) && #[trigger] ran(config, less, x).answered(
                stream.last(),
                x[n - 1],
                p,
                a,
            );
        let q = choose|q: S|
            conversed(config, less, y, from, q) && #[trigger] ran(config, less, y).answered(
                stream.last(),
                y[n - 1],
                q,
                b,
            );
        lemma_conversed_one_way(config, less, x, y, from, p, q);
        lemma_answered_one_way(ran(config, less, x), stream.last(), x[n - 1], y[n - 1], p, a, b);
        assert(x.subrange(0, n) =~= x.subrange(0, n - 1).push(x[n - 1]));
        assert(y.subrange(0, n) =~= y.subrange(0, n - 1).push(y[n - 1]));
    }
}

/// A settled strategy answers an arrival in one way.
proof fn lemma_answered_one_way<S: Strategy>(
    run: RunView,
    o: ObservationView,
    x: Seq<Intent>,
    y: Seq<Intent>,
    from: S,
    a: S,
    b: S,
)
    requires
        settled::<S>(),
        run.answered(o, x, from, a),
        run.answered(o, y, from, b),
    ensures
        x == y,
        a == b,
{
    match o {
        ObservationView::Tick(tick) => {
            let none = Seq::<Intent>::empty();
            let p = choose|p: S| #[trigger]
                follows(from, run.tells(tick), none, p, x) && follows(
                    p,
                    run.observe(tick).run.placements(x, tick.stamp),
                    none,
                    a,
                    none,
                );
            let q = choose|q: S| #[trigger]
                follows(from, run.tells(tick), none, q, y) && follows(
                    q,
                    run.observe(tick).run.placements(y, tick.stamp),
                    none,
                    b,
                    none,
                );
            lemma_follows_one_way(from, run.tells(tick), none, p, x, q, y);
            lemma_follows_one_way(
                p,
                run.observe(tick).run.placements(x, tick.stamp),
                none,
                a,
                none,
                b,
                none,
            );
        },
        _ => {
            assert(x =~= y);
        },
    }
}

/// What a strategy has answered to a stream, it has answered to a prefix of it.
pub proof fn lemma_conversed_prefix<S: Strategy>(
    config: ConfigView,
    stream: Seq<ObservationView>,
    n: int,
    answers: Seq<Seq<Intent>>,
    from: S,
    to: S,
) -> (mid: S)
    requires
        0 <= n <= stream.len(),
        conversed(config, stream, answers, from, to),
    ensures
        conversed(config, stream.subrange(0, n), answers, from, mid),
    decreases stream.len(),
{
    if n == stream.len() {
        assert(stream.subrange(0, n) =~= stream);
        to
    } else {
        let less = stream.drop_last();
        let before = choose|before: S|
            conversed(config, less, answers, from, before) && #[trigger] ran(
                config,
                less,
                answers,
            ).answered(stream.last(), answers[stream.len() - 1], before, to);
        assert(less.subrange(0, n) =~= stream.subrange(0, n));
        lemma_conversed_prefix(config, less, n, answers, from, before)
    }
}

/// A run repeats: the same configuration, stream and settled strategy come to
/// the same result, and leave the strategy the same.
pub proof fn law_a_run_repeats<S: Strategy>(
    config: ConfigView,
    stream: Seq<ObservationView>,
    from: S,
    a: RunResult,
    left: S,
    b: RunResult,
    other: S,
)
    requires
        settled::<S>(),
        a.came_of(config, stream, from, left),
        b.came_of(config, stream, from, other),
    ensures
        left == other,
        a.agrees(b),
{
    let x = choose|x: Seq<Seq<Intent>>|
        x.len() == stream.len() && a.reports(#[trigger] ran(config, stream, x)) && conversed(
            config,
            stream,
            x,
            from,
            left,
        ) && left.goes_by(a.strategy@);
    let y = choose|y: Seq<Seq<Intent>>|
        y.len() == stream.len() && b.reports(#[trigger] ran(config, stream, y)) && conversed(
            config,
            stream,
            y,
            from,
            other,
        ) && other.goes_by(b.strategy@);
    lemma_conversed_one_way(config, stream, x, y, from, left, other);
    assert(b.reports(ran(config, stream, x)));
}

/// Ticks handed over one by one, or wrapped as observations, are the stream that
/// a slice of them is: so a run of them comes to the same, whichever way they
/// arrive.
pub proof fn law_ticks_arrive_alike(ticks: Seq<Tick>)
    ensures
        as_views(ticks.map_values(|t: Tick| Observation::Tick(t))) == as_arrivals(ticks),
{
    assert(as_views(ticks.map_values(|t: Tick| Observation::Tick(t))) =~= as_arrivals(ticks));
}

} // verus!

//! What a run measures of its account, what it settles, and what it reports.
use crate::backtest::run::{
    fills_in, liquidations_in, noted, noted_already, ConfigView, Liquidation, MarginMode,
    MarginUsage, RunResult, RunView, Tier,
};
use crate::backtest::strategy::Ending;
use crate::engine::l1::Policy;
use crate::engine::tick::Tick;
use crate::ledger::event::EventView;
use crate::ledger::kernel::{Matching, Output};
use crate::ledger::matcher::MatcherView;
use crate::ledger::order_laws::orderly;
use crate::margin::{due, FundingRate};
use crate::types::{Cash, Fill, InstrumentId, Nanos, OrderId, PriceTicks, QtyLots};
use crate::venue::depth::DepthView;
use vstd::prelude::*;

verus! {

/// The lowest equity is kept, and the sampled curve takes the equity of this
/// observation where one is due.
pub proof fn law_equity_is_measured_at_its_lowest(run: RunView, tick: Tick)
    ensures
        ({
            let after = run.measured(tick);
            let equity = run.kernel.state.equity();
            &&& after.min_equity.0 <= equity.0
            &&& after.min_equity.0 <= run.min_equity.0
            &&& after.min_equity == equity || after.min_equity == run.min_equity
            &&& after.kernel == run.kernel
            &&& after.fills == run.fills
            &&& after.liquidations == run.liquidations
            &&& after.ended == run.ended
            &&& run.config.equity_every > 0 && run.ticks % run.config.equity_every == 0
                ==> after.equity_curve == run.equity_curve.push(equity)
            &&& !(run.config.equity_every > 0 && run.ticks % run.config.equity_every == 0)
                ==> after.equity_curve == run.equity_curve
        }),
{
    reveal(RunView::measured);
}

/// Margin is measured where it is tracked and a position is open: the largest
/// requirement is kept, and the smallest distance between equity and
/// requirement. Else neither moves.
pub proof fn law_margin_is_measured_at_its_worst(run: RunView, tick: Tick, gap: int)
    requires
        ({
            let s = run.kernel.state;
            gap == s.equity().0 - s.maintenance(s.mark).0
        }),
        i64::MIN <= gap <= i64::MAX,
    ensures
        ({
            let after = run.measured(tick);
            let s = run.kernel.state;
            let needed = s.maintenance(s.mark);
            let open = s.qty.0 != 0 || s.short_qty.0 != 0;
            if run.config.track_margin && open {
                &&& needed.0 <= after.peak_maintenance.0
                &&& run.peak_maintenance.0 <= after.peak_maintenance.0
                &&& after.peak_maintenance == needed || after.peak_maintenance
                    == run.peak_maintenance
                &&& after.min_headroom matches Some(least) && {
                    &&& least.0 <= gap
                    &&& run.min_headroom matches Some(was) ==> least.0 <= was.0
                    &&& least.0 == gap || run.min_headroom == Some(least)
                }
            } else {
                &&& after.peak_maintenance == run.peak_maintenance
                &&& after.min_headroom == run.min_headroom
            }
        }),
{
    reveal(RunView::measured);
}

/// The largest excursion against a position is kept: how far below its entry
/// an observation took a long, or above it a short. A flat account, or a
/// position without an entry, has none.
pub proof fn law_the_worst_excursion_is_kept(run: RunView, tick: Tick)
    ensures
        ({
            let after = run.measured(tick).max_adverse;
            let s = run.kernel.state;
            let low = if tick.low.0 > 0 {
                tick.low.0
            } else {
                tick.last.0
            };
            let high = if tick.high.0 > 0 {
                tick.high.0
            } else {
                tick.last.0
            };
            let fall = s.entry.0 - low;
            let rise = high - s.entry.0;
            &&& run.max_adverse <= after
            &&& s.qty.0 > 0 && s.entry.0 > 0 && fall <= i64::MAX ==> fall <= after && (after
                == run.max_adverse || after == fall)
            &&& s.qty.0 < 0 && s.entry.0 > 0 && rise >= i64::MIN ==> rise <= after && (after
                == run.max_adverse || after == rise)
            &&& s.qty.0 == 0 || s.entry.0 <= 0 ==> after == run.max_adverse
        }),
{
    reveal(RunView::measured);
}

/// What falls due between two observations is what is dated behind the first
/// and no later than the second; a schedule in two parts has due what each
/// part has, in order.
pub proof fn law_what_falls_due_is_dated_between(
    a: Seq<FundingRate>,
    b: Seq<FundingRate>,
    r: FundingRate,
    after: Nanos,
    upto: Nanos,
)
    ensures
        due(seq![r], after, upto) == (if after.0 < r.at.0 && r.at.0 <= upto.0 {
            seq![r]
        } else {
            Seq::empty()
        }),
        due(a + b, after, upto) == due(a, after, upto) + due(b, after, upto),
    decreases b.len(),
{
    reveal(Seq::filter);
    let one = seq![r];
    assert(one.drop_last() =~= Seq::<FundingRate>::empty());
    assert(due(one.drop_last(), after, upto) =~= Seq::<FundingRate>::empty());
    assert(due(one, after, upto) =~= if after.0 < r.at.0 && r.at.0 <= upto.0 {
        seq![r]
    } else {
        Seq::empty()
    });
    if b.len() == 0 {
        assert(a + b =~= a);
        assert(due(a, after, upto) + due(b, after, upto) =~= due(a, after, upto));
    } else {
        let rest = b.drop_last();
        law_what_falls_due_is_dated_between(a, rest, r, after, upto);
        assert((a + b).drop_last() =~= a + rest);
        assert((a + b).last() == b.last());
        assert(due(a + b, after, upto) =~= due(a, after, upto) + due(b, after, upto));
    }
}

/// An observation settles the funding that fell due since the one before it,
/// each settlement at its own time, rate and mark, and in the schedule's
/// order; and nothing is settled twice, for the next observation begins where
/// this one ended.
pub proof fn law_funding_settles_what_fell_due(run: RunView, tick: Tick, list: Seq<FundingRate>)
    requires
        run.config.funding.len() > 0,
        list == due(run.config.funding, run.last_funding, tick.stamp.exch),
    ensures
        run.funded(tick).last_funding == tick.stamp.exch,
        run.funded(tick).kernel == run.fund(list).kernel,
        run.funded(tick).liquidations == run.fund(list).liquidations,
        list.len() == 0 ==> run.fund(list) == run,
        list.len() > 0 ==> run.fund(list).kernel == run.fund(list.drop_last()).kernel.apply(
            EventView::Funding {
                at: list.last().at,
                rate: list.last().rate,
                mark: list.last().mark,
            },
        ).kernel,
{
    reveal(RunView::funded);
}

/// The fills among outputs are the fills said, and the liquidations those
/// said, in order; what is said later comes later.
pub proof fn law_outputs_are_sorted_by_what_they_say(
    a: Seq<Output>,
    b: Seq<Output>,
    f: Fill,
    at: Nanos,
    price: PriceTicks,
    qty: QtyLots,
    equity: Cash,
    id: OrderId,
)
    ensures
        fills_in(a + b) == fills_in(a) + fills_in(b),
        fills_in(seq![Output::Filled(f)]) == seq![f],
        fills_in(seq![Output::Liquidated { at, price, qty, equity }]).len() == 0,
        fills_in(seq![Output::Cancelled(id)]).len() == 0,
        liquidations_in(a + b) == liquidations_in(a) + liquidations_in(b),
        liquidations_in(seq![Output::Liquidated { at, price, qty, equity }]) == seq![
            Liquidation { at, price, qty, equity },
        ],
        liquidations_in(seq![Output::Filled(f)]).len() == 0,
        liquidations_in(seq![Output::Cancelled(id)]).len() == 0,
    decreases b.len(),
{
    reveal_with_fuel(fills_in, 2);
    reveal_with_fuel(liquidations_in, 2);
    let x = seq![Output::Filled(f)];
    let y = seq![Output::Liquidated { at, price, qty, equity }];
    let z = seq![Output::Cancelled(id)];
    assert(x.drop_last() =~= Seq::<Output>::empty());
    assert(y.drop_last() =~= Seq::<Output>::empty());
    assert(z.drop_last() =~= Seq::<Output>::empty());
    assert(fills_in(x) =~= seq![f]);
    assert(liquidations_in(y) =~= seq![Liquidation { at, price, qty, equity }]);
    if b.len() == 0 {
        assert(a + b =~= a);
        assert(fills_in(a) + fills_in(b) =~= fills_in(a));
        assert(liquidations_in(a) + liquidations_in(b) =~= liquidations_in(a));
    } else {
        law_outputs_are_sorted_by_what_they_say(
            a,
            b.drop_last(),
            f,
            at,
            price,
            qty,
            equity,
            id,
        );
        assert((a + b).drop_last() =~= a + b.drop_last());
        assert((a + b).last() == b.last());
        assert(fills_in(a + b) =~= fills_in(a) + fills_in(b));
        assert(liquidations_in(a + b) =~= liquidations_in(a) + liquidations_in(b));
    }
}

/// Whether an output says that an order ended, and how.
pub open spec fn says_ended(output: Output, id: OrderId, how: Ending) -> bool {
    match how {
        Ending::Filled => output matches Output::Filled(f) && f.order == id,
        Ending::Cancelled => output == Output::Cancelled(id),
    }
}

/// An order the kernel said was filled or cancelled, and that is no longer
/// working, is noted as ended. It is noted as something that was said of it,
/// and once; an order still working is not noted, and what was noted before
/// stays.
pub proof fn law_what_ended_is_noted(
    ended: Seq<(OrderId, Ending)>,
    outputs: Seq<Output>,
    working: Seq<OrderId>,
)
    ensures
        ({
            let all = noted(ended, outputs, working);
            let n = ended.len() as int;
            &&& n <= all.len()
            &&& forall|k: int| 0 <= k < n ==> #[trigger] all[k] == ended[k]
            &&& forall|k: int|
                n <= k < all.len() ==> !working.contains((#[trigger] all[k]).0) && exists|i: int|
                    0 <= i < outputs.len() && says_ended(#[trigger] outputs[i], all[k].0, all[k].1)
            &&& forall|j: int, k: int|
                n <= k < all.len() && 0 <= j < k ==> (#[trigger] all[j]).0 != (#[trigger] all[k]).0
            &&& forall|i: int, id: OrderId, how: Ending|
                0 <= i < outputs.len() && #[trigger] says_ended(outputs[i], id, how)
                    && !working.contains(id) ==> exists|k: int|
                    0 <= k < all.len() && (#[trigger] all[k]).0 == id
        }),
    decreases outputs.len(),
{
    if outputs.len() > 0 {
        let rest = outputs.drop_last();
        law_what_ended_is_noted(ended, rest, working);
        let before = noted(ended, rest, working);
        let all = noted(ended, outputs, working);
        let n = ended.len() as int;
        assert(outputs[outputs.len() - 1] == outputs.last());
        assert forall|k: int| n <= k < all.len() implies !working.contains((#[trigger] all[k]).0)
            && exists|i: int|
            0 <= i < outputs.len() && says_ended(#[trigger] outputs[i], all[k].0, all[k].1) by {
            if k < before.len() {
                assert(all[k] == before[k]);
                let i = choose|i: int|
                    0 <= i < rest.len() && says_ended(#[trigger] rest[i], before[k].0, before[k].1);
                assert(outputs[i] == rest[i]);
            } else {
                assert(says_ended(outputs[outputs.len() - 1], all[k].0, all[k].1));
            }
        }
        assert forall|i: int, id: OrderId, how: Ending|
            0 <= i < outputs.len() && #[trigger] says_ended(outputs[i], id, how)
                && !working.contains(id) implies exists|k: int|
            0 <= k < all.len() && (#[trigger] all[k]).0 == id by {
            if i < rest.len() {
                assert(rest[i] == outputs[i]);
                assert(says_ended(rest[i], id, how));
                let k = choose|k: int| 0 <= k < before.len() && (#[trigger] before[k]).0 == id;
                assert(all[k].0 == id);
            } else if noted_already(before, id) {
                let k = choose|k: int| 0 <= k < before.len() && (#[trigger] before[k]).0 == id;
                assert(all[k].0 == id);
            } else {
                assert(all[all.len() - 1].0 == id);
            }
        }
    }
}

/// A strategy is told of the account as it stands: the position and entry of
/// each leg, what it is worth, and how many orders are working.
pub proof fn law_the_context_is_the_account(run: RunView, tick: Tick)
    requires
        run.kernel.working.len() <= usize::MAX,
    ensures
        ({
            let c = run.context(tick);
            let s = run.kernel.state;
            &&& c.tick == tick
            &&& c.position == s.qty
            &&& c.entry == s.entry
            &&& c.short_position == s.short_qty
            &&& c.short_entry == s.short_entry
            &&& c.equity == s.equity()
            &&& c.working == run.kernel.working.len()
        }),
{
}

/// A result reports the account at the end of the run: its equity, what was
/// realized, what funding brought and what fees took.
pub proof fn law_a_result_reports_the_account(r: RunResult, run: RunView)
    requires
        r.reports(run),
    ensures
        ({
            let s = run.kernel.state;
            &&& r.final_equity == s.equity()
            &&& r.realized == s.realized
            &&& r.funding_paid == s.funding
            &&& r.fees_paid == s.fees
            &&& r.fills@ == run.fills
            &&& r.liquidations@ == run.liquidations
            &&& r.ticks == run.ticks
            &&& r.min_equity == run.min_equity
            &&& r.equity_curve@ == run.equity_curve
            &&& r.max_adverse_ticks == run.max_adverse
            &&& r.depth_applied == run.depth_applied
            &&& r.depth_refused == run.depth_refused
            &&& r.depth_unused == run.depth_unused
            &&& match r.margin_usage {
                MarginUsage::NotTracked => !run.config.track_margin,
                MarginUsage::NoPosition => run.config.track_margin && run.min_headroom is None,
                MarginUsage::Measured { peak_maintenance, min_headroom } => run.config.track_margin
                    && peak_maintenance == run.peak_maintenance && run.min_headroom == Some(
                    min_headroom,
                ),
            }
        }),
{
}

/// A run opens with its starting balance and nothing else: no position, no
/// order, nothing realized, and nothing held by the matcher.
pub proof fn law_a_run_opens_with_its_balance(config: ConfigView)
    ensures
        ({
            let run = RunView::opened(config);
            let s = run.kernel.state;
            &&& s.balance == config.starting_balance
            &&& s.qty.0 == 0 && s.short_qty.0 == 0
            &&& s.entry.0 == 0 && s.short_entry.0 == 0
            &&& s.realized.0 == 0 && s.funding.0 == 0 && s.fees.0 == 0
            &&& s.contract == config.contract
            &&& s.table == config.table
            &&& s.mode == config.position_mode
            &&& s.fee_schedule == config.fees
            &&& s.enforce_liquidation == (config.margin == MarginMode::Enforced)
            &&& s.matching != Matching::Venue
            &&& s.engine.held() == 0
            &&& run.kernel.working.len() == 0
            &&& s.equity() == config.starting_balance
            &&& run.min_equity == config.starting_balance
            &&& run.ticks == 0 && run.max_adverse == 0
            &&& run.fills.len() == 0 && run.liquidations.len() == 0 && run.ended.len() == 0
        }),
{
}

/// A depth update is counted once, by what the matcher did with it: as applied
/// where the venue's book took it or had it already, as refused where it broke
/// a sequencing rule, and as unused where the matcher reads no depth.
pub proof fn law_a_depth_update_is_counted_by_its_outcome(run: RunView, u: DepthView)
    requires
        run.depth_applied < u64::MAX,
        run.depth_refused < u64::MAX,
        run.depth_unused < u64::MAX,
    ensures
        ({
            let after = run.depth(u);
            match run.kernel.state.engine {
                MatcherView::L2(e) => if e.venue.verdict(u) is Ok {
                    &&& after.depth_applied == run.depth_applied + 1
                    &&& after.depth_refused == run.depth_refused
                    &&& after.depth_unused == run.depth_unused
                } else {
                    &&& after.depth_applied == run.depth_applied
                    &&& after.depth_refused == run.depth_refused + 1
                    &&& after.depth_unused == run.depth_unused
                },
                _ => {
                    &&& after.depth_applied == run.depth_applied
                    &&& after.depth_refused == run.depth_refused
                    &&& after.depth_unused == run.depth_unused + 1
                },
            }
        }),
{
}

/// A run over the barest matcher opens with no two orders sharing an id, and
/// so, whatever its events, never comes to hold two that do.
pub proof fn law_a_run_opens_orderly(config: ConfigView)
    requires
        config.tier == Tier::L0,
    ensures
        orderly(RunView::opened(config).kernel),
{
    let book = RunView::opened(config).kernel.state.engine.base().book;
    assert(book.all().len() == 0);
}

/// A run's matcher is of the tier it asked for, with the policy that goes with
/// it, and has seen nothing.
pub proof fn law_a_tier_starts_fresh(instrument: InstrumentId, policy: Policy)
    ensures
        Tier::L0.fresh(instrument) is L0,
        Tier::L1(policy).fresh(instrument) matches MatcherView::L1(e) && e.policy == policy
            && e.prev_volume is None && e.delayed.len() == 0,
        Tier::L2(policy).fresh(instrument) matches MatcherView::L2(e) && e.inner.policy == policy
            && e.venue.snapshot_id is None && e.inner.prev_volume is None,
        forall|t: Tier|
            (#[trigger] t.fresh(instrument)).held() == 0 && t.fresh(instrument).base().instrument
                == instrument && t.fresh(instrument).base().prev_price is None,
{
}

} // verus!

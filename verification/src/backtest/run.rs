//! Running a strategy over a stream of observations.
//!
//! The host is a loop and nothing more: for each observation, advance the
//! kernel, hand the strategy what it is allowed to see, and turn its intents
//! into events. A run can be executed with margin enforced or with it
//! ignored; the two are otherwise identical, so comparing them isolates how
//! much of a result depends on never being liquidated.
use crate::backtest::strategy::{
    follows, lemma_follows_push, takes, Context, Ending, Intent, Said, Strategy,
};
use crate::engine::book::bumped;
use crate::engine::l0::L0View;
use crate::engine::l1::{L1Engine, L1View, Policy};
use crate::engine::l2::{L2Engine, L2View};
use crate::engine::observation::{Observation, ObservationView};
use crate::engine::tick::Tick;
use crate::ledger::event::{Event, EventView};
use crate::ledger::kernel::{
    has_id, snapshot_applied, Fees, Kernel, KernelView, Matching, Output, PositionMode, State,
    StateView, Summary,
};
use crate::ledger::matcher::{DepthOutcome, Matcher, MatcherView};
use crate::margin::{due, Contract, FundingRate, FundingSchedule, MarginTier, TierTable};
use crate::text::{copy_all, copy_text};
use crate::types::{
    clamp_i64, sat_sub, Cash, Fill, InstrumentId, Nanos, OrderId, PriceTicks, QtyLots, Ratio,
    Stamp,
};
use crate::venue::depth::{DepthUpdate, DepthView, Level};
use vstd::prelude::*;
use vstd::std_specs::iter::IteratorSpec;

verus! {

/// Whether the venue is allowed to close the account.
#[derive(Clone, Copy, Debug, PartialEq, Eq, Structural)]
pub enum MarginMode {
    /// Liquidation is modelled.
    Enforced,
    /// Liquidation is not modelled: the control arm.
    Ignored,
}

/// Which matcher a run uses, with the policy that goes with it.
#[derive(Clone, Copy, Debug, PartialEq, Eq, Structural)]
pub enum Tier {
    /// Fills at the observation's prices.
    L0,
    /// Queue, latency and impact as policy.
    L1(Policy),
    /// The same, with queue and taker cost measured from the venue's book
    /// where the run supplies depth.
    L2(Policy),
}

impl Tier {
    pub open spec fn fresh(self, instrument: InstrumentId) -> MatcherView {
        match self {
            Tier::L0 => MatcherView::L0(L0View::fresh(instrument)),
            Tier::L1(p) => MatcherView::L1(L1View::fresh(instrument, p)),
            Tier::L2(p) => MatcherView::L2(L2View::fresh(L1View::fresh(instrument, p))),
        }
    }

    /// A fresh matcher of this tier.
    pub fn matcher(&self, instrument: InstrumentId) -> (r: Matcher)
        ensures
            r@ == self.fresh(instrument),
            r@.wf(),
    {
        match self {
            Tier::L0 => Matcher::l0(instrument),
            Tier::L1(p) => Matcher::L1(Box::new(L1Engine::new(instrument, *p))),
            Tier::L2(p) => Matcher::L2(Box::new(L2Engine::new(L1Engine::new(instrument, *p)))),
        }
    }
}

/// How a run is configured.
#[derive(Clone, Debug)]
pub struct RunConfig {
    /// Sample equity every this many ticks, or never when zero.
    pub equity_every: usize,
    /// Whether to measure how close the account came to liquidation.
    pub track_margin: bool,
    pub instrument: InstrumentId,
    pub contract: Contract,
    pub table: TierTable,
    pub starting_balance: Cash,
    pub margin: MarginMode,
    pub funding: FundingSchedule,
    /// What the venue charges per fill.
    pub fees: Fees,
    /// Whether opposing exposure nets or stands as two legs.
    pub position_mode: PositionMode,
    /// Which matcher the run uses.
    pub tier: Tier,
}

/// What a configuration says.
#[verifier::ext_equal]
pub struct ConfigView {
    pub equity_every: usize,
    pub track_margin: bool,
    pub instrument: InstrumentId,
    pub contract: Contract,
    pub table: Seq<MarginTier>,
    pub starting_balance: Cash,
    pub margin: MarginMode,
    pub funding: Seq<FundingRate>,
    pub fees: Fees,
    pub position_mode: PositionMode,
    pub tier: Tier,
}

impl View for RunConfig {
    type V = ConfigView;

    open spec fn view(&self) -> ConfigView {
        ConfigView {
            equity_every: self.equity_every,
            track_margin: self.track_margin,
            instrument: self.instrument,
            contract: self.contract,
            table: self.table@,
            starting_balance: self.starting_balance,
            margin: self.margin,
            funding: self.funding@,
            fees: self.fees,
            position_mode: self.position_mode,
            tier: self.tier,
        }
    }
}

impl ConfigView {
    /// A margin table with at least one bracket.
    pub open spec fn wf(self) -> bool {
        self.table.len() > 0
    }

    /// The kernel a run starts from.
    pub open spec fn kernel(self) -> KernelView {
        KernelView {
            state: StateView {
                engine: self.tier.fresh(self.instrument),
                contract: self.contract,
                table: self.table,
                mode: self.position_mode,
                qty: QtyLots(0),
                entry: PriceTicks(0),
                short_qty: QtyLots(0),
                short_entry: PriceTicks(0),
                balance: self.starting_balance,
                realized: Cash(0),
                funding: Cash(0),
                fees: Cash(0),
                fee_schedule: self.fees,
                now: Nanos(0),
                mark: PriceTicks(0),
                enforce_liquidation: self.margin == MarginMode::Enforced,
                matching: Matching::Simulated,
            },
            working: Seq::empty(),
            depth: None,
        }
    }
}

impl RunConfig {
    pub fn new(
        instrument: InstrumentId,
        contract: Contract,
        table: TierTable,
        starting_balance: Cash,
    ) -> (r: Self)
        ensures
            r@ == (ConfigView {
                equity_every: 0,
                track_margin: false,
                instrument,
                contract,
                table: table@,
                starting_balance,
                margin: MarginMode::Enforced,
                funding: Seq::empty(),
                fees: Fees { maker: Ratio(0), taker: Ratio(0) },
                position_mode: PositionMode::OneWay,
                tier: Tier::L0,
            }),
    {
        RunConfig {
            equity_every: 0,
            track_margin: false,
            instrument,
            contract,
            table,
            starting_balance,
            margin: MarginMode::Enforced,
            funding: FundingSchedule::none(),
            fees: Fees::none(),
            position_mode: PositionMode::OneWay,
            tier: Tier::L0,
        }
    }

    /// Another configuration that says the same.
    pub fn duplicate(&self) -> (r: Self)
        ensures
            r@ == self@,
    {
        RunConfig {
            equity_every: self.equity_every,
            track_margin: self.track_margin,
            instrument: self.instrument,
            contract: self.contract,
            table: self.table.duplicate(),
            starting_balance: self.starting_balance,
            margin: self.margin,
            funding: self.funding.duplicate(),
            fees: self.fees,
            position_mode: self.position_mode,
            tier: self.tier,
        }
    }

    /// Match with a different fidelity tier.
    pub fn at_tier(self, tier: Tier) -> (r: Self)
        ensures
            r@ == (ConfigView { tier, ..self@ }),
    {
        let mut c = self;
        c.tier = tier;
        c
    }

    /// Measure how close the account came to its maintenance requirement.
    pub fn tracking_margin(self) -> (r: Self)
        ensures
            r@ == (ConfigView { track_margin: true, ..self@ }),
    {
        let mut c = self;
        c.track_margin = true;
        c
    }

    /// Sample equity every `n` ticks. Zero turns it off.
    pub fn sampling_equity_every(self, n: usize) -> (r: Self)
        ensures
            r@ == (ConfigView { equity_every: n, ..self@ }),
    {
        let mut c = self;
        c.equity_every = n;
        c
    }

    pub fn with_fees(self, fees: Fees) -> (r: Self)
        ensures
            r@ == (ConfigView { fees, ..self@ }),
    {
        let mut c = self;
        c.fees = fees;
        c
    }

    pub fn with_margin(self, mode: MarginMode) -> (r: Self)
        ensures
            r@ == (ConfigView { margin: mode, ..self@ }),
    {
        let mut c = self;
        c.margin = mode;
        c
    }

    pub fn with_funding(self, funding: FundingSchedule) -> (r: Self)
        ensures
            r@ == (ConfigView { funding: funding@, ..self@ }),
    {
        let mut c = self;
        c.funding = funding;
        c
    }
}

/// One liquidation, kept for the report.
#[derive(Clone, Copy, Debug, PartialEq, Eq, Structural)]
pub struct Liquidation {
    pub at: Nanos,
    pub price: PriceTicks,
    pub qty: QtyLots,
    pub equity: Cash,
}

/// How much margin a run used, or why that is not known.
#[derive(Clone, Copy, Debug, PartialEq, Eq, Structural)]
pub enum MarginUsage {
    /// The run did not measure it.
    NotTracked,
    /// Measured, and no position was ever open.
    NoPosition,
    /// Measured, with a position.
    Measured {
        /// The largest maintenance requirement the account carried.
        peak_maintenance: Cash,
        /// The smallest gap between equity and that requirement. Zero means
        /// the account stood exactly on the line.
        min_headroom: Cash,
    },
}

/// What a run produced.
#[derive(Debug, PartialEq, Eq)]
pub struct RunResult {
    pub strategy: String,
    pub fills: Vec<Fill>,
    /// Every liquidation, in order.
    pub liquidations: Vec<Liquidation>,
    pub ticks: usize,
    pub final_equity: Cash,
    pub realized: Cash,
    pub funding_paid: Cash,
    /// Trading fees charged over the run, positive.
    pub fees_paid: Cash,
    /// The lowest equity the account reached at any observation.
    pub min_equity: Cash,
    /// Equity sampled at the configured interval. The first entry is the
    /// starting balance; empty when sampling is off.
    pub equity_curve: Vec<Cash>,
    /// The largest adverse excursion against the open position, in ticks.
    pub max_adverse_ticks: i64,
    /// How close the account came to its maintenance requirement.
    pub margin_usage: MarginUsage,
    /// Which matcher produced these fills.
    pub tier: &'static str,
    /// Depth updates the matcher read and applied.
    pub depth_applied: u64,
    /// Depth updates the book refused.
    pub depth_refused: u64,
    /// Depth handed to a matcher that does not read it.
    pub depth_unused: u64,
}

impl Clone for RunResult {
    fn clone(&self) -> (r: Self)
        ensures
            r.agrees(*self),
    {
        RunResult {
            strategy: copy_text(&self.strategy),
            fills: copy_all(&self.fills),
            liquidations: copy_all(&self.liquidations),
            ticks: self.ticks,
            final_equity: self.final_equity,
            realized: self.realized,
            funding_paid: self.funding_paid,
            fees_paid: self.fees_paid,
            min_equity: self.min_equity,
            equity_curve: copy_all(&self.equity_curve),
            max_adverse_ticks: self.max_adverse_ticks,
            margin_usage: self.margin_usage,
            tier: self.tier,
            depth_applied: self.depth_applied,
            depth_refused: self.depth_refused,
            depth_unused: self.depth_unused,
        }
    }
}

/// A run under way.
#[verifier::ext_equal]
pub struct RunView {
    pub config: ConfigView,
    pub kernel: KernelView,
    pub fills: Seq<Fill>,
    pub liquidations: Seq<Liquidation>,
    pub min_equity: Cash,
    pub peak_maintenance: Cash,
    pub min_headroom: Option<Cash>,
    pub equity_curve: Seq<Cash>,
    pub max_adverse: i64,
    pub last_funding: Nanos,
    /// Orders that ended, not yet reported to the strategy.
    pub ended: Seq<(OrderId, Ending)>,
    pub ticks: usize,
    pub depth_applied: u64,
    pub depth_refused: u64,
    pub depth_unused: u64,
}

/// A run at an observation, and what the strategy is to be told of it.
#[verifier::ext_equal]
pub struct Seen {
    pub run: RunView,
    pub fills: Seq<Fill>,
    pub ended: Seq<(OrderId, Ending)>,
    pub context: Context,
}

/// The fills among outputs.
pub open spec fn fills_in(outputs: Seq<Output>) -> Seq<Fill>
    decreases outputs.len(),
{
    if outputs.len() == 0 {
        Seq::empty()
    } else {
        let before = fills_in(outputs.drop_last());
        match outputs.last() {
            Output::Filled(f) => before.push(f),
            _ => before,
        }
    }
}

/// The liquidations among outputs.
pub open spec fn liquidations_in(outputs: Seq<Output>) -> Seq<Liquidation>
    decreases outputs.len(),
{
    if outputs.len() == 0 {
        Seq::empty()
    } else {
        let before = liquidations_in(outputs.drop_last());
        match outputs.last() {
            Output::Liquidated { at, price, qty, equity } => before.push(
                Liquidation { at, price, qty, equity },
            ),
            _ => before,
        }
    }
}

/// The order an output may have ended, and how.
pub open spec fn ending_of(output: Output) -> Option<(OrderId, Ending)> {
    match output {
        Output::Filled(f) => Some((f.order, Ending::Filled)),
        Output::Cancelled(id) => Some((id, Ending::Cancelled)),
        _ => None,
    }
}

/// Whether an order is among those already noted.
pub open spec fn noted_already(ended: Seq<(OrderId, Ending)>, id: OrderId) -> bool {
    exists|i: int| 0 <= i < ended.len() && (#[trigger] ended[i]).0 == id
}

/// The orders the kernel has finished with. One it reported on and that is no
/// longer working is over; one still working has only been filled in part.
pub open spec fn noted(
    ended: Seq<(OrderId, Ending)>,
    outputs: Seq<Output>,
    working: Seq<OrderId>,
) -> Seq<(OrderId, Ending)>
    decreases outputs.len(),
{
    if outputs.len() == 0 {
        ended
    } else {
        let before = noted(ended, outputs.drop_last(), working);
        match ending_of(outputs.last()) {
            Some(e) => if working.contains(e.0) || noted_already(before, e.0) {
                before
            } else {
                before.push(e)
            },
            None => before,
        }
    }
}

/// How far an observation has gone against a position.
pub open spec fn adverse(s: Summary, tick: Tick) -> i64 {
    if s.qty.0 > 0 {
        clamp_i64(s.entry.0 - tick.dn_spec().0)
    } else {
        clamp_i64(tick.up_spec().0 - s.entry.0)
    }
}

/// The event an intent becomes; none for withdrawing everything.
pub open spec fn event_for(intent: Intent, stamp: Stamp) -> Option<EventView> {
    match intent {
        Intent::Limit { id, side, price, qty, offset } => Some(
            EventView::Submit { id, side, price: Some(price), qty, offset, stamp },
        ),
        Intent::Market { id, side, qty, offset } => Some(
            EventView::Submit { id, side, price: None, qty, offset, stamp },
        ),
        Intent::Cancel(id) => Some(EventView::Cancel { id, stamp }),
        Intent::CancelAll => None,
    }
}

/// Whether an order is refused among outputs.
pub open spec fn refused_in(outputs: Seq<Output>, id: OrderId) -> bool {
    exists|i: int|
        0 <= i < outputs.len() && (#[trigger] outputs[i] matches Output::Rejected { id: x, .. }
            && x == id)
}

/// A count one higher, or at its limit.
pub open spec fn counted_up(n: usize) -> usize {
    if n == usize::MAX {
        n
    } else {
        (n + 1) as usize
    }
}

impl RunView {
    pub open spec fn wf(self) -> bool {
        self.kernel.wf()
    }

    /// A run that has seen nothing.
    pub open spec fn opened(config: ConfigView) -> RunView {
        RunView {
            config,
            kernel: config.kernel(),
            fills: Seq::empty(),
            liquidations: Seq::empty(),
            min_equity: config.starting_balance,
            peak_maintenance: Cash(0),
            min_headroom: None,
            equity_curve: if config.equity_every > 0 {
                seq![config.starting_balance]
            } else {
                Seq::empty()
            },
            max_adverse: 0,
            last_funding: Nanos(i64::MIN),
            ended: Seq::empty(),
            ticks: 0,
            depth_applied: 0,
            depth_refused: 0,
            depth_unused: 0,
        }
    }

    /// A depth update reaches the matcher, and is counted by what became of
    /// it.
    pub open spec fn depth(self, update: DepthView) -> RunView {
        let run = RunView { kernel: self.kernel.on_depth(update), ..self };
        match self.kernel.state.engine.depth_outcome(update) {
            DepthOutcome::Applied => RunView { depth_applied: bumped(self.depth_applied), ..run },
            DepthOutcome::Refused(_) => RunView {
                depth_refused: bumped(self.depth_refused),
                ..run
            },
            DepthOutcome::NotRead => RunView { depth_unused: bumped(self.depth_unused), ..run },
        }
    }

    /// A snapshot reaches the matcher, and is counted if it is not read.
    pub open spec fn snapshot(self, update_id: u64, bids: Seq<Level>, asks: Seq<Level>) -> RunView {
        let engine = snapshot_applied(self.kernel.state.engine, update_id, bids, asks);
        let run = RunView {
            kernel: KernelView { state: StateView { engine, ..self.kernel.state }, ..self.kernel },
            ..self
        };
        if self.kernel.state.engine is L2 {
            run
        } else {
            RunView { depth_unused: bumped(self.depth_unused), ..run }
        }
    }

    /// The kernel's fills, liquidations and endings at an observation.
    #[verifier::opaque]
    pub open spec fn trade(self, tick: Tick) -> RunView {
        let step = self.kernel.apply(EventView::Tick(tick));
        RunView {
            kernel: step.kernel,
            fills: self.fills + fills_in(step.outputs),
            liquidations: self.liquidations + liquidations_in(step.outputs),
            ended: noted(self.ended, step.outputs, step.kernel.working),
            ticks: counted_up(self.ticks),
            ..self
        }
    }

    /// Settle funding.
    pub open spec fn fund(self, rates: Seq<FundingRate>) -> RunView
        decreases rates.len(),
    {
        if rates.len() == 0 {
            self
        } else {
            let before = self.fund(rates.drop_last());
            let r = rates.last();
            let step = before.kernel.apply(
                EventView::Funding { at: r.at, rate: r.rate, mark: r.mark },
            );
            RunView {
                kernel: step.kernel,
                liquidations: before.liquidations + liquidations_in(step.outputs),
                ..before
            }
        }
    }

    /// Settle the funding that fell due since the last observation.
    #[verifier::opaque]
    pub open spec fn funded(self, tick: Tick) -> RunView {
        if self.config.funding.len() == 0 {
            self
        } else {
            RunView {
                last_funding: tick.stamp.exch,
                ..self.fund(due(self.config.funding, self.last_funding, tick.stamp.exch))
            }
        }
    }

    /// Measure the account at an observation.
    #[verifier::opaque]
    pub open spec fn measured(self, tick: Tick) -> RunView {
        let s = self.kernel.summary();
        let open = s.qty.0 != 0 || s.short_qty.0 != 0;
        let maintenance = self.kernel.state.maintenance(s.mark);
        let headroom = s.equity.minus(maintenance);
        let measured = self.config.track_margin && open;
        RunView {
            equity_curve: if self.config.equity_every > 0 && self.ticks % self.config.equity_every
                == 0 {
                self.equity_curve.push(s.equity)
            } else {
                self.equity_curve
            },
            min_equity: if s.equity.0 < self.min_equity.0 {
                s.equity
            } else {
                self.min_equity
            },
            peak_maintenance: if measured && maintenance.0 > self.peak_maintenance.0 {
                maintenance
            } else {
                self.peak_maintenance
            },
            min_headroom: if measured && (match self.min_headroom {
                Some(m) => headroom.0 < m.0,
                None => true,
            }) {
                Some(headroom)
            } else {
                self.min_headroom
            },
            max_adverse: if s.qty.0 != 0 && s.entry.0 > 0 && adverse(s, tick) > self.max_adverse {
                adverse(s, tick)
            } else {
                self.max_adverse
            },
            ..self
        }
    }

    /// What the strategy is told of the account.
    pub open spec fn context(self, tick: Tick) -> Context {
        let s = self.kernel.summary();
        Context {
            tick,
            position: s.qty,
            entry: s.entry,
            short_position: s.short_qty,
            short_entry: s.short_entry,
            equity: s.equity,
            working: self.kernel.working.len() as usize,
        }
    }

    /// An observation: the kernel trades, funding settles, the account is
    /// measured, and the strategy is due its fills, the orders that ended and
    /// the context, in that order.
    #[verifier::opaque]
    pub open spec fn observe(self, tick: Tick) -> Seen {
        let run = self.trade(tick).funded(tick).measured(tick);
        Seen {
            run: RunView { ended: Seq::empty(), ..run },
            fills: fills_in(self.kernel.apply(EventView::Tick(tick)).outputs),
            ended: run.ended,
            context: run.context(tick),
        }
    }

    /// What the kernel says to an event.
    #[verifier::opaque]
    pub open spec fn said(self, event: EventView) -> Seq<Output> {
        self.kernel.apply(event).outputs
    }

    /// One event from the strategy.
    #[verifier::opaque]
    pub open spec fn ask(self, event: EventView) -> RunView {
        let step = self.kernel.apply(event);
        RunView {
            kernel: step.kernel,
            ended: noted(self.ended, step.outputs, step.kernel.working),
            ..self
        }
    }

    /// Withdraw a list of orders, one after another.
    pub open spec fn withdraw(self, ids: Seq<OrderId>, stamp: Stamp) -> RunView
        decreases ids.len(),
    {
        if ids.len() == 0 {
            self
        } else {
            self.withdraw(ids.drop_last(), stamp).ask(EventView::Cancel { id: ids.last(), stamp })
        }
    }

    /// One intent.
    #[verifier::opaque]
    pub open spec fn act(self, intent: Intent, stamp: Stamp) -> RunView {
        match event_for(intent, stamp) {
            Some(event) => self.ask(event),
            None => self.withdraw(self.kernel.working, stamp),
        }
    }

    /// What the strategy is told of an order it submitted: its id and whether
    /// it was accepted.
    pub open spec fn placing(self, intent: Intent, stamp: Stamp) -> Option<(OrderId, bool)> {
        match event_for(intent, stamp) {
            Some(EventView::Submit { id, side, price, qty, offset, stamp }) => {
                let event = EventView::Submit { id, side, price, qty, offset, stamp };
                Some((id, !refused_in(self.said(event), id)))
            },
            _ => None,
        }
    }

    /// A strategy's intents, in order.
    pub open spec fn act_all(self, intents: Seq<Intent>, stamp: Stamp) -> RunView
        decreases intents.len(),
    {
        if intents.len() == 0 {
            self
        } else {
            self.act_all(intents.drop_last(), stamp).act(intents.last(), stamp)
        }
    }

    /// One arrival, with what the strategy answered to it. Only a tick is
    /// shown to the strategy.
    pub open spec fn arrive(self, o: ObservationView, intents: Seq<Intent>) -> RunView {
        match o {
            ObservationView::Tick(tick) => self.observe(tick).run.act_all(intents, tick.stamp),
            ObservationView::Depth(u) => self.depth(u),
            ObservationView::Snapshot { update_id, bids, asks } => self.snapshot(
                update_id,
                bids,
                asks,
            ),
        }
    }

    /// What the strategy is told of an observation, in order: its fills, the
    /// orders that ended, and the observation itself.
    pub open spec fn tells(self, tick: Tick) -> Seq<Said> {
        let seen = self.observe(tick);
        seen.fills.map_values(|fill: Fill| Said::Fill { fill, context: seen.context })
            + seen.ended.map_values(
            |e: (OrderId, Ending)| Said::Ended { id: e.0, ending: e.1 },
        ) + seq![Said::Tick { context: seen.context }]
    }

    /// What the strategy is told of the orders among its intents, in order.
    pub open spec fn placements(self, intents: Seq<Intent>, stamp: Stamp) -> Seq<Said>
        decreases intents.len(),
    {
        if intents.len() == 0 {
            Seq::empty()
        } else {
            let before = self.placements(intents.drop_last(), stamp);
            match self.act_all(intents.drop_last(), stamp).placing(intents.last(), stamp) {
                Some((id, accepted)) => before.push(Said::Placed { id, accepted }),
                None => before,
            }
        }
    }

    /// Whether a strategy, shown an arrival, may have asked for `intents` and
    /// become `to`. Only a tick is shown to it.
    pub open spec fn answered<S: Strategy>(
        self,
        o: ObservationView,
        intents: Seq<Intent>,
        from: S,
        to: S,
    ) -> bool {
        match o {
            ObservationView::Tick(tick) => exists|mid: S|
                #[trigger] follows(from, self.tells(tick), Seq::empty(), mid, intents) && follows(
                    mid,
                    self.observe(tick).run.placements(intents, tick.stamp),
                    Seq::empty(),
                    to,
                    Seq::empty(),
                ),
            _ => intents.len() == 0 && to == from,
        }
    }

    pub open spec fn margin_usage(self) -> MarginUsage {
        if !self.config.track_margin {
            MarginUsage::NotTracked
        } else {
            match self.min_headroom {
                Some(min_headroom) => MarginUsage::Measured {
                    peak_maintenance: self.peak_maintenance,
                    min_headroom,
                },
                None => MarginUsage::NoPosition,
            }
        }
    }
}

/// A run over a stream, the strategy having answered `answers[i]` to
/// arrival `i`.
pub open spec fn ran(
    config: ConfigView,
    stream: Seq<ObservationView>,
    answers: Seq<Seq<Intent>>,
) -> RunView
    decreases stream.len(),
{
    if stream.len() == 0 {
        RunView::opened(config)
    } else {
        ran(config, stream.drop_last(), answers).arrive(
            stream.last(),
            answers[stream.len() - 1],
        )
    }
}

/// Whether a strategy, shown a stream, may have answered as it did and have
/// become `to`: each answer was given to what the run had come to by then.
pub open spec fn conversed<S: Strategy>(
    config: ConfigView,
    stream: Seq<ObservationView>,
    answers: Seq<Seq<Intent>>,
    from: S,
    to: S,
) -> bool
    decreases stream.len(),
{
    if stream.len() == 0 {
        to == from
    } else {
        exists|mid: S|
            conversed(config, stream.drop_last(), answers, from, mid) && #[trigger] ran(
                config,
                stream.drop_last(),
                answers,
            ).answered(stream.last(), answers[stream.len() - 1], mid, to)
    }
}

impl RunResult {
    /// Whether this is what a run comes to.
    pub open spec fn reports(&self, run: RunView) -> bool {
        let s = run.kernel.summary();
        &&& self.fills@ == run.fills
        &&& self.liquidations@ == run.liquidations
        &&& self.ticks == run.ticks
        &&& self.final_equity == s.equity
        &&& self.realized == s.realized
        &&& self.funding_paid == s.funding
        &&& self.fees_paid == s.fees
        &&& self.min_equity == run.min_equity
        &&& self.equity_curve@ == run.equity_curve
        &&& self.max_adverse_ticks == run.max_adverse
        &&& self.margin_usage == run.margin_usage()
        &&& self.tier@ == run.config.tier.fresh(run.config.instrument).tier()
        &&& self.depth_applied == run.depth_applied
        &&& self.depth_refused == run.depth_refused
        &&& self.depth_unused == run.depth_unused
    }

    /// Whether two results say the same in every field.
    pub open spec fn agrees(&self, other: RunResult) -> bool {
        &&& self.strategy@ == other.strategy@
        &&& self.fills@ == other.fills@
        &&& self.liquidations@ == other.liquidations@
        &&& self.ticks == other.ticks
        &&& self.final_equity == other.final_equity
        &&& self.realized == other.realized
        &&& self.funding_paid == other.funding_paid
        &&& self.fees_paid == other.fees_paid
        &&& self.min_equity == other.min_equity
        &&& self.equity_curve@ == other.equity_curve@
        &&& self.max_adverse_ticks == other.max_adverse_ticks
        &&& self.margin_usage == other.margin_usage
        &&& self.tier@ == other.tier@
        &&& self.depth_applied == other.depth_applied
        &&& self.depth_refused == other.depth_refused
        &&& self.depth_unused == other.depth_unused
    }

    /// Whether this is what a run of a strategy over `stream` comes to: the
    /// strategy starts as `from`, is shown what the run comes to, and ends as
    /// `to`, whose name the result bears.
    pub open spec fn came_of<S: Strategy>(
        &self,
        config: ConfigView,
        stream: Seq<ObservationView>,
        from: S,
        to: S,
    ) -> bool {
        exists|answers: Seq<Seq<Intent>>|
            answers.len() == stream.len() && self.reports(#[trigger] ran(config, stream, answers))
                && conversed(config, stream, answers, from, to) && to.goes_by(self.strategy@)
    }
}

/// Whether a result is what a run of a strategy that `build` made comes to.
pub open spec fn ran_built<S: Strategy, B: Fn() -> S>(
    r: RunResult,
    config: ConfigView,
    build: B,
    stream: Seq<ObservationView>,
) -> bool {
    exists|from: S, to: S| #[trigger]
        r.came_of(config, stream, from, to) && call_ensures(build, (), from)
}

/// What a strategy is told of an observation.
#[derive(Debug)]
pub struct Told {
    /// The fills it produced.
    pub fills: Vec<Fill>,
    /// The orders that ended since the observation before.
    pub ended: Vec<(OrderId, Ending)>,
    /// The account as it stands.
    pub context: Context,
}

/// A run under way.
#[derive(Debug)]
pub struct Session<'a> {
    config: &'a RunConfig,
    kernel: Kernel,
    fills: Vec<Fill>,
    liquidations: Vec<Liquidation>,
    min_equity: Cash,
    peak_maintenance: Cash,
    min_headroom: Option<Cash>,
    equity_curve: Vec<Cash>,
    max_adverse: i64,
    last_funding: Nanos,
    ended: Vec<(OrderId, Ending)>,
    ticks: usize,
    depth_applied: u64,
    depth_refused: u64,
    depth_unused: u64,
}

impl<'a> View for Session<'a> {
    type V = RunView;

    closed spec fn view(&self) -> RunView {
        RunView {
            config: self.config@,
            kernel: self.kernel@,
            fills: self.fills@,
            liquidations: self.liquidations@,
            min_equity: self.min_equity,
            peak_maintenance: self.peak_maintenance,
            min_headroom: self.min_headroom,
            equity_curve: self.equity_curve@,
            max_adverse: self.max_adverse,
            last_funding: self.last_funding,
            ended: self.ended@,
            ticks: self.ticks,
            depth_applied: self.depth_applied,
            depth_refused: self.depth_refused,
            depth_unused: self.depth_unused,
        }
    }
}

fn bump(n: u64) -> (r: u64)
    ensures
        r == bumped(n),
{
    if n == u64::MAX {
        n
    } else {
        n + 1
    }
}

/// Add the liquidations among outputs to a list.
fn note_liquidations(outputs: &Vec<Output>, to: &mut Vec<Liquidation>)
    ensures
        final(to)@ == old(to)@ + liquidations_in(outputs@),
{
    let ghost start = to@;
    let mut i: usize = 0;
    assert(outputs@.subrange(0, 0) =~= Seq::<Output>::empty());
    assert(to@ =~= start + liquidations_in(outputs@.subrange(0, 0)));
    while i < outputs.len()
        invariant
            i <= outputs@.len(),
            to@ == start + liquidations_in(outputs@.subrange(0, i as int)),
        decreases outputs@.len() - i,
    {
        let ghost before = to@;
        proof {
            let now = outputs@.subrange(0, i + 1);
            assert(now.drop_last() =~= outputs@.subrange(0, i as int));
            assert(now.last() == outputs@[i as int]);
        }
        match outputs[i] {
            Output::Liquidated { at, price, qty, equity } => {
                to.push(Liquidation { at, price, qty, equity });
            },
            _ => {},
        }
        i += 1;
        assert(to@ =~= start + liquidations_in(outputs@.subrange(0, i as int)));
    }
    assert(outputs@.subrange(0, i as int) =~= outputs@);
}

/// The fills among outputs.
fn collect_fills(outputs: &Vec<Output>) -> (r: Vec<Fill>)
    ensures
        r@ == fills_in(outputs@),
{
    let mut out: Vec<Fill> = Vec::new();
    let mut i: usize = 0;
    assert(outputs@.subrange(0, 0) =~= Seq::<Output>::empty());
    while i < outputs.len()
        invariant
            i <= outputs@.len(),
            out@ == fills_in(outputs@.subrange(0, i as int)),
        decreases outputs@.len() - i,
    {
        proof {
            let now = outputs@.subrange(0, i + 1);
            assert(now.drop_last() =~= outputs@.subrange(0, i as int));
            assert(now.last() == outputs@[i as int]);
        }
        match outputs[i] {
            Output::Filled(f) => {
                out.push(f);
            },
            _ => {},
        }
        i += 1;
    }
    assert(outputs@.subrange(0, i as int) =~= outputs@);
    out
}

fn add_fills(to: &mut Vec<Fill>, from: &Vec<Fill>)
    ensures
        final(to)@ == old(to)@ + from@,
{
    let ghost start = to@;
    let mut i: usize = 0;
    while i < from.len()
        invariant
            i <= from@.len(),
            to@ == start + from@.subrange(0, i as int),
        decreases from@.len() - i,
    {
        to.push(from[i]);
        i += 1;
        assert(to@ =~= start + from@.subrange(0, i as int));
    }
    assert(to@ =~= start + from@);
}

impl Told {
    /// What is said, in order.
    pub open spec fn said(self) -> Seq<Said> {
        let context = self.context;
        self.fills@.map_values(|fill: Fill| Said::Fill { fill, context }) + self.ended@.map_values(
            |e: (OrderId, Ending)| Said::Ended { id: e.0, ending: e.1 },
        ) + seq![Said::Tick { context }]
    }
}

/// Tell a strategy of an observation, and hear what it asks for.
pub fn tell<S: Strategy>(strategy: &mut S, told: &Told, intents: &mut Vec<Intent>)
    ensures
        follows(*old(strategy), told.said(), old(intents)@, *final(strategy), final(intents)@),
{
    let ghost from = *strategy;
    let ghost out = intents@;
    let ghost all = told.said();
    let mut f: usize = 0;
    assert(all.subrange(0, 0) =~= Seq::<Said>::empty());
    while f < told.fills.len()
        invariant
            f <= told.fills@.len(),
            all == told.said(),
            follows(from, all.subrange(0, f as int), out, *strategy, intents@),
        decreases told.fills@.len() - f,
    {
        let ghost mid = *strategy;
        let ghost asked = intents@;
        strategy.on_fill(&told.fills[f], &told.context, intents);
        proof {
            let more = Said::Fill { fill: told.fills@[f as int], context: told.context };
            assert(takes(mid, more, asked, *strategy, intents@));
            lemma_follows_push(from, all.subrange(0, f as int), out, mid, asked, more, *strategy, intents@);
            assert(all.subrange(0, f as int).push(more) =~= all.subrange(0, f + 1));
        }
        f += 1;
    }
    let ghost n = told.fills@.len() as int;
    let mut e: usize = 0;
    while e < told.ended.len()
        invariant
            e <= told.ended@.len(),
            n == told.fills@.len(),
            all == told.said(),
            follows(from, all.subrange(0, n + e), out, *strategy, intents@),
        decreases told.ended@.len() - e,
    {
        let ghost mid = *strategy;
        let ghost asked = intents@;
        strategy.on_ended(told.ended[e].0, told.ended[e].1, intents);
        proof {
            let one = told.ended@[e as int];
            let more = Said::Ended { id: one.0, ending: one.1 };
            assert(takes(mid, more, asked, *strategy, intents@));
            lemma_follows_push(from, all.subrange(0, n + e), out, mid, asked, more, *strategy, intents@);
            assert(all.subrange(0, n + e).push(more) =~= all.subrange(0, n + e + 1));
        }
        e += 1;
    }
    let ghost mid = *strategy;
    let ghost asked = intents@;
    strategy.on_tick(&told.context, intents);
    proof {
        let more = Said::Tick { context: told.context };
        let done = all.subrange(0, n + e);
        assert(takes(mid, more, asked, *strategy, intents@));
        lemma_follows_push(from, done, out, mid, asked, more, *strategy, intents@);
        assert(done.push(more) =~= all);
    }
}

/// Orders the kernel has just finished with.
pub fn note_endings(
    outputs: &Vec<Output>,
    working: &Vec<OrderId>,
    ended: &mut Vec<(OrderId, Ending)>,
)
    ensures
        final(ended)@ == noted(old(ended)@, outputs@, working@),
{
    let ghost start = ended@;
    let mut i: usize = 0;
    assert(outputs@.subrange(0, 0) =~= Seq::<Output>::empty());
    while i < outputs.len()
        invariant
            i <= outputs@.len(),
            ended@ == noted(start, outputs@.subrange(0, i as int), working@),
        decreases outputs@.len() - i,
    {
        proof {
            let now = outputs@.subrange(0, i + 1);
            assert(now.drop_last() =~= outputs@.subrange(0, i as int));
            assert(now.last() == outputs@[i as int]);
        }
        let over = match outputs[i] {
            Output::Filled(f) => Some((f.order, Ending::Filled)),
            Output::Cancelled(id) => Some((id, Ending::Cancelled)),
            _ => None,
        };
        if let Some((id, ending)) = over {
            if !has_id(working, id) && !is_noted(ended, id) {
                ended.push((id, ending));
            }
        }
        i += 1;
    }
    assert(outputs@.subrange(0, i as int) =~= outputs@);
}

fn is_noted(ended: &Vec<(OrderId, Ending)>, id: OrderId) -> (r: bool)
    ensures
        r == noted_already(ended@, id),
{
    let mut i: usize = 0;
    while i < ended.len()
        invariant
            i <= ended@.len(),
            forall|k: int| 0 <= k < i ==> (#[trigger] ended@[k]).0 != id,
        decreases ended@.len() - i,
    {
        if ended[i].0 == id {
            assert(ended@[i as int].0 == id);
            return true;
        }
        i += 1;
    }
    false
}

fn copied_ids(ids: &Vec<OrderId>) -> (r: Vec<OrderId>)
    ensures
        r@ == ids@,
{
    let mut out: Vec<OrderId> = Vec::new();
    let mut i: usize = 0;
    while i < ids.len()
        invariant
            i <= ids@.len(),
            out@ == ids@.subrange(0, i as int),
        decreases ids@.len() - i,
    {
        out.push(ids[i]);
        i += 1;
        assert(out@ =~= ids@.subrange(0, i as int));
    }
    assert(out@ =~= ids@);
    out
}

fn copied_outputs(from: &Vec<Output>) -> (r: Vec<Output>)
    ensures
        r@ == from@,
{
    let mut out: Vec<Output> = Vec::new();
    let mut i: usize = 0;
    while i < from.len()
        invariant
            i <= from@.len(),
            out@ == from@.subrange(0, i as int),
        decreases from@.len() - i,
    {
        out.push(from[i]);
        i += 1;
        assert(out@ =~= from@.subrange(0, i as int));
    }
    assert(out@ =~= from@);
    out
}

/// Whether an order is refused among outputs.
fn is_refused(outputs: &Vec<Output>, id: OrderId) -> (r: bool)
    ensures
        r == refused_in(outputs@, id),
{
    let mut i: usize = 0;
    while i < outputs.len()
        invariant
            i <= outputs@.len(),
            forall|k: int|
                0 <= k < i ==> !(#[trigger] outputs@[k] matches Output::Rejected { id: x, .. } && x
                    == id),
        decreases outputs@.len() - i,
    {
        if let Output::Rejected { id: x, .. } = outputs[i] {
            if x == id {
                assert(outputs@[i as int] matches Output::Rejected { id: x, .. } && x == id);
                return true;
            }
        }
        i += 1;
    }
    false
}

impl<'a> Session<'a> {
    /// A run that has seen nothing. Both margin arms carry the same table and
    /// differ only in whether the venue may act on it.
    pub fn open(config: &'a RunConfig) -> (r: Self)
        requires
            config@.wf(),
        ensures
            r@ == RunView::opened(config@),
            r@.wf(),
    {
        let state = State::new(
            config.instrument,
            config.contract,
            config.table.duplicate(),
            config.starting_balance,
        ).with_fees(config.fees).with_mode(config.position_mode).matching_with(
            config.tier.matcher(config.instrument),
        );
        let kernel = Kernel::new(
            match config.margin {
                MarginMode::Enforced => state,
                MarginMode::Ignored => state.without_liquidation(),
            },
        );
        let mut equity_curve: Vec<Cash> = Vec::new();
        if config.equity_every > 0 {
            equity_curve.push(config.starting_balance);
        }
        let r = Session {
            config,
            kernel,
            fills: Vec::new(),
            liquidations: Vec::new(),
            min_equity: config.starting_balance,
            peak_maintenance: Cash(0),
            min_headroom: None,
            equity_curve,
            max_adverse: 0,
            last_funding: Nanos(i64::MIN),
            ended: Vec::new(),
            ticks: 0,
            depth_applied: 0,
            depth_refused: 0,
            depth_unused: 0,
        };
        assert(r@ =~= RunView::opened(config@));
        r
    }

    pub fn kernel(&self) -> (r: &Kernel)
        ensures
            r@ == self@.kernel,
    {
        &self.kernel
    }

    /// Hand a depth update to the matcher.
    pub fn depth(&mut self, update: &DepthUpdate)
        requires
            old(self)@.wf(),
        ensures
            final(self)@ == old(self)@.depth(update@),
            final(self)@.wf(),
    {
        let ghost start = self@;
        match self.kernel.apply_depth(update) {
            DepthOutcome::Applied => {
                self.depth_applied = bump(self.depth_applied);
            },
            DepthOutcome::Refused(_) => {
                self.depth_refused = bump(self.depth_refused);
            },
            DepthOutcome::NotRead => {
                self.depth_unused = bump(self.depth_unused);
            },
        }
        assert(self@ =~= start.depth(update@));
    }

    /// Hand a snapshot to the matcher.
    pub fn snapshot(&mut self, update_id: u64, bids: &Vec<Level>, asks: &Vec<Level>)
        requires
            old(self)@.wf(),
        ensures
            final(self)@ == old(self)@.snapshot(update_id, bids@, asks@),
            final(self)@.wf(),
    {
        let ghost start = self@;
        if !self.kernel.install_snapshot(update_id, bids.as_slice(), asks.as_slice()) {
            self.depth_unused = bump(self.depth_unused);
        }
        assert(self@ =~= start.snapshot(update_id, bids@, asks@));
    }

    fn trade(&mut self, tick: &Tick) -> (r: Vec<Fill>)
        requires
            old(self)@.wf(),
        ensures
            final(self)@ == old(self)@.trade(*tick),
            final(self)@.wf(),
            r@ == fills_in(old(self)@.kernel.apply(EventView::Tick(*tick)).outputs),
    {
        reveal(RunView::trade);
        let ghost start = self@;
        self.ticks = if self.ticks == usize::MAX {
            self.ticks
        } else {
            self.ticks + 1
        };
        let outputs = copied_outputs(self.kernel.apply(&Event::Tick(*tick)));
        note_endings(&outputs, self.kernel.working(), &mut self.ended);
        let fills = collect_fills(&outputs);
        add_fills(&mut self.fills, &fills);
        note_liquidations(&outputs, &mut self.liquidations);
        assert(self@ =~= start.trade(*tick));
        fills
    }

    /// Settle the funding that fell due since the last observation.
    fn fund(&mut self, tick: &Tick)
        requires
            old(self)@.wf(),
        ensures
            final(self)@ == old(self)@.funded(*tick),
            final(self)@.wf(),
    {
        reveal(RunView::funded);
        let ghost start = self@;
        if self.config.funding.is_empty() {
            return ;
        }
        let now = tick.stamp.exch;
        let rates = self.config.funding.between(self.last_funding, now);
        let mut i: usize = 0;
        assert(rates@.subrange(0, 0) =~= Seq::<FundingRate>::empty());
        while i < rates.len()
            invariant
                i <= rates@.len(),
                self@.wf(),
                self@ == start.fund(rates@.subrange(0, i as int)),
            decreases rates@.len() - i,
        {
            let ghost before = self@;
            proof {
                let settled = rates@.subrange(0, i + 1);
                assert(settled.drop_last() =~= rates@.subrange(0, i as int));
                assert(settled.last() == rates@[i as int]);
            }
            let r = rates[i];
            let outputs = copied_outputs(
                self.kernel.apply(&Event::Funding { at: r.at, rate: r.rate, mark: r.mark }),
            );
            note_liquidations(&outputs, &mut self.liquidations);
            i += 1;
            assert(self@ =~= start.fund(rates@.subrange(0, i as int)));
        }
        assert(rates@.subrange(0, i as int) =~= rates@);
        proof {
            lemma_fund_keeps(start, rates@);
        }
        self.last_funding = now;
        assert(self@ =~= start.funded(*tick));
    }

    /// Measure the account at an observation.
    fn measure(&mut self, tick: &Tick)
        requires
            old(self)@.wf(),
        ensures
            final(self)@ == old(self)@.measured(*tick),
            final(self)@.wf(),
    {
        reveal(RunView::measured);
        let ghost start = self@;
        let s = self.kernel.summary();
        if self.config.equity_every > 0 && self.ticks % self.config.equity_every == 0 {
            self.equity_curve.push(s.equity);
        }
        if s.equity.0 < self.min_equity.0 {
            self.min_equity = s.equity;
        }
        if self.config.track_margin && (!s.qty.is_zero() || !s.short_qty.is_zero()) {
            let maintenance = self.kernel.state().maintenance(s.mark);
            if maintenance.0 > self.peak_maintenance.0 {
                self.peak_maintenance = maintenance;
            }
            let headroom = s.equity.sub(maintenance);
            let closer = match self.min_headroom {
                Some(m) => headroom.0 < m.0,
                None => true,
            };
            if closer {
                self.min_headroom = Some(headroom);
            }
        }
        if !s.qty.is_zero() && s.entry.0 > 0 {
            let gone: i64 = if s.qty.0 > 0 {
                sat_sub(s.entry.0, tick.dn_extent().0)
            } else {
                sat_sub(tick.up_extent().0, s.entry.0)
            };
            if gone > self.max_adverse {
                self.max_adverse = gone;
            }
        }
        assert(self@ =~= start.measured(*tick));
    }

    /// Take an observation. What comes back is what the strategy is to be
    /// told: its fills, then the orders that ended, then the context.
    pub fn observe(&mut self, tick: &Tick) -> (r: Told)
        requires
            old(self)@.wf(),
        ensures
            final(self)@.wf(),
            (Seen {
                run: final(self)@,
                fills: r.fills@,
                ended: r.ended@,
                context: r.context,
            }) == old(self)@.observe(*tick),
    {
        reveal(RunView::observe);
        let ghost start = self@;
        let fills = self.trade(tick);
        self.fund(tick);
        self.measure(tick);
        let s = self.kernel.summary();
        let context = Context {
            tick: *tick,
            position: s.qty,
            entry: s.entry,
            short_position: s.short_qty,
            short_entry: s.short_entry,
            equity: s.equity,
            working: self.kernel.working().len(),
        };
        let ghost now = self@;
        let mut ended: Vec<(OrderId, Ending)> = Vec::new();
        ended.append(&mut self.ended);
        assert(ended@ =~= now.ended);
        assert(self@ =~= (RunView { ended: Seq::empty(), ..now }));
        Told { fills, ended, context }
    }

    fn ask(&mut self, event: &Event) -> (r: Vec<Output>)
        requires
            old(self)@.wf(),
        ensures
            final(self)@ == old(self)@.ask(event@),
            final(self)@.wf(),
            r@ == old(self)@.said(event@),
    {
        reveal(RunView::said);
        reveal(RunView::ask);
        let ghost start = self@;
        let outputs = copied_outputs(self.kernel.apply(event));
        note_endings(&outputs, self.kernel.working(), &mut self.ended);
        assert(self@ =~= start.ask(event@));
        outputs
    }

    /// Carry out an intent. For an order submitted, what comes back is its id
    /// and whether it was accepted.
    pub fn act(&mut self, intent: &Intent, stamp: Stamp) -> (r: Option<(OrderId, bool)>)
        requires
            old(self)@.wf(),
        ensures
            final(self)@ == old(self)@.act(*intent, stamp),
            final(self)@.wf(),
            r == old(self)@.placing(*intent, stamp),
    {
        reveal(RunView::act);
        let ghost start = self@;
        match *intent {
            Intent::Limit { id, side, price, qty, offset } => {
                let outputs = self.ask(
                    &Event::Submit { id, side, price: Some(price), qty, offset, stamp },
                );
                Some((id, !is_refused(&outputs, id)))
            },
            Intent::Market { id, side, qty, offset } => {
                let outputs = self.ask(
                    &Event::Submit { id, side, price: None, qty, offset, stamp },
                );
                Some((id, !is_refused(&outputs, id)))
            },
            Intent::Cancel(id) => {
                let _outputs = self.ask(&Event::Cancel { id, stamp });
                None
            },
            Intent::CancelAll => {
                let ids = copied_ids(self.kernel.working());
                let mut i: usize = 0;
                assert(ids@.subrange(0, 0) =~= Seq::<OrderId>::empty());
                while i < ids.len()
                    invariant
                        i <= ids@.len(),
                        self@.wf(),
                        self@ == start.withdraw(ids@.subrange(0, i as int), stamp),
                    decreases ids@.len() - i,
                {
                    proof {
                        let gone = ids@.subrange(0, i + 1);
                        assert(gone.drop_last() =~= ids@.subrange(0, i as int));
                        assert(gone.last() == ids@[i as int]);
                    }
                    let _outputs = self.ask(&Event::Cancel { id: ids[i], stamp });
                    i += 1;
                }
                assert(ids@.subrange(0, i as int) =~= ids@);
                None
            },
        }
    }

    /// Show a strategy one arrival and carry out what it asks for. A depth
    /// update reaches the matcher and never the strategy.
    pub fn arrive<S: Strategy>(&mut self, strategy: &mut S, o: &Observation) -> (r: Vec<Intent>)
        requires
            old(self)@.wf(),
        ensures
            final(self)@ == old(self)@.arrive(o@, r@),
            final(self)@.wf(),
            old(self)@.answered(o@, r@, *old(strategy), *final(strategy)),
    {
        let ghost start = self@;
        let ghost from = *strategy;
        let mut intents: Vec<Intent> = Vec::new();
        match o {
            Observation::Depth(u) => {
                self.depth(u);
            },
            Observation::Snapshot { update_id, bids, asks } => {
                self.snapshot(*update_id, bids, asks);
            },
            Observation::Tick(tick) => {
                let told = self.observe(tick);
                let ghost seen = self@;
                tell(strategy, &told, &mut intents);
                let ghost mid = *strategy;
                proof {
                    assert(told.said() =~= start.tells(*tick));
                }
                let mut i: usize = 0;
                assert(intents@.subrange(0, 0) =~= Seq::<Intent>::empty());
                while i < intents.len()
                    invariant
                        i <= intents@.len(),
                        self@.wf(),
                        self@ == seen.act_all(intents@.subrange(0, i as int), tick.stamp),
                        follows(
                            mid,
                            seen.placements(intents@.subrange(0, i as int), tick.stamp),
                            Seq::empty(),
                            *strategy,
                            Seq::empty(),
                        ),
                    decreases intents@.len() - i,
                {
                    let ghost now = intents@.subrange(0, i as int);
                    let ghost before = *strategy;
                    proof {
                        let done = intents@.subrange(0, i + 1);
                        assert(done.drop_last() =~= now);
                        assert(done.last() == intents@[i as int]);
                    }
                    let placed = self.act(&intents[i], tick.stamp);
                    if let Some((id, accepted)) = placed {
                        strategy.on_placed(id, accepted);
                        proof {
                            lemma_follows_push(
                                mid,
                                seen.placements(now, tick.stamp),
                                Seq::empty(),
                                before,
                                Seq::empty(),
                                Said::Placed { id, accepted },
                                *strategy,
                                Seq::empty(),
                            );
                        }
                    }
                    i += 1;
                }
                assert(intents@.subrange(0, i as int) =~= intents@);
                assert(follows(from, start.tells(*tick), Seq::empty(), mid, intents@));
            },
        }
        intents
    }

    /// What the run came to.
    pub fn finish(self, strategy: String) -> (r: RunResult)
        ensures
            r.reports(self@),
            r.strategy@ == strategy@,
    {
        let s = self.kernel.summary();
        let margin_usage = if !self.config.track_margin {
            MarginUsage::NotTracked
        } else {
            match self.min_headroom {
                Some(min_headroom) => MarginUsage::Measured {
                    peak_maintenance: self.peak_maintenance,
                    min_headroom,
                },
                None => MarginUsage::NoPosition,
            }
        };
        let tier = match self.config.tier {
            Tier::L0 => "L0",
            Tier::L1(_) => "L1",
            Tier::L2(_) => "L2",
        };
        RunResult {
            strategy,
            fills: self.fills,
            liquidations: self.liquidations,
            ticks: self.ticks,
            final_equity: s.equity,
            realized: s.realized,
            funding_paid: s.funding,
            fees_paid: s.fees,
            min_equity: self.min_equity,
            equity_curve: self.equity_curve,
            max_adverse_ticks: self.max_adverse,
            margin_usage,
            tier,
            depth_applied: self.depth_applied,
            depth_refused: self.depth_refused,
            depth_unused: self.depth_unused,
        }
    }
}

/// Settling funding moves the kernel and the list of liquidations, and nothing
/// else.
pub proof fn lemma_fund_keeps(run: RunView, rates: Seq<FundingRate>)
    ensures
        run.fund(rates) == (RunView {
            kernel: run.fund(rates).kernel,
            liquidations: run.fund(rates).liquidations,
            ..run
        }),
    decreases rates.len(),
{
    if rates.len() > 0 {
        lemma_fund_keeps(run, rates.drop_last());
    }
}

/// What a run of ticks looks like as arrivals.
pub open spec fn as_arrivals(ticks: Seq<Tick>) -> Seq<ObservationView> {
    ticks.map_values(|t: Tick| ObservationView::Tick(t))
}

/// What a stream of arrivals says.
pub open spec fn as_views(stream: Seq<Observation>) -> Seq<ObservationView> {
    stream.map_values(|o: Observation| o@)
}

/// One arrival more.
pub proof fn lemma_one_more<S: Strategy>(
    config: ConfigView,
    stream: Seq<ObservationView>,
    answers: Seq<Seq<Intent>>,
    o: ObservationView,
    intents: Seq<Intent>,
    from: S,
    mid: S,
    to: S,
)
    requires
        answers.len() == stream.len(),
        conversed(config, stream, answers, from, mid),
        ran(config, stream, answers).answered(o, intents, mid, to),
    ensures
        ran(config, stream.push(o), answers.push(intents)) == ran(config, stream, answers).arrive(
            o,
            intents,
        ),
        conversed(config, stream.push(o), answers.push(intents), from, to),
{
    let all = stream.push(o);
    assert(all.drop_last() =~= stream);
    lemma_later_answers(config, stream, answers, intents, from, mid);
    let now = answers.push(intents);
    assert(ran(config, all.drop_last(), now).answered(all.last(), now[all.len() - 1], mid, to));
}

/// What is answered to a later arrival does not change an earlier one.
proof fn lemma_later_answers<S: Strategy>(
    config: ConfigView,
    stream: Seq<ObservationView>,
    answers: Seq<Seq<Intent>>,
    later: Seq<Intent>,
    from: S,
    to: S,
)
    requires
        stream.len() <= answers.len(),
        conversed(config, stream, answers, from, to),
    ensures
        ran(config, stream, answers.push(later)) == ran(config, stream, answers),
        conversed(config, stream, answers.push(later), from, to),
    decreases stream.len(),
{
    if stream.len() > 0 {
        let less = stream.drop_last();
        let mid = choose|mid: S|
            conversed(config, less, answers, from, mid) && #[trigger] ran(
                config,
                less,
                answers,
            ).answered(stream.last(), answers[stream.len() - 1], mid, to);
        lemma_later_answers(config, less, answers, later, from, mid);
        let now = answers.push(later);
        assert(now[stream.len() - 1] == answers[stream.len() - 1]);
        assert(ran(config, less, now).answered(stream.last(), now[stream.len() - 1], mid, to));
    }
}

/// Run a strategy over ticks and depth interleaved. The stream is one that
/// ends.
pub fn run_observations<S: Strategy, I: Iterator<Item = Observation>>(
    config: &RunConfig,
    strategy: &mut S,
    stream: I,
) -> (r: RunResult)
    requires
        config@.wf(),
        stream.obeys_prophetic_iter_laws(),
        stream.decrease() is Some,
    ensures
        r.came_of(config@, as_views(stream.remaining()), *old(strategy), *final(strategy)),
{
    let ghost all = stream.remaining();
    let mut left = stream;
    let mut session = Session::open(config);
    let ghost from = *strategy;
    let ghost mut answers: Seq<Seq<Intent>> = Seq::empty();
    let ghost mut seen: Seq<Observation> = Seq::empty();
    loop
        invariant
            left.obeys_prophetic_iter_laws(),
            left.decrease() is Some,
            session@.wf(),
            all == seen + left.remaining(),
            answers.len() == seen.len(),
            session@ == ran(config@, as_views(seen), answers),
            conversed(config@, as_views(seen), answers, from, *strategy),
        ensures
            seen == all,
            answers.len() == seen.len(),
            session@ == ran(config@, as_views(seen), answers),
            conversed(config@, as_views(seen), answers, from, *strategy),
        decreases left.decrease()->0,
    {
        match left.next() {
            None => {
                break;
            },
            Some(o) => {
                let ghost mid = *strategy;
                let intents = session.arrive(strategy, &o);
                proof {
                    lemma_one_more(config@, as_views(seen), answers, o@, intents@, from, mid, *strategy);
                    assert(as_views(seen).push(o@) =~= as_views(seen.push(o)));
                    answers = answers.push(intents@);
                    seen = seen.push(o);
                }
            },
        }
    }
    session.finish(strategy.name().to_owned())
}

/// Run a strategy over a stream of ticks, one at a time. The stream is one
/// that ends; nothing of it is kept, so the window is not bounded by memory.
pub fn run_stream<S: Strategy, I: Iterator<Item = Tick>>(
    config: &RunConfig,
    strategy: &mut S,
    ticks: I,
) -> (r: RunResult)
    requires
        config@.wf(),
        ticks.obeys_prophetic_iter_laws(),
        ticks.decrease() is Some,
    ensures
        r.came_of(config@, as_arrivals(ticks.remaining()), *old(strategy), *final(strategy)),
{
    let ghost all = ticks.remaining();
    let mut left = ticks;
    let mut session = Session::open(config);
    let ghost from = *strategy;
    let ghost mut answers: Seq<Seq<Intent>> = Seq::empty();
    let ghost mut seen: Seq<Tick> = Seq::empty();
    loop
        invariant
            left.obeys_prophetic_iter_laws(),
            left.decrease() is Some,
            session@.wf(),
            all == seen + left.remaining(),
            answers.len() == seen.len(),
            session@ == ran(config@, as_arrivals(seen), answers),
            conversed(config@, as_arrivals(seen), answers, from, *strategy),
        ensures
            seen == all,
            answers.len() == seen.len(),
            session@ == ran(config@, as_arrivals(seen), answers),
            conversed(config@, as_arrivals(seen), answers, from, *strategy),
        decreases left.decrease()->0,
    {
        match left.next() {
            None => {
                break;
            },
            Some(t) => {
                let ghost mid = *strategy;
                let intents = session.arrive(strategy, &Observation::Tick(t));
                proof {
                    let o = ObservationView::Tick(t);
                    lemma_one_more(config@, as_arrivals(seen), answers, o, intents@, from, mid, *strategy);
                    assert(as_arrivals(seen).push(o) =~= as_arrivals(seen.push(t)));
                    answers = answers.push(intents@);
                    seen = seen.push(t);
                }
            },
        }
    }
    session.finish(strategy.name().to_owned())
}

/// Run a strategy over ticks already held.
pub fn run<S: Strategy>(config: &RunConfig, strategy: &mut S, ticks: &[Tick]) -> (r: RunResult)
    requires
        config@.wf(),
    ensures
        r.came_of(config@, as_arrivals(ticks@), *old(strategy), *final(strategy)),
{
    let mut session = Session::open(config);
    let ghost from = *strategy;
    let ghost mut answers: Seq<Seq<Intent>> = Seq::empty();
    let mut i: usize = 0;
    while i < ticks.len()
        invariant
            i <= ticks@.len(),
            session@.wf(),
            answers.len() == i,
            session@ == ran(config@, as_arrivals(ticks@.subrange(0, i as int)), answers),
            conversed(config@, as_arrivals(ticks@.subrange(0, i as int)), answers, from, *strategy),
        decreases ticks@.len() - i,
    {
        let ghost mid = *strategy;
        let intents = session.arrive(strategy, &Observation::Tick(ticks[i]));
        proof {
            let seen = ticks@.subrange(0, i as int);
            let o = ObservationView::Tick(ticks@[i as int]);
            lemma_one_more(config@, as_arrivals(seen), answers, o, intents@, from, mid, *strategy);
            assert(as_arrivals(seen).push(o) =~= as_arrivals(ticks@.subrange(0, i + 1)));
            answers = answers.push(intents@);
        }
        i += 1;
    }
    assert(ticks@.subrange(0, i as int) =~= ticks@);
    session.finish(strategy.name().to_owned())
}

/// A tick built from a price, for tests and simple data adapters.
pub fn tick_at(ns: i64, last: i64, high: i64, low: i64) -> (r: Tick)
    ensures
        r.stamp == (Stamp { exch: Nanos(ns), local: Nanos(ns) }),
        r.last.0 == last,
        r.high.0 == high,
        r.low.0 == low,
        r.bid.0 == 0,
        r.ask.0 == 0,
        r.volume.0 == 0,
{
    Tick::trades_only(Stamp::synthetic(ns), last, high, low)
}

} // verus!

//! The state machine: an event in, outputs out.
//!
//! No clock, no randomness, no I/O. Feeding the same events to the same
//! starting state gives the same state and the same outputs, so a replay is
//! exact. Margin is applied on every tick rather than at settlement points
//! only: a position that becomes liquidatable between two settlements is
//! liquidated then.
use crate::engine::book::Resting;
use crate::engine::l0::{L0Fill, L0View};
use crate::engine::tick::Tick;
use crate::ledger::event::{Event, EventView};
use crate::ledger::matcher::{DepthOutcome, Matcher, MatcherView};
use crate::margin::{required, Contract, FundingRate, MarginTier, MarginedPosition, TierTable};
use crate::text::copy_all;
use crate::types::{
    clamp_i64, lemma_product_bound, limit_order, magnitude, market_order, quotient, sat_abs,
    sat_add, sat_mul, sat_sub, saturate, signed_div, truncated_div, wide_mul, Cash, Fill,
    InstrumentId, Liquidity, Nanos, Offset, OrderId, OrderKind, PriceTicks, QtyLots, Ratio, Side,
    Working,
};
use crate::venue::book::{law_levels_are_determined, Applied, SequenceError};
use crate::venue::depth::{DepthUpdate, DepthView, Level};
use vstd::prelude::*;

verus! {

/// Something the core produced.
#[derive(Clone, Copy, Debug, PartialEq, Eq, Structural)]
pub enum Output {
    /// An order executed.
    Filled(Fill),
    /// An order was withdrawn.
    Cancelled(OrderId),
    /// A submission was refused.
    Rejected { id: OrderId, reason: RejectReason },
    /// Funding settled.
    Funded { amount: Cash, at: Nanos },
    /// The venue closed the account.
    Liquidated { at: Nanos, price: PriceTicks, qty: QtyLots, equity: Cash },
}

/// Who decides which orders trade.
#[derive(Clone, Copy, Debug, PartialEq, Eq, Structural)]
pub enum Matching {
    /// The matcher in this process.
    Simulated,
    /// The venue; its fills arrive as events.
    Venue,
}

impl Default for Matching {
    fn default() -> (r: Self)
        ensures
            r == Matching::Simulated,
    {
        Matching::Simulated
    }
}

/// Why a submission was refused.
#[derive(Clone, Copy, Debug, PartialEq, Eq, Structural)]
pub enum RejectReason {
    NonPositiveQty,
    DuplicateId,
    /// The account has no collateral left.
    NoMargin,
    /// A venue fill reached a kernel that matches for itself.
    NotVenueMatched,
    /// No shard holds what the event addresses.
    UnroutableObservation,
}

/// Whether opposing exposure nets or stands as two legs.
#[derive(Clone, Copy, Debug, PartialEq, Eq, Structural)]
pub enum PositionMode {
    OneWay,
    Hedge,
}

impl Default for PositionMode {
    fn default() -> (r: Self)
        ensures
            r == PositionMode::OneWay,
    {
        PositionMode::OneWay
    }
}

/// What the venue charges per fill, as shares of notional. A negative rate is
/// a rebate.
#[derive(Clone, Copy, Debug, PartialEq, Eq, Structural)]
pub struct Fees {
    pub maker: Ratio,
    pub taker: Ratio,
}

impl Default for Fees {
    fn default() -> (r: Self)
        ensures
            r == (Fees { maker: Ratio(0), taker: Ratio(0) }),
    {
        Fees { maker: Ratio(0), taker: Ratio(0) }
    }
}

impl Fees {
    /// One rate for both.
    pub fn flat(rate: Ratio) -> (r: Self)
        ensures
            r == (Fees { maker: rate, taker: rate }),
    {
        Fees { maker: rate, taker: rate }
    }

    /// No fees.
    pub fn none() -> (r: Self)
        ensures
            r == (Fees { maker: Ratio(0), taker: Ratio(0) }),
    {
        Fees { maker: Ratio(0), taker: Ratio(0) }
    }

    pub open spec fn fee(self, contract: Contract, fill: Fill) -> Cash {
        contract.value(fill.price, fill.qty).times(
            match fill.liquidity {
                Liquidity::Maker => self.maker,
                Liquidity::Taker => self.taker,
            },
        )
    }

    /// What a fill costs. Negative is a rebate, carried through.
    pub fn charge(&self, contract: Contract, fill: &Fill) -> (r: Cash)
        ensures
            r == self.fee(contract, *fill),
    {
        let notional = contract.notional(fill.price, fill.qty);
        let rate = match fill.liquidity {
            Liquidity::Maker => self.maker,
            Liquidity::Taker => self.taker,
        };
        notional.scaled(rate)
    }
}

/// An account and its matcher.
#[derive(Debug)]
pub struct State {
    pub engine: Matcher,
    pub contract: Contract,
    pub table: TierTable,
    pub mode: PositionMode,
    /// The position; under hedge accounting, the long leg.
    pub qty: QtyLots,
    pub entry: PriceTicks,
    /// The short leg, negative, under hedge accounting.
    pub short_qty: QtyLots,
    pub short_entry: PriceTicks,
    pub balance: Cash,
    pub realized: Cash,
    pub funding: Cash,
    /// Fees charged so far, positive.
    pub fees: Cash,
    pub fee_schedule: Fees,
    pub now: Nanos,
    pub mark: PriceTicks,
    pub enforce_liquidation: bool,
    pub matching: Matching,
}

/// What a state holds.
#[verifier::ext_equal]
pub struct StateView {
    pub engine: MatcherView,
    pub contract: Contract,
    pub table: Seq<MarginTier>,
    pub mode: PositionMode,
    pub qty: QtyLots,
    pub entry: PriceTicks,
    pub short_qty: QtyLots,
    pub short_entry: PriceTicks,
    pub balance: Cash,
    pub realized: Cash,
    pub funding: Cash,
    pub fees: Cash,
    pub fee_schedule: Fees,
    pub now: Nanos,
    pub mark: PriceTicks,
    pub enforce_liquidation: bool,
    pub matching: Matching,
}

impl View for State {
    type V = StateView;

    open spec fn view(&self) -> StateView {
        StateView {
            engine: self.engine@,
            contract: self.contract,
            table: self.table@,
            mode: self.mode,
            qty: self.qty,
            entry: self.entry,
            short_qty: self.short_qty,
            short_entry: self.short_entry,
            balance: self.balance,
            realized: self.realized,
            funding: self.funding,
            fees: self.fees,
            fee_schedule: self.fee_schedule,
            now: self.now,
            mark: self.mark,
            enforce_liquidation: self.enforce_liquidation,
            matching: self.matching,
        }
    }
}

/// A quantity signed by the side that trades it.
pub fn signed(side: Side, qty: QtyLots) -> (r: QtyLots)
    ensures
        r.0 == clamp_i64(qty.0 * side.spec_sign()),
{
    QtyLots(sat_mul(qty.0, side.sign()))
}

/// One or minus one, as `x` is positive or not.
pub open spec fn sign_of(x: i64) -> int {
    if x > 0 {
        1
    } else {
        -1
    }
}

/// The lesser of two magnitudes.
pub open spec fn lesser(a: i64, b: i64) -> i64 {
    if a < b {
        a
    } else {
        b
    }
}

/// The magnitude of a quantity, as a machine integer.
pub open spec fn size_of_qty(x: i64) -> i64 {
    clamp_i64(magnitude(x as int))
}

/// The average entry of `held` at `entry` and `added` at `price`.
pub open spec fn averaged(held: i64, entry: PriceTicks, added: i64, price: PriceTicks) -> PriceTicks {
    PriceTicks(clamp_i64(quotient(entry.0 * held + price.0 * added, held + added)))
}

/// A leg with more opened on it: the new size, signed, and the average entry.
pub open spec fn blended(
    held: QtyLots,
    entry: PriceTicks,
    add: QtyLots,
    price: PriceTicks,
    sign: int,
) -> (QtyLots, PriceTicks) {
    let size = size_of_qty(held.0);
    let total = clamp_i64(size + add.0);
    if total == 0 {
        (QtyLots(0), PriceTicks(0))
    } else {
        (
            QtyLots(clamp_i64(sign * total)),
            PriceTicks(clamp_i64(quotient(entry.0 * size + price.0 * add.0, total as int))),
        )
    }
}

impl StateView {
    pub open spec fn wf(self) -> bool {
        self.engine.wf() && self.table.len() > 0
    }

    pub open spec fn flat(self) -> bool {
        self.qty.0 == 0 && self.short_qty.0 == 0
    }

    /// Gain on both legs at the mark.
    pub open spec fn unrealized(self) -> Cash {
        let long = if self.qty.0 == 0 {
            Cash(0)
        } else {
            self.contract.gain(self.entry, self.mark, self.qty)
        };
        let short = if self.short_qty.0 == 0 {
            Cash(0)
        } else {
            self.contract.gain(self.short_entry, self.mark, self.short_qty)
        };
        long.plus(short)
    }

    pub open spec fn equity(self) -> Cash {
        self.balance.plus(self.unrealized())
    }

    /// What both legs together must keep.
    pub open spec fn maintenance(self, mark: PriceTicks) -> Cash {
        let long = if self.qty.0 == 0 {
            Cash(0)
        } else {
            required(self.table, self.contract, mark, self.qty)
        };
        let short = if self.short_qty.0 == 0 {
            Cash(0)
        } else {
            required(self.table, self.contract, mark, self.short_qty)
        };
        long.plus(short)
    }

    pub open spec fn position(self) -> MarginedPosition {
        MarginedPosition {
            contract: self.contract,
            entry: self.entry,
            qty: self.qty,
            balance: self.balance,
        }
    }

    /// Profit taken.
    pub open spec fn realize(self, pnl: Cash) -> StateView {
        StateView {
            realized: self.realized.plus(pnl),
            balance: self.balance.plus(pnl),
            ..self
        }
    }

    /// A fill under netting: what it closes is realized against the entry,
    /// what it adds is averaged into it, and what is left over on the other
    /// side starts at the fill price.
    pub open spec fn fill_netted(self, fill: Fill) -> StateView {
        let change = fill.spec_delta();
        let old = self.qty;
        let new = QtyLots(clamp_i64(old.0 + change.0));
        let reduces = old.0 != 0 && (old.0 > 0) != (change.0 > 0);
        let closed = lesser(size_of_qty(change.0), size_of_qty(old.0));
        let pnl = self.contract.gain(
            self.entry,
            fill.price,
            QtyLots(clamp_i64(closed * sign_of(old.0))),
        );
        let paid = if reduces {
            self.realize(pnl)
        } else {
            self
        };
        let entry = if new.0 == 0 {
            PriceTicks(0)
        } else if old.0 == 0 || (old.0 > 0) == (new.0 > 0) && !reduces {
            averaged(size_of_qty(old.0), self.entry, size_of_qty(change.0), fill.price)
        } else if (old.0 > 0) != (new.0 > 0) {
            fill.price
        } else {
            self.entry
        };
        StateView { qty: new, entry, ..paid }
    }

    /// Whether a fill concerns the long leg.
    pub open spec fn on_long_leg(fill: Fill) -> bool {
        (fill.side == Side::Buy) == (fill.offset == Offset::Open)
    }

    /// A fill under hedge accounting: it opens or closes the leg its side and
    /// offset name, and a close stops at flat.
    pub open spec fn fill_hedged(self, fill: Fill) -> StateView {
        let long = Self::on_long_leg(fill);
        if fill.offset == Offset::Open {
            if long {
                let (qty, entry) = blended(self.qty, self.entry, fill.qty, fill.price, 1);
                StateView { qty, entry, ..self }
            } else {
                let (short_qty, short_entry) = blended(
                    self.short_qty,
                    self.short_entry,
                    fill.qty,
                    fill.price,
                    -1,
                );
                StateView { short_qty, short_entry, ..self }
            }
        } else {
            let (held, entry) = if long {
                (self.qty, self.entry)
            } else {
                (self.short_qty, self.short_entry)
            };
            if held.0 == 0 {
                self
            } else {
                let closing = lesser(fill.qty.0, size_of_qty(held.0));
                let closed = QtyLots(clamp_i64(closing * sign_of(held.0)));
                let paid = self.realize(self.contract.gain(entry, fill.price, closed));
                let left = QtyLots(clamp_i64(held.0 - closed.0));
                let left_entry = if left.0 == 0 {
                    PriceTicks(0)
                } else {
                    entry
                };
                if long {
                    StateView { qty: left, entry: left_entry, ..paid }
                } else {
                    StateView { short_qty: left, short_entry: left_entry, ..paid }
                }
            }
        }
    }

    pub open spec fn fill(self, fill: Fill) -> StateView {
        match self.mode {
            PositionMode::OneWay => self.fill_netted(fill),
            PositionMode::Hedge => self.fill_hedged(fill),
        }
    }

    /// A fill charged and booked.
    pub open spec fn settle(self, fill: Fill) -> StateView {
        let fee = self.fee_schedule.fee(self.contract, fill);
        StateView {
            fees: self.fees.plus(fee),
            balance: self.balance.minus(fee),
            ..self
        }.fill(fill)
    }

    /// Both legs closed at `price`, and every order withdrawn.
    pub open spec fn liquidated(self, price: PriceTicks) -> StateView {
        let pnl = self.contract.gain(self.entry, price, self.qty).plus(
            self.contract.gain(self.short_entry, price, self.short_qty),
        );
        StateView {
            qty: QtyLots(0),
            entry: PriceTicks(0),
            short_qty: QtyLots(0),
            short_entry: PriceTicks(0),
            engine: self.engine.cancel_all(),
            ..self.realize(pnl)
        }
    }

    /// Whether the venue would close the account at `mark`.
    pub open spec fn must_close(self, mark: PriceTicks) -> bool {
        &&& self.enforce_liquidation
        &&& !self.flat()
        &&& match self.mode {
            PositionMode::Hedge => self.equity().0 < self.maintenance(mark).0,
            PositionMode::OneWay => self.position().under_water(self.table, mark),
        }
    }
}

/// A kernel: an account, and the orders it is working.
#[derive(Debug)]
pub struct Kernel {
    state: State,
    outputs: Vec<Output>,
    working: Vec<OrderId>,
    depth: Option<DepthOutcome>,
}

/// What a kernel holds between events.
#[verifier::ext_equal]
pub struct KernelView {
    pub state: StateView,
    pub working: Seq<OrderId>,
    /// What became of the last depth update.
    pub depth: Option<DepthOutcome>,
}

/// A kernel and what an event has made it produce.
#[verifier::ext_equal]
pub struct Step {
    pub kernel: KernelView,
    pub outputs: Seq<Output>,
}

impl View for Kernel {
    type V = KernelView;

    closed spec fn view(&self) -> KernelView {
        KernelView { state: self.state@, working: self.working@, depth: self.depth }
    }
}

/// Every id but one.
pub open spec fn other_than(id: OrderId) -> spec_fn(OrderId) -> bool {
    |w: OrderId| w != id
}

/// A list of ids without one of them.
pub open spec fn without_id(working: Seq<OrderId>, id: OrderId) -> Seq<OrderId> {
    working.filter(other_than(id))
}

/// A matcher handed a depth update.
pub open spec fn depth_applied(before: MatcherView, update: DepthView) -> MatcherView {
    choose|after: MatcherView| after.after_depth(before, update)
}

/// A matcher given a snapshot.
pub open spec fn snapshot_applied(
    before: MatcherView,
    update_id: u64,
    bids: Seq<Level>,
    asks: Seq<Level>,
) -> MatcherView {
    choose|after: MatcherView| after.after_snapshot(before, update_id, bids, asks)
}

impl Step {
    pub open spec fn say(self, output: Output) -> Step {
        Step { outputs: self.outputs.push(output), ..self }
    }

    pub open spec fn with_state(self, state: StateView) -> Step {
        Step { kernel: KernelView { state, ..self.kernel }, ..self }
    }

    /// Close the account if it must be closed at `mark`.
    pub open spec fn check(self, mark: PriceTicks) -> Step {
        let s = self.kernel.state;
        if !s.must_close(mark) {
            self
        } else {
            let closed = s.liquidated(mark);
            Step {
                kernel: KernelView {
                    state: closed,
                    working: Seq::empty(),
                    ..self.kernel
                },
                ..self
            }.say(
                Output::Liquidated {
                    at: s.now,
                    price: mark,
                    qty: QtyLots(clamp_i64(s.qty.0 + s.short_qty.0)),
                    equity: closed.balance,
                },
            )
        }
    }

    /// Book one fill: its order is no longer working.
    pub open spec fn book_fill(self, fill: Fill) -> Step {
        Step {
            kernel: KernelView {
                state: self.kernel.state.settle(fill),
                working: without_id(self.kernel.working, fill.order),
                ..self.kernel
            },
            ..self
        }.say(Output::Filled(fill))
    }

    /// Book a run of fills, in order.
    pub open spec fn book_all(self, fills: Seq<L0Fill>) -> Step
        decreases fills.len(),
    {
        if fills.len() == 0 {
            self
        } else {
            self.book_all(fills.drop_last()).book_fill(fills.last().fill)
        }
    }
}

impl KernelView {
    pub open spec fn wf(self) -> bool {
        self.state.wf()
    }

    pub open spec fn start(self) -> Step {
        Step { kernel: self, outputs: Seq::empty() }
    }

    /// An observation: the matcher's fills are booked and the margin checked.
    /// Where the venue matches, only the margin is.
    pub open spec fn on_tick(self, tick: Tick) -> Step {
        let seen = StateView { now: tick.stamp.exch, mark: tick.last, ..self.state };
        if self.state.matching == Matching::Venue {
            self.start().with_state(seen).check(tick.last)
        } else {
            let matched = self.state.engine.on_tick(tick);
            self.start().with_state(StateView { engine: matched.engine, ..seen }).book_all(
                matched.fills,
            ).check(tick.last)
        }
    }

    /// Why an order would be refused.
    pub open spec fn refusal(self, id: OrderId, qty: QtyLots) -> Option<RejectReason> {
        if qty.0 <= 0 {
            Some(RejectReason::NonPositiveQty)
        } else if self.working.contains(id) {
            Some(RejectReason::DuplicateId)
        } else if self.state.balance.0 <= 0 {
            Some(RejectReason::NoMargin)
        } else {
            None
        }
    }

    pub open spec fn on_submit(self, order: Working) -> Step {
        match self.refusal(order.id, order.remaining) {
            Some(reason) => self.start().say(Output::Rejected { id: order.id, reason }),
            None => Step {
                kernel: KernelView {
                    state: StateView {
                        engine: self.state.engine.submit(order, order.stamp.exch),
                        ..self.state
                    },
                    working: self.working.push(order.id),
                    ..self
                },
                outputs: Seq::empty(),
            },
        }
    }

    pub open spec fn on_cancel(self, id: OrderId) -> Step {
        if !self.state.engine.holds(id) {
            self.start()
        } else {
            Step {
                kernel: KernelView {
                    state: StateView { engine: self.state.engine.cancel(id), ..self.state },
                    working: without_id(self.working, id),
                    ..self
                },
                outputs: seq![Output::Cancelled(id)],
            }
        }
    }

    /// A funding settlement moves the balance of an account with a position,
    /// and can close it.
    pub open spec fn on_funding(self, at: Nanos, rate: Ratio, mark: PriceTicks) -> Step {
        let s = StateView { now: at, ..self.state };
        if s.qty.0 == 0 {
            self.start().with_state(s)
        } else {
            let amount = FundingRate { at, rate, mark }.payment(s.contract, s.qty);
            self.start().with_state(
                StateView {
                    balance: s.balance.plus(amount),
                    funding: s.funding.plus(amount),
                    ..s
                },
            ).say(Output::Funded { amount, at }).check(mark)
        }
    }

    pub open spec fn on_venue_fill(self, fill: Fill) -> Step {
        if self.state.matching != Matching::Venue {
            self.start().say(
                Output::Rejected { id: fill.order, reason: RejectReason::NotVenueMatched },
            )
        } else {
            self.start().with_state(
                StateView {
                    now: fill.stamp.exch,
                    engine: self.state.engine.cancel(fill.order),
                    ..self.state
                },
            ).book_fill(fill).check(fill.price)
        }
    }

    pub open spec fn on_depth(self, update: DepthView) -> KernelView {
        KernelView {
            state: StateView {
                engine: depth_applied(self.state.engine, update),
                ..self.state
            },
            depth: Some(self.state.engine.depth_outcome(update)),
            ..self
        }
    }

    /// What an event does.
    #[verifier::opaque]
    pub open spec fn apply(self, event: EventView) -> Step {
        match event {
            EventView::Tick(tick) => self.on_tick(tick),
            EventView::Submit { id, side, price, qty, offset, stamp } => self.on_submit(
                Working {
                    id,
                    side,
                    kind: match price {
                        Some(price) => OrderKind::Limit { price },
                        None => OrderKind::Market,
                    },
                    remaining: qty,
                    stamp,
                    offset,
                },
            ),
            EventView::Cancel { id, .. } => self.on_cancel(id),
            EventView::Funding { at, rate, mark } => self.on_funding(at, rate, mark),
            EventView::Time(at) => self.start().with_state(StateView { now: at, ..self.state }),
            EventView::MarginDeposit { amount, at } => self.start().with_state(
                StateView {
                    now: at,
                    balance: self.state.balance.plus(Cash(amount)),
                    ..self.state
                },
            ),
            EventView::VenueFill(fill) => self.on_venue_fill(fill),
            EventView::Depth(update) => self.on_depth(update).start(),
        }
    }

    pub open spec fn summary(self) -> Summary {
        let s = self.state;
        Summary {
            qty: s.qty,
            entry: s.entry,
            short_qty: s.short_qty,
            short_entry: s.short_entry,
            balance: s.balance,
            realized: s.realized,
            funding: s.funding,
            fees: s.fees,
            equity: s.equity(),
            mark: s.mark,
            now: s.now,
        }
    }
}

/// An account at a glance.
#[derive(Clone, Copy, Debug, PartialEq, Eq, Structural)]
pub struct Summary {
    pub qty: QtyLots,
    pub entry: PriceTicks,
    pub short_qty: QtyLots,
    pub short_entry: PriceTicks,
    pub balance: Cash,
    pub realized: Cash,
    pub funding: Cash,
    pub fees: Cash,
    pub equity: Cash,
    pub mark: PriceTicks,
    pub now: Nanos,
}

/// A depth update leaves a matcher in one state.
pub proof fn lemma_depth_determined(before: MatcherView, update: DepthView, after: MatcherView)
    requires
        before.wf(),
        after.after_depth(before, update),
    ensures
        depth_applied(before, update) == after,
{
    let other = depth_applied(before, update);
    assert(other.after_depth(before, update));
    match (before, after, other) {
        (MatcherView::L2(b), MatcherView::L2(x), MatcherView::L2(y)) => {
            if b.venue.verdict(update) == Ok::<Applied, SequenceError>(Applied::Updated) {
                law_levels_are_determined(x.venue.bids, y.venue.bids);
                law_levels_are_determined(x.venue.asks, y.venue.asks);
                assert(x.venue =~= y.venue);
            }
        },
        _ => {},
    }
}

/// A snapshot leaves a matcher in one state.
pub proof fn lemma_snapshot_determined(
    before: MatcherView,
    update_id: u64,
    bids: Seq<Level>,
    asks: Seq<Level>,
    after: MatcherView,
)
    requires
        after.after_snapshot(before, update_id, bids, asks),
    ensures
        snapshot_applied(before, update_id, bids, asks) == after,
{
    let other = snapshot_applied(before, update_id, bids, asks);
    assert(other.after_snapshot(before, update_id, bids, asks));
    match (before, after, other) {
        (MatcherView::L2(b), MatcherView::L2(x), MatcherView::L2(y)) => {
            law_levels_are_determined(x.venue.bids, y.venue.bids);
            law_levels_are_determined(x.venue.asks, y.venue.asks);
            assert(x.venue =~= y.venue);
        },
        _ => {},
    }
}

/// The average of two prices by size.
fn average_entry(held: i64, entry: PriceTicks, added: i64, price: PriceTicks) -> (r: PriceTicks)
    requires
        held >= 0,
        added >= 0,
        held + added > 0,
    ensures
        r == averaged(held, entry, added, price),
{
    proof {
        lemma_product_bound(
            entry.0 as int,
            held as int,
            0x8000_0000_0000_0000,
            0x7fff_ffff_ffff_ffff,
        );
        lemma_product_bound(
            price.0 as int,
            added as int,
            0x8000_0000_0000_0000,
            0x7fff_ffff_ffff_ffff,
        );
    }
    let notional: i128 = wide_mul(entry.0, held) + wide_mul(price.0, added);
    PriceTicks(saturate(truncated_div(notional, held as i128 + added as i128)))
}

impl State {
    /// A fresh account with an L0 matcher.
    pub fn new(
        instrument: InstrumentId,
        contract: Contract,
        table: TierTable,
        starting_balance: Cash,
    ) -> (r: Self)
        requires
            table@.len() > 0,
        ensures
            r@.wf(),
            r@ == (StateView {
                engine: MatcherView::L0(L0View::fresh(instrument)),
                contract,
                table: table@,
                mode: PositionMode::OneWay,
                qty: QtyLots(0),
                entry: PriceTicks(0),
                short_qty: QtyLots(0),
                short_entry: PriceTicks(0),
                balance: starting_balance,
                realized: Cash(0),
                funding: Cash(0),
                fees: Cash(0),
                fee_schedule: Fees { maker: Ratio(0), taker: Ratio(0) },
                now: Nanos(0),
                mark: PriceTicks(0),
                enforce_liquidation: true,
                matching: Matching::Simulated,
            }),
    {
        State {
            engine: Matcher::l0(instrument),
            contract,
            table,
            mode: PositionMode::OneWay,
            qty: QtyLots(0),
            entry: PriceTicks(0),
            short_qty: QtyLots(0),
            short_entry: PriceTicks(0),
            balance: starting_balance,
            realized: Cash(0),
            funding: Cash(0),
            fees: Cash(0),
            fee_schedule: Fees::none(),
            now: Nanos(0),
            mark: PriceTicks(0),
            enforce_liquidation: true,
            matching: Matching::Simulated,
        }
    }

    /// The same state charging fees.
    pub fn with_fees(self, fees: Fees) -> (r: Self)
        ensures
            r@ == (StateView { fee_schedule: fees, ..self@ }),
    {
        let mut s = self;
        s.fee_schedule = fees;
        s
    }

    /// The same state with liquidation disabled.
    pub fn without_liquidation(self) -> (r: Self)
        ensures
            r@ == (StateView { enforce_liquidation: false, ..self@ }),
    {
        let mut s = self;
        s.enforce_liquidation = false;
        s
    }

    /// The same state under another accounting.
    pub fn with_mode(self, mode: PositionMode) -> (r: Self)
        ensures
            r@ == (StateView { mode, ..self@ }),
    {
        let mut s = self;
        s.mode = mode;
        s
    }

    /// The same state with another matcher.
    pub fn matching_with(self, engine: Matcher) -> (r: Self)
        ensures
            r@ == (StateView { engine: engine@, ..self@ }),
    {
        let mut s = self;
        s.engine = engine;
        s
    }

    /// The position, for a margin question.
    pub fn position(&self) -> (r: MarginedPosition)
        ensures
            r == self@.position(),
    {
        MarginedPosition::new(self.contract, self.entry, self.qty, self.balance)
    }

    /// The short leg, for a margin question.
    pub fn short_position(&self) -> (r: MarginedPosition)
        ensures
            r == (MarginedPosition {
                contract: self.contract,
                entry: self.short_entry,
                qty: self.short_qty,
                balance: self.balance,
            }),
    {
        MarginedPosition::new(self.contract, self.short_entry, self.short_qty, self.balance)
    }

    /// Balance and unrealized gain.
    pub fn equity(&self) -> (r: Cash)
        ensures
            r == self@.equity(),
    {
        self.balance.add(self.unrealized())
    }

    /// Gain on both legs at the mark.
    pub fn unrealized(&self) -> (r: Cash)
        ensures
            r == self@.unrealized(),
    {
        let long = if self.qty.is_zero() {
            Cash(0)
        } else {
            self.contract.unrealized(self.entry, self.mark, self.qty)
        };
        let short = if self.short_qty.is_zero() {
            Cash(0)
        } else {
            self.contract.unrealized(self.short_entry, self.mark, self.short_qty)
        };
        long.add(short)
    }

    /// What both legs together must keep. A flat net still posts margin on
    /// both legs.
    pub fn maintenance(&self, mark: PriceTicks) -> (r: Cash)
        requires
            self@.table.len() > 0,
        ensures
            r == self@.maintenance(mark),
    {
        let long = if self.qty.is_zero() {
            Cash(0)
        } else {
            self.table.maintenance(self.contract, mark, self.qty)
        };
        let short = if self.short_qty.is_zero() {
            Cash(0)
        } else {
            self.table.maintenance(self.contract, mark, self.short_qty)
        };
        long.add(short)
    }

    pub fn is_flat(&self) -> (r: bool)
        ensures
            r == self@.flat(),
    {
        self.qty.is_zero() && self.short_qty.is_zero()
    }

    fn take_profit(&mut self, pnl: Cash)
        ensures
            final(self)@ == old(self)@.realize(pnl),
    {
        self.realized = self.realized.add(pnl);
        self.balance = self.balance.add(pnl);
    }

    /// Book a fill's effect on the position.
    pub fn apply_fill(&mut self, fill: &Fill)
        ensures
            final(self)@ == old(self)@.fill(*fill),
    {
        let ghost start = self@;
        if self.mode == PositionMode::Hedge {
            self.apply_fill_hedged(fill);
            return ;
        }
        let change = fill.position_delta();
        let old_qty = self.qty;
        let new_qty = old_qty.add(change);
        let reduces = old_qty.0 != 0 && (old_qty.0 > 0) != (change.0 > 0);
        let entry = if new_qty.0 == 0 {
            PriceTicks(0)
        } else if old_qty.0 == 0 || (old_qty.0 > 0) == (new_qty.0 > 0) && !reduces {
            average_entry(sat_abs(old_qty.0), self.entry, sat_abs(change.0), fill.price)
        } else if (old_qty.0 > 0) != (new_qty.0 > 0) {
            fill.price
        } else {
            self.entry
        };
        if reduces {
            let a: i64 = sat_abs(change.0);
            let b: i64 = sat_abs(old_qty.0);
            let closed: i64 = if a < b {
                a
            } else {
                b
            };
            let way: i64 = if old_qty.0 > 0 {
                1
            } else {
                -1
            };
            let pnl = self.contract.unrealized(
                self.entry,
                fill.price,
                QtyLots(sat_mul(closed, way)),
            );
            self.take_profit(pnl);
        }
        self.entry = entry;
        self.qty = new_qty;
        assert(self@ =~= start.fill_netted(*fill));
    }

    fn apply_fill_hedged(&mut self, fill: &Fill)
        ensures
            final(self)@ == old(self)@.fill_hedged(*fill),
    {
        let ghost start = self@;
        let opens = fill.offset == Offset::Open;
        let long_leg = (fill.side == Side::Buy) == opens;
        if opens {
            if long_leg {
                let (q, e) = State::blend(self.qty, self.entry, fill.qty, fill.price, 1);
                self.qty = q;
                self.entry = e;
            } else {
                let (q, e) = State::blend(
                    self.short_qty,
                    self.short_entry,
                    fill.qty,
                    fill.price,
                    -1,
                );
                self.short_qty = q;
                self.short_entry = e;
            }
            assert(self@ =~= start.fill_hedged(*fill));
            return ;
        }
        let (held, entry) = if long_leg {
            (self.qty, self.entry)
        } else {
            (self.short_qty, self.short_entry)
        };
        if held.0 == 0 {
            return ;
        }
        let size: i64 = sat_abs(held.0);
        let closing: i64 = if fill.qty.0 < size {
            fill.qty.0
        } else {
            size
        };
        let way: i64 = if held.0 > 0 {
            1
        } else {
            -1
        };
        let closed = QtyLots(sat_mul(closing, way));
        let pnl = self.contract.unrealized(entry, fill.price, closed);
        self.take_profit(pnl);
        let left = QtyLots(sat_sub(held.0, closed.0));
        let left_entry = if left.0 == 0 {
            PriceTicks(0)
        } else {
            entry
        };
        if long_leg {
            self.qty = left;
            self.entry = left_entry;
        } else {
            self.short_qty = left;
            self.short_entry = left_entry;
        }
        assert(self@ =~= start.fill_hedged(*fill));
    }

    /// A leg with more opened on it.
    fn blend(held: QtyLots, entry: PriceTicks, more: QtyLots, price: PriceTicks, sign: i64) -> (r: (
        QtyLots,
        PriceTicks,
    ))
        ensures
            r == blended(held, entry, more, price, sign as int),
    {
        let size: i64 = sat_abs(held.0);
        let total: i64 = sat_add(size, more.0);
        if total == 0 {
            return (QtyLots(0), PriceTicks(0));
        }
        proof {
            lemma_product_bound(
                entry.0 as int,
                size as int,
                0x8000_0000_0000_0000,
                0x7fff_ffff_ffff_ffff,
            );
        }
        let notional: i128 = wide_mul(entry.0, size) + wide_mul(price.0, more.0);
        (QtyLots(sat_mul(sign, total)), PriceTicks(saturate(signed_div(notional, total as i128))))
    }

    /// Close the position at `price` because the venue liquidated it. Both
    /// legs close and every order is withdrawn.
    fn liquidate(&mut self, price: PriceTicks) -> (r: Output)
        requires
            old(self)@.wf(),
        ensures
            final(self)@ == old(self)@.liquidated(price),
            final(self)@.wf(),
            r == (Output::Liquidated {
                at: old(self)@.now,
                price,
                qty: QtyLots(clamp_i64(old(self)@.qty.0 + old(self)@.short_qty.0)),
                equity: final(self)@.balance,
            }),
    {
        let ghost start = self@;
        let pnl = self.contract.unrealized(self.entry, price, self.qty).add(
            self.contract.unrealized(self.short_entry, price, self.short_qty),
        );
        self.take_profit(pnl);
        let qty = QtyLots(sat_add(self.qty.0, self.short_qty.0));
        self.qty = QtyLots(0);
        self.entry = PriceTicks(0);
        self.short_qty = QtyLots(0);
        self.short_entry = PriceTicks(0);
        let _n = self.engine.cancel_all();
        assert(self@ =~= start.liquidated(price));
        Output::Liquidated { at: self.now, price, qty, equity: self.balance }
    }
}

/// A kernel's state in full, for comparing two of them.
#[derive(Debug, PartialEq, Eq)]
pub struct Fingerprint {
    pub summary: Summary,
    /// Resting orders and what is left of each.
    pub book: Vec<(OrderId, i64)>,
    pub working: Vec<OrderId>,
    pub enforce_liquidation: bool,
    pub id_watermark: (u64, u64),
}

impl Clone for Fingerprint {
    fn clone(&self) -> (r: Self)
        ensures
            r.summary == self.summary,
            r.book@ == self.book@,
            r.working@ == self.working@,
            r.enforce_liquidation == self.enforce_liquidation,
            r.id_watermark == self.id_watermark,
    {
        Fingerprint {
            summary: self.summary,
            book: copy_all(&self.book),
            working: copy_all(&self.working),
            enforce_liquidation: self.enforce_liquidation,
            id_watermark: (self.id_watermark.0, self.id_watermark.1),
        }
    }
}

fn drop_id(working: &Vec<OrderId>, id: OrderId) -> (r: Vec<OrderId>)
    ensures
        r@ == without_id(working@, id),
{
    let ghost keep = other_than(id);
    let mut out: Vec<OrderId> = Vec::new();
    let mut i: usize = 0;
    proof {
        reveal(Seq::filter);
        assert(working@.subrange(0, 0) =~= Seq::<OrderId>::empty());
    }
    while i < working.len()
        invariant
            i <= working@.len(),
            keep == other_than(id),
            out@ == working@.subrange(0, i as int).filter(keep),
        decreases working@.len() - i,
    {
        proof {
            reveal(Seq::filter);
            assert(working@.subrange(0, i + 1).drop_last() =~= working@.subrange(0, i as int));
        }
        if working[i] != id {
            out.push(working[i]);
        }
        i += 1;
    }
    assert(working@.subrange(0, i as int) =~= working@);
    out
}

/// Whether a list holds an id.
pub fn has_id(list: &Vec<OrderId>, id: OrderId) -> (r: bool)
    ensures
        r == list@.contains(id),
{
    let mut i: usize = 0;
    while i < list.len()
        invariant
            i <= list@.len(),
            forall|k: int| 0 <= k < i ==> #[trigger] list@[k] != id,
        decreases list@.len() - i,
    {
        if list[i] == id {
            assert(list@[i as int] == id);
            return true;
        }
        i += 1;
    }
    false
}

impl Kernel {
    /// What the last event produced.
    pub closed spec fn last_outputs(&self) -> Seq<Output> {
        self.outputs@
    }

    spec fn step(&self) -> Step {
        Step { kernel: self@, outputs: self.outputs@ }
    }

    pub fn new(state: State) -> (r: Self)
        ensures
            r@ == (KernelView { state: state@, working: Seq::empty(), depth: None }),
    {
        Kernel { state, outputs: Vec::new(), working: Vec::new(), depth: None }
    }

    pub fn state(&self) -> (r: &State)
        ensures
            r@ == self@.state,
    {
        &self.state
    }

    /// Orders accepted and not yet finished with.
    pub fn working(&self) -> (r: &Vec<OrderId>)
        ensures
            r@ == self@.working,
    {
        &self.working
    }

    /// What became of the last depth update.
    pub fn depth_outcome(&self) -> (r: Option<DepthOutcome>)
        ensures
            r == self@.depth,
    {
        self.depth
    }

    /// Apply one event. Every input is an event and every result an output.
    pub fn apply(&mut self, event: &Event) -> (r: &Vec<Output>)
        requires
            old(self)@.wf(),
        ensures
            (Step { kernel: final(self)@, outputs: r@ }) == old(self)@.apply(event@),
            final(self)@.wf(),
    {
        reveal(KernelView::apply);
        let ghost start = self@;
        self.outputs.clear();
        assert(self.step() =~= start.start());
        match event {
            Event::Tick(tick) => {
                self.on_tick(tick);
            },
            Event::Submit { id, side, price, qty, offset, stamp } => {
                let order = match price {
                    Some(p) => limit_order(*id, *side, *p, *qty, *stamp, *offset),
                    None => market_order(*id, *side, *qty, *stamp, *offset),
                };
                self.on_submit(order);
            },
            Event::Cancel { id, .. } => {
                self.on_cancel(*id);
            },
            Event::Funding { at, rate, mark } => {
                self.on_funding(*at, *rate, *mark);
            },
            Event::Time(at) => {
                self.state.now = *at;
                assert(self.step() =~= start.apply(event@));
            },
            Event::MarginDeposit { amount, at } => {
                self.state.now = *at;
                self.state.balance = self.state.balance.add(Cash(*amount));
                assert(self.step() =~= start.apply(event@));
            },
            Event::VenueFill(fill) => {
                self.on_venue_fill(fill);
            },
            Event::Depth(update) => {
                let _outcome = self.apply_depth(update);
                assert(self.step() =~= start.apply(event@));
            },
        }
        &self.outputs
    }

    fn on_cancel(&mut self, id: OrderId)
        requires
            old(self)@.wf(),
            old(self).outputs@ == Seq::<Output>::empty(),
        ensures
            final(self).step() == old(self)@.on_cancel(id),
            final(self)@.wf(),
    {
        let ghost start = self@;
        if self.state.engine.cancel(id) {
            self.working = drop_id(&self.working, id);
            self.outputs.push(Output::Cancelled(id));
        } else {
            proof {
                lemma_cancel_nothing(start.state.engine, id);
            }
        }
        assert(self.step() =~= start.on_cancel(id));
    }

    fn on_funding(&mut self, at: Nanos, rate: Ratio, mark: PriceTicks)
        requires
            old(self)@.wf(),
            old(self).outputs@ == Seq::<Output>::empty(),
        ensures
            final(self).step() == old(self)@.on_funding(at, rate, mark),
            final(self)@.wf(),
    {
        let ghost start = self@;
        self.state.now = at;
        if !self.state.qty.is_zero() {
            let amount = FundingRate::new(at, rate, mark).settle(
                self.state.contract,
                self.state.qty,
            );
            self.state.balance = self.state.balance.add(amount);
            self.state.funding = self.state.funding.add(amount);
            self.outputs.push(Output::Funded { amount, at });
            let ghost paid = StateView {
                now: at,
                balance: start.state.balance.plus(amount),
                funding: start.state.funding.plus(amount),
                ..start.state
            };
            assert(self.step() =~= start.start().with_state(paid).say(
                Output::Funded { amount, at },
            ));
            self.check_liquidation(mark);
        } else {
            assert(self.step() =~= start.on_funding(at, rate, mark));
        }
    }

    fn on_submit(&mut self, order: Working)
        requires
            old(self)@.wf(),
            old(self).outputs@ == Seq::<Output>::empty(),
        ensures
            final(self).step() == old(self)@.on_submit(order),
            final(self)@.wf(),
    {
        let ghost start = self@;
        if order.remaining.0 <= 0 {
            self.outputs.push(
                Output::Rejected { id: order.id, reason: RejectReason::NonPositiveQty },
            );
        } else if has_id(&self.working, order.id) {
            self.outputs.push(Output::Rejected { id: order.id, reason: RejectReason::DuplicateId });
        } else if self.state.balance.0 <= 0 {
            self.outputs.push(Output::Rejected { id: order.id, reason: RejectReason::NoMargin });
        } else {
            self.state.engine.submit(order, order.stamp.exch);
            self.working.push(order.id);
        }
        assert(self.step() =~= start.on_submit(order));
    }

    /// Apply a depth update to the matcher.
    pub fn apply_depth(&mut self, update: &DepthUpdate) -> (r: DepthOutcome)
        requires
            old(self)@.wf(),
        ensures
            r == old(self)@.state.engine.depth_outcome(update@),
            final(self)@ == old(self)@.on_depth(update@),
            final(self)@.wf(),
            final(self).last_outputs() == old(self).last_outputs(),
    {
        let ghost start = self@;
        let outcome = self.state.engine.on_depth(update);
        proof {
            lemma_depth_determined(start.state.engine, update@, self.state.engine@);
        }
        self.depth = Some(outcome);
        assert(self@ =~= start.on_depth(update@));
        outcome
    }

    /// Seed the matcher's venue book, where it keeps one.
    pub fn install_snapshot(&mut self, update_id: u64, bids: &[Level], asks: &[Level]) -> (r: bool)
        requires
            old(self)@.wf(),
        ensures
            r == (old(self)@.state.engine is L2),
            final(self)@ == (KernelView {
                state: StateView {
                    engine: snapshot_applied(old(self)@.state.engine, update_id, bids@, asks@),
                    ..old(self)@.state
                },
                ..old(self)@
            }),
            final(self)@.wf(),
    {
        let ghost start = self@;
        let kept = self.state.engine.install_snapshot(update_id, bids, asks);
        proof {
            lemma_snapshot_determined(
                start.state.engine,
                update_id,
                bids@,
                asks@,
                self.state.engine@,
            );
        }
        kept
    }

    /// Charge and book a fill, and take its order off the working list.
    fn settle(&mut self, fill: &Fill)
        requires
            old(self)@.wf(),
        ensures
            final(self).step() == old(self).step().book_fill(*fill),
            final(self)@.wf(),
    {
        let ghost start = self.step();
        let fee = self.state.fee_schedule.charge(self.state.contract, fill);
        self.state.fees = self.state.fees.add(fee);
        self.state.balance = self.state.balance.sub(fee);
        let ghost charged = self.state@;
        self.state.apply_fill(fill);
        proof {
            lemma_fill_keeps(charged, *fill);
        }
        self.working = drop_id(&self.working, fill.order);
        self.outputs.push(Output::Filled(*fill));
        assert(self.step() =~= start.book_fill(*fill));
    }

    fn on_venue_fill(&mut self, fill: &Fill)
        requires
            old(self)@.wf(),
            old(self).outputs@ == Seq::<Output>::empty(),
        ensures
            final(self).step() == old(self)@.on_venue_fill(*fill),
            final(self)@.wf(),
    {
        let ghost start = self@;
        if self.state.matching != Matching::Venue {
            self.outputs.push(
                Output::Rejected { id: fill.order, reason: RejectReason::NotVenueMatched },
            );
            assert(self.step() =~= start.on_venue_fill(*fill));
            return ;
        }
        self.state.now = fill.stamp.exch;
        let _held = self.state.engine.cancel(fill.order);
        assert(self.step() =~= start.start().with_state(
            StateView {
                now: fill.stamp.exch,
                engine: start.state.engine.cancel(fill.order),
                ..start.state
            },
        ));
        self.settle(fill);
        self.check_liquidation(fill.price);
    }

    fn on_tick(&mut self, tick: &Tick)
        requires
            old(self)@.wf(),
            old(self).outputs@ == Seq::<Output>::empty(),
        ensures
            final(self).step() == old(self)@.on_tick(*tick),
            final(self)@.wf(),
    {
        let ghost start = self@;
        self.state.now = tick.stamp.exch;
        self.state.mark = tick.last;
        let ghost seen = StateView { now: tick.stamp.exch, mark: tick.last, ..start.state };
        if self.state.matching == Matching::Venue {
            assert(self.step() =~= start.start().with_state(seen));
            self.check_liquidation(tick.last);
            return ;
        }
        let fills = self.state.engine.on_tick(tick);
        let ghost matched = start.state.engine.on_tick(*tick);
        let ghost begin = start.start().with_state(StateView { engine: matched.engine, ..seen });
        assert(self.step() =~= begin);
        let mut i: usize = 0;
        assert(fills@.subrange(0, 0) =~= Seq::<L0Fill>::empty());
        while i < fills.len()
            invariant
                i <= fills@.len(),
                self@.wf(),
                self.step() == begin.book_all(fills@.subrange(0, i as int)),
            decreases fills@.len() - i,
        {
            proof {
                let done = fills@.subrange(0, i + 1);
                assert(done.drop_last() =~= fills@.subrange(0, i as int));
                assert(done.last() == fills@[i as int]);
            }
            self.settle(&fills[i].fill);
            i += 1;
        }
        assert(fills@.subrange(0, i as int) =~= fills@);
        self.check_liquidation(tick.last);
    }

    /// Close the account if it must be closed at `mark`.
    fn check_liquidation(&mut self, mark: PriceTicks)
        requires
            old(self)@.wf(),
        ensures
            final(self).step() == old(self).step().check(mark),
            final(self)@.wf(),
    {
        let ghost start = self.step();
        if !self.state.enforce_liquidation || self.state.is_flat() {
            return ;
        }
        let liquidatable = if self.state.mode == PositionMode::Hedge {
            self.state.equity().0 < self.state.maintenance(mark).0
        } else {
            self.state.position().is_liquidatable(&self.state.table, mark)
        };
        if liquidatable {
            let out = self.state.liquidate(mark);
            self.working.clear();
            self.outputs.push(out);
            assert(self.step() =~= start.check(mark));
        }
    }

    /// Put an order in the matcher with no questions asked.
    pub fn submit_raw(&mut self, order: Working)
        requires
            old(self)@.wf(),
        ensures
            final(self)@ == (KernelView {
                state: StateView {
                    engine: old(self)@.state.engine.submit(order, order.stamp.exch),
                    ..old(self)@.state
                },
                working: old(self)@.working.push(order.id),
                ..old(self)@
            }),
            final(self)@.wf(),
    {
        self.working.push(order.id());
        self.state.engine.submit(order, order.stamp.exch);
    }

    /// The state in full, for comparing two kernels.
    pub fn fingerprint(&self) -> (r: Fingerprint)
        ensures
            r.summary == self@.summary(),
            r.book@ == self@.state.engine.base().book.all().map_values(
                |x: Resting| (x.order.id, x.order.remaining.0),
            ),
            r.working@ == self@.working,
            r.enforce_liquidation == self@.state.enforce_liquidation,
            r.id_watermark == (
                self@.state.engine.base().orders,
                self@.state.engine.base().trades,
            ),
    {
        let resting = self.state.engine.book().iter();
        let ghost name = |x: Resting| (x.order.id, x.order.remaining.0);
        let mut book: Vec<(OrderId, i64)> = Vec::new();
        let mut i: usize = 0;
        while i < resting.len()
            invariant
                i <= resting@.len(),
                name == (|x: Resting| (x.order.id, x.order.remaining.0)),
                book@ == resting@.map_values(name).subrange(0, i as int),
            decreases resting@.len() - i,
        {
            book.push((resting[i].order.id, resting[i].order.remaining.0));
            i += 1;
            assert(book@ =~= resting@.map_values(name).subrange(0, i as int));
        }
        assert(book@ =~= resting@.map_values(name));
        let mut working: Vec<OrderId> = Vec::new();
        let mut j: usize = 0;
        while j < self.working.len()
            invariant
                j <= self.working@.len(),
                working@ == self.working@.subrange(0, j as int),
            decreases self.working@.len() - j,
        {
            working.push(self.working[j]);
            j += 1;
            assert(working@ =~= self.working@.subrange(0, j as int));
        }
        assert(working@ =~= self.working@);
        Fingerprint {
            summary: self.summary(),
            book,
            working,
            enforce_liquidation: self.state.enforce_liquidation,
            id_watermark: self.state.engine.id_watermark(),
        }
    }

    /// The account at a glance.
    pub fn summary(&self) -> (r: Summary)
        ensures
            r == self@.summary(),
    {
        Summary {
            qty: self.state.qty,
            entry: self.state.entry,
            short_qty: self.state.short_qty,
            short_entry: self.state.short_entry,
            balance: self.state.balance,
            realized: self.state.realized,
            funding: self.state.funding,
            fees: self.state.fees,
            equity: self.state.equity(),
            mark: self.state.mark,
            now: self.state.now,
        }
    }
}

/// A fill touches the position and the money, and nothing else.
pub proof fn lemma_fill_keeps(s: StateView, fill: Fill)
    ensures
        s.fill(fill) == (StateView {
            qty: s.fill(fill).qty,
            entry: s.fill(fill).entry,
            short_qty: s.fill(fill).short_qty,
            short_entry: s.fill(fill).short_entry,
            balance: s.fill(fill).balance,
            realized: s.fill(fill).realized,
            ..s
        }),
{
}

/// Withdrawing an order the matcher does not hold changes nothing.
pub proof fn lemma_cancel_nothing(engine: MatcherView, id: OrderId)
    requires
        !engine.holds(id),
    ensures
        engine.cancel(id) == engine,
{
    match engine {
        MatcherView::L0(e) => {
            assert(e.cancel(id) =~= e);
        },
        MatcherView::L1(e) => {
            assert(e.cancel(id) =~= e);
        },
        MatcherView::L2(e) => {
            assert(e.inner.cancel(id) =~= e.inner);
        },
    }
}

} // verus!

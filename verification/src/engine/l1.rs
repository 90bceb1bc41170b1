//! L1: queue position, entry and response latency, and taker impact.
//!
//! Three things L0 does not model, each of which makes a backtest optimistic
//! in a different way. L1 wraps L0 rather than replacing it: orders are held
//! outside it until they are entitled to be in it, and its fills are adjusted
//! after it produces them. With a policy that models nothing, L1's behaviour
//! is L0's.
//!
//! Every parameter here is an assumption about the market. A tick carries a
//! price path and a cumulative volume; it carries no depth and no latency, so
//! L1 applies a policy instead of measuring.
use crate::engine::book::Book;
use crate::engine::impact::{penalty, penalty_of, Impact};
use crate::engine::l0::{L0Engine, L0Fill, L0View};
use crate::engine::tick::Tick;
use crate::text::{decimal, hundredths, put_decimal, put_hundredths};
use crate::types::{
    clamp_i64, quotient, sat_add, sat_sub, saturate, truncated_div, wide_mul, Fill, InstrumentId,
    Liquidity, Nanos, OrderId, PriceTicks, QtyLots, Side, Working,
};
use vstd::prelude::*;

verus! {

/// How much volume is assumed to be queued ahead of a resting order.
#[derive(Clone, Copy, Debug, PartialEq, Eq, Structural)]
pub enum QueueAhead {
    /// An order fills as soon as trading reaches its price.
    Nothing,
    /// A fixed number of lots, whatever the market is doing.
    Fixed(QtyLots),
    /// A multiple, in hundredths, of the volume that traded in the
    /// observation the order arrived in.
    VolumeMultiple(u32),
}

/// One latency segment: a constant, or the shape a caller measured.
#[derive(Clone, Copy, Debug, PartialEq, Eq, Structural)]
pub enum Delay {
    /// Every order waits the same.
    Fixed(Nanos),
    /// Drawn from four measured quantiles, nearest-rank: half the orders get
    /// `p50`, four in ten `p90`, nine in a hundred `p99`, one in a hundred
    /// `p999`.
    Measured { p50: Nanos, p90: Nanos, p99: Nanos, p999: Nanos },
}

/// SplitMix64, so a draw needs no state.
pub open spec fn mixed(key: u64) -> u64 {
    let z = key.wrapping_add(0x9E37_79B9_7F4A_7C15);
    let x = (z ^ (z >> 30)).wrapping_mul(0xBF58_476D_1CE4_E5B9);
    let y = (x ^ (x >> 27)).wrapping_mul(0x94D0_49BB_1331_11EB);
    y ^ (y >> 31)
}

/// SplitMix64. Counter-based: the delay of one order does not depend on how
/// many orders came before it.
fn mix(key: u64) -> (r: u64)
    ensures
        r == mixed(key),
{
    let z: u64 = key.wrapping_add(0x9E37_79B9_7F4A_7C15);
    let x: u64 = (z ^ (z >> 30)).wrapping_mul(0xBF58_476D_1CE4_E5B9);
    let y: u64 = (x ^ (x >> 27)).wrapping_mul(0x94D0_49BB_1331_11EB);
    y ^ (y >> 31)
}

impl Delay {
    /// The delay an order with this key waits.
    pub open spec fn spec_at(self, key: u64) -> Nanos {
        match self {
            Delay::Fixed(n) => n,
            Delay::Measured { p50, p90, p99, p999 } => {
                let u = mixed(key) % 1000;
                if u < 500 {
                    p50
                } else if u < 900 {
                    p90
                } else if u < 990 {
                    p99
                } else {
                    p999
                }
            },
        }
    }

    pub open spec fn spec_is_zero(self) -> bool {
        match self {
            Delay::Fixed(n) => n.0 == 0,
            Delay::Measured { p50, p90, p99, p999 } => p50.0 == 0 && p90.0 == 0 && p99.0 == 0
                && p999.0 == 0,
        }
    }

    pub open spec fn description(self) -> Seq<char> {
        match self {
            Delay::Fixed(n) => decimal(n.0 as int) + " ns fixed"@,
            Delay::Measured { p50, p90, p99, p999 } => "p50 "@ + decimal(p50.0 as int) + " / p90 "@
                + decimal(p90.0 as int) + " / p99 "@ + decimal(p99.0 as int) + " / p999 "@
                + decimal(p999.0 as int) + " ns"@,
        }
    }

    /// The delay this order waits. The key decides the draw and nothing else
    /// does.
    pub fn at(&self, key: u64) -> (r: Nanos)
        ensures
            r == self.spec_at(key),
    {
        match *self {
            Delay::Fixed(n) => n,
            Delay::Measured { p50, p90, p99, p999 } => {
                let u: u64 = mix(key) % 1000;
                if u < 500 {
                    p50
                } else if u < 900 {
                    p90
                } else if u < 990 {
                    p99
                } else {
                    p999
                }
            },
        }
    }

    /// One segment, for the assumptions line of a fidelity report. A
    /// distribution prints all four points.
    pub fn describe(&self) -> (r: String)
        ensures
            r@ == self.description(),
    {
        let mut out = String::new();
        match *self {
            Delay::Fixed(n) => {
                put_decimal(&mut out, n.0);
                out.append(" ns fixed");
            },
            Delay::Measured { p50, p90, p99, p999 } => {
                out.append("p50 ");
                put_decimal(&mut out, p50.0);
                out.append(" / p90 ");
                put_decimal(&mut out, p90.0);
                out.append(" / p99 ");
                put_decimal(&mut out, p99.0);
                out.append(" / p999 ");
                put_decimal(&mut out, p999.0);
                out.append(" ns");
            },
        }
        assert(out@ =~= self.description());
        out
    }

    /// Whether this segment delays nothing.
    pub fn is_zero(&self) -> (r: bool)
        ensures
            r == self.spec_is_zero(),
    {
        match *self {
            Delay::Fixed(n) => n.0 == 0,
            Delay::Measured { p50, p90, p99, p999 } => p50.0 == 0 && p90.0 == 0 && p99.0 == 0
                && p999.0 == 0,
        }
    }

    /// The longest this segment can be, for a report.
    pub fn worst(&self) -> (r: Nanos)
        ensures
            r == (match *self {
                Delay::Fixed(n) => n,
                Delay::Measured { p999, .. } => p999,
            }),
    {
        match *self {
            Delay::Fixed(n) => n,
            Delay::Measured { p999, .. } => p999,
        }
    }
}

impl Default for Delay {
    fn default() -> (r: Self)
        ensures
            r == Delay::Fixed(Nanos(0)),
    {
        Delay::Fixed(Nanos(0))
    }
}

/// The latency L1 enforces.
#[derive(Clone, Copy, Debug, PartialEq, Eq, Structural)]
pub struct Latency {
    /// From the strategy's decision to the order being live at the venue.
    pub entry: Delay,
    /// From the fill happening to the strategy being told.
    pub response: Delay,
}

impl Default for Latency {
    fn default() -> (r: Self)
        ensures
            r == (Latency { entry: Delay::Fixed(Nanos(0)), response: Delay::Fixed(Nanos(0)) }),
    {
        Latency { entry: Delay::Fixed(Nanos(0)), response: Delay::Fixed(Nanos(0)) }
    }
}

/// Everything L1 assumes.
#[derive(Clone, Copy, Debug, PartialEq, Eq, Structural)]
pub struct Policy {
    /// Volume assumed ahead of a resting order.
    pub queue: QueueAhead,
    /// Delays applied to entry and to fill reporting.
    pub latency: Latency,
    /// Taker impact.
    pub impact: Impact,
}

impl Policy {
    pub open spec fn spec_transparent() -> Policy {
        Policy {
            queue: QueueAhead::Nothing,
            latency: Latency { entry: Delay::Fixed(Nanos(0)), response: Delay::Fixed(Nanos(0)) },
            impact: Impact { coefficient: 0 },
        }
    }

    /// A policy that models nothing, so L1 reproduces L0 exactly. Not a
    /// default: a default policy would be one a caller could get without
    /// choosing it.
    pub fn transparent() -> (r: Policy)
        ensures
            r == Policy::spec_transparent(),
    {
        Policy {
            queue: QueueAhead::Nothing,
            latency: Latency { entry: Delay::Fixed(Nanos(0)), response: Delay::Fixed(Nanos(0)) },
            impact: Impact { coefficient: 0 },
        }
    }

    /// Whether the policy changes nothing, however it is written.
    pub open spec fn nothing(self) -> bool {
        &&& self.queue is Nothing
        &&& self.latency.entry.spec_is_zero()
        &&& self.latency.response.spec_is_zero()
        &&& self.impact.coefficient == 0
    }

    /// Whether this policy changes nothing at all.
    pub fn models_nothing(&self) -> (r: bool)
        ensures
            r == self.nothing(),
    {
        let unqueued = match self.queue {
            QueueAhead::Nothing => true,
            _ => false,
        };
        unqueued && self.latency.entry.is_zero() && self.latency.response.is_zero()
            && self.impact.coefficient == 0
    }

    pub open spec fn queue_text(self) -> Seq<char> {
        match self.queue {
            QueueAhead::Nothing => "no queue assumed"@,
            QueueAhead::Fixed(q) => decimal(q.0 as int) + " lots assumed queued ahead"@,
            QueueAhead::VolumeMultiple(m) => hundredths(m as nat)
                + "x the arrival observation's volume assumed queued ahead"@,
        }
    }

    pub open spec fn description(self) -> Seq<char> {
        if self.nothing() {
            "L1 with a transparent policy: queue, latency and impact all switched off, so this run is L0 wearing L1's name"@
        } else {
            "queue: "@ + self.queue_text() + "; entry latency "@ + self.latency.entry.description()
                + ", response latency "@ + self.latency.response.description()
                + "; impact coefficient "@ + hundredths(self.impact.coefficient as nat)
                + ". Every figure is an assumption about this market, not a measurement of it."@
        }
    }

    /// The assumptions, for a fidelity report.
    pub fn describe(&self) -> (r: String)
        ensures
            r@ == self.description(),
    {
        let mut out = String::new();
        if self.models_nothing() {
            out.append(
                "L1 with a transparent policy: queue, latency and impact all switched off, so this run is L0 wearing L1's name",
            );
            assert(out@ =~= self.description());
            return out;
        }
        out.append("queue: ");
        let ghost head = out@;
        match self.queue {
            QueueAhead::Nothing => {
                out.append("no queue assumed");
            },
            QueueAhead::Fixed(q) => {
                put_decimal(&mut out, q.0);
                out.append(" lots assumed queued ahead");
            },
            QueueAhead::VolumeMultiple(m) => {
                put_hundredths(&mut out, m);
                out.append("x the arrival observation's volume assumed queued ahead");
            },
        }
        assert(out@ =~= head + self.queue_text());
        out.append("; entry latency ");
        out.append(self.latency.entry.describe().as_str());
        out.append(", response latency ");
        out.append(self.latency.response.describe().as_str());
        out.append("; impact coefficient ");
        put_hundredths(&mut out, self.impact.coefficient);
        out.append(". Every figure is an assumption about this market, not a measurement of it.");
        assert(out@ =~= self.description());
        out
    }
}

/// An order waiting to become live at the venue.
#[derive(Clone, Copy, Debug, PartialEq, Eq, Structural)]
pub struct Pending {
    pub live_at: Nanos,
    pub order: Working,
    /// The queue measured ahead of it when it was sent, where one was.
    pub ahead: Option<i64>,
}

/// A resting order's remaining queue.
#[derive(Clone, Copy, Debug, PartialEq, Eq, Structural)]
pub struct Queued {
    /// Lots that must trade at or through this price before the order can
    /// fill.
    pub remaining: i64,
    pub order: Working,
}

/// A fill the venue has made and the strategy has not been told about.
#[derive(Clone, Copy, Debug, PartialEq, Eq, Structural)]
pub struct Delayed {
    pub known_at: Nanos,
    pub fill: L0Fill,
}

/// L0, with L1's assumptions applied around it.
#[derive(Debug)]
pub struct L1Engine {
    inner: L0Engine,
    policy: Policy,
    pending: Vec<Pending>,
    queued: Vec<Queued>,
    delayed: Vec<Delayed>,
    /// Fills released to the caller this observation.
    released: Vec<L0Fill>,
    /// Cumulative volume at the previous observation.
    prev_volume: Option<QtyLots>,
}

/// What an L1 engine holds between observations.
#[verifier::ext_equal]
pub struct L1View {
    pub inner: L0View,
    pub policy: Policy,
    pub pending: Seq<Pending>,
    pub queued: Seq<Queued>,
    pub delayed: Seq<Delayed>,
    pub prev_volume: Option<QtyLots>,
}

/// An L1 engine and the fills of an observation.
#[verifier::ext_equal]
pub struct L1Run {
    pub engine: L1View,
    pub fills: Seq<L0Fill>,
}

impl View for L1Engine {
    type V = L1View;

    closed spec fn view(&self) -> L1View {
        L1View {
            inner: self.inner@,
            policy: self.policy,
            pending: self.pending@,
            queued: self.queued@,
            delayed: self.delayed@,
            prev_volume: self.prev_volume,
        }
    }
}

/// Whether this observation traded at the order's price at all.
pub open spec fn spec_touched(tick: Tick, price: PriceTicks) -> bool {
    tick.low.0 <= price.0 <= tick.high.0
}

/// Whether the price went clean through, leaving nothing ahead.
pub open spec fn spec_gapped_through(tick: Tick, side: Side, price: PriceTicks) -> bool {
    match side {
        Side::Buy => tick.high.0 < price.0,
        Side::Sell => tick.low.0 > price.0,
    }
}

/// What an observation leaves of a queue: nothing, where the order has
/// reached the front.
pub open spec fn waited(q: Queued, tick: Tick, traded: i64) -> Option<Queued> {
    match q.order.spec_price() {
        None => None,
        Some(price) => if spec_gapped_through(tick, q.order.side, price) {
            None
        } else {
            let remaining = if spec_touched(tick, price) {
                clamp_i64(q.remaining - traded)
            } else {
                q.remaining
            };
            if remaining <= 0 {
                None
            } else {
                Some(Queued { remaining, ..q })
            }
        },
    }
}

/// The queues that are still waiting after an observation.
pub open spec fn still_waiting(queued: Seq<Queued>, tick: Tick, traded: i64) -> Seq<Queued>
    decreases queued.len(),
{
    if queued.len() == 0 {
        Seq::empty()
    } else {
        let rest = still_waiting(queued.drop_last(), tick, traded);
        match waited(queued.last(), tick, traded) {
            Some(q) => rest.push(q),
            None => rest,
        }
    }
}

/// The orders that reached the front of their queues.
pub open spec fn promoted(queued: Seq<Queued>, tick: Tick, traded: i64) -> Seq<Working>
    decreases queued.len(),
{
    if queued.len() == 0 {
        Seq::empty()
    } else {
        let rest = promoted(queued.drop_last(), tick, traded);
        match waited(queued.last(), tick, traded) {
            Some(_) => rest,
            None => rest.push(queued.last().order),
        }
    }
}

/// An L0 engine with a run of orders submitted.
pub open spec fn submitted(inner: L0View, orders: Seq<Working>) -> L0View
    decreases orders.len(),
{
    if orders.len() == 0 {
        inner
    } else {
        submitted(inner, orders.drop_last()).submit(orders.last())
    }
}

/// A taker fill worsened by the impact policy.
pub open spec fn worsened(policy: Policy, f: L0Fill, tick: Tick, traded: i64) -> L0Fill {
    let spread = clamp_i64(tick.high.0 - tick.low.0);
    let c = policy.impact.coefficient;
    if c == 0 || f.fill.liquidity != Liquidity::Taker || traded <= 0 || spread <= 0
        || f.fill.qty.0 <= 0 {
        f
    } else {
        let cost = penalty_of(c, spread as int, f.fill.qty.0 as int, traded as int);
        let price = match f.fill.side {
            Side::Buy => PriceTicks(clamp_i64(f.fill.price.0 + cost)),
            Side::Sell => PriceTicks(clamp_i64(f.fill.price.0 - cost)),
        };
        L0Fill { fill: Fill { price, ..f.fill }, ..f }
    }
}

pub open spec fn arrived(p: Pending, now: Nanos) -> bool {
    p.live_at.0 <= now.0
}

pub open spec fn known(d: Delayed, now: Nanos) -> bool {
    d.known_at.0 <= now.0
}

impl L1View {
    pub open spec fn wf(self) -> bool {
        self.inner.wf()
    }

    pub open spec fn fresh(instrument: InstrumentId, policy: Policy) -> L1View {
        L1View {
            inner: L0View::fresh(instrument),
            policy,
            pending: Seq::empty(),
            queued: Seq::empty(),
            delayed: Seq::empty(),
            prev_volume: None,
        }
    }

    /// The queue ahead of an order: the one measured, or the one the policy
    /// assumes. A market order queues for nothing.
    pub open spec fn ahead(
        self,
        order: Working,
        arrival_volume: Option<i64>,
        measured: Option<i64>,
    ) -> i64 {
        match (order.spec_price(), measured, self.policy.queue) {
            (None, _, _) => 0,
            (Some(_), Some(m), _) => m,
            (Some(_), None, QueueAhead::Nothing) => 0,
            (Some(_), None, QueueAhead::Fixed(q)) => q.0,
            (Some(_), None, QueueAhead::VolumeMultiple(m)) => {
                let base: int = match arrival_volume {
                    Some(v) => v as int,
                    None => 0,
                };
                clamp_i64(quotient(m * base, 100))
            },
        }
    }

    /// Put an order into the book, or into a queue in front of it.
    pub open spec fn place(
        self,
        order: Working,
        arrival_volume: Option<i64>,
        measured: Option<i64>,
    ) -> L1View {
        let ahead = self.ahead(order, arrival_volume, measured);
        if ahead > 0 {
            L1View { queued: self.queued.push(Queued { remaining: ahead, order }), ..self }
        } else {
            L1View { inner: self.inner.submit(order), ..self }
        }
    }

    /// Place the arrivals of an observation, in the order they were sent.
    pub open spec fn place_all(self, list: Seq<Pending>, volume: i64) -> L1View
        decreases list.len(),
    {
        if list.len() == 0 {
            self
        } else {
            self.place_all(list.drop_last(), volume).place(
                list.last().order,
                Some(volume),
                list.last().ahead,
            )
        }
    }

    pub open spec fn submit_with_queue(
        self,
        order: Working,
        now: Nanos,
        measured: Option<i64>,
    ) -> L1View {
        if self.policy.latency.entry.spec_is_zero() {
            self.place(order, None, measured)
        } else {
            let live_at = Nanos(
                clamp_i64(now.0 + self.policy.latency.entry.spec_at(order.id.0).0),
            );
            L1View { pending: self.pending.push(Pending { live_at, order, ahead: measured }), ..self }
        }
    }

    pub open spec fn submit(self, order: Working, now: Nanos) -> L1View {
        self.submit_with_queue(order, now, None)
    }

    /// Whether an order is on its way or in a queue.
    pub open spec fn shadows(self, id: OrderId) -> bool {
        ||| exists|i: int| 0 <= i < self.pending.len() && (#[trigger] self.pending[i]).order.id == id
        ||| exists|i: int| 0 <= i < self.queued.len() && (#[trigger] self.queued[i]).order.id == id
    }

    /// Withdraw an order, wherever it is.
    pub open spec fn cancel(self, id: OrderId) -> L1View {
        let pending = self.pending.filter(|p: Pending| p.order.id != id);
        let queued = self.queued.filter(|q: Queued| q.order.id != id);
        if self.shadows(id) {
            L1View { pending, queued, ..self }
        } else {
            L1View { inner: self.inner.cancel(id), ..self }
        }
    }

    /// Every order held: in the book, on its way, and in a queue.
    pub open spec fn held(self) -> nat {
        self.inner.book.len() + self.pending.len() + self.queued.len()
    }

    pub open spec fn cancel_all(self) -> L1View {
        L1View {
            pending: Seq::empty(),
            queued: Seq::empty(),
            inner: self.inner.cancel_all(),
            ..self
        }
    }

    /// Volume that traded in this observation. A counter that went backwards
    /// credits nothing.
    pub open spec fn traded(self, tick: Tick) -> i64 {
        match self.prev_volume {
            None => 0,
            Some(prev) => if tick.volume.0 < prev.0 {
                0
            } else {
                clamp_i64(tick.volume.0 - prev.0)
            },
        }
    }

    /// Orders arrive, queues move, and L0 sees the observation. The fills are
    /// L0's own.
    pub open spec fn observe(self, tick: Tick) -> L1Run {
        let now = tick.stamp.exch;
        let traded = self.traded(tick);
        let landed = L1View {
            pending: self.pending.filter(|p: Pending| !arrived(p, now)),
            ..self
        }.place_all(self.pending.filter(|p: Pending| arrived(p, now)), traded);
        let front = submitted(landed.inner, promoted(landed.queued, tick, traded));
        let run = front.on_tick(tick);
        L1Run {
            engine: L1View {
                inner: run.engine,
                queued: still_waiting(landed.queued, tick, traded),
                ..landed
            },
            fills: run.fills,
        }
    }

    /// Report priced fills, at once or when the response latency has passed.
    pub open spec fn release(self, tick: Tick, fills: Seq<L0Fill>) -> L1Run {
        let now = tick.stamp.exch;
        let response = self.policy.latency.response;
        let engine = L1View { prev_volume: Some(tick.volume), ..self };
        if response.spec_is_zero() {
            L1Run { engine, fills }
        } else {
            let delayed = self.delayed + fills.map_values(
                |f: L0Fill|
                    Delayed {
                        known_at: Nanos(clamp_i64(now.0 + response.spec_at(f.fill.order.0).0)),
                        fill: f,
                    },
            );
            L1Run {
                engine: L1View { delayed: delayed.filter(|d: Delayed| !known(d, now)), ..engine },
                fills: delayed.filter(|d: Delayed| known(d, now)).map_values(
                    |d: Delayed| d.fill,
                ),
            }
        }
    }

    /// One observation: the fills the strategy is entitled to know about.
    pub open spec fn on_tick(self, tick: Tick) -> L1Run {
        let traded = self.traded(tick);
        let run = self.observe(tick);
        run.engine.release(
            tick,
            run.fills.map_values(|f: L0Fill| worsened(self.policy, f, tick, traded)),
        )
    }
}

/// Whether this observation traded at the order's price at all.
fn touched(tick: &Tick, price: PriceTicks) -> (r: bool)
    ensures
        r == spec_touched(*tick, price),
{
    tick.low.0 <= price.0 && price.0 <= tick.high.0
}

/// Whether the price went clean through, leaving nothing ahead.
fn gapped_through(tick: &Tick, side: Side, price: PriceTicks) -> (r: bool)
    ensures
        r == spec_gapped_through(*tick, side, price),
{
    match side {
        Side::Buy => tick.high.0 < price.0,
        Side::Sell => tick.low.0 > price.0,
    }
}

/// What an observation leaves of a queue.
fn wait_on(q: Queued, tick: &Tick, traded: i64) -> (r: Option<Queued>)
    ensures
        r == waited(q, *tick, traded),
{
    match q.order.price() {
        None => None,
        Some(price) => {
            if gapped_through(tick, q.order.side(), price) {
                return None;
            }
            let remaining: i64 = if touched(tick, price) {
                sat_sub(q.remaining, traded)
            } else {
                q.remaining
            };
            if remaining <= 0 {
                None
            } else {
                Some(Queued { remaining, order: q.order })
            }
        },
    }
}

/// Worsen a taker fill by the square-root impact penalty.
pub fn with_impact(policy: &Policy, f: L0Fill, tick: &Tick, traded: i64) -> (r: L0Fill)
    ensures
        r == worsened(*policy, f, *tick, traded),
{
    if policy.impact.coefficient == 0 || f.fill.liquidity != Liquidity::Taker {
        return f;
    }
    if traded <= 0 || f.fill.qty.0 <= 0 {
        return f;
    }
    let spread: i64 = sat_sub(tick.high.0, tick.low.0);
    if spread <= 0 {
        return f;
    }
    let cost: i64 = penalty(policy.impact.coefficient, spread, f.fill.qty.0, traded);
    let price = match f.fill.side {
        Side::Buy => PriceTicks(sat_add(f.fill.price.0, cost)),
        Side::Sell => PriceTicks(sat_sub(f.fill.price.0, cost)),
    };
    L0Fill { fill: Fill { price, ..f.fill }, ..f }
}

/// A fill, for a caller that wants only the fill.
pub fn fills_of(fills: &Vec<L0Fill>) -> (r: Vec<Fill>)
    ensures
        r@ == fills@.map_values(|f: L0Fill| f.fill),
{
    let mut out: Vec<Fill> = Vec::new();
    let mut i: usize = 0;
    while i < fills.len()
        invariant
            i <= fills@.len(),
            out@ == fills@.map_values(|f: L0Fill| f.fill).subrange(0, i as int),
        decreases fills@.len() - i,
    {
        out.push(fills[i].fill);
        i += 1;
        assert(out@ =~= fills@.map_values(|f: L0Fill| f.fill).subrange(0, i as int));
    }
    assert(out@ =~= fills@.map_values(|f: L0Fill| f.fill));
    out
}

proof fn lemma_filter_step<T>(s: Seq<T>, i: int, test: spec_fn(T) -> bool)
    requires
        0 <= i < s.len(),
    ensures
        s.subrange(0, i + 1).filter(test) == (if test(s[i]) {
            s.subrange(0, i).filter(test).push(s[i])
        } else {
            s.subrange(0, i).filter(test)
        }),
{
    reveal(Seq::filter);
    assert(s.subrange(0, i + 1).drop_last() =~= s.subrange(0, i));
}

proof fn lemma_filter_none<T>(s: Seq<T>, test: spec_fn(T) -> bool)
    ensures
        s.subrange(0, 0).filter(test) == Seq::<T>::empty(),
{
    reveal(Seq::filter);
    assert(s.subrange(0, 0) =~= Seq::<T>::empty());
}

/// A filter that finds nothing to remove removes nothing.
proof fn lemma_filter_all<T>(s: Seq<T>, test: spec_fn(T) -> bool)
    requires
        forall|i: int| 0 <= i < s.len() ==> test(#[trigger] s[i]),
    ensures
        s.filter(test) == s,
    decreases s.len(),
{
    reveal(Seq::filter);
    if s.len() > 0 {
        assert(forall|i: int|
            0 <= i < s.drop_last().len() ==> #[trigger] s.drop_last()[i] == s[i]);
        lemma_filter_all(s.drop_last(), test);
        assert(test(s[s.len() - 1]));
        assert(s.drop_last().push(s.last()) =~= s);
    } else {
        assert(s.filter(test) =~= s);
    }
}

impl L1Engine {
    /// Build an L1 engine over a fresh L0.
    pub fn new(instrument: InstrumentId, policy: Policy) -> (r: Self)
        ensures
            r@ == L1View::fresh(instrument, policy),
            r@.wf(),
    {
        L1Engine {
            inner: L0Engine::new(instrument),
            policy,
            pending: Vec::new(),
            queued: Vec::new(),
            delayed: Vec::new(),
            released: Vec::new(),
            prev_volume: None,
        }
    }

    /// The assumptions this engine is running under.
    pub fn policy(&self) -> (r: &Policy)
        ensures
            *r == self@.policy,
    {
        &self.policy
    }

    /// The L0 engine underneath.
    pub fn inner(&self) -> (r: &L0Engine)
        ensures
            r@ == self@.inner,
    {
        &self.inner
    }

    pub fn instrument(&self) -> (r: InstrumentId)
        ensures
            r == self@.inner.instrument,
    {
        self.inner.instrument()
    }

    pub fn last_price(&self) -> (r: Option<PriceTicks>)
        ensures
            r == self@.inner.prev_price,
    {
        self.inner.last_price()
    }

    /// Orders resting in the book: not every order this engine holds.
    pub fn book(&self) -> (r: &Book)
        ensures
            r@ == self@.inner.book,
    {
        self.inner.book()
    }

    pub fn id_watermark(&self) -> (r: (u64, u64))
        ensures
            r == (self@.inner.orders, self@.inner.trades),
    {
        self.inner.id_watermark()
    }

    pub fn restore_ids(&mut self, watermark: (u64, u64))
        ensures
            final(self)@ == (L1View {
                inner: L0View {
                    orders: watermark.0,
                    trades: watermark.1,
                    ..old(self)@.inner
                },
                ..old(self)@
            }),
    {
        self.inner.restore_ids(watermark);
    }

    /// Submit an order. Under a policy with entry latency the order is held
    /// here rather than reaching the book, because an order that is not yet
    /// at the venue cannot trade.
    pub fn submit(&mut self, order: Working, now: Nanos)
        requires
            old(self)@.wf(),
        ensures
            final(self)@ == old(self)@.submit(order, now),
            final(self)@.wf(),
    {
        self.submit_with_queue(order, now, None);
    }

    /// Submit an order with the queue measured ahead of it, where one was. The
    /// measurement belongs to the moment the order was sent and travels with
    /// it.
    pub fn submit_with_queue(&mut self, order: Working, now: Nanos, ahead: Option<i64>)
        requires
            old(self)@.wf(),
        ensures
            final(self)@ == old(self)@.submit_with_queue(order, now, ahead),
            final(self)@.wf(),
    {
        if !self.policy.latency.entry.is_zero() {
            let live_at = Nanos(sat_add(now.0, self.policy.latency.entry.at(order.id().0).0));
            self.pending.push(Pending { live_at, order, ahead });
            return ;
        }
        self.place(order, None, ahead);
    }

    /// Put an order into the book, or into a queue in front of it.
    fn place(&mut self, order: Working, arrival_volume: Option<i64>, measured: Option<i64>)
        requires
            old(self)@.wf(),
        ensures
            final(self)@ == old(self)@.place(order, arrival_volume, measured),
            final(self)@.wf(),
            final(self)@.policy == old(self)@.policy,
    {
        let ahead: i64 = match (order.price(), measured, self.policy.queue) {
            (None, _, _) => 0,
            (Some(_), Some(m), _) => m,
            (Some(_), None, QueueAhead::Nothing) => 0,
            (Some(_), None, QueueAhead::Fixed(q)) => q.0,
            (Some(_), None, QueueAhead::VolumeMultiple(m)) => {
                let base: i64 = match arrival_volume {
                    Some(v) => v,
                    None => 0,
                };
                saturate(truncated_div(wide_mul(m as i64, base), 100))
            },
        };
        if ahead > 0 {
            self.queued.push(Queued { remaining: ahead, order });
        } else {
            self.inner.submit(order);
        }
    }

    /// Withdraw an order, wherever it currently is: waiting to arrive, waiting
    /// in a queue, or resting in the book.
    pub fn cancel(&mut self, id: OrderId) -> (r: bool)
        requires
            old(self)@.wf(),
        ensures
            r == (old(self)@.shadows(id) || old(self)@.inner.book.find(id) is Some),
            final(self)@ == old(self)@.cancel(id),
            final(self)@.wf(),
    {
        let ghost start = self@;
        let ghost keep_p = |p: Pending| p.order.id != id;
        let ghost keep_q = |q: Queued| q.order.id != id;
        let mut hit = false;
        let mut pending: Vec<Pending> = Vec::new();
        let mut i: usize = 0;
        proof {
            lemma_filter_none(self.pending@, keep_p);
            lemma_filter_none(self.queued@, keep_q);
        }
        while i < self.pending.len()
            invariant
                i <= self.pending@.len(),
                self.pending@ == start.pending,
                self@ == start,
                keep_p == (|p: Pending| p.order.id != id),
                pending@ == start.pending.subrange(0, i as int).filter(keep_p),
                hit == (exists|k: int|
                    0 <= k < i && (#[trigger] start.pending[k]).order.id == id),
            decreases self.pending@.len() - i,
        {
            let p = self.pending[i];
            proof {
                lemma_filter_step(start.pending, i as int, keep_p);
            }
            if p.order.id != id {
                pending.push(p);
            } else {
                hit = true;
                assert(start.pending[i as int].order.id == id);
            }
            i += 1;
        }
        let ghost hit_p = hit;
        let mut queued: Vec<Queued> = Vec::new();
        let mut j: usize = 0;
        while j < self.queued.len()
            invariant
                j <= self.queued@.len(),
                self.queued@ == start.queued,
                self@ == start,
                keep_q == (|q: Queued| q.order.id != id),
                queued@ == start.queued.subrange(0, j as int).filter(keep_q),
                hit == (hit_p || exists|k: int|
                    0 <= k < j && (#[trigger] start.queued[k]).order.id == id),
            decreases self.queued@.len() - j,
        {
            let q = self.queued[j];
            proof {
                lemma_filter_step(start.queued, j as int, keep_q);
            }
            if q.order.id != id {
                queued.push(q);
            } else {
                hit = true;
                assert(start.queued[j as int].order.id == id);
            }
            j += 1;
        }
        proof {
            assert(start.pending.subrange(0, i as int) =~= start.pending);
            assert(start.queued.subrange(0, j as int) =~= start.queued);
            assert(hit == start.shadows(id));
        }
        if hit {
            self.pending = pending;
            self.queued = queued;
            return true;
        }
        self.inner.cancel(id)
    }

    /// Withdraw every order, in flight, queued and resting alike; how many
    /// there were, counting no further than `usize` can.
    pub fn cancel_all(&mut self) -> (r: usize)
        requires
            old(self)@.wf(),
        ensures
            r == (if old(self)@.held() > usize::MAX {
                usize::MAX as nat
            } else {
                old(self)@.held()
            }),
            final(self)@ == old(self)@.cancel_all(),
            final(self)@.wf(),
    {
        let waiting: usize = self.pending.len().saturating_add(self.queued.len());
        self.pending.clear();
        self.queued.clear();
        let resting: usize = self.inner.cancel_all();
        waiting.saturating_add(resting)
    }

    /// Orders that exist but are not yet in the book, counting no further
    /// than `usize` can. A risk gate counting resting orders must count these
    /// too: an order in flight is an order that can fill.
    pub fn shadowed(&self) -> (r: usize)
        ensures
            r == (if self@.pending.len() + self@.queued.len() > usize::MAX {
                usize::MAX as nat
            } else {
                self@.pending.len() + self@.queued.len()
            }),
    {
        self.pending.len().saturating_add(self.queued.len())
    }

    /// Orders waiting in a queue.
    pub fn queued(&self) -> (r: usize)
        ensures
            r == self@.queued.len(),
    {
        self.queued.len()
    }

    /// Fills that have happened and not yet been reported.
    pub fn unreported(&self) -> (r: usize)
        ensures
            r == self@.delayed.len(),
    {
        self.delayed.len()
    }

    /// The fills of the last observation.
    pub closed spec fn last_released(&self) -> Seq<L0Fill> {
        self.released@
    }

    /// The fills of the last observation.
    pub fn released(&self) -> (r: &Vec<L0Fill>)
        ensures
            r@ == self.last_released(),
    {
        &self.released
    }

    /// Volume that traded in this observation.
    pub fn traded_volume(&self, tick: &Tick) -> (r: i64)
        ensures
            r == self@.traded(*tick),
    {
        match self.prev_volume {
            None => 0,
            Some(prev) => {
                let d: i64 = sat_sub(tick.volume.0, prev.0);
                if d > 0 {
                    d
                } else {
                    0
                }
            },
        }
    }

    /// Let arrived orders in.
    fn land(&mut self, tick: &Tick, traded: i64)
        requires
            old(self)@.wf(),
        ensures
            final(self)@ == (L1View {
                pending: old(self)@.pending.filter(|p: Pending| !arrived(p, tick.stamp.exch)),
                ..old(self)@
            }).place_all(
                old(self)@.pending.filter(|p: Pending| arrived(p, tick.stamp.exch)),
                traded,
            ),
            final(self)@.wf(),
            final(self)@.policy == old(self)@.policy,
            final(self)@.delayed == old(self)@.delayed,
            final(self)@.prev_volume == old(self)@.prev_volume,
    {
        let now = tick.stamp.exch;
        let ghost start = self@;
        let ghost here = |p: Pending| arrived(p, now);
        let ghost away = |p: Pending| !arrived(p, now);
        let mut arriving: Vec<Pending> = Vec::new();
        let mut waiting: Vec<Pending> = Vec::new();
        let mut i: usize = 0;
        proof {
            lemma_filter_none(start.pending, here);
            lemma_filter_none(start.pending, away);
        }
        while i < self.pending.len()
            invariant
                i <= self.pending@.len(),
                self.pending@ == start.pending,
                self@ == start,
                here == (|p: Pending| arrived(p, now)),
                away == (|p: Pending| !arrived(p, now)),
                arriving@ == start.pending.subrange(0, i as int).filter(here),
                waiting@ == start.pending.subrange(0, i as int).filter(away),
            decreases self.pending@.len() - i,
        {
            let p = self.pending[i];
            proof {
                lemma_filter_step(start.pending, i as int, here);
                lemma_filter_step(start.pending, i as int, away);
            }
            if p.live_at.0 <= now.0 {
                arriving.push(p);
            } else {
                waiting.push(p);
            }
            i += 1;
        }
        assert(start.pending.subrange(0, i as int) =~= start.pending);
        self.pending = waiting;
        let ghost base = self@;
        let mut k: usize = 0;
        assert(arriving@.subrange(0, 0) =~= Seq::<Pending>::empty());
        while k < arriving.len()
            invariant
                k <= arriving@.len(),
                self@.wf(),
                self@.policy == start.policy,
                self@.delayed == start.delayed,
                self@.prev_volume == start.prev_volume,
                self@ == base.place_all(arriving@.subrange(0, k as int), traded),
            decreases arriving@.len() - k,
        {
            let p = arriving[k];
            proof {
                let done = arriving@.subrange(0, k + 1);
                assert(done.drop_last() =~= arriving@.subrange(0, k as int));
                assert(done.last() == p);
            }
            self.place(p.order, Some(traded), p.ahead);
            k += 1;
        }
        assert(arriving@.subrange(0, k as int) =~= arriving@);
        assert(base =~= (L1View { pending: start.pending.filter(away), ..start }));
    }

    /// Move the queues, and put the orders that reached the front in the
    /// book.
    fn move_queues(&mut self, tick: &Tick, traded: i64)
        requires
            old(self)@.wf(),
        ensures
            final(self)@ == (L1View {
                inner: submitted(
                    old(self)@.inner,
                    promoted(old(self)@.queued, *tick, traded),
                ),
                queued: still_waiting(old(self)@.queued, *tick, traded),
                ..old(self)@
            }),
            final(self)@.wf(),
    {
        let ghost start = self@;
        let mut front: Vec<Working> = Vec::new();
        let mut rest: Vec<Queued> = Vec::new();
        let mut i: usize = 0;
        assert(start.queued.subrange(0, 0) =~= Seq::<Queued>::empty());
        while i < self.queued.len()
            invariant
                i <= self.queued@.len(),
                self.queued@ == start.queued,
                self@ == start,
                front@ == promoted(start.queued.subrange(0, i as int), *tick, traded),
                rest@ == still_waiting(start.queued.subrange(0, i as int), *tick, traded),
            decreases self.queued@.len() - i,
        {
            let q = self.queued[i];
            proof {
                let done = start.queued.subrange(0, i + 1);
                assert(done.drop_last() =~= start.queued.subrange(0, i as int));
                assert(done.last() == q);
            }
            match wait_on(q, tick, traded) {
                Some(left) => {
                    rest.push(left);
                },
                None => {
                    front.push(q.order);
                },
            }
            i += 1;
        }
        assert(start.queued.subrange(0, i as int) =~= start.queued);
        self.queued = rest;
        let mut k: usize = 0;
        assert(front@.subrange(0, 0) =~= Seq::<Working>::empty());
        while k < front.len()
            invariant
                k <= front@.len(),
                start.wf(),
                self@.wf(),
                self@ == (L1View {
                    inner: submitted(start.inner, front@.subrange(0, k as int)),
                    queued: rest@,
                    ..start
                }),
            decreases front@.len() - k,
        {
            proof {
                let done = front@.subrange(0, k + 1);
                assert(done.drop_last() =~= front@.subrange(0, k as int));
                assert(done.last() == front@[k as int]);
            }
            self.inner.submit(front[k]);
            k += 1;
        }
        assert(front@.subrange(0, k as int) =~= front@);
    }

    /// Orders arrive, queues move, and L0 sees the observation. What comes
    /// back is L0's own fills, for the caller to price and hand to
    /// [`L1Engine::release`].
    pub fn observe(&mut self, tick: &Tick) -> (r: Vec<L0Fill>)
        requires
            old(self)@.wf(),
        ensures
            (L1Run { engine: final(self)@, fills: r@ }) == old(self)@.observe(*tick),
            final(self)@.wf(),
            final(self)@.policy == old(self)@.policy,
    {
        let ghost start = self@;
        let traded: i64 = self.traded_volume(tick);
        self.land(tick, traded);
        let ghost landed = self@;
        self.move_queues(tick, traded);
        let mut out: Vec<L0Fill> = Vec::new();
        let fills = self.inner.on_tick(tick);
        let mut i: usize = 0;
        while i < fills.len()
            invariant
                i <= fills@.len(),
                out@ == fills@.subrange(0, i as int),
            decreases fills@.len() - i,
        {
            out.push(fills[i]);
            i += 1;
            assert(out@ =~= fills@.subrange(0, i as int));
        }
        assert(out@ =~= fills@);
        assert((L1Run { engine: self@, fills: out@ }) =~= start.observe(*tick));
        out
    }

    /// Report priced fills, at once or when the response latency has passed.
    pub fn release(&mut self, tick: &Tick, priced: Vec<L0Fill>)
        requires
            old(self)@.wf(),
        ensures
            (L1Run { engine: final(self)@, fills: final(self).last_released() }) == old(
                self,
            )@.release(*tick, priced@),
            final(self)@.wf(),
    {
        let ghost start = self@;
        let now = tick.stamp.exch;
        if self.policy.latency.response.is_zero() {
            self.released = priced;
            self.prev_volume = Some(tick.volume);
            return ;
        }
        let response = self.policy.latency.response;
        let ghost name = |f: L0Fill|
            Delayed {
                known_at: Nanos(clamp_i64(now.0 + response.spec_at(f.fill.order.0).0)),
                fill: f,
            };
        let mut i: usize = 0;
        while i < priced.len()
            invariant
                i <= priced@.len(),
                response == start.policy.latency.response,
                name == (|f: L0Fill|
                    Delayed {
                        known_at: Nanos(clamp_i64(now.0 + response.spec_at(f.fill.order.0).0)),
                        fill: f,
                    }),
                self.delayed@ == start.delayed + priced@.map_values(name).subrange(0, i as int),
                self@ == (L1View { delayed: self.delayed@, ..start }),
            decreases priced@.len() - i,
        {
            let fill = priced[i];
            let known_at = Nanos(sat_add(now.0, response.at(fill.fill.order.0).0));
            self.delayed.push(Delayed { known_at, fill });
            i += 1;
            assert(self.delayed@ =~= start.delayed + priced@.map_values(name).subrange(
                0,
                i as int,
            ));
        }
        let ghost all = start.delayed + priced@.map_values(name);
        assert(self.delayed@ =~= all);
        let ghost now_known = |d: Delayed| known(d, now);
        let ghost not_yet = |d: Delayed| !known(d, now);
        let ghost bare = |d: Delayed| d.fill;
        let mut ready: Vec<L0Fill> = Vec::new();
        let mut later: Vec<Delayed> = Vec::new();
        let mut j: usize = 0;
        proof {
            lemma_filter_none(all, now_known);
            lemma_filter_none(all, not_yet);
            assert(Seq::<Delayed>::empty().map_values(bare) =~= Seq::<L0Fill>::empty());
        }
        while j < self.delayed.len()
            invariant
                j <= self.delayed@.len(),
                self.delayed@ == all,
                self@ == (L1View { delayed: all, ..start }),
                now_known == (|d: Delayed| known(d, now)),
                not_yet == (|d: Delayed| !known(d, now)),
                bare == (|d: Delayed| d.fill),
                ready@ == all.subrange(0, j as int).filter(now_known).map_values(bare),
                later@ == all.subrange(0, j as int).filter(not_yet),
            decreases self.delayed@.len() - j,
        {
            let d = self.delayed[j];
            let ghost before = all.subrange(0, j as int).filter(now_known);
            proof {
                lemma_filter_step(all, j as int, now_known);
                lemma_filter_step(all, j as int, not_yet);
            }
            if d.known_at.0 <= now.0 {
                ready.push(d.fill);
                assert(before.push(d).map_values(bare) =~= before.map_values(bare).push(d.fill));
            } else {
                later.push(d);
            }
            j += 1;
        }
        assert(all.subrange(0, j as int) =~= all);
        self.delayed = later;
        self.released = ready;
        self.prev_volume = Some(tick.volume);
        assert((L1Run { engine: self@, fills: self.released@ }) =~= start.release(*tick, priced@));
    }

    /// Advance to an observation and return the fills the strategy is
    /// entitled to know about.
    pub fn on_tick(&mut self, tick: &Tick) -> (r: &Vec<L0Fill>)
        requires
            old(self)@.wf(),
        ensures
            (L1Run { engine: final(self)@, fills: r@ }) == old(self)@.on_tick(*tick),
            final(self)@.wf(),
    {
        let ghost start = self@;
        let policy = self.policy;
        let traded: i64 = self.traded_volume(tick);
        let raw = self.observe(tick);
        let ghost price = |f: L0Fill| worsened(policy, f, *tick, traded);
        let mut priced: Vec<L0Fill> = Vec::new();
        let mut i: usize = 0;
        while i < raw.len()
            invariant
                i <= raw@.len(),
                price == (|f: L0Fill| worsened(policy, f, *tick, traded)),
                priced@ == raw@.map_values(price).subrange(0, i as int),
            decreases raw@.len() - i,
        {
            priced.push(with_impact(&policy, raw[i], tick, traded));
            i += 1;
            assert(priced@ =~= raw@.map_values(price).subrange(0, i as int));
        }
        assert(priced@ =~= raw@.map_values(price));
        self.release(tick, priced);
        &self.released
    }
}

} // verus!

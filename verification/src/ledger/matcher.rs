//! The matcher a run is using, whichever tier it is.
use crate::engine::book::{bumped, Book};
use crate::engine::l0::{L0Engine, L0Fill, L0View};
use crate::engine::l1::{L1Engine, L1View};
use crate::engine::l2::{L2Engine, L2View};
use crate::engine::tick::Tick;
use crate::types::{InstrumentId, Nanos, OrderId, PriceTicks, Working};
use crate::venue::book::{Applied, SequenceError};
use crate::venue::depth::{DepthUpdate, DepthView, Level};
use vstd::prelude::*;

verus! {

/// The matcher a run is using.
#[derive(Debug)]
pub enum Matcher {
    /// Fills at the observation's prices, with no queue, no latency and no
    /// impact.
    L0(L0Engine),
    /// Queue, latency and impact as policy.
    L1(Box<L1Engine>),
    /// The same, with queue and taker cost measured from the venue's book.
    L2(Box<L2Engine>),
}

/// What a matcher holds.
#[verifier::ext_equal]
pub enum MatcherView {
    L0(L0View),
    L1(L1View),
    L2(L2View),
}

/// A matcher and the fills of an observation.
#[verifier::ext_equal]
pub struct Matched {
    pub engine: MatcherView,
    pub fills: Seq<L0Fill>,
}

impl View for Matcher {
    type V = MatcherView;

    open spec fn view(&self) -> MatcherView {
        match *self {
            Matcher::L0(e) => MatcherView::L0(e@),
            Matcher::L1(e) => MatcherView::L1(e@),
            Matcher::L2(e) => MatcherView::L2(e@),
        }
    }
}

/// What a matcher did with a depth update.
#[derive(Clone, Copy, Debug, PartialEq, Eq, Structural)]
pub enum DepthOutcome {
    /// The book advanced.
    Applied,
    /// The book refused it, naming the sequencing rule that broke.
    Refused(SequenceError),
    /// This tier does not read depth.
    NotRead,
}

impl MatcherView {
    pub open spec fn wf(self) -> bool {
        match self {
            MatcherView::L0(e) => e.wf(),
            MatcherView::L1(e) => e.wf(),
            MatcherView::L2(e) => e.wf(),
        }
    }

    /// The L0 engine at the bottom.
    pub open spec fn base(self) -> L0View {
        match self {
            MatcherView::L0(e) => e,
            MatcherView::L1(e) => e.inner,
            MatcherView::L2(e) => e.inner.inner,
        }
    }

    pub open spec fn tier(self) -> Seq<char> {
        match self {
            MatcherView::L0(_) => "L0"@,
            MatcherView::L1(_) => "L1"@,
            MatcherView::L2(_) => "L2"@,
        }
    }

    pub open spec fn submit(self, order: Working, now: Nanos) -> MatcherView {
        match self {
            MatcherView::L0(e) => MatcherView::L0(e.submit(order)),
            MatcherView::L1(e) => MatcherView::L1(e.submit(order, now)),
            MatcherView::L2(e) => MatcherView::L2(e.submit(order, now)),
        }
    }

    /// Whether the matcher holds an order with `id` anywhere.
    pub open spec fn holds(self, id: OrderId) -> bool {
        match self {
            MatcherView::L0(e) => e.book.find(id) is Some,
            MatcherView::L1(e) => e.shadows(id) || e.inner.book.find(id) is Some,
            MatcherView::L2(e) => e.inner.shadows(id) || e.inner.inner.book.find(id) is Some,
        }
    }

    pub open spec fn cancel(self, id: OrderId) -> MatcherView {
        match self {
            MatcherView::L0(e) => MatcherView::L0(e.cancel(id)),
            MatcherView::L1(e) => MatcherView::L1(e.cancel(id)),
            MatcherView::L2(e) => MatcherView::L2(L2View { inner: e.inner.cancel(id), ..e }),
        }
    }

    pub open spec fn cancel_all(self) -> MatcherView {
        match self {
            MatcherView::L0(e) => MatcherView::L0(e.cancel_all()),
            MatcherView::L1(e) => MatcherView::L1(e.cancel_all()),
            MatcherView::L2(e) => MatcherView::L2(L2View { inner: e.inner.cancel_all(), ..e }),
        }
    }

    /// Every order held.
    pub open spec fn held(self) -> nat {
        match self {
            MatcherView::L0(e) => e.book.len(),
            MatcherView::L1(e) => e.held(),
            MatcherView::L2(e) => e.inner.held(),
        }
    }

    pub open spec fn on_tick(self, tick: Tick) -> Matched {
        match self {
            MatcherView::L0(e) => Matched {
                engine: MatcherView::L0(e.on_tick(tick).engine),
                fills: e.on_tick(tick).fills,
            },
            MatcherView::L1(e) => Matched {
                engine: MatcherView::L1(e.on_tick(tick).engine),
                fills: e.on_tick(tick).fills,
            },
            MatcherView::L2(e) => Matched {
                engine: MatcherView::L2(e.on_tick(tick).engine),
                fills: e.on_tick(tick).fills,
            },
        }
    }

    /// What a depth update will be answered with.
    pub open spec fn depth_outcome(self, update: DepthView) -> DepthOutcome {
        match self {
            MatcherView::L2(e) => match e.venue.verdict(update) {
                Ok(_) => DepthOutcome::Applied,
                Err(x) => DepthOutcome::Refused(x),
            },
            _ => DepthOutcome::NotRead,
        }
    }

    /// Whether `self` is `before` once it has been handed a depth update.
    pub open spec fn after_depth(self, before: MatcherView, update: DepthView) -> bool {
        match (before, self) {
            (MatcherView::L2(b), MatcherView::L2(a)) => {
                let verdict = b.venue.verdict(update);
                &&& a.wf()
                &&& a == (L2View {
                    venue: a.venue,
                    refused: if verdict is Err {
                        bumped(b.refused)
                    } else {
                        b.refused
                    },
                    ..b
                })
                &&& if verdict == Ok::<Applied, SequenceError>(Applied::Updated) {
                    a.venue.advanced(b.venue, update)
                } else {
                    a.venue == b.venue
                }
            },
            (MatcherView::L2(_), _) => false,
            _ => self == before,
        }
    }

    /// Whether `self` is `before` with a snapshot installed.
    pub open spec fn after_snapshot(
        self,
        before: MatcherView,
        update_id: u64,
        bids: Seq<Level>,
        asks: Seq<Level>,
    ) -> bool {
        match (before, self) {
            (MatcherView::L2(b), MatcherView::L2(a)) => {
                &&& a == (L2View { venue: a.venue, ..b })
                &&& a.venue.seeded(update_id, bids, asks)
            },
            (MatcherView::L2(_), _) => false,
            _ => self == before,
        }
    }

    /// Orders that exist but are not yet in the book.
    pub open spec fn waiting(self) -> nat {
        match self {
            MatcherView::L0(_) => 0,
            MatcherView::L1(e) => e.pending.len() + e.queued.len(),
            MatcherView::L2(e) => e.inner.pending.len() + e.inner.queued.len(),
        }
    }

    pub open spec fn with_ids(self, watermark: (u64, u64)) -> MatcherView {
        let base = L0View { orders: watermark.0, trades: watermark.1, ..self.base() };
        match self {
            MatcherView::L0(_) => MatcherView::L0(base),
            MatcherView::L1(e) => MatcherView::L1(L1View { inner: base, ..e }),
            MatcherView::L2(e) => MatcherView::L2(
                L2View { inner: L1View { inner: base, ..e.inner }, ..e },
            ),
        }
    }
}

pub open spec fn counted(n: nat) -> usize {
    if n > usize::MAX {
        usize::MAX
    } else {
        n as usize
    }
}

impl Matcher {
    /// What a run gets unless it asks for more.
    pub fn l0(instrument: InstrumentId) -> (r: Self)
        ensures
            r@ == MatcherView::L0(L0View::fresh(instrument)),
            r@.wf(),
    {
        Matcher::L0(L0Engine::new(instrument))
    }

    /// Which tier this is, for a report that has to say so.
    pub fn tier(&self) -> (r: &'static str)
        ensures
            r@ == self@.tier(),
    {
        match self {
            Matcher::L0(_) => "L0",
            Matcher::L1(_) => "L1",
            Matcher::L2(_) => "L2",
        }
    }

    /// Rest an order. `now` is when it was sent.
    pub fn submit(&mut self, order: Working, now: Nanos)
        requires
            old(self)@.wf(),
        ensures
            final(self)@ == old(self)@.submit(order, now),
            final(self)@.wf(),
    {
        match self {
            Matcher::L0(e) => {
                e.submit(order);
            },
            Matcher::L1(e) => {
                e.submit(order, now);
            },
            Matcher::L2(e) => {
                e.submit(order, now);
            },
        }
    }

    /// Withdraw one order, wherever it currently is.
    pub fn cancel(&mut self, id: OrderId) -> (r: bool)
        requires
            old(self)@.wf(),
        ensures
            r == old(self)@.holds(id),
            final(self)@ == old(self)@.cancel(id),
            final(self)@.wf(),
    {
        match self {
            Matcher::L0(e) => e.cancel(id),
            Matcher::L1(e) => e.cancel(id),
            Matcher::L2(e) => e.cancel(id),
        }
    }

    /// Withdraw every order, in flight and resting alike.
    pub fn cancel_all(&mut self) -> (r: usize)
        requires
            old(self)@.wf(),
        ensures
            r == counted(old(self)@.held()),
            final(self)@ == old(self)@.cancel_all(),
            final(self)@.wf(),
    {
        match self {
            Matcher::L0(e) => e.cancel_all(),
            Matcher::L1(e) => e.cancel_all(),
            Matcher::L2(e) => e.cancel_all(),
        }
    }

    /// Advance to an observation and return the fills it produced.
    pub fn on_tick(&mut self, tick: &Tick) -> (r: Vec<L0Fill>)
        requires
            old(self)@.wf(),
        ensures
            (Matched { engine: final(self)@, fills: r@ }) == old(self)@.on_tick(*tick),
            final(self)@.wf(),
    {
        match self {
            Matcher::L0(e) => copied(e.on_tick(tick)),
            Matcher::L1(e) => copied(e.on_tick(tick)),
            Matcher::L2(e) => copied(e.on_tick(tick)),
        }
    }

    /// Orders resting in the book: not every order the matcher holds above L0.
    pub fn book(&self) -> (r: &Book)
        ensures
            r@ == self@.base().book,
    {
        match self {
            Matcher::L0(e) => e.book(),
            Matcher::L1(e) => e.book(),
            Matcher::L2(e) => e.book(),
        }
    }

    /// Orders that exist but are not yet in the book.
    pub fn shadowed(&self) -> (r: usize)
        ensures
            r == counted(self@.waiting()),
    {
        match self {
            Matcher::L0(_) => 0,
            Matcher::L1(e) => e.shadowed(),
            Matcher::L2(e) => e.shadowed(),
        }
    }

    pub fn instrument(&self) -> (r: InstrumentId)
        ensures
            r == self@.base().instrument,
    {
        match self {
            Matcher::L0(e) => e.instrument(),
            Matcher::L1(e) => e.instrument(),
            Matcher::L2(e) => e.instrument(),
        }
    }

    pub fn last_price(&self) -> (r: Option<PriceTicks>)
        ensures
            r == self@.base().prev_price,
    {
        match self {
            Matcher::L0(e) => e.last_price(),
            Matcher::L1(e) => e.last_price(),
            Matcher::L2(e) => e.last_price(),
        }
    }

    /// The identifier watermark, for recovery.
    pub fn id_watermark(&self) -> (r: (u64, u64))
        ensures
            r == (self@.base().orders, self@.base().trades),
    {
        match self {
            Matcher::L0(e) => e.id_watermark(),
            Matcher::L1(e) => e.id_watermark(),
            Matcher::L2(e) => e.id_watermark(),
        }
    }

    /// Restore the identifier watermark after recovery.
    pub fn restore_ids(&mut self, watermark: (u64, u64))
        ensures
            final(self)@ == old(self)@.with_ids(watermark),
    {
        match self {
            Matcher::L0(e) => {
                e.restore_ids(watermark);
            },
            Matcher::L1(e) => {
                e.restore_ids(watermark);
            },
            Matcher::L2(e) => {
                e.restore_ids(watermark);
            },
        }
    }

    /// Apply a depth update, if this tier reads one.
    pub fn on_depth(&mut self, update: &DepthUpdate) -> (r: DepthOutcome)
        requires
            old(self)@.wf(),
        ensures
            r == old(self)@.depth_outcome(update@),
            final(self)@.after_depth(old(self)@, update@),
            final(self)@.wf(),
    {
        match self {
            Matcher::L0(_) => DepthOutcome::NotRead,
            Matcher::L1(_) => DepthOutcome::NotRead,
            Matcher::L2(e) => match e.on_depth(update) {
                Ok(_) => DepthOutcome::Applied,
                Err(x) => DepthOutcome::Refused(x),
            },
        }
    }

    /// Seed the venue book from a snapshot, if this tier keeps one; whether it
    /// does.
    pub fn install_snapshot(&mut self, update_id: u64, bids: &[Level], asks: &[Level]) -> (r: bool)
        requires
            old(self)@.wf(),
        ensures
            r == (old(self)@ is L2),
            final(self)@.after_snapshot(old(self)@, update_id, bids@, asks@),
            final(self)@.wf(),
    {
        match self {
            Matcher::L0(_) => false,
            Matcher::L1(_) => false,
            Matcher::L2(e) => {
                e.install_snapshot(update_id, bids, asks);
                true
            },
        }
    }
}

fn copied(fills: &Vec<L0Fill>) -> (r: Vec<L0Fill>)
    ensures
        r@ == fills@,
{
    let mut out: Vec<L0Fill> = Vec::new();
    let mut i: usize = 0;
    while i < fills.len()
        invariant
            i <= fills@.len(),
            out@ == fills@.subrange(0, i as int),
        decreases fills@.len() - i,
    {
        out.push(fills[i]);
        i += 1;
        assert(out@ =~= fills@.subrange(0, i as int));
    }
    assert(out@ =~= fills@);
    out
}

} // verus!

//! L2: the queue and the taker's cost, measured from the venue's book.
//!
//! For a maker, the quantity displayed at the level an order joins is the
//! queue ahead of it. For a taker, size is walked instead of estimated: take
//! the best level, then the next, until the size is filled, and pay what that
//! costs. Each measurement displaces the policy for the fills it covers, and a
//! fill the book cannot price keeps the policy.
//!
//! A measurement is only ever applied against the trader: where the book and
//! the tick disagree, the worse price wins. The walk runs on a working copy
//! that lasts one observation, so several takers deplete one book, and the
//! venue's own depth stays what the venue displayed.
use crate::engine::book::{bumped, Book};
use crate::engine::l0::{L0Fill, L0View};
use crate::engine::l1::{with_impact, worsened, L1Engine, L1View, Policy};
use crate::engine::tick::Tick;
use crate::types::{
    magnitude, quotient, truncated_div, Fill, InstrumentId, Liquidity, Nanos, OrderId, PriceTicks,
    QtyLots, Side, Working,
};
use crate::venue::book::{
    left_behind, lemma_sweep_fits, swept, Book as VenueBook, BookView as VenueView, SequenceError, Side as BookSide,
    SideView, Sweep, Applied,
};
use crate::venue::depth::{DepthUpdate, Level};
use vstd::prelude::*;

verus! {

/// L1 with the queue read from the venue's book.
#[derive(Debug)]
pub struct L2Engine {
    inner: L1Engine,
    venue: VenueBook,
    /// Depth updates the book refused.
    refused: u64,
    /// Taker fills priced by walking the book.
    swept: u64,
    /// Taker fills the book could not reach, priced by L1's policy.
    unswept: u64,
}

/// What an L2 engine holds between observations.
#[verifier::ext_equal]
pub struct L2View {
    pub inner: L1View,
    pub venue: VenueView,
    pub refused: u64,
    pub swept: u64,
    pub unswept: u64,
}

/// An L2 engine and the fills of an observation.
#[verifier::ext_equal]
pub struct L2Run {
    pub engine: L2View,
    pub fills: Seq<L0Fill>,
}

impl View for L2Engine {
    type V = L2View;

    closed spec fn view(&self) -> L2View {
        L2View {
            inner: self.inner@,
            venue: self.venue@,
            refused: self.refused,
            swept: self.swept,
            unswept: self.unswept,
        }
    }
}

/// The quantity displayed at a price; zero where no level stands.
pub open spec fn shown(levels: Seq<Level>, price: i64) -> i64
    decreases levels.len(),
{
    if levels.len() == 0 {
        0
    } else if levels[0].price == price {
        levels[0].qty
    } else {
        shown(levels.drop_first(), price)
    }
}

/// The volume-weighted price of a sweep, rounded against the taker; nothing
/// where the book does not go that deep.
pub open spec fn walked(sweep: Sweep, side: Side) -> Option<PriceTicks> {
    if sweep.exhausted || sweep.taken <= 0 {
        None
    } else {
        let price = match side {
            Side::Buy => quotient(sweep.cost + sweep.taken - 1, sweep.taken as int),
            Side::Sell => quotient(sweep.cost as int, sweep.taken as int),
        };
        if i64::MIN <= price <= i64::MAX {
            Some(PriceTicks(price as i64))
        } else {
            None
        }
    }
}

/// A taker fill at the worse, for the taker, of its own price and the walk.
pub open spec fn no_better(f: L0Fill, walk: PriceTicks) -> L0Fill {
    let price = match f.fill.side {
        Side::Buy => if walk.0 > f.fill.price.0 {
            walk
        } else {
            f.fill.price
        },
        Side::Sell => if walk.0 < f.fill.price.0 {
            walk
        } else {
            f.fill.price
        },
    };
    L0Fill { fill: Fill { price, ..f.fill }, ..f }
}

/// Part way through pricing the fills of an observation.
#[verifier::ext_equal]
pub struct Pricing {
    /// What earlier takers left of each side.
    pub bids: SideView,
    pub asks: SideView,
    pub fills: Seq<L0Fill>,
    pub swept: u64,
    pub unswept: u64,
}

impl Pricing {
    /// The levels a taker on `side` walks.
    pub open spec fn against(self, side: Side) -> SideView {
        match side {
            Side::Buy => self.asks,
            Side::Sell => self.bids,
        }
    }

    /// What is left of both sides once a taker of `qty` has walked.
    pub open spec fn depleted(self, side: Side, qty: int) -> Pricing {
        let want = if qty > 0 {
            qty
        } else {
            0
        };
        let hit = self.against(side);
        let left = SideView { levels: left_behind(hit.levels, want), ..hit };
        match side {
            Side::Buy => Pricing { asks: left, ..self },
            Side::Sell => Pricing { bids: left, ..self },
        }
    }

    /// Price one more fill. A maker fill is left alone.
    pub open spec fn price(self, policy: Policy, f: L0Fill, tick: Tick, traded: i64) -> Pricing {
        if f.fill.liquidity != Liquidity::Taker {
            Pricing { fills: self.fills.push(f), ..self }
        } else {
            let qty = f.fill.qty.0 as int;
            let next = self.depleted(f.fill.side, qty);
            match walked(swept(self.against(f.fill.side).levels, qty), f.fill.side) {
                Some(walk) => Pricing {
                    fills: self.fills.push(no_better(f, walk)),
                    swept: bumped(self.swept),
                    ..next
                },
                None => Pricing {
                    fills: self.fills.push(worsened(policy, f, tick, traded)),
                    unswept: bumped(self.unswept),
                    ..next
                },
            }
        }
    }

    /// Price a run of fills, each walking what the ones before it left.
    pub open spec fn price_all(
        self,
        policy: Policy,
        raw: Seq<L0Fill>,
        tick: Tick,
        traded: i64,
    ) -> Pricing
        decreases raw.len(),
    {
        if raw.len() == 0 {
            self
        } else {
            self.price_all(policy, raw.drop_last(), tick, traded).price(
                policy,
                raw.last(),
                tick,
                traded,
            )
        }
    }
}

impl L2View {
    /// An L1 engine with a venue book that has shown nothing yet.
    pub open spec fn fresh(inner: L1View) -> L2View {
        L2View { inner, venue: VenueView::fresh(), refused: 0, swept: 0, unswept: 0 }
    }

    pub open spec fn wf(self) -> bool {
        self.inner.wf() && self.venue.wf()
    }

    /// The quantity displayed at `price` on `side`.
    pub open spec fn displayed(self, side: Side, price: PriceTicks) -> i64 {
        match side {
            Side::Buy => shown(self.venue.bids.levels, price.0),
            Side::Sell => shown(self.venue.asks.levels, price.0),
        }
    }

    pub open spec fn submit(self, order: Working, now: Nanos) -> L2View {
        let ahead = match order.spec_price() {
            Some(p) => Some(self.displayed(order.side, p)),
            None => None,
        };
        L2View { inner: self.inner.submit_with_queue(order, now, ahead), ..self }
    }

    pub open spec fn on_tick(self, tick: Tick) -> L2Run {
        let raw = self.inner.observe(tick);
        let done = Pricing {
            bids: self.venue.bids,
            asks: self.venue.asks,
            fills: Seq::empty(),
            swept: self.swept,
            unswept: self.unswept,
        }.price_all(self.inner.policy, raw.fills, tick, self.inner.traded(tick));
        let told = raw.engine.release(tick, done.fills);
        L2Run {
            engine: L2View {
                inner: told.engine,
                swept: done.swept,
                unswept: done.unswept,
                ..self
            },
            fills: told.fills,
        }
    }
}

/// The first level at a price.
fn quantity_at(levels: &Vec<Level>, price: i64) -> (r: i64)
    ensures
        r == shown(levels@, price),
{
    let mut i: usize = 0;
    assert(levels@.subrange(0, levels@.len() as int) =~= levels@);
    while i < levels.len()
        invariant
            i <= levels@.len(),
            shown(levels@, price) == shown(levels@.subrange(i as int, levels@.len() as int), price),
        decreases levels@.len() - i,
    {
        proof {
            let rest = levels@.subrange(i as int, levels@.len() as int);
            assert(rest.drop_first() =~= levels@.subrange(i + 1, levels@.len() as int));
            assert(rest[0] == levels@[i as int]);
        }
        if levels[i].price == price {
            return levels[i].qty;
        }
        i += 1;
    }
    0
}

/// The price of a sweep, rounded against the taker.
fn average(sweep: &Sweep, side: Side) -> (r: Option<PriceTicks>)
    requires
        magnitude(sweep.cost as int) <= 0x4000_0000_0000_0000_0000_0000_0000_0000,
    ensures
        r == walked(*sweep, side),
{
    if sweep.exhausted || sweep.taken <= 0 {
        return None;
    }
    let taken: i128 = sweep.taken as i128;
    // A buy rounds up so the fraction of a tick is paid; a sell loses it by
    // truncating.
    let price: i128 = match side {
        Side::Buy => truncated_div(sweep.cost + taken - 1, taken),
        Side::Sell => truncated_div(sweep.cost, taken),
    };
    if price > i64::MAX as i128 || price < i64::MIN as i128 {
        None
    } else {
        Some(PriceTicks(price as i64))
    }
}

/// A copy of the venue's depth for one observation, consumed by fills. Made
/// when a taker first asks for it.
struct WorkingDepth {
    bids: Option<BookSide>,
    asks: Option<BookSide>,
}

impl WorkingDepth {
    spec fn side(copy: Option<BookSide>, venue: SideView) -> SideView {
        match copy {
            Some(s) => s@,
            None => venue,
        }
    }

    /// The price of taking `qty`, or nothing where the book does not go that
    /// deep.
    fn take(&mut self, venue: &VenueBook, side: Side, qty: QtyLots) -> (r: Option<PriceTicks>)
        requires
            WorkingDepth::side(old(self).bids, venue@.bids).wf(),
            WorkingDepth::side(old(self).asks, venue@.asks).wf(),
        ensures
            ({
                let before = Pricing {
                    bids: WorkingDepth::side(old(self).bids, venue@.bids),
                    asks: WorkingDepth::side(old(self).asks, venue@.asks),
                    fills: Seq::empty(),
                    swept: 0,
                    unswept: 0,
                };
                let after = before.depleted(side, qty.0 as int);
                &&& r == walked(swept(before.against(side).levels, qty.0 as int), side)
                &&& WorkingDepth::side(final(self).bids, venue@.bids) == after.bids
                &&& WorkingDepth::side(final(self).asks, venue@.asks) == after.asks
                &&& after.bids.wf()
                &&& after.asks.wf()
            }),
    {
        let held = match side {
            Side::Buy => self.asks.take(),
            Side::Sell => self.bids.take(),
        };
        let mut levels = match held {
            Some(s) => s,
            None => match side {
                Side::Buy => venue.asks().duplicate(),
                Side::Sell => venue.bids().duplicate(),
            },
        };
        proof {
            lemma_sweep_fits(levels@.levels, qty.0 as int);
        }
        let sweep = levels.take(qty.0);
        match side {
            Side::Buy => {
                self.asks = Some(levels);
            },
            Side::Sell => {
                self.bids = Some(levels);
            },
        }
        average(&sweep, side)
    }
}

impl L2Engine {
    /// Wrap an L1 engine and give it a venue book to read.
    pub fn new(inner: L1Engine) -> (r: Self)
        requires
            inner@.wf(),
        ensures
            r@.wf(),
            r@ == L2View::fresh(inner@),
    {
        L2Engine { inner, venue: VenueBook::new(), refused: 0, swept: 0, unswept: 0 }
    }

    /// Seed the book from a snapshot.
    pub fn install_snapshot(&mut self, update_id: u64, bids: &[Level], asks: &[Level])
        requires
            old(self)@.wf(),
        ensures
            final(self)@.wf(),
            final(self)@ == (L2View { venue: final(self)@.venue, ..old(self)@ }),
            final(self)@.venue.seeded(update_id, bids@, asks@),
    {
        self.venue.install_snapshot(update_id, bids, asks);
    }

    /// Apply one incremental depth update. One that breaks the sequence is
    /// refused, counted, and leaves the book as it was.
    pub fn on_depth(&mut self, update: &DepthUpdate) -> (r: Result<(), SequenceError>)
        requires
            old(self)@.wf(),
        ensures
            final(self)@.wf(),
            ({
                let verdict = old(self)@.venue.verdict(update@);
                &&& match verdict {
                    Ok(_) => r is Ok,
                    Err(e) => r == Err::<(), SequenceError>(e),
                }
                &&& final(self)@ == (L2View {
                    venue: final(self)@.venue,
                    refused: if verdict is Err {
                        bumped(old(self)@.refused)
                    } else {
                        old(self)@.refused
                    },
                    ..old(self)@
                })
                &&& if verdict == Ok::<Applied, SequenceError>(Applied::Updated) {
                    final(self)@.venue.advanced(old(self)@.venue, update@)
                } else {
                    final(self)@.venue == old(self)@.venue
                }
            }),
    {
        match self.venue.apply(update) {
            Ok(_) => Ok(()),
            Err(e) => {
                self.refused = self.refused.saturating_add(1);
                Err(e)
            },
        }
    }

    /// Submit an order, measuring what is queued ahead of it. A market order
    /// measures nothing; a limit order at a price the book does not show
    /// measures zero, which is a reading and not an absence.
    pub fn submit(&mut self, order: Working, now: Nanos)
        requires
            old(self)@.wf(),
        ensures
            final(self)@ == old(self)@.submit(order, now),
            final(self)@.wf(),
    {
        let ahead = match order.price() {
            Some(p) => Some(self.displayed_at(order.side(), p)),
            None => None,
        };
        self.inner.submit_with_queue(order, now, ahead);
    }

    /// Advance to an observation, pricing taker fills off the book.
    pub fn on_tick(&mut self, tick: &Tick) -> (r: &Vec<L0Fill>)
        requires
            old(self)@.wf(),
        ensures
            (L2Run { engine: final(self)@, fills: r@ }) == old(self)@.on_tick(*tick),
            final(self)@.wf(),
    {
        let ghost start = self@;
        let policy = *self.inner.policy();
        let traded: i64 = self.inner.traded_volume(tick);
        let raw = self.inner.observe(tick);
        let mut depth = WorkingDepth { bids: None, asks: None };
        let mut priced: Vec<L0Fill> = Vec::new();
        let ghost begin = Pricing {
            bids: start.venue.bids,
            asks: start.venue.asks,
            fills: Seq::empty(),
            swept: start.swept,
            unswept: start.unswept,
        };
        let ghost mid = self@;
        let mut n_swept: u64 = self.swept;
        let mut n_unswept: u64 = self.unswept;
        let mut i: usize = 0;
        assert(raw@.subrange(0, 0) =~= Seq::<L0Fill>::empty());
        while i < raw.len()
            invariant
                i <= raw@.len(),
                self@ == mid,
                self@.venue == start.venue,
                WorkingDepth::side(depth.bids, start.venue.bids).wf(),
                WorkingDepth::side(depth.asks, start.venue.asks).wf(),
                (Pricing {
                    bids: WorkingDepth::side(depth.bids, start.venue.bids),
                    asks: WorkingDepth::side(depth.asks, start.venue.asks),
                    fills: priced@,
                    swept: n_swept,
                    unswept: n_unswept,
                }) == begin.price_all(policy, raw@.subrange(0, i as int), *tick, traded),
            decreases raw@.len() - i,
        {
            let f = raw[i];
            let ghost before = begin.price_all(
                policy,
                raw@.subrange(0, i as int),
                *tick,
                traded,
            );
            proof {
                let done = raw@.subrange(0, i + 1);
                assert(done.drop_last() =~= raw@.subrange(0, i as int));
                assert(done.last() == f);
            }
            if f.fill.liquidity != Liquidity::Taker {
                priced.push(f);
            } else {
                match depth.take(&self.venue, f.fill.side, f.fill.qty) {
                    Some(walk) => {
                        let price = match f.fill.side {
                            Side::Buy => if walk.0 > f.fill.price.0 {
                                walk
                            } else {
                                f.fill.price
                            },
                            Side::Sell => if walk.0 < f.fill.price.0 {
                                walk
                            } else {
                                f.fill.price
                            },
                        };
                        priced.push(L0Fill { fill: Fill { price, ..f.fill }, ..f });
                        n_swept = n_swept.saturating_add(1);
                    },
                    None => {
                        priced.push(with_impact(&policy, f, tick, traded));
                        n_unswept = n_unswept.saturating_add(1);
                    },
                }
            }
            i += 1;
            assert((Pricing {
                bids: WorkingDepth::side(depth.bids, start.venue.bids),
                asks: WorkingDepth::side(depth.asks, start.venue.asks),
                fills: priced@,
                swept: n_swept,
                unswept: n_unswept,
            }) =~= before.price(policy, f, *tick, traded));
        }
        assert(raw@.subrange(0, i as int) =~= raw@);
        self.inner.release(tick, priced);
        self.swept = n_swept;
        self.unswept = n_unswept;
        assert((L2Run { engine: self@, fills: self.inner.last_released() }) =~= start.on_tick(*tick));
        self.inner.released()
    }

    /// Taker fills priced by walking the book.
    pub fn swept(&self) -> (r: u64)
        ensures
            r == self@.swept,
    {
        self.swept
    }

    /// Taker fills the book could not reach, priced by L1's policy.
    pub fn unswept(&self) -> (r: u64)
        ensures
            r == self@.unswept,
    {
        self.unswept
    }

    /// Quantity displayed at `price` on `side`. Zero when the level is absent:
    /// an order joining a level that is not there is first in the queue.
    pub fn displayed_at(&self, side: Side, price: PriceTicks) -> (r: i64)
        ensures
            r == self@.displayed(side, price),
    {
        match side {
            Side::Buy => quantity_at(self.venue.bids().levels(), price.0),
            Side::Sell => quantity_at(self.venue.asks().levels(), price.0),
        }
    }

    /// Withdraw every order, in flight and resting alike; how many there were.
    pub fn cancel_all(&mut self) -> (r: usize)
        requires
            old(self)@.wf(),
        ensures
            r == (if old(self)@.inner.held() > usize::MAX {
                usize::MAX as nat
            } else {
                old(self)@.inner.held()
            }),
            final(self)@ == (L2View { inner: old(self)@.inner.cancel_all(), ..old(self)@ }),
            final(self)@.wf(),
    {
        self.inner.cancel_all()
    }

    /// Withdraw one order, wherever it currently is.
    pub fn cancel(&mut self, id: OrderId) -> (r: bool)
        requires
            old(self)@.wf(),
        ensures
            r == (old(self)@.inner.shadows(id) || old(self)@.inner.inner.book.find(id) is Some),
            final(self)@ == (L2View { inner: old(self)@.inner.cancel(id), ..old(self)@ }),
            final(self)@.wf(),
    {
        self.inner.cancel(id)
    }

    pub fn instrument(&self) -> (r: InstrumentId)
        ensures
            r == self@.inner.inner.instrument,
    {
        self.inner.instrument()
    }

    pub fn last_price(&self) -> (r: Option<PriceTicks>)
        ensures
            r == self@.inner.inner.prev_price,
    {
        self.inner.last_price()
    }

    /// Orders resting in the book: not every order this engine holds.
    pub fn book(&self) -> (r: &Book)
        ensures
            r@ == self@.inner.inner.book,
    {
        self.inner.book()
    }

    pub fn id_watermark(&self) -> (r: (u64, u64))
        ensures
            r == (self@.inner.inner.orders, self@.inner.inner.trades),
    {
        self.inner.id_watermark()
    }

    pub fn restore_ids(&mut self, watermark: (u64, u64))
        ensures
            final(self)@ == (L2View {
                inner: L1View {
                    inner: L0View {
                        orders: watermark.0,
                        trades: watermark.1,
                        ..old(self)@.inner.inner
                    },
                    ..old(self)@.inner
                },
                ..old(self)@
            }),
    {
        self.inner.restore_ids(watermark);
    }

    /// Orders that exist but are not yet in the book.
    pub fn shadowed(&self) -> (r: usize)
        ensures
            r == (if self@.inner.pending.len() + self@.inner.queued.len() > usize::MAX {
                usize::MAX as nat
            } else {
                self@.inner.pending.len() + self@.inner.queued.len()
            }),
    {
        self.inner.shadowed()
    }

    /// Whether the book has been placed in sequence. Until it has, every
    /// queue measured is a lower bound.
    pub fn ready(&self) -> (r: bool)
        ensures
            r == self@.venue.ready(),
    {
        self.venue.is_ready()
    }

    /// Depth updates the book refused.
    pub fn refused(&self) -> (r: u64)
        ensures
            r == self@.refused,
    {
        self.refused
    }

    /// The venue's book.
    pub fn venue_book(&self) -> (r: &VenueBook)
        ensures
            r@ == self@.venue,
    {
        &self.venue
    }

    /// The L1 engine underneath.
    pub fn inner(&self) -> (r: &L1Engine)
        ensures
            r@ == self@.inner,
    {
        &self.inner
    }

    /// The L1 engine underneath, for a caller that drives it past the book.
    pub fn inner_mut(&mut self) -> (r: &mut L1Engine)
        ensures
            r@ == old(self)@.inner,
            final(self)@ == (L2View { inner: final(r)@, ..old(self)@ }),
    {
        &mut self.inner
    }
}

} // verus!

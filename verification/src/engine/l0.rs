//! L0: fills at the observation's prices.
//!
//! No queue, no latency, no impact. Two things can trade a resting order when
//! an observation arrives. First, orders the price passed over since the last
//! observation, filled at their own prices in order of arrival and stamped
//! with the previous observation. Then whatever the observation itself
//! reaches: market orders at its reference price, limit orders best first.
//! What is left does not cross: resting orders that reach one another trade,
//! each at its own price.
use crate::engine::book::{append_copy, bumped, lemma_seat, limit_of, Book, BookView, Resting};
use crate::engine::tick::Tick;
use crate::sorting::{lemma_rank_is, ordered};
use crate::types::{
    limit_order, market_order, Fill, InstrumentId, Liquidity, Offset, OrderId, OrderKind,
    PriceTicks, QtyLots, Side, Stamp, TradeId, Working,
};
use vstd::prelude::*;

verus! {

/// Why an order traded.
#[derive(Clone, Copy, Debug, PartialEq, Eq, Structural)]
pub enum FillReason {
    /// The price passed over the order between two observations.
    GapCrossed,
    /// The observation reached the order's price.
    Crossed,
    /// A market order met the observation.
    Market,
}

/// A fill and why it happened.
#[derive(Clone, Copy, Debug, PartialEq, Eq, Structural)]
pub struct L0Fill {
    pub fill: Fill,
    pub reason: FillReason,
}

/// The engine at its barest: a book, and the previous observation.
#[derive(Debug)]
pub struct L0Engine {
    instrument: InstrumentId,
    book: Book,
    orders: u64,
    trades: u64,
    prev_price: Option<PriceTicks>,
    prev_stamp: Option<Stamp>,
    fills: Vec<L0Fill>,
}

/// What the engine holds between observations.
#[verifier::ext_equal]
pub struct L0View {
    pub instrument: InstrumentId,
    pub book: BookView,
    /// Order and trade ids given out so far.
    pub orders: u64,
    pub trades: u64,
    pub prev_price: Option<PriceTicks>,
    pub prev_stamp: Option<Stamp>,
}

impl View for L0Engine {
    type V = L0View;

    closed spec fn view(&self) -> L0View {
        L0View {
            instrument: self.instrument,
            book: self.book@,
            orders: self.orders,
            trades: self.trades,
            prev_price: self.prev_price,
            prev_stamp: self.prev_stamp,
        }
    }
}

/// An engine part way through an observation, with the fills so far.
#[verifier::ext_equal]
pub struct Run {
    pub engine: L0View,
    pub fills: Seq<L0Fill>,
}

/// How an order is filled.
#[derive(Clone, Copy)]
pub struct Terms {
    pub price: PriceTicks,
    pub liquidity: Liquidity,
    pub reason: FillReason,
    pub stamp: Stamp,
}

/// An order's place in the order of arrival, and its id.
pub type Arrival = (u64, OrderId);

/// Order of arrival, ties by id.
pub open spec fn arrives_before(a: Arrival, b: Arrival) -> bool {
    a.0 < b.0 || a.0 == b.0 && a.1.0 <= b.1.0
}

/// Whether a resting sell lies above `prev` and no higher than `up`.
pub open spec fn passed_up(r: Resting, prev: int, up: int) -> bool {
    r.order.spec_price() is Some && prev < limit_of(r) <= up
}

/// Whether a resting buy lies below `prev` and no lower than `dn`.
pub open spec fn passed_down(r: Resting, prev: int, dn: int) -> bool {
    r.order.spec_price() is Some && dn <= limit_of(r) < prev
}

pub open spec fn arrival_of(r: Resting) -> Arrival {
    (r.arrival, r.order.id)
}

/// The orders a move away from `prev` passed over: asks on the way up, else
/// bids on the way down.
pub open spec fn passed_over(book: BookView, prev: PriceTicks, tick: Tick) -> Seq<Arrival> {
    let up = tick.up_spec().0 as int;
    let dn = tick.dn_spec().0 as int;
    if up > prev.0 {
        book.asks.filter(|r: Resting| passed_up(r, prev.0 as int, up)).map_values(
            |r: Resting| arrival_of(r),
        )
    } else if dn < prev.0 {
        book.bids.filter(|r: Resting| passed_down(r, prev.0 as int, dn)).map_values(
            |r: Resting| arrival_of(r),
        )
    } else {
        Seq::empty()
    }
}

/// A list of arrivals in order.
pub open spec fn in_order(s: Seq<Arrival>) -> Seq<Arrival> {
    ordered(s, |a: Arrival, b: Arrival| arrives_before(a, b))
}

impl Run {
    /// Trade all of an order, and take it out of the book. An order with
    /// nothing left leaves without a fill.
    pub open spec fn execute(self, r: Resting, terms: Terms) -> Run {
        let engine = L0View { book: self.engine.book.without(r.order.id), ..self.engine };
        if r.order.remaining.0 <= 0 {
            Run { engine, ..self }
        } else {
            let trades = bumped(engine.trades);
            Run {
                engine: L0View { trades, ..engine },
                fills: self.fills.push(
                    L0Fill {
                        fill: Fill {
                            stamp: terms.stamp,
                            instrument: engine.instrument,
                            order: r.order.id,
                            trade: TradeId(trades),
                            side: r.order.side,
                            offset: r.order.offset,
                            price: terms.price,
                            qty: r.order.remaining,
                            liquidity: terms.liquidity,
                        },
                        reason: terms.reason,
                    },
                ),
            }
        }
    }

    /// Trade the listed orders that are still in the book, each at its own
    /// price.
    pub open spec fn gap(self, list: Seq<Arrival>, stamp: Stamp) -> Run
        decreases list.len(),
    {
        if list.len() == 0 {
            self
        } else {
            let before = self.gap(list.drop_last(), stamp);
            match before.engine.book.find(list.last().1) {
                None => before,
                Some(r) => before.execute(
                    r,
                    Terms {
                        price: match r.order.spec_price() {
                            Some(p) => p,
                            None => PriceTicks(0),
                        },
                        liquidity: Liquidity::Maker,
                        reason: FillReason::GapCrossed,
                        stamp,
                    },
                ),
            }
        }
    }

    /// Trade a list of market orders at one price.
    pub open spec fn market(self, list: Seq<Resting>, price: PriceTicks, stamp: Stamp) -> Run
        decreases list.len(),
    {
        if list.len() == 0 {
            self
        } else {
            self.market(list.drop_last(), price, stamp).execute(
                list.last(),
                Terms { price, liquidity: Liquidity::Taker, reason: FillReason::Market, stamp },
            )
        }
    }

    /// The price a bid reached by the observation trades at: its own, or the
    /// reference if that is lower.
    pub open spec fn bid_terms(price: PriceTicks, reference: PriceTicks, stamp: Stamp) -> Terms {
        Terms {
            price: if reference.0 > 0 && reference.0 < price.0 {
                reference
            } else {
                price
            },
            liquidity: Liquidity::Maker,
            reason: FillReason::Crossed,
            stamp,
        }
    }

    /// The price an ask reached by the observation trades at: its own, or the
    /// reference if that is higher.
    pub open spec fn ask_terms(price: PriceTicks, reference: PriceTicks, stamp: Stamp) -> Terms {
        Terms {
            price: if reference.0 > 0 && reference.0 > price.0 {
                reference
            } else {
                price
            },
            liquidity: Liquidity::Maker,
            reason: FillReason::Crossed,
            stamp,
        }
    }

    /// Trade bids best first while the best reaches the trigger.
    pub open spec fn cross_bids(self, trigger: PriceTicks, reference: PriceTicks, stamp: Stamp) -> Run
        decreases self.engine.book.len(),
        via Self::cross_bids_ends
    {
        let bids = self.engine.book.bids;
        if bids.len() == 0 || bids[0].order.spec_price() is None || limit_of(bids[0]) < trigger.0 {
            self
        } else {
            let price = bids[0].order.spec_price().unwrap();
            self.execute(bids[0], Self::bid_terms(price, reference, stamp)).cross_bids(
                trigger,
                reference,
                stamp,
            )
        }
    }

    #[via_fn]
    proof fn cross_bids_ends(self, trigger: PriceTicks, reference: PriceTicks, stamp: Stamp) {
        if self.engine.book.bids.len() > 0 {
            lemma_without_shrinks(self.engine.book, self.engine.book.bids[0].order.id);
        }
    }

    /// Trade asks best first while the best reaches the trigger.
    pub open spec fn cross_asks(self, trigger: PriceTicks, reference: PriceTicks, stamp: Stamp) -> Run
        decreases self.engine.book.len(),
        via Self::cross_asks_ends
    {
        let asks = self.engine.book.asks;
        if asks.len() == 0 || asks[0].order.spec_price() is None || limit_of(asks[0]) > trigger.0 {
            self
        } else {
            let price = asks[0].order.spec_price().unwrap();
            self.execute(asks[0], Self::ask_terms(price, reference, stamp)).cross_asks(
                trigger,
                reference,
                stamp,
            )
        }
    }

    #[via_fn]
    proof fn cross_asks_ends(self, trigger: PriceTicks, reference: PriceTicks, stamp: Stamp) {
        if self.engine.book.asks.len() > 0 {
            lemma_without_shrinks(self.engine.book, self.engine.book.asks[0].order.id);
        }
    }

    /// What moved between the previous observation and this one.
    pub open spec fn gap_fill(self, tick: Tick) -> Run {
        match self.engine.prev_price {
            None => self,
            Some(prev) => self.gap(
                in_order(passed_over(self.engine.book, prev, tick)),
                match self.engine.prev_stamp {
                    Some(s) => s,
                    None => tick.stamp,
                },
            ),
        }
    }

    /// Market buys and then market sells.
    pub open spec fn take_market(self, tick: Tick) -> Run {
        let bought = self.market(
            self.engine.book.market_buys,
            tick.buy_reference_spec(),
            tick.stamp,
        );
        bought.market(bought.engine.book.market_sells, tick.sell_reference_spec(), tick.stamp)
    }

    /// What this observation reaches.
    pub open spec fn cross(self, tick: Tick) -> Run {
        let sold = self.take_market(tick);
        let bids = if tick.buy_trigger_spec().0 > 0 {
            sold.cross_bids(tick.buy_trigger_spec(), tick.buy_reference_spec(), tick.stamp)
        } else {
            sold
        };
        if tick.sell_trigger_spec().0 > 0 {
            bids.cross_asks(tick.sell_trigger_spec(), tick.sell_reference_spec(), tick.stamp)
        } else {
            bids
        }
    }

    /// Trade the resting orders that reach the best of the other side, each at
    /// its own price.
    pub open spec fn uncross(self, stamp: Stamp) -> Run {
        let b = self.engine.book;
        if b.crossed() {
            let best_bid = PriceTicks(limit_of(b.bids[0]) as i64);
            let best_ask = PriceTicks(limit_of(b.asks[0]) as i64);
            self.cross_bids(best_ask, PriceTicks(0), stamp).cross_asks(
                best_bid,
                PriceTicks(0),
                stamp,
            )
        } else {
            self
        }
    }
}

impl BookView {
    /// Whether the best bid reaches the best ask.
    pub open spec fn crossed(self) -> bool {
        self.bids.len() > 0 && self.asks.len() > 0 && limit_of(self.bids[0]) >= limit_of(
            self.asks[0],
        )
    }
}

/// Removing a seated order makes the book smaller.
pub proof fn lemma_without_shrinks(b: BookView, id: OrderId)
    requires
        b.bids.len() > 0 && b.bids[0].order.id == id || b.asks.len() > 0 && b.asks[0].order.id
            == id,
    ensures
        b.without(id).len() == b.len() - 1,
{
    lemma_seat(b.bids, id);
    lemma_seat(b.asks, id);
}

impl L0View {
    pub open spec fn wf(self) -> bool {
        self.book.wf()
    }

    pub open spec fn fresh(instrument: InstrumentId) -> L0View {
        L0View {
            instrument,
            book: BookView::empty(),
            orders: 0,
            trades: 0,
            prev_price: None,
            prev_stamp: None,
        }
    }

    pub open spec fn submit(self, order: Working) -> L0View {
        L0View { book: self.book.with(order), ..self }
    }

    pub open spec fn cancel(self, id: OrderId) -> L0View {
        L0View { book: self.book.without(id), ..self }
    }

    pub open spec fn cancel_all(self) -> L0View {
        L0View {
            book: BookView { next_arrival: self.book.next_arrival, ..BookView::empty() },
            ..self
        }
    }

    /// One observation: the engine after it, and the fills it made.
    pub open spec fn on_tick(self, tick: Tick) -> Run {
        let run = Run { engine: self, fills: Seq::empty() }.gap_fill(tick).cross(tick).uncross(
            tick.stamp,
        );
        Run {
            engine: L0View {
                prev_price: Some(tick.last),
                prev_stamp: Some(tick.stamp),
                ..run.engine
            },
            ..run
        }
    }
}

/// The orders of one list that meet a test, as arrivals.
fn collect_passed(list: &Vec<Resting>, prev: i64, bound: i64, up: bool) -> (r: Vec<Arrival>)
    ensures
        up ==> r@ == list@.filter(
            |x: Resting| passed_up(x, prev as int, bound as int),
        ).map_values(|x: Resting| arrival_of(x)),
        !up ==> r@ == list@.filter(
            |x: Resting| passed_down(x, prev as int, bound as int),
        ).map_values(|x: Resting| arrival_of(x)),
{
    let ghost test = |x: Resting|
        if up {
            passed_up(x, prev as int, bound as int)
        } else {
            passed_down(x, prev as int, bound as int)
        };
    let ghost name = |x: Resting| arrival_of(x);
    let mut out: Vec<Arrival> = Vec::new();
    let mut i: usize = 0;
    proof {
        reveal(Seq::filter);
        assert(list@.subrange(0, 0).filter(test).map_values(name) =~= Seq::<Arrival>::empty());
    }
    while i < list.len()
        invariant
            i <= list@.len(),
            test == (|x: Resting|
                if up {
                    passed_up(x, prev as int, bound as int)
                } else {
                    passed_down(x, prev as int, bound as int)
                }),
            name == (|x: Resting| arrival_of(x)),
            out@ == list@.subrange(0, i as int).filter(test).map_values(name),
        decreases list@.len() - i,
    {
        let x = list[i];
        let hit = match x.price() {
            Some(p) => if up {
                prev < p.0 && p.0 <= bound
            } else {
                bound <= p.0 && p.0 < prev
            },
            None => false,
        };
        let ghost before = list@.subrange(0, i as int);
        if hit {
            out.push((x.arrival, x.order.id));
        }
        i += 1;
        proof {
            reveal(Seq::filter);
            let now = list@.subrange(0, i as int);
            assert(now.drop_last() =~= before);
            assert(now.last() == x);
            assert(hit == test(x));
            if hit {
                assert(now.filter(test) == before.filter(test).push(x));
                assert(now.filter(test).map_values(name) =~= before.filter(test).map_values(
                    name,
                ).push(name(x)));
            } else {
                assert(now.filter(test) == before.filter(test));
            }
        }
    }
    proof {
        assert(list@.subrange(0, i as int) =~= list@);
        if up {
            assert(test =~= (|x: Resting| passed_up(x, prev as int, bound as int)));
        } else {
            assert(test =~= (|x: Resting| passed_down(x, prev as int, bound as int)));
        }
    }
    out
}

/// A list of arrivals in order.
fn sort_arrivals(list: &Vec<Arrival>) -> (r: Vec<Arrival>)
    ensures
        r@ == in_order(list@),
{
    let ghost le = |a: Arrival, b: Arrival| arrives_before(a, b);
    let mut out: Vec<Arrival> = Vec::new();
    let mut i: usize = 0;
    assert(list@.subrange(0, 0) =~= Seq::<Arrival>::empty());
    while i < list.len()
        invariant
            i <= list@.len(),
            le == (|a: Arrival, b: Arrival| arrives_before(a, b)),
            out@ == ordered(list@.subrange(0, i as int), le),
        decreases list@.len() - i,
    {
        let x = list[i];
        let mut at: usize = 0;
        while at < out.len() && (out[at].0 < x.0 || out[at].0 == x.0 && out[at].1.0 <= x.1.0)
            invariant
                at <= out@.len(),
                le == (|a: Arrival, b: Arrival| arrives_before(a, b)),
                forall|k: int| 0 <= k < at ==> le(#[trigger] out@[k], x),
            decreases out@.len() - at,
        {
            at += 1;
        }
        proof {
            lemma_rank_is(out@, x, le, at as int);
            let now = list@.subrange(0, i + 1);
            assert(now.drop_last() =~= list@.subrange(0, i as int));
            assert(now.last() == x);
        }
        out.insert(at, x);
        i += 1;
    }
    assert(list@.subrange(0, i as int) =~= list@);
    out
}

impl L0Engine {
    /// An engine with an empty book.
    pub fn new(instrument: InstrumentId) -> (r: Self)
        ensures
            r@ == L0View::fresh(instrument),
            r@.wf(),
    {
        L0Engine {
            instrument,
            book: Book::new(),
            orders: 0,
            trades: 0,
            prev_price: None,
            prev_stamp: None,
            fills: Vec::new(),
        }
    }

    pub fn instrument(&self) -> (r: InstrumentId)
        ensures
            r == self@.instrument,
    {
        self.instrument
    }

    pub fn book(&self) -> (r: &Book)
        ensures
            r@ == self@.book,
    {
        &self.book
    }

    /// The last price of the previous observation.
    pub fn last_price(&self) -> (r: Option<PriceTicks>)
        ensures
            r == self@.prev_price,
    {
        self.prev_price
    }

    /// Put an order in the book.
    pub fn submit(&mut self, order: Working)
        requires
            old(self)@.wf(),
        ensures
            final(self)@ == old(self)@.submit(order),
            final(self)@.wf(),
    {
        self.book.insert(order);
    }

    /// Take an order out; whether there was one.
    pub fn cancel(&mut self, id: OrderId) -> (r: bool)
        requires
            old(self)@.wf(),
        ensures
            r == (old(self)@.book.find(id) is Some),
            final(self)@ == old(self)@.cancel(id),
            final(self)@.wf(),
    {
        self.book.remove(id).is_some()
    }

    /// Take every order out; how many there were.
    pub fn cancel_all(&mut self) -> (r: usize)
        ensures
            r == (if old(self)@.book.len() > usize::MAX {
                usize::MAX as nat
            } else {
                old(self)@.book.len()
            }),
            final(self)@ == old(self)@.cancel_all(),
            final(self)@.wf(),
    {
        let n: usize = self.book.len();
        self.book.clear();
        n
    }

    /// One observation: the fills it made.
    pub fn on_tick(&mut self, tick: &Tick) -> (r: &Vec<L0Fill>)
        requires
            old(self)@.wf(),
        ensures
            (Run { engine: final(self)@, fills: r@ }) == old(self)@.on_tick(*tick),
            final(self)@.wf(),
    {
        let ghost start = self@;
        self.fills.clear();
        assert((Run { engine: self@, fills: self.fills@ }) =~= (Run {
            engine: start,
            fills: Seq::empty(),
        }));
        self.gap_fill(tick);
        self.cross(tick);
        self.uncross(tick.stamp);
        self.prev_price = Some(tick.last);
        self.prev_stamp = Some(tick.stamp);
        assert((Run { engine: self@, fills: self.fills@ }) =~= start.on_tick(*tick));
        &self.fills
    }

    /// Fill what the price passed over since the previous observation.
    fn gap_fill(&mut self, tick: &Tick)
        requires
            old(self)@.wf(),
        ensures
            (Run { engine: final(self)@, fills: final(self).fills@ }) == (Run {
                engine: old(self)@,
                fills: old(self).fills@,
            }).gap_fill(*tick),
            final(self)@.wf(),
    {
        let ghost start = Run { engine: self@, fills: self.fills@ };
        let prev = match self.prev_price {
            None => {
                return ;
            },
            Some(p) => p,
        };
        let up = tick.up_extent();
        let dn = tick.dn_extent();
        let candidates: Vec<Arrival> = if up.0 > prev.0 {
            collect_passed(self.book.asks(), prev.0, up.0, true)
        } else if dn.0 < prev.0 {
            collect_passed(self.book.bids(), prev.0, dn.0, false)
        } else {
            Vec::new()
        };
        assert(candidates@ =~= passed_over(self@.book, prev, *tick));
        let sorted = sort_arrivals(&candidates);
        let stamp = match self.prev_stamp {
            Some(s) => s,
            None => tick.stamp,
        };
        let mut i: usize = 0;
        assert(sorted@.subrange(0, 0) =~= Seq::<Arrival>::empty());
        while i < sorted.len()
            invariant
                i <= sorted@.len(),
                self@.wf(),
                (Run { engine: self@, fills: self.fills@ }) == start.gap(
                    sorted@.subrange(0, i as int),
                    stamp,
                ),
            decreases sorted@.len() - i,
        {
            let id = sorted[i].1;
            proof {
                let now = sorted@.subrange(0, i + 1);
                assert(now.drop_last() =~= sorted@.subrange(0, i as int));
                assert(now.last() == sorted@[i as int]);
            }
            match self.book.find(id) {
                None => {},
                Some(resting) => {
                    let price = match resting.price() {
                        Some(p) => p,
                        None => PriceTicks(0),
                    };
                    self.execute_at(
                        &resting,
                        Terms {
                            price,
                            liquidity: Liquidity::Maker,
                            reason: FillReason::GapCrossed,
                            stamp,
                        },
                    );
                },
            }
            i += 1;
        }
        assert(sorted@.subrange(0, i as int) =~= sorted@);
    }

    /// Fill a list of market orders at one price.
    fn take_list(&mut self, list: &Vec<Resting>, price: PriceTicks, stamp: Stamp)
        requires
            old(self)@.wf(),
        ensures
            (Run { engine: final(self)@, fills: final(self).fills@ }) == (Run {
                engine: old(self)@,
                fills: old(self).fills@,
            }).market(list@, price, stamp),
            final(self)@.wf(),
    {
        let ghost start = Run { engine: self@, fills: self.fills@ };
        let mut i: usize = 0;
        assert(list@.subrange(0, 0) =~= Seq::<Resting>::empty());
        while i < list.len()
            invariant
                i <= list@.len(),
                self@.wf(),
                (Run { engine: self@, fills: self.fills@ }) == start.market(
                    list@.subrange(0, i as int),
                    price,
                    stamp,
                ),
            decreases list@.len() - i,
        {
            proof {
                let now = list@.subrange(0, i + 1);
                assert(now.drop_last() =~= list@.subrange(0, i as int));
                assert(now.last() == list@[i as int]);
            }
            self.execute_at(
                &list[i],
                Terms { price, liquidity: Liquidity::Taker, reason: FillReason::Market, stamp },
            );
            i += 1;
        }
        assert(list@.subrange(0, i as int) =~= list@);
    }

    /// Fill what this observation reaches.
    fn cross(&mut self, tick: &Tick)
        requires
            old(self)@.wf(),
        ensures
            (Run { engine: final(self)@, fills: final(self).fills@ }) == (Run {
                engine: old(self)@,
                fills: old(self).fills@,
            }).cross(*tick),
            final(self)@.wf(),
    {
        let ghost start = Run { engine: self@, fills: self.fills@ };
        let mut buys: Vec<Resting> = Vec::new();
        append_copy(&mut buys, self.book.market_buys());
        assert(buys@ =~= self@.book.market_buys);
        self.take_list(&buys, tick.buy_fill_reference(), tick.stamp);
        let mut sells: Vec<Resting> = Vec::new();
        append_copy(&mut sells, self.book.market_sells());
        assert(sells@ =~= self@.book.market_sells);
        self.take_list(&sells, tick.sell_fill_reference(), tick.stamp);
        let ghost sold = Run { engine: self@, fills: self.fills@ };
        assert(sold == start.take_market(*tick));
        let trigger = tick.buy_trigger();
        let reference = tick.buy_fill_reference();
        if trigger.0 > 0 {
            self.cross_bids(trigger, reference, tick.stamp);
        }
        let trigger = tick.sell_trigger();
        let reference = tick.sell_fill_reference();
        if trigger.0 > 0 {
            self.cross_asks(trigger, reference, tick.stamp);
        }
    }

    /// Fill resting orders that reach one another.
    fn uncross(&mut self, stamp: Stamp)
        requires
            old(self)@.wf(),
        ensures
            (Run { engine: final(self)@, fills: final(self).fills@ }) == (Run {
                engine: old(self)@,
                fills: old(self).fills@,
            }).uncross(stamp),
            final(self)@.wf(),
    {
        match (self.book.best_bid(), self.book.best_ask()) {
            (Some(bid), Some(ask)) => {
                if bid.0 >= ask.0 {
                    self.cross_bids(ask, PriceTicks(0), stamp);
                    self.cross_asks(bid, PriceTicks(0), stamp);
                }
            },
            _ => {},
        }
    }

    fn cross_bids(&mut self, trigger: PriceTicks, reference: PriceTicks, stamp: Stamp)
        requires
            old(self)@.wf(),
        ensures
            (Run { engine: final(self)@, fills: final(self).fills@ }) == (Run {
                engine: old(self)@,
                fills: old(self).fills@,
            }).cross_bids(trigger, reference, stamp),
            final(self)@.wf(),
    {
        let ghost start = Run { engine: self@, fills: self.fills@ };
        let mut going = true;
        while going
            invariant
                self@.wf(),
                start.cross_bids(trigger, reference, stamp) == (Run {
                    engine: self@,
                    fills: self.fills@,
                }).cross_bids(trigger, reference, stamp),
                !going ==> start.cross_bids(trigger, reference, stamp) == (Run {
                    engine: self@,
                    fills: self.fills@,
                }),
            decreases self@.book.len() + (if going {
                1nat
            } else {
                0
            }),
        {
            going = false;
            if self.book.bids().len() > 0 {
                let best = self.book.bids()[0];
                match best.price() {
                    None => {},
                    Some(price) => {
                        if price.0 >= trigger.0 {
                            let fill_price = if reference.0 > 0 && reference.0 < price.0 {
                                reference
                            } else {
                                price
                            };
                            proof {
                                lemma_without_shrinks(self@.book, best.order.id);
                            }
                            self.execute_at(
                                &best,
                                Terms {
                                    price: fill_price,
                                    liquidity: Liquidity::Maker,
                                    reason: FillReason::Crossed,
                                    stamp,
                                },
                            );
                            going = true;
                        }
                    },
                }
            }
        }
    }

    fn cross_asks(&mut self, trigger: PriceTicks, reference: PriceTicks, stamp: Stamp)
        requires
            old(self)@.wf(),
        ensures
            (Run { engine: final(self)@, fills: final(self).fills@ }) == (Run {
                engine: old(self)@,
                fills: old(self).fills@,
            }).cross_asks(trigger, reference, stamp),
            final(self)@.wf(),
    {
        let ghost start = Run { engine: self@, fills: self.fills@ };
        let mut going = true;
        while going
            invariant
                self@.wf(),
                start.cross_asks(trigger, reference, stamp) == (Run {
                    engine: self@,
                    fills: self.fills@,
                }).cross_asks(trigger, reference, stamp),
                !going ==> start.cross_asks(trigger, reference, stamp) == (Run {
                    engine: self@,
                    fills: self.fills@,
                }),
            decreases self@.book.len() + (if going {
                1nat
            } else {
                0
            }),
        {
            going = false;
            if self.book.asks().len() > 0 {
                let best = self.book.asks()[0];
                match best.price() {
                    None => {},
                    Some(price) => {
                        if price.0 <= trigger.0 {
                            let fill_price = if reference.0 > 0 && reference.0 > price.0 {
                                reference
                            } else {
                                price
                            };
                            proof {
                                lemma_without_shrinks(self@.book, best.order.id);
                            }
                            self.execute_at(
                                &best,
                                Terms {
                                    price: fill_price,
                                    liquidity: Liquidity::Maker,
                                    reason: FillReason::Crossed,
                                    stamp,
                                },
                            );
                            going = true;
                        }
                    },
                }
            }
        }
    }

    /// Trade all of an order and take it out of the book.
    fn execute_at(&mut self, resting: &Resting, terms: Terms)
        requires
            old(self)@.wf(),
        ensures
            (Run { engine: final(self)@, fills: final(self).fills@ }) == (Run {
                engine: old(self)@,
                fills: old(self).fills@,
            }).execute(*resting, terms),
            final(self)@.wf(),
    {
        let ghost start = Run { engine: self@, fills: self.fills@ };
        let qty = resting.order.remaining();
        self.book.replace(resting.id(), None);
        if qty.0 > 0 {
            self.trades = self.trades.saturating_add(1);
            self.fills.push(
                L0Fill {
                    fill: Fill {
                        stamp: terms.stamp,
                        instrument: self.instrument,
                        order: resting.id(),
                        trade: TradeId(self.trades),
                        side: resting.order.side(),
                        offset: resting.order.offset(),
                        price: terms.price,
                        qty,
                        liquidity: terms.liquidity,
                    },
                    reason: terms.reason,
                },
            );
        }
        assert((Run { engine: self@, fills: self.fills@ }) =~= start.execute(*resting, terms));
    }

    /// Order and trade ids given out so far.
    pub fn id_watermark(&self) -> (r: (u64, u64))
        ensures
            r == (self@.orders, self@.trades),
    {
        (self.orders, self.trades)
    }

    /// Continue the id sequences from a watermark.
    pub fn restore_ids(&mut self, watermark: (u64, u64))
        ensures
            final(self)@ == (L0View { orders: watermark.0, trades: watermark.1, ..old(self)@ }),
    {
        self.orders = watermark.0;
        self.trades = watermark.1;
    }

    /// Put a limit order that opens in the book.
    pub fn submit_limit(
        &mut self,
        id: OrderId,
        side: Side,
        price: PriceTicks,
        qty: QtyLots,
        stamp: Stamp,
    ) -> (r: OrderId)
        requires
            old(self)@.wf(),
            qty.0 > 0,
        ensures
            r == id,
            final(self)@ == old(self)@.submit(
                Working {
                    id,
                    side,
                    kind: OrderKind::Limit { price },
                    remaining: qty,
                    stamp,
                    offset: Offset::Open,
                },
            ),
            final(self)@.wf(),
    {
        self.submit_limit_with(id, side, price, qty, stamp, Offset::Open)
    }

    /// Put a limit order in the book.
    pub fn submit_limit_with(
        &mut self,
        id: OrderId,
        side: Side,
        price: PriceTicks,
        qty: QtyLots,
        stamp: Stamp,
        offset: Offset,
    ) -> (r: OrderId)
        requires
            old(self)@.wf(),
            qty.0 > 0,
        ensures
            r == id,
            final(self)@ == old(self)@.submit(
                Working {
                    id,
                    side,
                    kind: OrderKind::Limit { price },
                    remaining: qty,
                    stamp,
                    offset,
                },
            ),
            final(self)@.wf(),
    {
        self.submit(limit_order(id, side, price, qty, stamp, offset));
        id
    }

    /// Put a market order that opens beside the book.
    pub fn submit_market(&mut self, id: OrderId, side: Side, qty: QtyLots, stamp: Stamp) -> (r:
        OrderId)
        requires
            old(self)@.wf(),
            qty.0 > 0,
        ensures
            r == id,
            final(self)@ == old(self)@.submit(
                Working {
                    id,
                    side,
                    kind: OrderKind::Market,
                    remaining: qty,
                    stamp,
                    offset: Offset::Open,
                },
            ),
            final(self)@.wf(),
    {
        self.submit_market_with(id, side, qty, stamp, Offset::Open)
    }

    /// Put a market order beside the book.
    pub fn submit_market_with(
        &mut self,
        id: OrderId,
        side: Side,
        qty: QtyLots,
        stamp: Stamp,
        offset: Offset,
    ) -> (r: OrderId)
        requires
            old(self)@.wf(),
            qty.0 > 0,
        ensures
            r == id,
            final(self)@ == old(self)@.submit(
                Working { id, side, kind: OrderKind::Market, remaining: qty, stamp, offset },
            ),
            final(self)@.wf(),
    {
        self.submit(market_order(id, side, qty, stamp, offset));
        id
    }
}

} // verus!

//! Resting orders, in price-time priority.
//!
//! Bids stand highest price first and asks lowest price first; orders at one
//! price stand in the order they arrived. Market orders wait beside the book
//! in arrival order until the next observation.
use crate::types::{OrderId, PriceTicks, Side, Working};
use vstd::prelude::*;

verus! {

/// An order in the book, with its place in the order of arrival.
#[derive(Clone, Copy, Debug, PartialEq, Eq, Structural)]
pub struct Resting {
    pub order: Working,
    pub arrival: u64,
}

impl Resting {
    pub fn id(&self) -> (r: OrderId)
        ensures
            r == self.order.id,
    {
        self.order.id
    }

    pub fn price(&self) -> (r: Option<PriceTicks>)
        ensures
            r == self.order.spec_price(),
    {
        self.order.price()
    }
}

/// The book of one instrument.
#[derive(Clone, Debug, Default)]
pub struct Book {
    bids: Vec<Resting>,
    asks: Vec<Resting>,
    market_buys: Vec<Resting>,
    market_sells: Vec<Resting>,
    next_arrival: u64,
}

/// What the book holds.
#[verifier::ext_equal]
pub struct BookView {
    pub bids: Seq<Resting>,
    pub asks: Seq<Resting>,
    pub market_buys: Seq<Resting>,
    pub market_sells: Seq<Resting>,
    pub next_arrival: u64,
}

impl View for Book {
    type V = BookView;

    closed spec fn view(&self) -> BookView {
        BookView {
            bids: self.bids@,
            asks: self.asks@,
            market_buys: self.market_buys@,
            market_sells: self.market_sells@,
            next_arrival: self.next_arrival,
        }
    }
}

/// Where the first order with `id` sits in a list; its length if none does.
pub open spec fn seat(s: Seq<Resting>, id: OrderId) -> int
    decreases s.len(),
{
    if s.len() == 0 {
        0
    } else if s[0].order.id == id {
        0
    } else {
        1 + seat(s.drop_first(), id)
    }
}

/// Whether an order with `id` sits in a list.
pub open spec fn seated(s: Seq<Resting>, id: OrderId) -> bool {
    seat(s, id) < s.len()
}

/// The limit price of an order that has one.
pub open spec fn limit_of(r: Resting) -> int {
    r.order.spec_price().unwrap().0 as int
}

/// How many bids stand in front of a new one at `price`.
pub open spec fn bid_rank(bids: Seq<Resting>, price: int) -> int
    decreases bids.len(),
{
    if bids.len() == 0 || bids[0].order.spec_price() is None || limit_of(bids[0]) < price {
        0
    } else {
        1 + bid_rank(bids.drop_first(), price)
    }
}

/// How many asks stand in front of a new one at `price`.
pub open spec fn ask_rank(asks: Seq<Resting>, price: int) -> int
    decreases asks.len(),
{
    if asks.len() == 0 || asks[0].order.spec_price() is None || limit_of(asks[0]) > price {
        0
    } else {
        1 + ask_rank(asks.drop_first(), price)
    }
}

pub open spec fn bumped(n: u64) -> u64 {
    if n == u64::MAX {
        n
    } else {
        (n + 1) as u64
    }
}

/// A list with its first order with `id` in another state.
pub open spec fn restated(s: Seq<Resting>, id: OrderId, order: Working) -> Seq<Resting> {
    let i = seat(s, id);
    s.update(i, Resting { order, arrival: s[i].arrival })
}

impl BookView {
    pub open spec fn empty() -> BookView {
        BookView {
            bids: Seq::empty(),
            asks: Seq::empty(),
            market_buys: Seq::empty(),
            market_sells: Seq::empty(),
            next_arrival: 0,
        }
    }

    /// Every order: bids, asks, market buys, market sells.
    pub open spec fn all(self) -> Seq<Resting> {
        self.bids + self.asks + self.market_buys + self.market_sells
    }

    /// Every list holds its own kind of order, best first, and at one price
    /// in order of arrival.
    pub open spec fn wf(self) -> bool {
        &&& forall|i: int|
            0 <= i < self.bids.len() ==> {
                let r = #[trigger] self.bids[i];
                r.order.side == Side::Buy && r.order.spec_price() is Some && r.arrival
                    <= self.next_arrival
            }
        &&& forall|i: int|
            0 <= i < self.asks.len() ==> {
                let r = #[trigger] self.asks[i];
                r.order.side == Side::Sell && r.order.spec_price() is Some && r.arrival
                    <= self.next_arrival
            }
        &&& forall|i: int|
            0 <= i < self.market_buys.len() ==> {
                let r = #[trigger] self.market_buys[i];
                r.order.side == Side::Buy && r.order.spec_price() is None && r.arrival
                    <= self.next_arrival
            }
        &&& forall|i: int|
            0 <= i < self.market_sells.len() ==> {
                let r = #[trigger] self.market_sells[i];
                r.order.side == Side::Sell && r.order.spec_price() is None && r.arrival
                    <= self.next_arrival
            }
        &&& forall|i: int, j: int|
            0 <= i < j < self.bids.len() ==> {
                let a = #[trigger] self.bids[i];
                let b = #[trigger] self.bids[j];
                limit_of(a) > limit_of(b) || limit_of(a) == limit_of(b) && a.arrival <= b.arrival
            }
        &&& forall|i: int, j: int|
            0 <= i < j < self.asks.len() ==> {
                let a = #[trigger] self.asks[i];
                let b = #[trigger] self.asks[j];
                limit_of(a) < limit_of(b) || limit_of(a) == limit_of(b) && a.arrival <= b.arrival
            }
    }

    /// The book with one more order, behind those it does not beat.
    pub open spec fn with(self, order: Working) -> BookView {
        let r = Resting { order, arrival: self.next_arrival };
        let next_arrival = bumped(self.next_arrival);
        match (order.side, order.spec_price()) {
            (Side::Buy, None) => BookView {
                market_buys: self.market_buys.push(r),
                next_arrival,
                ..self
            },
            (Side::Sell, None) => BookView {
                market_sells: self.market_sells.push(r),
                next_arrival,
                ..self
            },
            (Side::Buy, Some(p)) => BookView {
                bids: self.bids.insert(bid_rank(self.bids, p.0 as int), r),
                next_arrival,
                ..self
            },
            (Side::Sell, Some(p)) => BookView {
                asks: self.asks.insert(ask_rank(self.asks, p.0 as int), r),
                next_arrival,
                ..self
            },
        }
    }

    /// The first order with `id`.
    pub open spec fn find(self, id: OrderId) -> Option<Resting> {
        if seated(self.bids, id) {
            Some(self.bids[seat(self.bids, id)])
        } else if seated(self.asks, id) {
            Some(self.asks[seat(self.asks, id)])
        } else if seated(self.market_buys, id) {
            Some(self.market_buys[seat(self.market_buys, id)])
        } else if seated(self.market_sells, id) {
            Some(self.market_sells[seat(self.market_sells, id)])
        } else {
            None
        }
    }

    /// The book without its first order with `id`.
    pub open spec fn without(self, id: OrderId) -> BookView {
        if seated(self.bids, id) {
            BookView { bids: self.bids.remove(seat(self.bids, id)), ..self }
        } else if seated(self.asks, id) {
            BookView { asks: self.asks.remove(seat(self.asks, id)), ..self }
        } else if seated(self.market_buys, id) {
            BookView { market_buys: self.market_buys.remove(seat(self.market_buys, id)), ..self }
        } else if seated(self.market_sells, id) {
            BookView {
                market_sells: self.market_sells.remove(seat(self.market_sells, id)),
                ..self
            }
        } else {
            self
        }
    }

    /// The book with its first order with `id` in another state, in the same
    /// place; or without it.
    pub open spec fn replaced(self, id: OrderId, updated: Option<Working>) -> BookView {
        match updated {
            None => self.without(id),
            Some(order) => if seated(self.bids, id) {
                BookView { bids: restated(self.bids, id, order), ..self }
            } else if seated(self.asks, id) {
                BookView { asks: restated(self.asks, id, order), ..self }
            } else if seated(self.market_buys, id) {
                BookView { market_buys: restated(self.market_buys, id, order), ..self }
            } else if seated(self.market_sells, id) {
                BookView { market_sells: restated(self.market_sells, id, order), ..self }
            } else {
                self
            },
        }
    }

    /// Whether an order with `id` would stay on its side and at its price.
    pub open spec fn stays(self, id: OrderId, updated: Option<Working>) -> bool {
        updated matches Some(order) ==> (self.find(id) matches Some(r) ==> order.side
            == r.order.side && order.spec_price() == r.order.spec_price())
    }

    pub open spec fn len(self) -> nat {
        self.bids.len() + self.asks.len() + self.market_buys.len() + self.market_sells.len()
    }
}

pub proof fn lemma_seat(s: Seq<Resting>, id: OrderId)
    ensures
        0 <= seat(s, id) <= s.len(),
        seated(s, id) ==> s[seat(s, id)].order.id == id,
        forall|i: int| 0 <= i < seat(s, id) ==> (#[trigger] s[i]).order.id != id,
        forall|i: int|
            0 <= i < s.len() && (#[trigger] s[i]).order.id == id ==> seat(s, id) <= i,
    decreases s.len(),
{
    if s.len() > 0 && s[0].order.id != id {
        let t = s.drop_first();
        lemma_seat(t, id);
        assert forall|i: int| 0 <= i < seat(s, id) implies (#[trigger] s[i]).order.id != id by {
            if i > 0 {
                assert(t[i - 1] == s[i]);
            }
        }
        assert forall|i: int| 0 <= i < s.len() && (#[trigger] s[i]).order.id == id implies seat(
            s,
            id,
        ) <= i by {
            if i > 0 {
                assert(t[i - 1] == s[i]);
            }
        }
    }
}

/// A first place found by looking is the seat.
proof fn lemma_seat_is(s: Seq<Resting>, id: OrderId, at: int)
    requires
        0 <= at <= s.len(),
        at < s.len() ==> s[at].order.id == id,
        forall|i: int| 0 <= i < at ==> (#[trigger] s[i]).order.id != id,
    ensures
        seat(s, id) == at,
{
    lemma_seat(s, id);
    if seat(s, id) < at {
        assert(s[seat(s, id)].order.id != id);
    }
}

proof fn lemma_bid_rank(bids: Seq<Resting>, price: int, at: int)
    requires
        0 <= at <= bids.len(),
        forall|i: int|
            0 <= i < at ==> (#[trigger] bids[i]).order.spec_price() is Some && limit_of(bids[i])
                >= price,
        at < bids.len() ==> bids[at].order.spec_price() is None || limit_of(bids[at]) < price,
    ensures
        bid_rank(bids, price) == at,
    decreases at,
{
    if at > 0 {
        assert(bids[0].order.spec_price() is Some);
        let t = bids.drop_first();
        assert(forall|i: int| 0 <= i < t.len() ==> #[trigger] t[i] == bids[i + 1]);
        lemma_bid_rank(t, price, at - 1);
    }
}

proof fn lemma_ask_rank(asks: Seq<Resting>, price: int, at: int)
    requires
        0 <= at <= asks.len(),
        forall|i: int|
            0 <= i < at ==> (#[trigger] asks[i]).order.spec_price() is Some && limit_of(asks[i])
                <= price,
        at < asks.len() ==> asks[at].order.spec_price() is None || limit_of(asks[at]) > price,
    ensures
        ask_rank(asks, price) == at,
    decreases at,
{
    if at > 0 {
        assert(asks[0].order.spec_price() is Some);
        let t = asks.drop_first();
        assert(forall|i: int| 0 <= i < t.len() ==> #[trigger] t[i] == asks[i + 1]);
        lemma_ask_rank(t, price, at - 1);
    }
}

proof fn lemma_bid_rank_splits(bids: Seq<Resting>, price: int)
    ensures
        0 <= bid_rank(bids, price) <= bids.len(),
        forall|i: int|
            0 <= i < bid_rank(bids, price) ==> (#[trigger] bids[i]).order.spec_price() is Some
                && limit_of(bids[i]) >= price,
        bid_rank(bids, price) < bids.len() ==> bids[bid_rank(
            bids,
            price,
        )].order.spec_price() is None || limit_of(bids[bid_rank(bids, price)]) < price,
    decreases bids.len(),
{
    if bids.len() > 0 && bids[0].order.spec_price() is Some && limit_of(bids[0]) >= price {
        let t = bids.drop_first();
        lemma_bid_rank_splits(t, price);
        assert(forall|i: int| 0 <= i < t.len() ==> #[trigger] t[i] == bids[i + 1]);
        assert forall|i: int| 0 <= i < bid_rank(bids, price) implies (
        #[trigger] bids[i]).order.spec_price() is Some && limit_of(bids[i]) >= price by {
            if i > 0 {
                assert(t[i - 1] == bids[i]);
            }
        }
    }
}

proof fn lemma_ask_rank_splits(asks: Seq<Resting>, price: int)
    ensures
        0 <= ask_rank(asks, price) <= asks.len(),
        forall|i: int|
            0 <= i < ask_rank(asks, price) ==> (#[trigger] asks[i]).order.spec_price() is Some
                && limit_of(asks[i]) <= price,
        ask_rank(asks, price) < asks.len() ==> asks[ask_rank(
            asks,
            price,
        )].order.spec_price() is None || limit_of(asks[ask_rank(asks, price)]) > price,
    decreases asks.len(),
{
    if asks.len() > 0 && asks[0].order.spec_price() is Some && limit_of(asks[0]) <= price {
        let t = asks.drop_first();
        lemma_ask_rank_splits(t, price);
        assert(forall|i: int| 0 <= i < t.len() ==> #[trigger] t[i] == asks[i + 1]);
        assert forall|i: int| 0 <= i < ask_rank(asks, price) implies (
        #[trigger] asks[i]).order.spec_price() is Some && limit_of(asks[i]) <= price by {
            if i > 0 {
                assert(t[i - 1] == asks[i]);
            }
        }
    }
}

/// Inserting keeps every list in order: a new order goes behind every order
/// at its price or better.
pub proof fn law_insert_keeps_priority(b: BookView, order: Working)
    requires
        b.wf(),
    ensures
        b.with(order).wf(),
        b.with(order).len() == b.len() + 1,
{
    let c = b.with(order);
    let r = Resting { order, arrival: b.next_arrival };
    match (order.side, order.spec_price()) {
        (Side::Buy, Some(p)) => {
            let at = bid_rank(b.bids, p.0 as int);
            lemma_bid_rank_splits(b.bids, p.0 as int);
            assert forall|i: int, j: int| 0 <= i < j < c.bids.len() implies {
                let x = #[trigger] c.bids[i];
                let y = #[trigger] c.bids[j];
                limit_of(x) > limit_of(y) || limit_of(x) == limit_of(y) && x.arrival <= y.arrival
            } by {
                let i0 = if i < at {
                    i
                } else {
                    i - 1
                };
                let j0 = if j < at {
                    j
                } else {
                    j - 1
                };
                if i != at {
                    assert(c.bids[i] == b.bids[i0]);
                }
                if j != at {
                    assert(c.bids[j] == b.bids[j0]);
                }
                if i == at && j > at {
                    assert(b.bids[at].order.spec_price() is Some);
                    if j0 > at {
                        assert(limit_of(b.bids[at]) >= limit_of(b.bids[j0]));
                    }
                }
            }
        },
        (Side::Sell, Some(p)) => {
            let at = ask_rank(b.asks, p.0 as int);
            lemma_ask_rank_splits(b.asks, p.0 as int);
            assert forall|i: int, j: int| 0 <= i < j < c.asks.len() implies {
                let x = #[trigger] c.asks[i];
                let y = #[trigger] c.asks[j];
                limit_of(x) < limit_of(y) || limit_of(x) == limit_of(y) && x.arrival <= y.arrival
            } by {
                let i0 = if i < at {
                    i
                } else {
                    i - 1
                };
                let j0 = if j < at {
                    j
                } else {
                    j - 1
                };
                if i != at {
                    assert(c.asks[i] == b.asks[i0]);
                }
                if j != at {
                    assert(c.asks[j] == b.asks[j0]);
                }
                if i == at && j > at {
                    assert(b.asks[at].order.spec_price() is Some);
                    if j0 > at {
                        assert(limit_of(b.asks[at]) <= limit_of(b.asks[j0]));
                    }
                }
            }
        },
        _ => {},
    }
}

/// Removing an order keeps every list in order and takes exactly one order.
pub proof fn law_remove_keeps_priority(b: BookView, id: OrderId)
    requires
        b.wf(),
    ensures
        b.without(id).wf(),
        b.without(id).len() == (if b.find(id) is Some {
            b.len() - 1
        } else {
            b.len() as int
        }),
        b.without(id).next_arrival == b.next_arrival,
{
    lemma_seat(b.bids, id);
    lemma_seat(b.asks, id);
    lemma_seat(b.market_buys, id);
    lemma_seat(b.market_sells, id);
}

/// Where the first order with `id` sits.
fn seat_of(s: &Vec<Resting>, id: OrderId) -> (r: Option<usize>)
    ensures
        match r {
            Some(i) => seated(s@, id) && i == seat(s@, id),
            None => !seated(s@, id),
        },
{
    let mut i: usize = 0;
    while i < s.len()
        invariant
            i <= s@.len(),
            forall|k: int| 0 <= k < i ==> (#[trigger] s@[k]).order.id != id,
        decreases s@.len() - i,
    {
        if s[i].order.id == id {
            proof {
                lemma_seat_is(s@, id, i as int);
            }
            return Some(i);
        }
        i += 1;
    }
    proof {
        lemma_seat_is(s@, id, i as int);
    }
    None
}

fn push_all(out: &mut Vec<OrderId>, s: &Vec<Resting>)
    ensures
        final(out)@ == old(out)@ + ids_of(s@),
{
    let ghost start = out@;
    let mut i: usize = 0;
    while i < s.len()
        invariant
            i <= s@.len(),
            out@ == start + ids_of(s@).subrange(0, i as int),
        decreases s@.len() - i,
    {
        out.push(s[i].order.id);
        i += 1;
        assert(out@ =~= start + ids_of(s@).subrange(0, i as int));
    }
    assert(out@ =~= start + ids_of(s@));
}

/// The ids of a list of orders.
pub open spec fn ids_of(s: Seq<Resting>) -> Seq<OrderId> {
    Seq::new(s.len(), |i: int| s[i].order.id)
}

impl Book {
    /// An empty book.
    pub fn new() -> (r: Self)
        ensures
            r@ == BookView::empty(),
            r@.wf(),
    {
        Book {
            bids: Vec::new(),
            asks: Vec::new(),
            market_buys: Vec::new(),
            market_sells: Vec::new(),
            next_arrival: 0,
        }
    }

    /// Orders held, counting no further than `usize` can.
    pub fn len(&self) -> (r: usize)
        ensures
            r == (if self@.len() > usize::MAX {
                usize::MAX as nat
            } else {
                self@.len()
            }),
    {
        self.bids.len().saturating_add(self.asks.len()).saturating_add(
            self.market_buys.len(),
        ).saturating_add(self.market_sells.len())
    }

    pub fn is_empty(&self) -> (r: bool)
        ensures
            r == (self@.len() == 0),
    {
        self.bids.len() == 0 && self.asks.len() == 0 && self.market_buys.len() == 0
            && self.market_sells.len() == 0
    }

    /// The price of the first bid.
    pub fn best_bid(&self) -> (r: Option<PriceTicks>)
        ensures
            r == (if self@.bids.len() == 0 {
                None
            } else {
                self@.bids[0].order.spec_price()
            }),
    {
        if self.bids.len() == 0 {
            None
        } else {
            self.bids[0].price()
        }
    }

    /// The price of the first ask.
    pub fn best_ask(&self) -> (r: Option<PriceTicks>)
        ensures
            r == (if self@.asks.len() == 0 {
                None
            } else {
                self@.asks[0].order.spec_price()
            }),
    {
        if self.asks.len() == 0 {
            None
        } else {
            self.asks[0].price()
        }
    }

    pub fn has_market_orders(&self) -> (r: bool)
        ensures
            r == (self@.market_buys.len() > 0 || self@.market_sells.len() > 0),
    {
        self.market_buys.len() > 0 || self.market_sells.len() > 0
    }

    /// Add an order behind those it does not beat.
    pub fn insert(&mut self, order: Working)
        requires
            old(self)@.wf(),
        ensures
            final(self)@ == old(self)@.with(order),
            final(self)@.wf(),
    {
        proof {
            law_insert_keeps_priority(self@, order);
        }
        let arrival: u64 = self.next_arrival;
        self.next_arrival = arrival.saturating_add(1);
        let resting = Resting { order, arrival };
        match (order.side(), order.price()) {
            (Side::Buy, None) => {
                self.market_buys.push(resting);
            },
            (Side::Sell, None) => {
                self.market_sells.push(resting);
            },
            (Side::Buy, Some(price)) => {
                let mut lo: usize = 0;
                let mut hi: usize = self.bids.len();
                while lo < hi
                    invariant
                        lo <= hi <= self.bids@.len(),
                        self.bids@ == old(self)@.bids,
                        old(self)@.wf(),
                        forall|k: int| 0 <= k < lo ==> limit_of(#[trigger] self.bids@[k]) >= price.0,
                        forall|k: int|
                            hi <= k < self.bids@.len() ==> limit_of(#[trigger] self.bids@[k])
                                < price.0,
                    decreases hi - lo,
                {
                    let mid: usize = lo + (hi - lo) / 2;
                    let ghost here = old(self)@.bids[mid as int];
                    let stays = match self.bids[mid].price() {
                        Some(p) => p.0 >= price.0,
                        None => false,
                    };
                    assert forall|k: int| 0 <= k < self.bids@.len() implies (k <= mid ==> limit_of(
                        #[trigger] self.bids@[k],
                    ) >= limit_of(here)) && (k >= mid ==> limit_of(self.bids@[k]) <= limit_of(
                        here,
                    )) by {}
                    if stays {
                        lo = mid + 1;
                    } else {
                        hi = mid;
                    }
                }
                proof {
                    lemma_bid_rank(self.bids@, price.0 as int, lo as int);
                }
                self.bids.insert(lo, resting);
            },
            (Side::Sell, Some(price)) => {
                let mut lo: usize = 0;
                let mut hi: usize = self.asks.len();
                while lo < hi
                    invariant
                        lo <= hi <= self.asks@.len(),
                        self.asks@ == old(self)@.asks,
                        old(self)@.wf(),
                        forall|k: int| 0 <= k < lo ==> limit_of(#[trigger] self.asks@[k]) <= price.0,
                        forall|k: int|
                            hi <= k < self.asks@.len() ==> limit_of(#[trigger] self.asks@[k])
                                > price.0,
                    decreases hi - lo,
                {
                    let mid: usize = lo + (hi - lo) / 2;
                    let ghost here = old(self)@.asks[mid as int];
                    let stays = match self.asks[mid].price() {
                        Some(p) => p.0 <= price.0,
                        None => false,
                    };
                    assert forall|k: int| 0 <= k < self.asks@.len() implies (k <= mid ==> limit_of(
                        #[trigger] self.asks@[k],
                    ) <= limit_of(here)) && (k >= mid ==> limit_of(self.asks@[k]) >= limit_of(
                        here,
                    )) by {}
                    if stays {
                        lo = mid + 1;
                    } else {
                        hi = mid;
                    }
                }
                proof {
                    lemma_ask_rank(self.asks@, price.0 as int, lo as int);
                }
                self.asks.insert(lo, resting);
            },
        }
        assert(self@ =~= old(self)@.with(order));
    }

    /// Take an order out, wherever it is.
    pub fn remove(&mut self, id: OrderId) -> (r: Option<Working>)
        requires
            old(self)@.wf(),
        ensures
            r == (match old(self)@.find(id) {
                Some(x) => Some(x.order),
                None => None,
            }),
            final(self)@ == old(self)@.without(id),
            final(self)@.wf(),
    {
        proof {
            law_remove_keeps_priority(self@, id);
        }
        match seat_of(&self.bids, id) {
            Some(i) => {
                return Some(self.bids.remove(i).order);
            },
            None => {},
        }
        match seat_of(&self.asks, id) {
            Some(i) => {
                return Some(self.asks.remove(i).order);
            },
            None => {},
        }
        match seat_of(&self.market_buys, id) {
            Some(i) => {
                return Some(self.market_buys.remove(i).order);
            },
            None => {},
        }
        match seat_of(&self.market_sells, id) {
            Some(i) => Some(self.market_sells.remove(i).order),
            None => None,
        }
    }

    /// Put a resting order in another state, in place, or drop it. An order that
    /// was filled in part keeps its place in the queue.
    pub fn replace(&mut self, id: OrderId, updated: Option<Working>)
        requires
            old(self)@.wf(),
        ensures
            final(self)@ == old(self)@.replaced(id, updated),
            old(self)@.stays(id, updated) ==> final(self)@.wf(),
    {
        let order = match updated {
            Some(order) => order,
            None => {
                let _gone = self.remove(id);
                return ;
            },
        };
        match seat_of(&self.bids, id) {
            Some(i) => {
                let arrival: u64 = self.bids[i].arrival;
                self.bids.set(i, Resting { order, arrival });
                return ;
            },
            None => {},
        }
        match seat_of(&self.asks, id) {
            Some(i) => {
                let arrival: u64 = self.asks[i].arrival;
                self.asks.set(i, Resting { order, arrival });
                return ;
            },
            None => {},
        }
        match seat_of(&self.market_buys, id) {
            Some(i) => {
                let arrival: u64 = self.market_buys[i].arrival;
                self.market_buys.set(i, Resting { order, arrival });
                return ;
            },
            None => {},
        }
        match seat_of(&self.market_sells, id) {
            Some(i) => {
                let arrival: u64 = self.market_sells[i].arrival;
                self.market_sells.set(i, Resting { order, arrival });
            },
            None => {},
        }
    }

    /// The first order with `id`.
    pub fn find(&self, id: OrderId) -> (r: Option<Resting>)
        ensures
            r == self@.find(id),
    {
        match seat_of(&self.bids, id) {
            Some(i) => {
                return Some(self.bids[i]);
            },
            None => {},
        }
        match seat_of(&self.asks, id) {
            Some(i) => {
                return Some(self.asks[i]);
            },
            None => {},
        }
        match seat_of(&self.market_buys, id) {
            Some(i) => {
                return Some(self.market_buys[i]);
            },
            None => {},
        }
        match seat_of(&self.market_sells, id) {
            Some(i) => Some(self.market_sells[i]),
            None => None,
        }
    }

    pub fn contains(&self, id: OrderId) -> (r: bool)
        ensures
            r == (self@.find(id) is Some),
    {
        self.find(id).is_some()
    }

    /// Every order: bids, asks, market buys, market sells.
    pub fn iter(&self) -> (r: Vec<Resting>)
        ensures
            r@ == self@.all(),
    {
        let mut out: Vec<Resting> = Vec::new();
        append_copy(&mut out, &self.bids);
        append_copy(&mut out, &self.asks);
        append_copy(&mut out, &self.market_buys);
        append_copy(&mut out, &self.market_sells);
        assert(out@ =~= self@.all());
        out
    }

    /// The ids of every order, in the order of [`Book::iter`].
    pub fn resting_ids(&self) -> (r: Vec<OrderId>)
        ensures
            r@ == ids_of(self@.all()),
    {
        let mut out: Vec<OrderId> = Vec::new();
        push_all(&mut out, &self.bids);
        push_all(&mut out, &self.asks);
        push_all(&mut out, &self.market_buys);
        push_all(&mut out, &self.market_sells);
        assert(out@ =~= ids_of(self@.all()));
        out
    }

    pub fn bids(&self) -> (r: &Vec<Resting>)
        ensures
            r@ == self@.bids,
    {
        &self.bids
    }

    pub fn asks(&self) -> (r: &Vec<Resting>)
        ensures
            r@ == self@.asks,
    {
        &self.asks
    }

    pub fn market_buys(&self) -> (r: &Vec<Resting>)
        ensures
            r@ == self@.market_buys,
    {
        &self.market_buys
    }

    pub fn market_sells(&self) -> (r: &Vec<Resting>)
        ensures
            r@ == self@.market_sells,
    {
        &self.market_sells
    }

    /// Empty every list. Arrivals go on counting.
    pub fn clear(&mut self)
        ensures
            final(self)@ == (BookView {
                next_arrival: old(self)@.next_arrival,
                ..BookView::empty()
            }),
            final(self)@.wf(),
    {
        self.bids.clear();
        self.asks.clear();
        self.market_buys.clear();
        self.market_sells.clear();
    }
}

/// Copy one list behind another.
pub fn append_copy(out: &mut Vec<Resting>, s: &Vec<Resting>)
    ensures
        final(out)@ == old(out)@ + s@,
{
    let ghost start = out@;
    let mut i: usize = 0;
    while i < s.len()
        invariant
            i <= s@.len(),
            out@ == start + s@.subrange(0, i as int),
        decreases s@.len() - i,
    {
        out.push(s[i]);
        i += 1;
        assert(out@ =~= start + s@.subrange(0, i as int));
    }
    assert(s@.subrange(0, i as int) =~= s@);
}

} // verus!

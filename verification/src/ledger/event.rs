//! Everything that can happen, as data.
//!
//! The core cannot read a clock, open a socket or draw a random number.
//! Anything it needs to know arrives as an [`Event`], which is what makes a
//! replay a replay. Time is an event too.
//!
//! The encoding is fixed-layout and little-endian. The discriminant travels
//! in the journal record's kind field, so a reader can route a record without
//! decoding it, and is never reused: a journal outlives the build that wrote
//! it.
use crate::bytes::{
    get_i64, get_le, i64_bytes, i64_value, le_bytes, le_value, lemma_i64_round_trip,
    lemma_le_bytes_len, lemma_le_value_bound, lemma_pow256, lemma_u32_round_trip,
    lemma_u64_round_trip, put_i64, put_le, put_u64,
};
use crate::engine::tick::Tick;
use crate::ledger::kind;
use crate::types::{
    clamp_i64, sat_mul, Fill, InstrumentId, Liquidity, Nanos, Offset, OrderId, PriceTicks, QtyLots,
    Ratio, Side, Stamp, TradeId,
};
use crate::venue::depth::{DepthUpdate, DepthView, Level};
use vstd::prelude::*;

verus! {

/// An input to the core.
#[derive(Clone, Debug, PartialEq, Eq)]
pub enum Event {
    /// A market observation.
    Tick(Tick),
    /// Place an order.
    Submit {
        id: OrderId,
        side: Side,
        /// A limit price, or `None` for a market order.
        price: Option<PriceTicks>,
        qty: QtyLots,
        /// Whether this order adds to a position or reduces one. Under hedge
        /// accounting only the order knows which leg it means.
        offset: Offset,
        stamp: Stamp,
    },
    /// Withdraw an order.
    Cancel { id: OrderId, stamp: Stamp },
    /// A funding settlement.
    Funding { at: Nanos, rate: Ratio, mark: PriceTicks },
    /// The clock advanced. The only way the core learns the time.
    Time(Nanos),
    /// Collateral added to or removed from the account.
    MarginDeposit { amount: i64, at: Nanos },
    /// A fill the venue decided. Only meaningful when the venue matches.
    VenueFill(Fill),
    /// A depth update from the venue.
    Depth(Box<DepthUpdate>),
}

/// What an event says, with its levels as sequences.
#[verifier::ext_equal]
pub enum EventView {
    Tick(Tick),
    Submit {
        id: OrderId,
        side: Side,
        price: Option<PriceTicks>,
        qty: QtyLots,
        offset: Offset,
        stamp: Stamp,
    },
    Cancel { id: OrderId, stamp: Stamp },
    Funding { at: Nanos, rate: Ratio, mark: PriceTicks },
    Time(Nanos),
    MarginDeposit { amount: i64, at: Nanos },
    VenueFill(Fill),
    Depth(DepthView),
}

impl View for Event {
    type V = EventView;

    open spec fn view(&self) -> EventView {
        match *self {
            Event::Tick(t) => EventView::Tick(t),
            Event::Submit { id, side, price, qty, offset, stamp } => EventView::Submit {
                id,
                side,
                price,
                qty,
                offset,
                stamp,
            },
            Event::Cancel { id, stamp } => EventView::Cancel { id, stamp },
            Event::Funding { at, rate, mark } => EventView::Funding { at, rate, mark },
            Event::Time(at) => EventView::Time(at),
            Event::MarginDeposit { amount, at } => EventView::MarginDeposit { amount, at },
            Event::VenueFill(f) => EventView::VenueFill(f),
            Event::Depth(u) => EventView::Depth(u@),
        }
    }
}

/// The view of an event that may be absent.
pub open spec fn event_option(e: Option<Event>) -> Option<EventView> {
    match e {
        Some(e) => Some(e@),
        None => None,
    }
}

/// Bytes before the levels of a depth payload.
pub const DEPTH_HEADER: usize = 41;

pub open spec fn side_byte(side: Side) -> u8 {
    match side {
        Side::Buy => 0,
        Side::Sell => 1,
    }
}

pub open spec fn offset_byte(offset: Offset) -> u8 {
    match offset {
        Offset::Open => 0,
        Offset::Close => 1,
    }
}

pub open spec fn liquidity_byte(liquidity: Liquidity) -> u8 {
    match liquidity {
        Liquidity::Maker => 0,
        Liquidity::Taker => 1,
    }
}

pub open spec fn side_of(b: u8) -> Option<Side> {
    if b == 0 {
        Some(Side::Buy)
    } else if b == 1 {
        Some(Side::Sell)
    } else {
        None
    }
}

pub open spec fn offset_of(b: u8) -> Option<Offset> {
    if b == 0 {
        Some(Offset::Open)
    } else if b == 1 {
        Some(Offset::Close)
    } else {
        None
    }
}

pub open spec fn liquidity_of(b: u8) -> Option<Liquidity> {
    if b == 0 {
        Some(Liquidity::Maker)
    } else if b == 1 {
        Some(Liquidity::Taker)
    } else {
        None
    }
}

/// The bytes of a run of `i64`, eight each.
pub open spec fn words(xs: Seq<i64>) -> Seq<u8>
    decreases xs.len(),
{
    if xs.len() == 0 {
        Seq::empty()
    } else {
        words(xs.drop_last()) + i64_bytes(xs.last())
    }
}

/// The `i64` at byte offset `at`.
pub open spec fn word_at(p: Seq<u8>, at: int) -> i64 {
    i64_value(p.subrange(at, at + 8))
}

/// The unsigned integer of `n` bytes at byte offset `at`.
pub open spec fn uint_at(p: Seq<u8>, at: int, n: int) -> nat {
    le_value(p.subrange(at, at + n))
}

/// Levels as a run of price, quantity, price, quantity.
pub open spec fn level_words(levels: Seq<Level>) -> Seq<i64> {
    Seq::new(
        2 * levels.len(),
        |i: int|
            if i % 2 == 0 {
                levels[i / 2].price
            } else {
                levels[i / 2].qty
            },
    )
}

/// `n` levels read from byte offset `at`.
pub open spec fn levels_at(p: Seq<u8>, at: int, n: nat) -> Seq<Level> {
    Seq::new(
        n,
        |i: int| Level { price: word_at(p, at + 16 * i), qty: word_at(p, at + 16 * i + 8) },
    )
}

impl EventView {
    /// The journal record kind.
    pub open spec fn kind(self) -> u16 {
        match self {
            EventView::Tick(_) => kind::TICK,
            EventView::Submit { .. } => kind::SUBMIT,
            EventView::Cancel { .. } => kind::CANCEL,
            EventView::Funding { .. } => kind::FUNDING,
            EventView::Time(_) => kind::TIME,
            EventView::MarginDeposit { .. } => kind::MARGIN_DEPOSIT,
            EventView::VenueFill(_) => kind::VENUE_FILL,
            EventView::Depth(_) => kind::DEPTH,
        }
    }

    /// The event's time on the venue's clock.
    pub open spec fn at(self) -> Nanos {
        match self {
            EventView::Tick(t) => t.stamp.exch,
            EventView::Submit { stamp, .. } => stamp.exch,
            EventView::Cancel { stamp, .. } => stamp.exch,
            EventView::Funding { at, .. } => at,
            EventView::Time(at) => at,
            EventView::MarginDeposit { at, .. } => at,
            EventView::VenueFill(f) => f.stamp.exch,
            EventView::Depth(u) => Nanos(clamp_i64(u.event_ms * 1_000_000)),
        }
    }

    /// The payload.
    pub open spec fn encoded(self) -> Seq<u8> {
        match self {
            EventView::Tick(t) => words(
                seq![
                    t.stamp.exch.0,
                    t.stamp.local.0,
                    t.last.0,
                    t.high.0,
                    t.low.0,
                    t.bid.0,
                    t.ask.0,
                    t.volume.0,
                ],
            ),
            EventView::Submit { id, side, price, qty, offset, stamp } => {
                let flag: u8 = if price is Some {
                    1
                } else {
                    0
                };
                let raw: i64 = match price {
                    Some(p) => p.0,
                    None => 0,
                };
                le_bytes(id.0 as nat, 8) + seq![side_byte(side), flag] + words(
                    seq![raw, qty.0, stamp.exch.0, stamp.local.0],
                ) + seq![offset_byte(offset)]
            },
            EventView::Cancel { id, stamp } => le_bytes(id.0 as nat, 8) + words(
                seq![stamp.exch.0, stamp.local.0],
            ),
            EventView::Funding { at, rate, mark } => words(seq![at.0, rate.0, mark.0]),
            EventView::Time(at) => words(seq![at.0]),
            EventView::MarginDeposit { amount, at } => words(seq![amount, at.0]),
            EventView::VenueFill(f) => words(seq![f.stamp.exch.0, f.stamp.local.0]) + le_bytes(
                f.instrument.0 as nat,
                4,
            ) + le_bytes(f.order.0 as nat, 8) + le_bytes(f.trade.0 as nat, 8) + words(
                seq![f.price.0, f.qty.0],
            ) + seq![side_byte(f.side), offset_byte(f.offset), liquidity_byte(f.liquidity)],
            EventView::Depth(u) => {
                let prev: u64 = match u.prev_final_id {
                    Some(p) => p,
                    None => 0,
                };
                let flag: u8 = if u.prev_final_id is Some {
                    1
                } else {
                    0
                };
                i64_bytes(u.event_ms) + le_bytes(u.first_id as nat, 8) + le_bytes(
                    u.final_id as nat,
                    8,
                ) + le_bytes(prev as nat, 8) + seq![flag] + le_bytes(u.bids.len(), 4) + le_bytes(
                    u.asks.len(),
                    4,
                ) + words(level_words(u.bids)) + words(level_words(u.asks))
            },
        }
    }

    /// Whether the event's payload can be told apart from every other: a
    /// depth update counts its levels in 32 bits.
    pub open spec fn encodable(self) -> bool {
        match self {
            EventView::Depth(u) => u.bids.len() < 0x1_0000_0000 && u.asks.len() < 0x1_0000_0000,
            _ => true,
        }
    }
}

pub open spec fn decoded_tick(p: Seq<u8>) -> Option<EventView> {
    if p.len() != 64 {
        None
    } else {
        Some(
            EventView::Tick(
                Tick {
                    stamp: Stamp { exch: Nanos(word_at(p, 0)), local: Nanos(word_at(p, 8)) },
                    last: PriceTicks(word_at(p, 16)),
                    high: PriceTicks(word_at(p, 24)),
                    low: PriceTicks(word_at(p, 32)),
                    bid: PriceTicks(word_at(p, 40)),
                    ask: PriceTicks(word_at(p, 48)),
                    volume: QtyLots(word_at(p, 56)),
                },
            ),
        )
    }
}

pub open spec fn decoded_submit(p: Seq<u8>, legacy: bool) -> Option<EventView> {
    let expected: int = if legacy {
        42
    } else {
        43
    };
    if p.len() != expected {
        None
    } else {
        let offset = if legacy {
            Some(Offset::Open)
        } else {
            offset_of(p[42])
        };
        match (offset, side_of(p[8])) {
            (Some(offset), Some(side)) => Some(
                EventView::Submit {
                    id: OrderId(uint_at(p, 0, 8) as u64),
                    side,
                    price: if p[9] == 1 {
                        Some(PriceTicks(word_at(p, 10)))
                    } else {
                        None
                    },
                    qty: QtyLots(word_at(p, 18)),
                    offset,
                    stamp: Stamp { exch: Nanos(word_at(p, 26)), local: Nanos(word_at(p, 34)) },
                },
            ),
            _ => None,
        }
    }
}

pub open spec fn decoded_fill(p: Seq<u8>) -> Option<EventView> {
    if p.len() != 55 {
        None
    } else {
        match (side_of(p[52]), offset_of(p[53]), liquidity_of(p[54])) {
            (Some(side), Some(offset), Some(liquidity)) => Some(
                EventView::VenueFill(
                    Fill {
                        stamp: Stamp { exch: Nanos(word_at(p, 0)), local: Nanos(word_at(p, 8)) },
                        instrument: InstrumentId(uint_at(p, 16, 4) as u32),
                        order: OrderId(uint_at(p, 20, 8) as u64),
                        trade: TradeId(uint_at(p, 28, 8) as u64),
                        side,
                        offset,
                        price: PriceTicks(word_at(p, 36)),
                        qty: QtyLots(word_at(p, 44)),
                        liquidity,
                    },
                ),
            ),
            _ => None,
        }
    }
}

pub open spec fn decoded_depth(p: Seq<u8>) -> Option<EventView> {
    if p.len() < 41 {
        None
    } else {
        let n_bids = uint_at(p, 33, 4);
        let n_asks = uint_at(p, 37, 4);
        if p[32] > 1 || p.len() != 41 + 16 * (n_bids + n_asks) {
            None
        } else {
            Some(
                EventView::Depth(
                    DepthView {
                        event_ms: word_at(p, 0),
                        first_id: uint_at(p, 8, 8) as u64,
                        final_id: uint_at(p, 16, 8) as u64,
                        prev_final_id: if p[32] == 1 {
                            Some(uint_at(p, 24, 8) as u64)
                        } else {
                            None
                        },
                        bids: levels_at(p, 41, n_bids),
                        asks: levels_at(p, 41 + 16 * n_bids as int, n_asks),
                    },
                ),
            )
        }
    }
}

/// What a payload of a given kind says; nothing for an unknown kind, a wrong
/// length or a byte outside its range.
pub open spec fn decoded(kind: u16, p: Seq<u8>) -> Option<EventView> {
    if kind == kind::TICK {
        decoded_tick(p)
    } else if kind == kind::SUBMIT {
        decoded_submit(p, false)
    } else if kind == kind::SUBMIT_LEGACY {
        decoded_submit(p, true)
    } else if kind == kind::CANCEL {
        if p.len() != 24 {
            None
        } else {
            Some(
                EventView::Cancel {
                    id: OrderId(uint_at(p, 0, 8) as u64),
                    stamp: Stamp { exch: Nanos(word_at(p, 8)), local: Nanos(word_at(p, 16)) },
                },
            )
        }
    } else if kind == kind::FUNDING {
        if p.len() != 24 {
            None
        } else {
            Some(
                EventView::Funding {
                    at: Nanos(word_at(p, 0)),
                    rate: Ratio(word_at(p, 8)),
                    mark: PriceTicks(word_at(p, 16)),
                },
            )
        }
    } else if kind == kind::TIME {
        if p.len() != 8 {
            None
        } else {
            Some(EventView::Time(Nanos(word_at(p, 0))))
        }
    } else if kind == kind::MARGIN_DEPOSIT {
        if p.len() != 16 {
            None
        } else {
            Some(EventView::MarginDeposit { amount: word_at(p, 0), at: Nanos(word_at(p, 8)) })
        }
    } else if kind == kind::VENUE_FILL {
        decoded_fill(p)
    } else if kind == kind::DEPTH {
        decoded_depth(p)
    } else {
        None
    }
}

fn put_words(out: &mut Vec<u8>, xs: &[i64])
    ensures
        final(out)@ == old(out)@ + words(xs@),
{
    let ghost start = out@;
    let mut i: usize = 0;
    assert(xs@.subrange(0, 0) =~= Seq::<i64>::empty());
    assert(start + words(xs@.subrange(0, 0)) =~= start);
    while i < xs.len()
        invariant
            i <= xs@.len(),
            out@ == start + words(xs@.subrange(0, i as int)),
        decreases xs@.len() - i,
    {
        put_i64(out, xs[i]);
        i += 1;
        proof {
            let now = xs@.subrange(0, i as int);
            assert(now.drop_last() =~= xs@.subrange(0, i - 1));
            assert(start + words(now) =~= start + words(now.drop_last()) + i64_bytes(now.last()));
        }
    }
    assert(xs@.subrange(0, i as int) =~= xs@);
}

fn put_levels(out: &mut Vec<u8>, levels: &Vec<Level>)
    ensures
        final(out)@ == old(out)@ + words(level_words(levels@)),
{
    let ghost start = out@;
    let ghost whole = level_words(levels@);
    let mut i: usize = 0;
    assert(whole.subrange(0, 0) =~= Seq::<i64>::empty());
    assert(start + words(whole.subrange(0, 0)) =~= start);
    while i < levels.len()
        invariant
            i <= levels@.len(),
            whole == level_words(levels@),
            out@ == start + words(whole.subrange(0, 2 * i as int)),
        decreases levels@.len() - i,
    {
        put_i64(out, levels[i].price);
        put_i64(out, levels[i].qty);
        i += 1;
        proof {
            let two = whole.subrange(0, 2 * i as int);
            let one = whole.subrange(0, 2 * i - 1);
            let none = whole.subrange(0, 2 * i - 2);
            assert(two.drop_last() =~= one);
            assert(one.drop_last() =~= none);
            assert(two.last() == levels@[i - 1].qty);
            assert(one.last() == levels@[i - 1].price);
            assert(words(two) == words(one) + i64_bytes(two.last()));
            assert(words(one) == words(none) + i64_bytes(one.last()));
            assert(start + words(two) =~= start + words(none) + i64_bytes(one.last()) + i64_bytes(
                two.last(),
            ));
        }
    }
    assert(whole.subrange(0, 2 * i as int) =~= whole);
}

fn get_levels(p: &[u8], at: usize, n: usize) -> (r: Vec<Level>)
    requires
        at + 16 * n <= p@.len(),
    ensures
        r@ == levels_at(p@, at as int, n as nat),
{
    let total: usize = p.len();
    let mut out: Vec<Level> = Vec::new();
    let mut i: usize = 0;
    let mut o: usize = at;
    while i < n
        invariant
            i <= n,
            o == at + 16 * i,
            at + 16 * n <= total == p@.len(),
            out@.len() == i,
            forall|k: int| 0 <= k < i ==> out@[k] == levels_at(p@, at as int, n as nat)[k],
        decreases n - i,
    {
        out.push(Level { price: get_i64(p, o), qty: get_i64(p, o + 8) });
        i += 1;
        o += 16;
    }
    assert(out@ =~= levels_at(p@, at as int, n as nat));
    out
}

fn read_side(b: u8) -> (r: Option<Side>)
    ensures
        r == side_of(b),
{
    if b == 0 {
        Some(Side::Buy)
    } else if b == 1 {
        Some(Side::Sell)
    } else {
        None
    }
}

fn read_offset(b: u8) -> (r: Option<Offset>)
    ensures
        r == offset_of(b),
{
    if b == 0 {
        Some(Offset::Open)
    } else if b == 1 {
        Some(Offset::Close)
    } else {
        None
    }
}

fn read_liquidity(b: u8) -> (r: Option<Liquidity>)
    ensures
        r == liquidity_of(b),
{
    if b == 0 {
        Some(Liquidity::Maker)
    } else if b == 1 {
        Some(Liquidity::Taker)
    } else {
        None
    }
}

fn write_side(side: Side) -> (r: u8)
    ensures
        r == side_byte(side),
{
    match side {
        Side::Buy => 0,
        Side::Sell => 1,
    }
}

fn write_offset(offset: Offset) -> (r: u8)
    ensures
        r == offset_byte(offset),
{
    match offset {
        Offset::Open => 0,
        Offset::Close => 1,
    }
}

fn write_liquidity(liquidity: Liquidity) -> (r: u8)
    ensures
        r == liquidity_byte(liquidity),
{
    match liquidity {
        Liquidity::Maker => 0,
        Liquidity::Taker => 1,
    }
}

impl Event {
    /// The journal record kind for this event.
    pub fn kind(&self) -> (r: u16)
        ensures
            r == self@.kind(),
    {
        match self {
            Event::Tick(_) => kind::TICK,
            Event::Submit { .. } => kind::SUBMIT,
            Event::Cancel { .. } => kind::CANCEL,
            Event::Funding { .. } => kind::FUNDING,
            Event::Time(_) => kind::TIME,
            Event::MarginDeposit { .. } => kind::MARGIN_DEPOSIT,
            Event::VenueFill(_) => kind::VENUE_FILL,
            Event::Depth(_) => kind::DEPTH,
        }
    }

    /// The event's time, for ordering checks. The venue's clock throughout; a
    /// depth update's milliseconds are widened to nanoseconds, saturating.
    pub fn at(&self) -> (r: Nanos)
        ensures
            r == self@.at(),
    {
        match self {
            Event::Tick(t) => t.stamp.exch,
            Event::Submit { stamp, .. } => stamp.exch,
            Event::Cancel { stamp, .. } => stamp.exch,
            Event::Funding { at, .. } => *at,
            Event::Time(at) => *at,
            Event::MarginDeposit { at, .. } => *at,
            Event::VenueFill(f) => f.stamp.exch,
            Event::Depth(u) => Nanos(sat_mul(u.event_ms, 1_000_000)),
        }
    }

    /// Encode the payload (the kind travels in the record header).
    pub fn encode(&self) -> (r: Vec<u8>)
        ensures
            r@ == self@.encoded(),
    {
        let mut out: Vec<u8> = Vec::new();
        match self {
            Event::Tick(t) => {
                let fields = [
                    t.stamp.exch.0,
                    t.stamp.local.0,
                    t.last.0,
                    t.high.0,
                    t.low.0,
                    t.bid.0,
                    t.ask.0,
                    t.volume.0,
                ];
                put_words(&mut out, &fields);
                assert(fields@ =~= seq![
                    t.stamp.exch.0,
                    t.stamp.local.0,
                    t.last.0,
                    t.high.0,
                    t.low.0,
                    t.bid.0,
                    t.ask.0,
                    t.volume.0,
                ]);
            },
            Event::Submit { id, side, price, qty, offset, stamp } => {
                put_u64(&mut out, id.0);
                out.push(write_side(*side));
                let raw: i64 = match price {
                    Some(p) => {
                        out.push(1);
                        p.0
                    },
                    None => {
                        out.push(0);
                        0
                    },
                };
                let fields = [raw, qty.0, stamp.exch.0, stamp.local.0];
                put_words(&mut out, &fields);
                assert(fields@ =~= seq![raw, qty.0, stamp.exch.0, stamp.local.0]);
                out.push(write_offset(*offset));
            },
            Event::Cancel { id, stamp } => {
                put_u64(&mut out, id.0);
                let fields = [stamp.exch.0, stamp.local.0];
                put_words(&mut out, &fields);
                assert(fields@ =~= seq![stamp.exch.0, stamp.local.0]);
            },
            Event::Funding { at, rate, mark } => {
                let fields = [at.0, rate.0, mark.0];
                put_words(&mut out, &fields);
                assert(fields@ =~= seq![at.0, rate.0, mark.0]);
            },
            Event::Time(at) => {
                let fields = [at.0];
                put_words(&mut out, &fields);
                assert(fields@ =~= seq![at.0]);
            },
            Event::MarginDeposit { amount, at } => {
                let fields = [*amount, at.0];
                put_words(&mut out, &fields);
                assert(fields@ =~= seq![*amount, at.0]);
            },
            Event::VenueFill(f) => {
                let stamps = [f.stamp.exch.0, f.stamp.local.0];
                put_words(&mut out, &stamps);
                assert(stamps@ =~= seq![f.stamp.exch.0, f.stamp.local.0]);
                put_le(&mut out, f.instrument.0 as u64, 4);
                put_u64(&mut out, f.order.0);
                put_u64(&mut out, f.trade.0);
                let terms = [f.price.0, f.qty.0];
                put_words(&mut out, &terms);
                assert(terms@ =~= seq![f.price.0, f.qty.0]);
                out.push(write_side(f.side));
                out.push(write_offset(f.offset));
                out.push(write_liquidity(f.liquidity));
            },
            Event::Depth(u) => {
                put_i64(&mut out, u.event_ms);
                put_u64(&mut out, u.first_id);
                put_u64(&mut out, u.final_id);
                match u.prev_final_id {
                    Some(p) => {
                        put_u64(&mut out, p);
                        out.push(1);
                    },
                    None => {
                        put_u64(&mut out, 0);
                        out.push(0);
                    },
                }
                put_le(&mut out, u.bids.len() as u64, 4);
                put_le(&mut out, u.asks.len() as u64, 4);
                put_levels(&mut out, &u.bids);
                put_levels(&mut out, &u.asks);
            },
        }
        assert(out@ =~= self@.encoded());
        out
    }

    fn decode_submit(p: &[u8], legacy: bool) -> (r: Option<Event>)
        ensures
            event_option(r) == decoded_submit(p@, legacy),
    {
        let expected: usize = if legacy {
            42
        } else {
            43
        };
        if p.len() != expected {
            return None;
        }
        let offset = if legacy {
            Offset::Open
        } else {
            match read_offset(p[42]) {
                Some(o) => o,
                None => {
                    return None;
                },
            }
        };
        let side = match read_side(p[8]) {
            Some(s) => s,
            None => {
                return None;
            },
        };
        let raw: i64 = get_i64(p, 10);
        Some(
            Event::Submit {
                id: OrderId(get_le(p, 0, 8)),
                side,
                price: if p[9] == 1 {
                    Some(PriceTicks(raw))
                } else {
                    None
                },
                qty: QtyLots(get_i64(p, 18)),
                offset,
                stamp: Stamp { exch: Nanos(get_i64(p, 26)), local: Nanos(get_i64(p, 34)) },
            },
        )
    }

    fn decode_fill(p: &[u8]) -> (r: Option<Event>)
        ensures
            event_option(r) == decoded_fill(p@),
    {
        if p.len() != 55 {
            return None;
        }
        let instrument: u64 = get_le(p, 16, 4);
        proof {
            lemma_pow256();
            lemma_le_value_bound(p@.subrange(16, 20));
        }
        match (read_side(p[52]), read_offset(p[53]), read_liquidity(p[54])) {
            (Some(side), Some(offset), Some(liquidity)) => Some(
                Event::VenueFill(
                    Fill {
                        stamp: Stamp { exch: Nanos(get_i64(p, 0)), local: Nanos(get_i64(p, 8)) },
                        instrument: InstrumentId(instrument as u32),
                        order: OrderId(get_le(p, 20, 8)),
                        trade: TradeId(get_le(p, 28, 8)),
                        side,
                        offset,
                        price: PriceTicks(get_i64(p, 36)),
                        qty: QtyLots(get_i64(p, 44)),
                        liquidity,
                    },
                ),
            ),
            _ => None,
        }
    }

    fn decode_depth(p: &[u8]) -> (r: Option<Event>)
        ensures
            event_option(r) == decoded_depth(p@),
    {
        if p.len() < DEPTH_HEADER {
            return None;
        }
        if p[32] > 1 {
            return None;
        }
        let prev_final_id = if p[32] == 1 {
            Some(get_le(p, 24, 8))
        } else {
            None
        };
        let n_bids: u64 = get_le(p, 33, 4);
        let n_asks: u64 = get_le(p, 37, 4);
        proof {
            lemma_pow256();
            lemma_le_value_bound(p@.subrange(33, 37));
            lemma_le_value_bound(p@.subrange(37, 41));
        }
        if p.len() as u64 != 41 + 16 * (n_bids + n_asks) {
            return None;
        }
        let bids = get_levels(p, DEPTH_HEADER, n_bids as usize);
        let asks = get_levels(p, DEPTH_HEADER + 16 * n_bids as usize, n_asks as usize);
        let update = DepthUpdate {
            event_ms: get_i64(p, 0),
            first_id: get_le(p, 8, 8),
            final_id: get_le(p, 16, 8),
            prev_final_id,
            bids,
            asks,
        };
        Some(Event::Depth(Box::new(update)))
    }

    /// Decode a payload of the given kind.
    ///
    /// `None` for an unknown kind or a payload of the wrong length, so a
    /// journal written by a newer build is detected rather than misread.
    pub fn decode(kind: u16, payload: &[u8]) -> (r: Option<Event>)
        ensures
            event_option(r) == decoded(kind, payload@),
    {
        if kind == kind::TICK {
            if payload.len() != 64 {
                return None;
            }
            Some(
                Event::Tick(
                    Tick {
                        stamp: Stamp {
                            exch: Nanos(get_i64(payload, 0)),
                            local: Nanos(get_i64(payload, 8)),
                        },
                        last: PriceTicks(get_i64(payload, 16)),
                        high: PriceTicks(get_i64(payload, 24)),
                        low: PriceTicks(get_i64(payload, 32)),
                        bid: PriceTicks(get_i64(payload, 40)),
                        ask: PriceTicks(get_i64(payload, 48)),
                        volume: QtyLots(get_i64(payload, 56)),
                    },
                ),
            )
        } else if kind == kind::SUBMIT {
            Event::decode_submit(payload, false)
        } else if kind == kind::SUBMIT_LEGACY {
            Event::decode_submit(payload, true)
        } else if kind == kind::CANCEL {
            if payload.len() != 24 {
                return None;
            }
            Some(
                Event::Cancel {
                    id: OrderId(get_le(payload, 0, 8)),
                    stamp: Stamp {
                        exch: Nanos(get_i64(payload, 8)),
                        local: Nanos(get_i64(payload, 16)),
                    },
                },
            )
        } else if kind == kind::FUNDING {
            if payload.len() != 24 {
                return None;
            }
            Some(
                Event::Funding {
                    at: Nanos(get_i64(payload, 0)),
                    rate: Ratio(get_i64(payload, 8)),
                    mark: PriceTicks(get_i64(payload, 16)),
                },
            )
        } else if kind == kind::TIME {
            if payload.len() != 8 {
                return None;
            }
            Some(Event::Time(Nanos(get_i64(payload, 0))))
        } else if kind == kind::MARGIN_DEPOSIT {
            if payload.len() != 16 {
                return None;
            }
            Some(
                Event::MarginDeposit {
                    amount: get_i64(payload, 0),
                    at: Nanos(get_i64(payload, 8)),
                },
            )
        } else if kind == kind::VENUE_FILL {
            Event::decode_fill(payload)
        } else if kind == kind::DEPTH {
            Event::decode_depth(payload)
        } else {
            None
        }
    }
}

proof fn lemma_words(xs: Seq<i64>, i: int)
    requires
        0 <= i < xs.len(),
    ensures
        words(xs).len() == 8 * xs.len(),
        word_at(words(xs), 8 * i) == xs[i],
    decreases xs.len(),
{
    lemma_i64_round_trip(xs.last());
    let front = words(xs.drop_last());
    lemma_words_len(xs.drop_last());
    if i == xs.len() - 1 {
        assert(words(xs).subrange(8 * i, 8 * i + 8) =~= i64_bytes(xs.last()));
    } else {
        lemma_words(xs.drop_last(), i);
        assert(words(xs).subrange(8 * i, 8 * i + 8) =~= front.subrange(8 * i, 8 * i + 8));
    }
}

proof fn lemma_words_len(xs: Seq<i64>)
    ensures
        words(xs).len() == 8 * xs.len(),
    decreases xs.len(),
{
    if xs.len() > 0 {
        lemma_words_len(xs.drop_last());
        lemma_i64_round_trip(xs.last());
    }
}

/// A word keeps its value inside a longer payload.
proof fn lemma_word_in(a: Seq<u8>, xs: Seq<i64>, c: Seq<u8>, i: int)
    requires
        0 <= i < xs.len(),
    ensures
        (a + words(xs) + c).len() == a.len() + 8 * xs.len() + c.len(),
        word_at(a + words(xs) + c, a.len() + 8 * i) == xs[i],
{
    lemma_words(xs, i);
    let at = a.len() + 8 * i;
    assert((a + words(xs) + c).subrange(at, at + 8) =~= words(xs).subrange(8 * i, 8 * i + 8));
}

/// Levels keep their values inside a longer payload.
proof fn lemma_levels_in(a: Seq<u8>, levels: Seq<Level>, c: Seq<u8>)
    ensures
        words(level_words(levels)).len() == 16 * levels.len(),
        levels_at(a + words(level_words(levels)) + c, a.len() as int, levels.len()) == levels,
{
    let xs = level_words(levels);
    let p = a + words(xs) + c;
    lemma_words_len(xs);
    assert forall|i: int| 0 <= i < levels.len() implies #[trigger] levels_at(
        p,
        a.len() as int,
        levels.len(),
    )[i] == levels[i] by {
        lemma_word_in(a, xs, c, 2 * i);
        lemma_word_in(a, xs, c, 2 * i + 1);
        assert(a.len() + 8 * (2 * i) == a.len() + 16 * i);
        assert(a.len() + 8 * (2 * i + 1) == a.len() + 16 * i + 8);
    }
    assert(levels_at(p, a.len() as int, levels.len()) =~= levels);
}

proof fn lemma_submit_round_trip(
    id: OrderId,
    side: Side,
    price: Option<PriceTicks>,
    qty: QtyLots,
    offset: Offset,
    stamp: Stamp,
)
    ensures
        ({
            let e = EventView::Submit { id, side, price, qty, offset, stamp };
            &&& e.encoded().len() == 43
            &&& decoded_submit(e.encoded(), false) == Some(e)
            &&& decoded_submit(e.encoded().subrange(0, 42), true) == Some(
                EventView::Submit { id, side, price, qty, offset: Offset::Open, stamp },
            )
        }),
{
    let e = EventView::Submit { id, side, price, qty, offset, stamp };
    let p = e.encoded();
    let flag: u8 = if price is Some {
        1
    } else {
        0
    };
    let raw: i64 = match price {
        Some(p) => p.0,
        None => 0,
    };
    let xs = seq![raw, qty.0, stamp.exch.0, stamp.local.0];
    let head = le_bytes(id.0 as nat, 8) + seq![side_byte(side), flag];
    let tail = seq![offset_byte(offset)];
    lemma_u64_round_trip(id.0);
    lemma_words_len(xs);
    assert(p =~= head + words(xs) + tail);
    assert(p.subrange(0, 8) =~= le_bytes(id.0 as nat, 8));
    lemma_word_in(head, xs, tail, 0);
    lemma_word_in(head, xs, tail, 1);
    lemma_word_in(head, xs, tail, 2);
    lemma_word_in(head, xs, tail, 3);
    assert(p[42] == offset_byte(offset));
    let q = p.subrange(0, 42);
    assert(q.subrange(0, 8) =~= p.subrange(0, 8));
    assert(q.subrange(10, 18) =~= p.subrange(10, 18));
    assert(q.subrange(18, 26) =~= p.subrange(18, 26));
    assert(q.subrange(26, 34) =~= p.subrange(26, 34));
    assert(q.subrange(34, 42) =~= p.subrange(34, 42));
}

proof fn lemma_fill_round_trip(f: Fill)
    ensures
        EventView::VenueFill(f).encoded().len() == 55,
        decoded_fill(EventView::VenueFill(f).encoded()) == Some(EventView::VenueFill(f)),
{
    let p = EventView::VenueFill(f).encoded();
    let stamps = seq![f.stamp.exch.0, f.stamp.local.0];
    let ids = le_bytes(f.instrument.0 as nat, 4) + le_bytes(f.order.0 as nat, 8) + le_bytes(
        f.trade.0 as nat,
        8,
    );
    let terms = seq![f.price.0, f.qty.0];
    let tail = seq![side_byte(f.side), offset_byte(f.offset), liquidity_byte(f.liquidity)];
    lemma_u32_round_trip(f.instrument.0 as nat);
    lemma_u64_round_trip(f.order.0);
    lemma_u64_round_trip(f.trade.0);
    lemma_words_len(stamps);
    lemma_words_len(terms);
    let none = Seq::<u8>::empty();
    assert(p =~= none + words(stamps) + (ids + words(terms) + tail));
    lemma_word_in(none, stamps, ids + words(terms) + tail, 0);
    lemma_word_in(none, stamps, ids + words(terms) + tail, 1);
    assert(p =~= (words(stamps) + ids) + words(terms) + tail);
    lemma_word_in(words(stamps) + ids, terms, tail, 0);
    lemma_word_in(words(stamps) + ids, terms, tail, 1);
    assert(p.subrange(16, 20) =~= le_bytes(f.instrument.0 as nat, 4));
    assert(p.subrange(20, 28) =~= le_bytes(f.order.0 as nat, 8));
    assert(p.subrange(28, 36) =~= le_bytes(f.trade.0 as nat, 8));
}

proof fn lemma_depth_round_trip(u: DepthView)
    requires
        EventView::Depth(u).encodable(),
    ensures
        EventView::Depth(u).encoded().len() == 41 + 16 * (u.bids.len() + u.asks.len()),
        decoded_depth(EventView::Depth(u).encoded()) == Some(EventView::Depth(u)),
{
    let p = EventView::Depth(u).encoded();
    let prev: u64 = match u.prev_final_id {
        Some(p) => p,
        None => 0,
    };
    let flag: u8 = if u.prev_final_id is Some {
        1
    } else {
        0
    };
    let head = i64_bytes(u.event_ms) + le_bytes(u.first_id as nat, 8) + le_bytes(
        u.final_id as nat,
        8,
    ) + le_bytes(prev as nat, 8) + seq![flag] + le_bytes(u.bids.len(), 4) + le_bytes(
        u.asks.len(),
        4,
    );
    let bids = words(level_words(u.bids));
    let asks = words(level_words(u.asks));
    lemma_i64_round_trip(u.event_ms);
    lemma_u64_round_trip(u.first_id);
    lemma_u64_round_trip(u.final_id);
    lemma_u64_round_trip(prev);
    lemma_u32_round_trip(u.bids.len());
    lemma_u32_round_trip(u.asks.len());
    assert(head.len() == 41);
    assert(head.subrange(0, 8) =~= i64_bytes(u.event_ms));
    assert(head.subrange(8, 16) =~= le_bytes(u.first_id as nat, 8));
    assert(head.subrange(16, 24) =~= le_bytes(u.final_id as nat, 8));
    assert(head.subrange(24, 32) =~= le_bytes(prev as nat, 8));
    assert(head[32] == flag);
    assert(head.subrange(33, 37) =~= le_bytes(u.bids.len(), 4));
    assert(head.subrange(37, 41) =~= le_bytes(u.asks.len(), 4));
    lemma_levels_in(head, u.bids, asks);
    lemma_levels_in(head + bids, u.asks, Seq::<u8>::empty());
    assert(p =~= head + bids + asks);
    assert(p =~= (head + bids) + asks + Seq::<u8>::empty());
    assert forall|a: int, b: int| 0 <= a <= b <= 41 implies #[trigger] p.subrange(a, b)
        == head.subrange(a, b) by {
        assert(p.subrange(a, b) =~= head.subrange(a, b));
    }
}

/// Decoding an encoded event gives the event back.
///
/// A depth update of 2^32 levels or more on one side is left out: its count
/// does not fit the field that carries it.
pub proof fn law_round_trip(e: EventView)
    requires
        e.encodable(),
    ensures
        decoded(e.kind(), e.encoded()) == Some(e),
{
    let p = e.encoded();
    let none = Seq::<u8>::empty();
    match e {
        EventView::Tick(t) => {
            let xs = seq![
                t.stamp.exch.0,
                t.stamp.local.0,
                t.last.0,
                t.high.0,
                t.low.0,
                t.bid.0,
                t.ask.0,
                t.volume.0,
            ];
            lemma_words(xs, 0);
            lemma_words(xs, 1);
            lemma_words(xs, 2);
            lemma_words(xs, 3);
            lemma_words(xs, 4);
            lemma_words(xs, 5);
            lemma_words(xs, 6);
            lemma_words(xs, 7);
        },
        EventView::Submit { id, side, price, qty, offset, stamp } => {
            lemma_submit_round_trip(id, side, price, qty, offset, stamp);
        },
        EventView::Cancel { id, stamp } => {
            let xs = seq![stamp.exch.0, stamp.local.0];
            let head = le_bytes(id.0 as nat, 8);
            lemma_u64_round_trip(id.0);
            lemma_words_len(xs);
            assert(p =~= head + words(xs) + none);
            lemma_word_in(head, xs, none, 0);
            lemma_word_in(head, xs, none, 1);
            assert(p.subrange(0, 8) =~= head);
        },
        EventView::Funding { at, rate, mark } => {
            let xs = seq![at.0, rate.0, mark.0];
            lemma_words(xs, 0);
            lemma_words(xs, 1);
            lemma_words(xs, 2);
        },
        EventView::Time(at) => {
            lemma_words(seq![at.0], 0);
        },
        EventView::MarginDeposit { amount, at } => {
            lemma_words(seq![amount, at.0], 0);
            lemma_words(seq![amount, at.0], 1);
        },
        EventView::VenueFill(f) => {
            lemma_fill_round_trip(f);
        },
        EventView::Depth(u) => {
            lemma_depth_round_trip(u);
        },
    }
}

/// Every kind but depth has one length, and refuses a payload of any other.
pub proof fn law_wrong_length_is_refused(e: EventView, p: Seq<u8>)
    requires
        e.encodable(),
        p.len() != e.encoded().len(),
        e !is Depth,
    ensures
        decoded(e.kind(), p) is None,
{
    lemma_encoded_len(e);
}

/// A depth payload cut short, or with bytes added behind it, is refused: its
/// length must be the one its own counts declare.
pub proof fn law_depth_length_is_declared(u: DepthView, cut: int, extra: Seq<u8>)
    requires
        EventView::Depth(u).encodable(),
        0 <= cut <= 16 * (u.bids.len() + u.asks.len()),
        cut > 0 || extra.len() > 0,
        cut == 0 || extra.len() == 0,
    ensures
        ({
            let p = EventView::Depth(u).encoded();
            decoded(kind::DEPTH, p.subrange(0, p.len() - cut) + extra) is None
        }),
{
    lemma_depth_round_trip(u);
    let p = EventView::Depth(u).encoded();
    let q = p.subrange(0, p.len() - cut) + extra;
    assert(q.subrange(33, 37) =~= p.subrange(33, 37));
    assert(q.subrange(37, 41) =~= p.subrange(37, 41));
}

proof fn lemma_encoded_len(e: EventView)
    requires
        e.encodable(),
    ensures
        e.encoded().len() == (match e {
            EventView::Tick(_) => 64,
            EventView::Submit { .. } => 43,
            EventView::Cancel { .. } => 24,
            EventView::Funding { .. } => 24,
            EventView::Time(_) => 8,
            EventView::MarginDeposit { .. } => 16,
            EventView::VenueFill(_) => 55,
            EventView::Depth(u) => 41 + 16 * (u.bids.len() + u.asks.len()),
        }),
{
    match e {
        EventView::Tick(t) => {
            lemma_words_len(
                seq![
                    t.stamp.exch.0,
                    t.stamp.local.0,
                    t.last.0,
                    t.high.0,
                    t.low.0,
                    t.bid.0,
                    t.ask.0,
                    t.volume.0,
                ],
            );
        },
        EventView::Submit { id, side, price, qty, offset, stamp } => {
            lemma_submit_round_trip(id, side, price, qty, offset, stamp);
        },
        EventView::Cancel { id, stamp } => {
            lemma_le_bytes_len(id.0 as nat, 8);
            lemma_words_len(seq![stamp.exch.0, stamp.local.0]);
        },
        EventView::Funding { at, rate, mark } => {
            lemma_words_len(seq![at.0, rate.0, mark.0]);
        },
        EventView::Time(at) => {
            lemma_words_len(seq![at.0]);
        },
        EventView::MarginDeposit { amount, at } => {
            lemma_words_len(seq![amount, at.0]);
        },
        EventView::VenueFill(f) => {
            lemma_fill_round_trip(f);
        },
        EventView::Depth(u) => {
            lemma_depth_round_trip(u);
        },
    }
}

/// A record written before orders stated open or close is today's record
/// without its last byte, and reads as an open.
pub proof fn law_legacy_submit_is_an_open(
    id: OrderId,
    side: Side,
    price: Option<PriceTicks>,
    qty: QtyLots,
    offset: Offset,
    stamp: Stamp,
)
    ensures
        ({
            let p = EventView::Submit { id, side, price, qty, offset, stamp }.encoded();
            &&& decoded(kind::SUBMIT_LEGACY, p.subrange(0, 42)) == Some(
                EventView::Submit { id, side, price, qty, offset: Offset::Open, stamp },
            )
            &&& decoded(kind::SUBMIT, p.subrange(0, 42)) is None
        }),
{
    lemma_submit_round_trip(id, side, price, qty, offset, stamp);
}

/// Two events with one kind and one payload are one event.
pub proof fn law_encoding_is_injective(a: EventView, b: EventView)
    requires
        a.encodable(),
        b.encodable(),
        a.kind() == b.kind(),
        a.encoded() == b.encoded(),
    ensures
        a == b,
{
    law_round_trip(a);
    law_round_trip(b);
}

/// Two events share a kind only when they are the same kind of event.
pub proof fn law_kinds_are_distinct(a: EventView, b: EventView)
    ensures
        a.kind() == b.kind() <==> (match a {
            EventView::Tick(_) => b is Tick,
            EventView::Submit { .. } => b is Submit,
            EventView::Cancel { .. } => b is Cancel,
            EventView::Funding { .. } => b is Funding,
            EventView::Time(_) => b is Time,
            EventView::MarginDeposit { .. } => b is MarginDeposit,
            EventView::VenueFill(_) => b is VenueFill,
            EventView::Depth(_) => b is Depth,
        }),
{
}

/// The eight bytes of a payload from a place on, as a signed integer.
pub open spec fn signed_in(p: Seq<u8>, at: int) -> i64 {
    i64_value(p.subrange(at, at + 8))
}

/// Every kind of payload is read by place: these are the kinds' numbers, the
/// lengths, and where each field stands. Journals written once are read by
/// them for good.
pub proof fn law_a_payload_is_read_by_place(p: Seq<u8>)
    ensures
        decoded(1, p) matches Some(e) ==> (e matches EventView::Tick(t) && p.len() == 64 && {
            &&& t.stamp.exch.0 == signed_in(p, 0)
            &&& t.stamp.local.0 == signed_in(p, 8)
            &&& t.last.0 == signed_in(p, 16)
            &&& t.high.0 == signed_in(p, 24)
            &&& t.low.0 == signed_in(p, 32)
            &&& t.bid.0 == signed_in(p, 40)
            &&& t.ask.0 == signed_in(p, 48)
            &&& t.volume.0 == signed_in(p, 56)
        }),
        decoded(7, p) matches Some(e) ==> (e matches EventView::Submit {
            id,
            side,
            price,
            qty,
            offset,
            stamp,
        } && p.len() == 43 && {
            &&& id.0 == le_value(p.subrange(0, 8)) as u64
            &&& side == (if p[8] == 0 {
                Side::Buy
            } else {
                Side::Sell
            })
            &&& price == (if p[9] == 1 {
                Some(PriceTicks(signed_in(p, 10)))
            } else {
                None
            })
            &&& qty.0 == signed_in(p, 18)
            &&& stamp.exch.0 == signed_in(p, 26)
            &&& stamp.local.0 == signed_in(p, 34)
            &&& offset == (if p[42] == 0 {
                Offset::Open
            } else {
                Offset::Close
            })
        }),
        decoded(3, p) matches Some(e) ==> (e matches EventView::Cancel {
            id,
            stamp,
        } && p.len() == 24 && {
            &&& id.0 == le_value(p.subrange(0, 8)) as u64
            &&& stamp.exch.0 == signed_in(p, 8)
            &&& stamp.local.0 == signed_in(p, 16)
        }),
        decoded(4, p) matches Some(e) ==> (e matches EventView::Funding {
            at,
            rate,
            mark,
        } && p.len() == 24 && {
            &&& at.0 == signed_in(p, 0)
            &&& rate.0 == signed_in(p, 8)
            &&& mark.0 == signed_in(p, 16)
        }),
        decoded(5, p) matches Some(e) ==> (e matches EventView::Time(at) && p.len() == 8 && at.0
            == signed_in(p, 0)),
        decoded(6, p) matches Some(e) ==> (e matches EventView::MarginDeposit {
            amount,
            at,
        } && p.len() == 16 && amount == signed_in(p, 0) && at.0 == signed_in(p, 8)),
        decoded(8, p) matches Some(e) ==> (e matches EventView::VenueFill(f) && p.len() == 55 && {
            &&& f.stamp.exch.0 == signed_in(p, 0)
            &&& f.stamp.local.0 == signed_in(p, 8)
            &&& f.instrument.0 == le_value(p.subrange(16, 20)) as u32
            &&& f.order.0 == le_value(p.subrange(20, 28)) as u64
            &&& f.trade.0 == le_value(p.subrange(28, 36)) as u64
            &&& f.price.0 == signed_in(p, 36)
            &&& f.qty.0 == signed_in(p, 44)
            &&& f.side == (if p[52] == 0 {
                Side::Buy
            } else {
                Side::Sell
            })
            &&& f.offset == (if p[53] == 0 {
                Offset::Open
            } else {
                Offset::Close
            })
            &&& f.liquidity == (if p[54] == 0 {
                Liquidity::Maker
            } else {
                Liquidity::Taker
            })
        }),
        decoded(9, p) matches Some(e) ==> (e matches EventView::Depth(u) && p.len() >= 41 && {
            &&& u.event_ms == signed_in(p, 0)
            &&& u.first_id == le_value(p.subrange(8, 16)) as u64
            &&& u.final_id == le_value(p.subrange(16, 24)) as u64
            &&& u.prev_final_id == (if p[32] == 1 {
                Some(le_value(p.subrange(24, 32)) as u64)
            } else {
                None
            })
            &&& u.bids.len() == le_value(p.subrange(33, 37))
            &&& u.asks.len() == le_value(p.subrange(37, 41))
            &&& forall|i: int|
                0 <= i < u.bids.len() ==> (#[trigger] u.bids[i]).price == signed_in(p, 41 + 16 * i)
                    && u.bids[i].qty == signed_in(p, 49 + 16 * i)
            &&& forall|i: int|
                0 <= i < u.asks.len() ==> (#[trigger] u.asks[i]).price == signed_in(
                    p,
                    41 + 16 * (u.bids.len() + i),
                ) && u.asks[i].qty == signed_in(p, 49 + 16 * (u.bids.len() + i))
        }),
{
}

/// An event happens when its stamp says; a depth update when its milliseconds
/// say, in nanoseconds.
pub proof fn law_an_event_happens_when_stamped(e: EventView)
    ensures
        e matches EventView::Tick(t) ==> e.at() == t.stamp.exch,
        e matches EventView::Submit { stamp, .. } ==> e.at() == stamp.exch,
        e matches EventView::Cancel { stamp, .. } ==> e.at() == stamp.exch,
        e matches EventView::Funding { at, .. } ==> e.at() == at,
        e matches EventView::Time(at) ==> e.at() == at,
        e matches EventView::MarginDeposit { at, .. } ==> e.at() == at,
        e matches EventView::VenueFill(f) ==> e.at() == f.stamp.exch,
        e matches EventView::Depth(u) ==> i64::MIN <= u.event_ms * 1_000_000 <= i64::MAX
            ==> e.at().0 == u.event_ms * 1_000_000,
{
}

} // verus!

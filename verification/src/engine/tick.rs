//! The market observation a replay consumes.
//!
//! A tick is an aggregated record: the last traded price of a window and the
//! extremes reached inside it. Zero means "absent" rather than "free": a
//! record with no top-of-book carries `bid = ask = 0`, and the matching rules
//! fall back to trade prices.
use crate::types::{clamp_i64, sat_sub, Nanos, PriceTicks, QtyLots, Stamp};
use vstd::prelude::*;

verus! {

/// One aggregated market observation.
#[derive(Clone, Copy, Debug, PartialEq, Eq, Structural)]
pub struct Tick {
    pub stamp: Stamp,
    /// Last traded price in the window.
    pub last: PriceTicks,
    /// Highest price reached inside the window; zero when unknown.
    pub high: PriceTicks,
    /// Lowest price reached inside the window; zero when unknown.
    pub low: PriceTicks,
    /// Best bid at the end of the window; zero when unknown.
    pub bid: PriceTicks,
    /// Best ask at the end of the window; zero when unknown.
    pub ask: PriceTicks,
    /// Traded volume as the venue reports it. Consumers take differences
    /// between consecutive ticks, since the accumulation is the venue's.
    pub volume: QtyLots,
}

impl Default for Tick {
    /// A tick with every field absent.
    fn default() -> (r: Self)
        ensures
            r == (Tick {
                stamp: Stamp { exch: Nanos(0), local: Nanos(0) },
                last: PriceTicks(0),
                high: PriceTicks(0),
                low: PriceTicks(0),
                bid: PriceTicks(0),
                ask: PriceTicks(0),
                volume: QtyLots(0),
            }),
    {
        Tick {
            stamp: Stamp { exch: Nanos(0), local: Nanos(0) },
            last: PriceTicks(0),
            high: PriceTicks(0),
            low: PriceTicks(0),
            bid: PriceTicks(0),
            ask: PriceTicks(0),
            volume: QtyLots(0),
        }
    }
}

impl Tick {
    /// A tick with trade prices and no top of book.
    pub fn trades_only(stamp: Stamp, last: i64, high: i64, low: i64) -> (r: Self)
        ensures
            r == (Tick {
                stamp,
                last: PriceTicks(last),
                high: PriceTicks(high),
                low: PriceTicks(low),
                bid: PriceTicks(0),
                ask: PriceTicks(0),
                volume: QtyLots(0),
            }),
    {
        Tick {
            stamp,
            last: PriceTicks(last),
            high: PriceTicks(high),
            low: PriceTicks(low),
            bid: PriceTicks(0),
            ask: PriceTicks(0),
            volume: QtyLots(0),
        }
    }

    /// A tick with trade prices and a top of book.
    pub fn quoted(stamp: Stamp, last: i64, high: i64, low: i64, bid: i64, ask: i64) -> (r: Self)
        ensures
            r == (Tick {
                stamp,
                last: PriceTicks(last),
                high: PriceTicks(high),
                low: PriceTicks(low),
                bid: PriceTicks(bid),
                ask: PriceTicks(ask),
                volume: QtyLots(0),
            }),
    {
        Tick {
            stamp,
            last: PriceTicks(last),
            high: PriceTicks(high),
            low: PriceTicks(low),
            bid: PriceTicks(bid),
            ask: PriceTicks(ask),
            volume: QtyLots(0),
        }
    }

    /// The same tick with a volume.
    pub fn with_volume(self, volume: i64) -> (r: Self)
        ensures
            r == (Tick { volume: QtyLots(volume), ..self }),
    {
        Tick { volume: QtyLots(volume), ..self }
    }

    /// Volume traded since `previous`. A counter that went backwards was
    /// reset, and a reset says nothing traded rather than a negative amount.
    pub fn volume_since(&self, previous: &Self) -> (r: QtyLots)
        ensures
            r.0 == (if self.volume.0 < previous.volume.0 {
                0
            } else {
                clamp_i64(self.volume.0 - previous.volume.0)
            }),
    {
        let delta: i64 = sat_sub(self.volume.0, previous.volume.0);
        if delta < 0 {
            QtyLots(0)
        } else {
            QtyLots(delta)
        }
    }

    /// The price a resting buy must reach to trade: the ask, else the low,
    /// else the last.
    pub open spec fn buy_trigger_spec(self) -> PriceTicks {
        if self.ask.0 > 0 {
            self.ask
        } else if self.low.0 > 0 {
            self.low
        } else {
            self.last
        }
    }

    /// The price a resting sell must reach to trade: the bid, else the high,
    /// else the last.
    pub open spec fn sell_trigger_spec(self) -> PriceTicks {
        if self.bid.0 > 0 {
            self.bid
        } else if self.high.0 > 0 {
            self.high
        } else {
            self.last
        }
    }

    pub open spec fn buy_reference_spec(self) -> PriceTicks {
        if self.ask.0 > 0 {
            self.ask
        } else {
            self.last
        }
    }

    pub open spec fn sell_reference_spec(self) -> PriceTicks {
        if self.bid.0 > 0 {
            self.bid
        } else {
            self.last
        }
    }

    pub open spec fn up_spec(self) -> PriceTicks {
        if self.high.0 > 0 {
            self.high
        } else {
            self.last
        }
    }

    pub open spec fn dn_spec(self) -> PriceTicks {
        if self.low.0 > 0 {
            self.low
        } else {
            self.last
        }
    }

    pub fn buy_trigger(&self) -> (r: PriceTicks)
        ensures
            r == self.buy_trigger_spec(),
    {
        if self.ask.0 > 0 {
            self.ask
        } else if self.low.0 > 0 {
            self.low
        } else {
            self.last
        }
    }

    /// The price a buy that takes is filled at.
    pub fn buy_fill_reference(&self) -> (r: PriceTicks)
        ensures
            r == self.buy_reference_spec(),
    {
        if self.ask.0 > 0 {
            self.ask
        } else {
            self.last
        }
    }

    pub fn sell_trigger(&self) -> (r: PriceTicks)
        ensures
            r == self.sell_trigger_spec(),
    {
        if self.bid.0 > 0 {
            self.bid
        } else if self.high.0 > 0 {
            self.high
        } else {
            self.last
        }
    }

    /// The price a sell that takes is filled at.
    pub fn sell_fill_reference(&self) -> (r: PriceTicks)
        ensures
            r == self.sell_reference_spec(),
    {
        if self.bid.0 > 0 {
            self.bid
        } else {
            self.last
        }
    }

    /// The highest price known to have been reached.
    pub fn up_extent(&self) -> (r: PriceTicks)
        ensures
            r == self.up_spec(),
    {
        if self.high.0 > 0 {
            self.high
        } else {
            self.last
        }
    }

    /// The lowest price known to have been reached.
    pub fn dn_extent(&self) -> (r: PriceTicks)
        ensures
            r == self.dn_spec(),
    {
        if self.low.0 > 0 {
            self.low
        } else {
            self.last
        }
    }
}

} // verus!

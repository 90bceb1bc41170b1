//! What a strategy is, from the host's point of view.
//!
//! A strategy sees market data and returns intents. It does not place orders,
//! hold a reference to the engine, or observe the account except through what
//! it is given.
use crate::engine::tick::Tick;
use crate::types::{Cash, Fill, Offset, OrderId, PriceTicks, QtyLots, Side};
use vstd::prelude::*;

verus! {

/// What a strategy wants to happen next.
#[derive(Clone, Copy, Debug, PartialEq, Eq, Structural)]
pub enum Intent {
    /// Rest a limit order.
    Limit { id: OrderId, side: Side, price: PriceTicks, qty: QtyLots, offset: Offset },
    /// Cross the spread now.
    Market { id: OrderId, side: Side, qty: QtyLots, offset: Offset },
    /// Withdraw a resting order.
    Cancel(OrderId),
    /// Withdraw everything.
    CancelAll,
}

/// How an order ended.
#[derive(Clone, Copy, Debug, PartialEq, Eq, Structural)]
pub enum Ending {
    /// It traded in full.
    Filled,
    /// It was withdrawn.
    Cancelled,
}

/// What the strategy is told before it decides.
#[derive(Clone, Copy, Debug, PartialEq, Eq, Structural)]
pub struct Context {
    /// The observation that triggered this call.
    pub tick: Tick,
    /// Signed position; under hedge accounting, the long leg.
    pub position: QtyLots,
    /// Average entry price, or zero when flat.
    pub entry: PriceTicks,
    /// The short leg under hedge accounting; zero under netting.
    pub short_position: QtyLots,
    /// Average entry of the short leg.
    pub short_entry: PriceTicks,
    /// Account equity at the current mark.
    pub equity: Cash,
    /// Orders currently working.
    pub working: usize,
}

impl Intent {
    /// A limit order that adds to a position.
    pub fn limit(id: OrderId, side: Side, price: PriceTicks, qty: QtyLots) -> (r: Self)
        ensures
            r == (Intent::Limit { id, side, price, qty, offset: Offset::Open }),
    {
        Intent::Limit { id, side, price, qty, offset: Offset::Open }
    }

    /// A market order that adds to a position.
    pub fn market(id: OrderId, side: Side, qty: QtyLots) -> (r: Self)
        ensures
            r == (Intent::Market { id, side, qty, offset: Offset::Open }),
    {
        Intent::Market { id, side, qty, offset: Offset::Open }
    }

    /// The same order, marked as reducing a position rather than adding.
    pub fn closing(self) -> (r: Self)
        ensures
            r == (match self {
                Intent::Limit { id, side, price, qty, .. } => Intent::Limit {
                    id,
                    side,
                    price,
                    qty,
                    offset: Offset::Close,
                },
                Intent::Market { id, side, qty, .. } => Intent::Market {
                    id,
                    side,
                    qty,
                    offset: Offset::Close,
                },
                other => other,
            }),
    {
        match self {
            Intent::Limit { id, side, price, qty, .. } => Intent::Limit {
                id,
                side,
                price,
                qty,
                offset: Offset::Close,
            },
            Intent::Market { id, side, qty, .. } => Intent::Market {
                id,
                side,
                qty,
                offset: Offset::Close,
            },
            other => other,
        }
    }
}

/// Something a strategy is told.
pub enum Said {
    /// One of its orders traded.
    Fill { fill: Fill, context: Context },
    /// One of its orders ended.
    Ended { id: OrderId, ending: Ending },
    /// The market was observed.
    Tick { context: Context },
    /// One of its orders was submitted, and accepted or not.
    Placed { id: OrderId, accepted: bool },
}

/// A strategy: observations in, intents out. One that has nothing to do with a
/// call leaves its body empty.
pub trait Strategy: Sized {
    /// Whether the strategy, told something when `out` has been asked for
    /// already, may become `then`, with `after` asked for. What a strategy does
    /// is its own affair: this gives it a name.
    open spec fn hears(
        self,
        said: Said,
        out: Seq<Intent>,
        then: Self,
        after: Seq<Intent>,
    ) -> bool {
        true
    }

    /// Whether the strategy may go by a name in reports.
    open spec fn goes_by(self, name: Seq<char>) -> bool {
        true
    }

    /// Called once per observation. `out` holds what the calls before it on
    /// the same observation have asked for; an implementation adds to it.
    fn on_tick(&mut self, ctx: &Context, out: &mut Vec<Intent>)
        ensures
            old(self).hears(Said::Tick { context: *ctx }, old(out)@, *final(self), final(out)@),
    ;

    /// Called once per fill, before `on_tick` for the observation that
    /// produced it. `ctx` already reflects the fill.
    fn on_fill(&mut self, fill: &Fill, ctx: &Context, out: &mut Vec<Intent>)
        ensures
            old(self).hears(
                (Said::Fill { fill: *fill, context: *ctx }),
                old(out)@,
                *final(self),
                final(out)@,
            ),
    ;

    /// Called once per order that ended, after the fills and before `on_tick`.
    fn on_ended(&mut self, id: OrderId, ending: Ending, out: &mut Vec<Intent>)
        ensures
            old(self).hears(
                (Said::Ended { id, ending }),
                old(out)@,
                *final(self),
                final(out)@,
            ),
    ;

    /// Called once per order submitted, with whether it was accepted.
    fn on_placed(&mut self, id: OrderId, accepted: bool)
        ensures
            old(self).hears(
                (Said::Placed { id, accepted }),
                Seq::empty(),
                *final(self),
                Seq::empty(),
            ),
    ;

    /// A name for reports.
    fn name(&self) -> (r: &str)
        ensures
            self.goes_by(r@),
    ;
}

/// Whether a strategy may take something it is told as it did.
pub open spec fn takes<S: Strategy>(
    from: S,
    said: Said,
    out: Seq<Intent>,
    to: S,
    after: Seq<Intent>,
) -> bool {
    from.hears(said, out, to, after)
}

/// Whether a strategy may take what it is told, one thing after another, as it
/// did.
pub open spec fn follows<S: Strategy>(
    from: S,
    said: Seq<Said>,
    out: Seq<Intent>,
    to: S,
    after: Seq<Intent>,
) -> bool
    decreases said.len(),
{
    if said.len() == 0 {
        to == from && after == out
    } else {
        exists|mid: S, asked: Seq<Intent>|
            follows(from, said.drop_last(), out, mid, asked) && #[trigger] takes(
                mid,
                said.last(),
                asked,
                to,
                after,
            )
    }
}

/// One thing more.
pub proof fn lemma_follows_push<S: Strategy>(
    from: S,
    said: Seq<Said>,
    out: Seq<Intent>,
    mid: S,
    asked: Seq<Intent>,
    more: Said,
    to: S,
    after: Seq<Intent>,
)
    requires
        follows(from, said, out, mid, asked),
        takes(mid, more, asked, to, after),
    ensures
        follows(from, said.push(more), out, to, after),
{
    assert(said.push(more).drop_last() =~= said);
    assert(takes(mid, said.push(more).last(), asked, to, after));
}

/// Whether what strategies of a kind do, and the name they go by, is settled by
/// what they are and what they are told.
pub open spec fn settled<S: Strategy>() -> bool {
    &&& forall|
        from: S,
        said: Said,
        out: Seq<Intent>,
        a: S,
        asked: Seq<Intent>,
        b: S,
        other: Seq<Intent>,
    | #[trigger]
        takes(from, said, out, a, asked) && #[trigger] takes(from, said, out, b, other) ==> a == b
            && asked == other
    &&& forall|s: S, a: Seq<char>, b: Seq<char>| #[trigger]
        s.goes_by(a) && #[trigger] s.goes_by(b) ==> a == b
}

/// A settled strategy takes what it is told in one way.
pub proof fn lemma_follows_one_way<S: Strategy>(
    from: S,
    said: Seq<Said>,
    out: Seq<Intent>,
    a: S,
    asked: Seq<Intent>,
    b: S,
    other: Seq<Intent>,
)
    requires
        settled::<S>(),
        follows(from, said, out, a, asked),
        follows(from, said, out, b, other),
    ensures
        a == b,
        asked == other,
    decreases said.len(),
{
    if said.len() > 0 {
        let less = said.drop_last();
        let (m, x) = choose|mid: S, x: Seq<Intent>|
            follows(from, less, out, mid, x) && #[trigger] takes(mid, said.last(), x, a, asked);
        let (n, y) = choose|mid: S, y: Seq<Intent>|
            follows(from, less, out, mid, y) && #[trigger] takes(mid, said.last(), y, b, other);
        lemma_follows_one_way(from, less, out, m, x, n, y);
    }
}

} // verus!

use openquanter::backtest::strategy::{Context, Ending, Intent, Strategy};
use openquanter::engine::tick::Tick;
use openquanter::types::{Cash, Fill, Offset, OrderId, PriceTicks, QtyLots, Side, Stamp};

/// The smallest strategy that does anything, used to check the
/// boundary rather than any trading idea.
struct BuyOnce {
    done: bool,
}

impl Strategy for BuyOnce {
    fn on_tick(&mut self, ctx: &Context, out: &mut Vec<Intent>) {
        if !self.done && ctx.position.is_zero() {
            self.done = true;
            out.push(Intent::Market {
                id: OrderId::new(1),
                side: Side::Buy,
                qty: QtyLots(1),
                offset: Offset::Open,
            });
        }
    }

    fn name(&self) -> &str {
        "buy-once"
    }
    fn on_fill(&mut self, _fill: &Fill, _ctx: &Context, _out: &mut Vec<Intent>) {}
    fn on_ended(&mut self, _id: OrderId, _ending: Ending, _out: &mut Vec<Intent>) {}
    fn on_placed(&mut self, _id: OrderId, _accepted: bool) {}
}

#[test]
fn a_strategy_is_testable_without_a_host() {
    let mut s = BuyOnce { done: false };
    let ctx = Context {
        tick: Tick::trades_only(Stamp::synthetic(0), 100, 100, 100),
        position: QtyLots(0),
        entry: PriceTicks(0),
        short_position: QtyLots(0),
        short_entry: PriceTicks(0),
        equity: Cash::from_units(1_000),
        working: 0,
    };
    let mut out = Vec::new();
    s.on_tick(&ctx, &mut out);
    assert_eq!(out.len(), 1);
    out.clear();
    s.on_tick(&ctx, &mut out);
    assert!(out.is_empty(), "it only buys once");
}

/// Trades on every observation.
struct Eager;

impl Strategy for Eager {
    fn on_tick(&mut self, _ctx: &Context, out: &mut Vec<Intent>) {
        out.push(Intent::market(OrderId(1), Side::Buy, QtyLots(1)));
    }

    fn name(&self) -> &str {
        "eager"
    }
    fn on_fill(&mut self, _fill: &Fill, _ctx: &Context, _out: &mut Vec<Intent>) {}
    fn on_ended(&mut self, _id: OrderId, _ending: Ending, _out: &mut Vec<Intent>) {}
    fn on_placed(&mut self, _id: OrderId, _accepted: bool) {}
}

#[test]
fn a_strategy_written_before_the_move_still_compiles_and_runs() {
    let mut s = Eager;
    let mut out = Vec::new();
    let ctx = Context {
        tick: Tick::default(),
        position: QtyLots(0),
        entry: PriceTicks(0),
        short_position: QtyLots(0),
        short_entry: PriceTicks(0),
        equity: Cash(0),
        working: 0,
    };
    s.on_tick(&ctx, &mut out);
    assert_eq!(out.len(), 1, "the strategy was driven");
}

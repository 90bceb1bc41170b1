use openquanter::backtest::run::{run, tick_at, MarginMode, RunConfig};
use openquanter::backtest::strategy::{Context, Ending, Intent, Strategy};
use openquanter::engine::tick::Tick;
use openquanter::margin::{Contract, MarginTier, TierTable};
use openquanter::types::{
    Cash, Fill, InstrumentId, Offset, OrderId, PriceTicks, QtyLots, Ratio, Side,
};

fn table() -> TierTable {
    TierTable::new(vec![MarginTier {
        max_notional: Cash(i64::MAX),
        rate: Ratio::from_percent(1),
        amount: Cash(0),
    }])
    .expect("single bracket")
}

fn config(balance: i64) -> RunConfig {
    RunConfig::new(
        InstrumentId::new(1),
        Contract::new(10_000),
        table(),
        Cash::from_units(balance),
    )
}

/// Buys once and holds. Enough to exercise the host without any
/// trading idea getting in the way of what is being tested.
struct BuyAndHold {
    qty: i64,
    done: bool,
}

impl Strategy for BuyAndHold {
    fn on_tick(&mut self, ctx: &Context, out: &mut Vec<Intent>) {
        if !self.done && ctx.position.is_zero() && ctx.working == 0 {
            self.done = true;
            out.push(Intent::Market {
                id: OrderId::new(1),
                side: Side::Buy,
                qty: QtyLots(self.qty),
                offset: Offset::Open,
            });
        }
    }
    fn name(&self) -> &str {
        "buy-and-hold"
    }
    fn on_fill(&mut self, _fill: &Fill, _ctx: &Context, _out: &mut Vec<Intent>) {}
    fn on_ended(&mut self, _id: OrderId, _ending: Ending, _out: &mut Vec<Intent>) {}
    fn on_placed(&mut self, _id: OrderId, _accepted: bool) {}
}

fn falling_market() -> Vec<Tick> {
    // 120_000 down to 100_000 over 200 ticks, then back up.
    let mut ticks = Vec::new();
    for i in 0..200 {
        let p = 1_200_000 - i * 1_000;
        ticks.push(tick_at(i, p, p, p));
    }
    for i in 0..200 {
        let p = 1_000_000 + i * 1_000;
        ticks.push(tick_at(200 + i, p, p, p));
    }
    ticks
}

/// Records what it is told about the end of its own orders.
///
/// Places two on the first tick — one that fills at once and one
/// that rests far below the market — and withdraws the resting one
/// later, so both ways an order can end are exercised by one run.
struct EndingWatcher {
    placed: bool,
    ticks: usize,
    cancel_at: usize,
    ended: Vec<(OrderId, Ending)>,
}

impl Strategy for EndingWatcher {
    fn on_tick(&mut self, _ctx: &Context, out: &mut Vec<Intent>) {
        self.ticks += 1;
        if !self.placed {
            self.placed = true;
            out.push(Intent::Market {
                id: OrderId::new(1),
                side: Side::Buy,
                qty: QtyLots(1),
                offset: Offset::Open,
            });
            out.push(Intent::Limit {
                id: OrderId::new(2),
                side: Side::Buy,
                price: PriceTicks(1),
                qty: QtyLots(1),
                offset: Offset::Open,
            });
        }
        if self.ticks == self.cancel_at {
            out.push(Intent::Cancel(OrderId::new(2)));
        }
    }
    fn on_ended(&mut self, id: OrderId, ending: Ending, _out: &mut Vec<Intent>) {
        self.ended.push((id, ending));
    }
    fn name(&self) -> &str {
        "ending-watcher"
    }
    fn on_fill(&mut self, _fill: &Fill, _ctx: &Context, _out: &mut Vec<Intent>) {}
    fn on_placed(&mut self, _id: OrderId, _accepted: bool) {}
}

/// Both ways an order ends reach the strategy, and neither reaches
/// it twice.
///
/// A strategy that has to infer this from fills gets it wrong in
/// both directions: it never learns about an order that was
/// cancelled, and it decides a partially filled one is over. The
/// live host reports the venue's answer; this is the same answer
/// from the matcher, so a strategy written against it behaves the
/// same in both.
#[test]
fn a_strategy_is_told_when_each_of_its_orders_ends() {
    let mut watcher = EndingWatcher {
        placed: false,
        ticks: 0,
        cancel_at: 50,
        ended: Vec::new(),
    };
    run(&config(10_000), &mut watcher, &falling_market());

    assert_eq!(
        watcher.ended,
        vec![
            (OrderId::new(1), Ending::Filled),
            (OrderId::new(2), Ending::Cancelled),
        ],
        "both endings, once each, in the order they happened"
    );
}

#[test]
fn a_run_is_deterministic() {
    let ticks = falling_market();
    let cfg = config(10_000);
    let a = run(
        &cfg,
        &mut BuyAndHold {
            qty: 1,
            done: false,
        },
        &ticks,
    );
    let b = run(
        &cfg,
        &mut BuyAndHold {
            qty: 1,
            done: false,
        },
        &ticks,
    );
    assert_eq!(a, b);
}

#[test]
fn without_margin_a_thin_account_survives_a_move_that_would_end_it() {
    // The control arm and the real arm disagree, which is the whole
    // reason the switch exists.
    let ticks = falling_market();
    let thin = 150;

    let enforced = run(
        &config(thin).with_margin(MarginMode::Enforced),
        &mut BuyAndHold {
            qty: 10,
            done: false,
        },
        &ticks,
    );
    let ignored = run(
        &config(thin).with_margin(MarginMode::Ignored),
        &mut BuyAndHold {
            qty: 10,
            done: false,
        },
        &ticks,
    );

    assert!(
        !enforced.liquidations.is_empty(),
        "the venue should have closed this account"
    );
    assert!(
        ignored.liquidations.is_empty(),
        "the control arm never liquidates, by construction"
    );
    assert!(
        ignored.final_equity > enforced.final_equity,
        "ignoring margin flatters the result: {:?} vs {:?}",
        ignored.final_equity,
        enforced.final_equity
    );
}

#[test]
fn with_enough_collateral_the_two_arms_agree() {
    // The comparison must be silent when there is nothing to say,
    // or nobody will believe it when it speaks.
    let ticks = falling_market();
    let fat = 1_000_000;
    let enforced = run(
        &config(fat).with_margin(MarginMode::Enforced),
        &mut BuyAndHold {
            qty: 1,
            done: false,
        },
        &ticks,
    );
    let ignored = run(
        &config(fat).with_margin(MarginMode::Ignored),
        &mut BuyAndHold {
            qty: 1,
            done: false,
        },
        &ticks,
    );
    assert!(enforced.liquidations.is_empty());
    assert_eq!(enforced.final_equity, ignored.final_equity);
    assert_eq!(enforced.fills, ignored.fills);
}

#[test]
fn adverse_excursion_is_measured_against_entry() {
    let ticks = falling_market();
    let result = run(
        &config(1_000_000),
        &mut BuyAndHold {
            qty: 1,
            done: false,
        },
        &ticks,
    );
    // Entry near 1_200_000, low at 1_000_000.
    assert!(
        result.max_adverse_ticks > 190_000,
        "expected a large adverse excursion, got {}",
        result.max_adverse_ticks
    );
}

#[test]
fn min_equity_records_the_worst_point_not_the_last_one() {
    let ticks = falling_market();
    let result = run(
        &config(1_000_000),
        &mut BuyAndHold {
            qty: 1,
            done: false,
        },
        &ticks,
    );
    assert!(
        result.min_equity < result.final_equity,
        "the market recovered, so the worst point must be worse than the end"
    );
}

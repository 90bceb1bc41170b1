use openquanter::backtest::lookahead::{lookahead, spread, DEFAULT_POINTS};
use openquanter::backtest::run::{tick_at, RunConfig};
use openquanter::backtest::strategy::{Context, Ending, Intent, Strategy};
use openquanter::engine::tick::Tick;
use openquanter::margin::{Contract, TierTable};
use openquanter::types::{Cash, Fill, InstrumentId, OrderId, PriceTicks, QtyLots, Side};

fn config() -> RunConfig {
    RunConfig::new(
        InstrumentId::new(1),
        Contract::new(1_000),
        TierTable::example_btcusdt(),
        Cash::from_units(20_000),
    )
}

/// A zigzag with a drift, so there is something to buy and sell.
fn ticks(n: usize) -> Vec<Tick> {
    (0..n)
        .map(|i| {
            let wobble = [0, 300, -200, 500, -400, 100, -100][i % 7];
            let p = 6_000_000 + i as i64 * 50 + wobble;
            tick_at(i as i64 * 1_000_000_000, p, p, p)
        })
        .collect()
}

/// Buys after a fall, using only what it has seen.
struct Honest {
    prev: Option<i64>,
    next: u64,
}

impl Strategy for Honest {
    fn on_tick(&mut self, ctx: &Context, out: &mut Vec<Intent>) {
        let last = ctx.tick.last.0;
        if self.prev.is_some_and(|p| last < p) {
            self.next += 1;
            out.push(Intent::limit(
                OrderId::new(self.next),
                Side::Buy,
                PriceTicks(last),
                QtyLots(1),
            ));
        }
        self.prev = Some(last);
    }

    fn name(&self) -> &str {
        "honest"
    }
    fn on_fill(&mut self, _fill: &Fill, _ctx: &Context, _out: &mut Vec<Intent>) {}
    fn on_ended(&mut self, _id: OrderId, _ending: Ending, _out: &mut Vec<Intent>) {}
    fn on_placed(&mut self, _id: OrderId, _accepted: bool) {}
}

/// Buys before a rise, which it knows about because it was built with
/// the whole window.
struct Clairvoyant {
    future: Vec<i64>,
    seen: usize,
    next: u64,
}

impl Strategy for Clairvoyant {
    fn on_tick(&mut self, ctx: &Context, out: &mut Vec<Intent>) {
        let i = self.seen;
        self.seen += 1;
        if self
            .future
            .get(i + 1)
            .is_some_and(|next| *next > ctx.tick.last.0)
        {
            self.next += 1;
            out.push(Intent::limit(
                OrderId::new(self.next),
                Side::Buy,
                ctx.tick.last,
                QtyLots(1),
            ));
        }
    }

    fn name(&self) -> &str {
        "clairvoyant"
    }
    fn on_fill(&mut self, _fill: &Fill, _ctx: &Context, _out: &mut Vec<Intent>) {}
    fn on_ended(&mut self, _id: OrderId, _ending: Ending, _out: &mut Vec<Intent>) {}
    fn on_placed(&mut self, _id: OrderId, _accepted: bool) {}
}

#[test]
fn a_strategy_that_uses_only_the_past_is_clean() {
    let data = ticks(120);
    let report = lookahead(
        &config(),
        |_: &[Tick]| Honest {
            prev: None,
            next: 0,
        },
        &data,
        DEFAULT_POINTS,
    );
    assert!(report.signals > 10, "{report:?}");
    assert_eq!(report.checked, report.signals);
    assert!(!report.sampled());
    assert!(report.clean(), "{report:?}");
}

#[test]
fn a_strategy_built_from_the_whole_window_is_caught() {
    let data = ticks(120);
    let report = lookahead(
        &config(),
        |known: &[Tick]| Clairvoyant {
            future: known.iter().map(|t| t.last.0).collect(),
            seen: 0,
            next: 0,
        },
        &data,
        DEFAULT_POINTS,
    );
    assert!(!report.clean());
    let first = &report.divergences[0];
    // On the last tick of a prefix the rerun cannot see the next
    // price, so it does not buy where the full run did.
    assert_eq!(first.tick, first.checked_at);
    assert!(
        !first.full.is_empty() && first.truncated.is_empty(),
        "{first:?}"
    );
}

#[test]
fn at_most_the_bound_is_checked_and_the_report_says_so() {
    let data = ticks(600);
    let report = lookahead(
        &config(),
        |_: &[Tick]| Honest {
            prev: None,
            next: 0,
        },
        &data,
        20,
    );
    assert!(report.signals > 20);
    assert!(report.checked <= 20 && report.checked > 0);
    assert!(report.sampled());
    assert!(report.clean());
}

#[test]
fn the_spread_is_even_and_keeps_both_ends() {
    let c: Vec<usize> = (0..100).collect();
    let s = spread(&c, 5);
    assert_eq!(s, vec![0, 24, 49, 74, 99]);
    assert_eq!(spread(&c[..3], 5), vec![0, 1, 2]);
    assert!(spread(&c, 0).is_empty());
}

use openquanter::backtest::run::{run_observations, run_stream, RunConfig, Tier};
use openquanter::backtest::strategy::{Context, Ending, Intent, Strategy};
use openquanter::engine::impact::Impact;
use openquanter::engine::l1::{Delay, Latency, Policy, QueueAhead};
use openquanter::engine::observation::Observation;
use openquanter::engine::tick::Tick;
use openquanter::margin::{Contract, MarginTier, TierTable};
use openquanter::types::{
    Cash, Fill, InstrumentId, Nanos, Offset, OrderId, PriceTicks, QtyLots, Ratio, Side, Stamp,
};
use openquanter::venue::depth::{DepthUpdate, Level};

fn table() -> TierTable {
    TierTable::new(vec![MarginTier {
        max_notional: Cash(i64::MAX),
        rate: Ratio::from_percent(1),
        amount: Cash(0),
    }])
    .expect("single bracket")
}

fn config(balance: i64) -> RunConfig {
    RunConfig::new(
        InstrumentId::new(1),
        Contract::new(10_000),
        table(),
        Cash::from_units(balance),
    )
}

/// Rests one limit buy at a price the fixture trades through, then
/// holds. Enough to make the queue the only thing that decides
/// whether it fills.
struct RestOnce {
    placed: bool,
    price: i64,
}

impl Strategy for RestOnce {
    fn on_tick(&mut self, _ctx: &Context, out: &mut Vec<Intent>) {
        if !self.placed {
            self.placed = true;
            out.push(Intent::Limit {
                id: OrderId(1),
                side: Side::Buy,
                price: PriceTicks(self.price),
                qty: QtyLots(1),
                offset: Offset::Open,
            });
        }
    }
    fn name(&self) -> &str {
        "rest-once"
    }
    fn on_fill(&mut self, _fill: &Fill, _ctx: &Context, _out: &mut Vec<Intent>) {}
    fn on_ended(&mut self, _id: OrderId, _ending: Ending, _out: &mut Vec<Intent>) {}
    fn on_placed(&mut self, _id: OrderId, _accepted: bool) {}
}

fn flat_ticks(n: i64, price: i64) -> Vec<Tick> {
    (1..=n)
        .map(|i| Tick {
            stamp: Stamp::new(i * 1_000_000, i * 1_000_000),
            last: PriceTicks(price),
            high: PriceTicks(price),
            low: PriceTicks(price),
            bid: PriceTicks(price),
            ask: PriceTicks(price),
            volume: QtyLots(10 * i),
        })
        .collect()
}

fn depth_at(id: u64, price: i64, qty: i64) -> Observation {
    Observation::Depth(Box::new(DepthUpdate {
        event_ms: 0,
        first_id: id,
        final_id: id,
        prev_final_id: if id > 1 { Some(id - 1) } else { None },
        bids: vec![Level { price, qty }],
        asks: Vec::new(),
    }))
}

/// The whole point of the path: depth reaches the matcher and
/// changes when an order fills.
///
/// Same strategy, same ticks. The only difference is that one run
/// was told the level it joined already had 5000 lots displayed on
/// it — so it waits, and the other does not.
#[test]
fn depth_reaches_the_matcher_and_delays_a_fill() {
    let ticks = flat_ticks(5, 100);
    let policy = Policy {
        queue: QueueAhead::Nothing,
        latency: Latency {
            entry: Delay::Fixed(Nanos(0)),
            response: Delay::Fixed(Nanos(0)),
        },
        impact: Impact { coefficient: 0 },
    };

    let cfg = config(1_000_000).at_tier(Tier::L2(policy));
    let mut with_book = RestOnce {
        placed: false,
        price: 100,
    };
    // The snapshot first: an incremental stream says what changed,
    // and a book with nothing to change refuses every update.
    let stream = [
        Observation::Snapshot {
            update_id: 0,
            bids: vec![Level {
                price: 100,
                qty: 5_000,
            }],
            asks: Vec::new(),
        },
        depth_at(1, 100, 5_000),
    ]
    .into_iter()
    .chain(ticks.iter().copied().map(Observation::Tick));
    let deep = run_observations(&cfg, &mut with_book, stream);

    let mut no_book = RestOnce {
        placed: false,
        price: 100,
    };
    let empty = run_stream(&cfg, &mut no_book, ticks.iter().copied());

    assert_eq!(deep.tier, "L2");
    assert_eq!(deep.depth_applied, 1, "the update reached the matcher");
    assert_eq!(deep.depth_refused, 0, "and was in sequence");
    assert_eq!(deep.depth_unused, 0);
    assert!(
        !empty.fills.is_empty(),
        "with nothing displayed the order is first in the queue and fills"
    );
    assert!(
        deep.fills.is_empty(),
        "behind 5000 lots it must not fill in {} ticks; got {:?}",
        ticks.len(),
        deep.fills
    );
}

/// Depth handed to a tier that cannot read it is counted, not
/// ignored.
///
/// A run that converted an archive, fed the book, and matched as L0
/// anyway reports L0's answer under whatever name the caller gave
/// it. The count is what lets a reader see that happened.
#[test]
fn depth_given_to_a_lower_tier_is_reported_unused() {
    let ticks = flat_ticks(3, 100);
    let mut s = RestOnce {
        placed: false,
        price: 100,
    };
    let out = run_observations(
        &config(1_000_000),
        &mut s,
        core::iter::once(depth_at(1, 100, 5_000))
            .chain(ticks.iter().copied().map(Observation::Tick)),
    );
    assert_eq!(out.tier, "L0");
    assert_eq!(out.depth_applied, 0);
    assert_eq!(out.depth_unused, 1, "an ignored update must be visible");
}

/// Raising the tier without giving it anything new must not change
/// the answer. Otherwise the tiers are a menu rather than a claim
/// about fidelity.
#[test]
fn a_higher_tier_given_nothing_extra_matches_l0() {
    let ticks = flat_ticks(5, 100);
    let mut a = RestOnce {
        placed: false,
        price: 100,
    };
    let l0 = run_stream(&config(1_000_000), &mut a, ticks.iter().copied());

    let mut b = RestOnce {
        placed: false,
        price: 100,
    };
    let l2 = run_stream(
        &config(1_000_000).at_tier(Tier::L2(Policy::transparent())),
        &mut b,
        ticks.iter().copied(),
    );

    assert!(!l0.fills.is_empty(), "the fixture must fill");
    assert_eq!(l2.fills, l0.fills, "an unfed L2 must reproduce L0");
    assert_eq!(l2.tier, "L2", "while still reporting what it was");
}

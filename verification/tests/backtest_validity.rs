use openquanter::backtest::figure::Figure;
use openquanter::backtest::run::{MarginUsage, RunResult};
use openquanter::backtest::validity::{report, Participation};
use openquanter::engine::tick::Tick;
use openquanter::types::{
    Cash, Fill, InstrumentId, Liquidity, Nanos, Offset, OrderId, PriceTicks, QtyLots, Side, Stamp,
    TradeId,
};

/// A double as a figure.
#[derive(Clone, Copy, Debug, PartialEq)]
struct X(f64);

impl Figure for X {
    fn lemma_writes_back(self) {}

    fn ratio(num: i64, den: i64) -> Self {
        X(num as f64 / den as f64)
    }

    fn undefined() -> Self {
        X(f64::NAN)
    }

    fn minus(self, other: Self) -> Self {
        X(self.0 - other.0)
    }

    fn plus(self, other: Self) -> Self {
        X(self.0 + other.0)
    }

    fn over(self, n: usize) -> Self {
        X(self.0 / n as f64)
    }

    fn share_of(self, whole: Self) -> Self {
        X(self.0 / whole.0)
    }

    fn percent(self) -> Self {
        X(self.0 * 100.0)
    }

    fn is_finite(self) -> bool {
        self.0.is_finite()
    }

    fn exceeds(self, other: Self) -> bool {
        self.0 > other.0
    }

    fn within(self, other: Self) -> bool {
        self.0 <= other.0
    }

    fn equals(self, other: Self) -> bool {
        self.0 == other.0
    }

    fn precedes(self, other: Self) -> bool {
        self.0.total_cmp(&other.0).is_le()
    }

    fn samples(self) -> usize {
        (1.0 / self.0).ceil() as usize
    }

    fn place(self, n: usize) -> usize {
        (self.0.clamp(0.0, 1.0) * n as f64).ceil() as usize
    }

    fn to_fixed(self, places: u32) -> String {
        format!("{:.*}", places as usize, self.0)
    }

    fn to_plain(self) -> String {
        self.0.to_string()
    }

    fn read(text: &str) -> Option<Self> {
        text.parse().ok().map(X)
    }
}

fn tick(i: i64, volume: i64) -> Tick {
    Tick {
        stamp: Stamp {
            exch: Nanos(i * 1_000_000_000),
            local: Nanos(i * 1_000_000_000),
        },
        last: PriceTicks(6_000_000),
        high: PriceTicks(6_000_000),
        low: PriceTicks(6_000_000),
        bid: PriceTicks(5_999_999),
        ask: PriceTicks(6_000_001),
        volume: QtyLots(volume),
    }
}

fn fill(at: i64, qty: i64, liquidity: Liquidity) -> Fill {
    Fill {
        stamp: Stamp {
            exch: Nanos(at * 1_000_000_000),
            local: Nanos(at * 1_000_000_000),
        },
        instrument: InstrumentId::new(1),
        order: OrderId(1),
        trade: TradeId(1),
        side: Side::Buy,
        offset: Offset::Open,
        price: PriceTicks(6_000_000),
        qty: QtyLots(qty),
        liquidity,
    }
}

fn result(fills: Vec<Fill>, margin: MarginUsage) -> RunResult {
    RunResult {
        strategy: "t".into(),
        fills,
        liquidations: Vec::new(),
        ticks: 0,
        final_equity: Cash(0),
        realized: Cash(0),
        funding_paid: Cash(0),
        fees_paid: Cash(0),
        min_equity: Cash(0),
        equity_curve: Vec::new(),
        max_adverse_ticks: 0,
        margin_usage: margin,
        tier: "L0",
        depth_applied: 0,
        depth_refused: 0,
        depth_unused: 0,
    }
}

/// **The claim the whole module exists for.** A strategy that takes
/// a fifth of a percent of the day and forty percent of one minute
/// has invalidated that minute, and the day-long average says it
/// did not.
#[test]
fn the_peak_catches_what_the_average_hides() {
    // 100 ticks, 100 units of market volume each: 9,900 in total.
    let ticks: Vec<Tick> = (0..100).map(|i| tick(i, i * 100)).collect();
    // Twenty lots, all inside one ten-tick window.
    let fills: Vec<Fill> = (0..4).map(|k| fill(30 + k, 5, Liquidity::Taker)).collect();

    let r = report(&result(fills, MarginUsage::NotTracked), &ticks, 10, X(0.01));
    let Participation::Measured {
        overall,
        peak,
        peak_window,
        ..
    } = r.participation
    else {
        panic!("measurable: {:?}", r.participation);
    };

    assert!(overall.0 < 0.01, "the average looks harmless: {overall:?}");
    assert!(peak.0 > 0.02, "the window does not: {peak:?}");
    assert_eq!(peak_window, 3, "and the report names which one");
    assert!(
        r.participation_invalidates(),
        "the flag must fire on the peak: {}",
        r.render()
    );
    assert!(r.render().contains("OVER THRESHOLD"));
}

/// A run that stayed small everywhere is not flagged, or the flag
/// would fire on every run and be turned off within a week.
#[test]
fn a_run_that_stays_small_is_not_flagged() {
    let ticks: Vec<Tick> = (0..100).map(|i| tick(i, i * 10_000)).collect();
    let fills = vec![fill(50, 1, Liquidity::Maker)];
    let r = report(&result(fills, MarginUsage::NotTracked), &ticks, 10, X(0.01));
    assert!(!r.participation_invalidates(), "{}", r.render());
}

/// This figure decides whether the whole run is valid, so a wrong
/// one is worse than a missing one. Volume that goes backwards is
/// not cumulative, and a share of it is not defined.
#[test]
fn volume_that_goes_backwards_makes_participation_unmeasurable() {
    let mut ticks: Vec<Tick> = (0..50).map(|i| tick(i, i * 100)).collect();
    ticks[30].volume = QtyLots(0); // a reset, or a feed defect
    let r = report(
        &result(vec![fill(10, 1, Liquidity::Taker)], MarginUsage::NotTracked),
        &ticks,
        10,
        X(0.01),
    );
    assert!(matches!(r.participation, Participation::Unmeasurable(_)));
    assert_eq!(r.participation.peak(), None);
    assert!(
        !r.participation_invalidates(),
        "unmeasurable is not the same as over threshold"
    );
    assert!(
        r.render().contains("NOT MEASURABLE") && r.render().contains("not a passing one"),
        "{}",
        r.render()
    );
}

/// An empty column under `latency` reads as a backtest where latency
/// was zero — which is a claim, and it is the claim L0 makes. The
/// difference between an assumption and an oversight is whether it
/// is written down.
#[test]
fn the_things_the_tier_does_not_model_are_stated_rather_than_blank() {
    let ticks: Vec<Tick> = (0..10).map(|i| tick(i, i * 100)).collect();
    let r = report(
        &result(Vec::new(), MarginUsage::NotTracked),
        &ticks,
        5,
        X(0.01),
    );
    assert!(r.assumptions.latency.contains("none modelled"));
    assert!(r.assumptions.impact.contains("none modelled"));
    let text = r.render();
    assert!(text.contains("latency") && text.contains("impact"));
    assert!(
        !text.contains("latency         \n"),
        "no blank column: {text}"
    );
}

#[test]
fn the_maker_taker_split_is_counted() {
    let ticks: Vec<Tick> = (0..20).map(|i| tick(i, i * 1_000)).collect();
    let fills = vec![
        fill(1, 1, Liquidity::Maker),
        fill(2, 1, Liquidity::Maker),
        fill(3, 1, Liquidity::Taker),
    ];
    let r = report(&result(fills, MarginUsage::NotTracked), &ticks, 5, X(0.5));
    assert_eq!(r.taker_maker, (1, 2));
    let share = r.maker_share().expect("there were fills");
    assert!((share.0 - 2.0 / 3.0).abs() < 1e-12);
}

/// No fills is not zero percent maker. A share of nothing is
/// undefined, and printing 0% would read as a run that took
/// liquidity every time.
#[test]
fn a_run_with_no_fills_has_no_maker_share() {
    let ticks: Vec<Tick> = (0..20).map(|i| tick(i, i * 1_000)).collect();
    let r = report(&result(Vec::new(), MarginUsage::NotTracked), &ticks, 5, X(0.5));
    assert_eq!(r.maker_share(), None);
    assert!(r.render().contains("no fills"));
}

/// Three states, three sentences. "Nobody measured", "there was
/// never a position" and "it came within nothing of the line" are
/// different facts, and the report says which.
#[test]
fn the_three_margin_states_read_differently() {
    let ticks: Vec<Tick> = (0..20).map(|i| tick(i, i * 1_000)).collect();
    let render = |m: MarginUsage| report(&result(Vec::new(), m), &ticks, 5, X(0.5)).render();

    assert!(render(MarginUsage::NotTracked).contains("not tracked"));
    let kept = report(&result(Vec::new(), MarginUsage::NotTracked), &ticks, 5, X(0.5));
    assert_eq!(kept.clone(), kept);
    assert!(render(MarginUsage::NoPosition).contains("no position was ever open"));

    let close = render(MarginUsage::Measured {
        peak_maintenance: Cash(500_000_000),
        min_headroom: Cash(0),
    });
    assert!(close.contains("closest approach 0.00"), "{close}");
    assert!(
        close.contains("reached or passed the line"),
        "standing exactly on it is worth saying: {close}"
    );

    let safe = render(MarginUsage::Measured {
        peak_maintenance: Cash(500_000_000),
        min_headroom: Cash(900_000_000),
    });
    assert!(!safe.contains("reached or passed"), "{safe}");
}

/// A window of zero spans no market, and a series of one has no
/// elapsed volume. Both are refusals rather than divisions by zero.
#[test]
fn degenerate_inputs_are_refused_rather_than_divided_by() {
    let ticks: Vec<Tick> = (0..10).map(|i| tick(i, i * 100)).collect();
    let r = result(Vec::new(), MarginUsage::NotTracked);
    assert!(matches!(
        report(&r, &ticks, 0, X(0.01)).participation,
        Participation::Unmeasurable(_)
    ));
    assert!(matches!(
        report(&r, &ticks[..1], 5, X(0.01)).participation,
        Participation::Unmeasurable(_)
    ));
    let flat: Vec<Tick> = (0..10).map(|i| tick(i, 0)).collect();
    assert!(matches!(
        report(&r, &flat, 5, X(0.01)).participation,
        Participation::Unmeasurable(_)
    ));
}

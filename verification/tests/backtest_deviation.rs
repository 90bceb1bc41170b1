use openquanter::backtest::deviation::{DeviationReport, Verdict};
use openquanter::backtest::run::{tick_at, RunConfig};
use openquanter::backtest::strategy::{Context, Ending, Intent, Strategy};
use openquanter::engine::tick::Tick;
use openquanter::margin::{Contract, MarginTier, TierTable};
use openquanter::types::{
    Cash, Fill, InstrumentId, Offset, OrderId, PriceTicks, QtyLots, Ratio, Side,
};

fn table() -> TierTable {
    TierTable::new(vec![MarginTier {
        max_notional: Cash(i64::MAX),
        rate: Ratio::from_percent(1),
        amount: Cash(0),
    }])
    .expect("single bracket")
}

fn config(balance: i64) -> RunConfig {
    RunConfig::new(
        InstrumentId::new(1),
        Contract::new(10_000),
        table(),
        Cash::from_units(balance),
    )
}

/// Adds to a losing position on a fixed ladder, then takes profit.
///
/// A generic teaching example of the family of strategies this
/// report exists for: averaging down looks excellent without a
/// margin model, because the model of the account it is tested
/// against cannot run out of collateral.
struct CoverLadder {
    step_ticks: i64,
    max_covers: usize,
    covers: usize,
    next_id: u64,
}

impl CoverLadder {
    fn new() -> Self {
        Self {
            step_ticks: 20_000,
            max_covers: 6,
            covers: 0,
            next_id: 1,
        }
    }
    fn id(&mut self) -> OrderId {
        self.next_id += 1;
        OrderId::new(self.next_id)
    }
}

impl Strategy for CoverLadder {
    fn on_tick(&mut self, ctx: &Context, out: &mut Vec<Intent>) {
        if ctx.position.is_zero() {
            if self.covers == 0 && ctx.working == 0 {
                let id = self.id();
                out.push(Intent::Market {
                    id,
                    side: Side::Buy,
                    qty: QtyLots(2),
                    offset: Offset::Open,
                });
                self.covers = 1;
            }
            return;
        }
        // Add another rung while the market keeps falling.
        if self.covers <= self.max_covers && ctx.working == 0 {
            let next = ctx.entry.0 - self.step_ticks * self.covers as i64;
            if next > 0 && ctx.tick.last.0 <= next + self.step_ticks {
                let id = self.id();
                let qty = QtyLots(2 << self.covers.min(5));
                out.push(Intent::Limit {
                    id,
                    side: Side::Buy,
                    price: PriceTicks(next),
                    qty,
                    offset: Offset::Open,
                });
                self.covers += 1;
            }
        }
    }
    fn name(&self) -> &str {
        "cover-ladder"
    }
    fn on_fill(&mut self, _fill: &Fill, _ctx: &Context, _out: &mut Vec<Intent>) {}
    fn on_ended(&mut self, _id: OrderId, _ending: Ending, _out: &mut Vec<Intent>) {}
    fn on_placed(&mut self, _id: OrderId, _accepted: bool) {}
}

fn crash() -> Vec<Tick> {
    let mut ticks = Vec::new();
    for i in 0..400 {
        let p = 1_200_000 - i * 1_500;
        ticks.push(tick_at(i, p, p, p));
    }
    for i in 0..400 {
        let p = 600_000 + i * 1_500;
        ticks.push(tick_at(400 + i, p, p, p));
    }
    ticks
}

#[test]
fn a_well_collateralized_run_reports_no_difference() {
    let report = DeviationReport::compare(&config(10_000_000), CoverLadder::new, &crash());
    assert_eq!(report.verdict(), Verdict::NoDifference);
    assert!(report.margin_free_result_is_honest());
    assert!(report.summary_line::<Ratio>().contains("margin never bound"));
}

#[test]
fn a_thin_account_shows_the_gap_the_report_exists_to_show() {
    let report = DeviationReport::compare(&config(500), CoverLadder::new, &crash());
    match report.verdict() {
        Verdict::Liquidated {
            count,
            overstated_by,
            ..
        } => {
            assert!(count >= 1);
            assert!(
                overstated_by.0 > 0,
                "the margin-free arm must report more equity than the real one"
            );
            assert!(!report.margin_free_result_is_honest());
        }
        Verdict::NoDifference => {
            panic!("a 500 USDT account running a cover ladder into a 50% crash must be closed")
        }
    }
}

#[test]
fn fills_after_the_first_liquidation_are_counted() {
    let report = DeviationReport::compare(&config(500), CoverLadder::new, &crash());
    assert!(
        report.fills_after_first_liquidation() > 0,
        "the margin-free arm kept trading an account that no longer existed"
    );
}

#[test]
fn both_arms_see_identical_market_data() {
    // Guards the experiment itself: if the arms differed in their
    // inputs, the comparison would measure the difference in inputs.
    let ticks = crash();
    let report = DeviationReport::compare(&config(10_000_000), CoverLadder::new, &ticks);
    assert_eq!(report.enforced.ticks, report.ignored.ticks);
    assert_eq!(report.enforced.ticks, ticks.len());
    assert_eq!(
        report.enforced.fills, report.ignored.fills,
        "with margin never binding, the two arms must trade identically"
    );
}

#[test]
fn the_comparison_is_reproducible() {
    let ticks = crash();
    let a = DeviationReport::compare(&config(500), CoverLadder::new, &ticks);
    let b = DeviationReport::compare(&config(500), CoverLadder::new, &ticks);
    assert_eq!(a, b);
}

use openquanter::backtest::run::{run, run_stream, RunConfig};
use openquanter::backtest::strategy::{Context, Ending, Intent, Strategy};
use openquanter::engine::tick::Tick;
use openquanter::margin::{Contract, TierTable};
use openquanter::types::{Cash, Fill, InstrumentId, OrderId, PriceTicks, QtyLots, Side, Stamp};

/// A strategy that trades, so the comparison exercises fills and
/// position state rather than two empty runs agreeing.
#[derive(Default)]
struct Pinger {
    n: usize,
}

impl Strategy for Pinger {
    fn name(&self) -> &str {
        "pinger"
    }
    fn on_tick(&mut self, ctx: &Context, out: &mut Vec<Intent>) {
        self.n += 1;
        if self.n % 50 == 0 {
            out.push(Intent::market(
                OrderId(self.n as u64),
                if self.n % 100 == 0 {
                    Side::Sell
                } else {
                    Side::Buy
                },
                QtyLots(1),
            ));
        }
        let _ = ctx;
    }
    fn on_fill(&mut self, _fill: &Fill, _ctx: &Context, _out: &mut Vec<Intent>) {}
    fn on_ended(&mut self, _id: OrderId, _ending: Ending, _out: &mut Vec<Intent>) {}
    fn on_placed(&mut self, _id: OrderId, _accepted: bool) {}
}

fn ticks(n: usize) -> Vec<Tick> {
    (0..n)
        .map(|i| {
            let i = i as i64;
            // A wandering price, so fills land at varying levels and
            // an ordering difference would show up in the result.
            let drift = (i % 97) * 13 - 600;
            Tick::trades_only(
                Stamp::synthetic(1_700_000_000_000_000_000 + i * 250_000_000),
                6_000_000 + drift,
                6_000_100 + drift,
                5_999_900 + drift,
            )
        })
        .collect()
}

fn config() -> RunConfig {
    RunConfig::new(
        InstrumentId::new(1),
        Contract::new(1_000),
        TierTable::example_btcusdt(),
        Cash::from_units(20_000),
    )
}

/// The two entry points must not merely agree on the total — they
/// must produce the same fills in the same order, or a caller's
/// choice between them would quietly change the answer.
#[test]
fn streaming_and_slice_runs_are_identical() {
    let data = ticks(5_000);
    let cfg = config();

    let mut a = Pinger::default();
    let from_slice = run(&cfg, &mut a, &data);

    let mut b = Pinger::default();
    let from_stream = run_stream(&cfg, &mut b, data.iter().copied());

    assert_eq!(from_slice.ticks, from_stream.ticks);
    assert_eq!(from_slice.fills.len(), from_stream.fills.len());
    assert_eq!(from_slice.fills, from_stream.fills);
    assert_eq!(from_slice.realized, from_stream.realized);
    assert_eq!(from_slice.fees_paid, from_stream.fees_paid);
    assert_eq!(from_slice.final_equity, from_stream.final_equity);
    assert_eq!(from_slice.min_equity, from_stream.min_equity);
    assert_eq!(from_slice.max_adverse_ticks, from_stream.max_adverse_ticks);
    assert!(
        !from_slice.fills.is_empty(),
        "a run with no fills would compare two empty sequences and prove nothing"
    );
}

/// A stream that yields nothing is a run over no data, not a panic.
#[test]
fn an_empty_stream_runs_and_reports_nothing() {
    let cfg = config();
    let mut s = Pinger::default();
    let r = run_stream(&cfg, &mut s, std::iter::empty());
    assert_eq!(r.ticks, 0);
    assert!(r.fills.is_empty());
    assert_eq!(r.final_equity, cfg.starting_balance);
    let _ = PriceTicks(0);
}

use openquanter::backtest::deviation::DeviationReport;
use openquanter::backtest::fidelity::Unusable;
use openquanter::backtest::figure::Figure;
use openquanter::backtest::lookahead::lookahead;
use openquanter::backtest::run::{run, tick_at, RunConfig};
use openquanter::backtest::strategy::{Context, Ending, Intent, Strategy};
use openquanter::backtest::sweep::{
    scored_returns, simple_returns, sweep, Candidate, PboReport, Refusal, SweepReport, Thresholds,
};
use openquanter::backtest::sweep_file::{render, SweepFile};
use openquanter::backtest::validity::{default_threshold, participation, Participation};
use openquanter::engine::tick::Tick;
use openquanter::margin::{Contract, FundingRate, FundingSchedule, MarginTier, TierTable};
use openquanter::types::{
    Cash, Fill, InstrumentId, Liquidity, Nanos, Offset, OrderId, PriceTicks, QtyLots, Ratio, Side, Stamp,
    TradeId,
};

fn config(balance: i64) -> RunConfig {
    let table = TierTable::new(vec![MarginTier {
        max_notional: Cash(i64::MAX),
        rate: Ratio::from_percent(1),
        amount: Cash(0),
    }])
    .expect("single bracket");
    RunConfig::new(
        InstrumentId::new(1),
        Contract::new(10_000),
        table,
        Cash::from_units(balance),
    )
}

/// Buys a fixed size on the first observation.
struct Buyer {
    qty: i64,
    done: bool,
}

impl Strategy for Buyer {
    fn on_tick(&mut self, _ctx: &Context, out: &mut Vec<Intent>) {
        if !self.done {
            self.done = true;
            out.push(Intent::market(OrderId(1), Side::Buy, QtyLots(self.qty)));
        }
    }

    fn name(&self) -> &str {
        "buyer"
    }
    fn on_fill(&mut self, _fill: &Fill, _ctx: &Context, _out: &mut Vec<Intent>) {}
    fn on_ended(&mut self, _id: OrderId, _ending: Ending, _out: &mut Vec<Intent>) {}
    fn on_placed(&mut self, _id: OrderId, _accepted: bool) {}
}

fn buyer(qty: i64) -> Buyer {
    Buyer { qty, done: false }
}

fn falling(n: i64) -> Vec<Tick> {
    (0..n)
        .map(|i| {
            let p = 1_000_000 - i * 1_000;
            tick_at(i, p, p, p)
        })
        .collect()
}

#[test]
fn every_tick_is_counted_and_the_curve_has_a_point_per_interval() {
    let r = run(
        &config(10_000).sampling_equity_every(10),
        &mut buyer(1),
        &falling(25),
    );
    assert_eq!(r.ticks, 25);
    assert_eq!(r.equity_curve.len(), 3, "the start, and one per ten ticks");
    assert_eq!(r.equity_curve[0], Cash::from_units(10_000));
    assert!(r.equity_curve.iter().all(|e| r.min_equity <= *e));
    assert!(r.min_equity <= r.final_equity);
}

#[test]
fn a_comparison_says_in_one_line_what_it_found() {
    let calm = DeviationReport::compare(&config(10_000), || buyer(1), &falling(3));
    assert_eq!(
        calm.summary_line::<Ratio>(),
        "buyer: margin never bound over 3 ticks; the margin-free result stands \
         (final equity 9999.90)"
    );
    let thin = DeviationReport::compare(&config(50), || buyer(10), &falling(200));
    assert!(thin.summary_line::<Ratio>().starts_with("buyer: LIQUIDATED 1x, first at t="));
    assert!(thin.enforced.liquidations.len() == 1 && thin.ignored.liquidations.is_empty());
}

#[test]
fn a_sweep_runs_every_candidate_in_order() {
    let candidates = [1i64, 2]
        .map(|q| Candidate {
            id: format!("qty={q}"),
            build: move || buyer(q),
        });
    let results = sweep(&config(10_000), &candidates, &falling(12));
    let ids: Vec<&str> = results.iter().map(|(id, _)| id.as_str()).collect();
    assert_eq!(ids, vec!["qty=1", "qty=2"]);
    assert_eq!(results[0].1.fills[0].qty, QtyLots(1));
    assert_eq!(results[1].1.fills[0].qty, QtyLots(2));
}

#[test]
fn returns_in_fixed_point_are_exact() {
    let r = simple_returns::<Ratio>(&[Cash(1_000), Cash(1_100), Cash(990)]);
    assert_eq!(r, vec![Ratio::from_percent(10), Ratio::from_percent(-10)]);
}

fn scored() -> SweepReport<Ratio> {
    let candidates = [3i64].map(|q| Candidate {
        id: "size\t3".to_string(),
        build: move || buyer(q),
    });
    let results = sweep(&config(10_000), &candidates, &falling(12));
    SweepReport {
        results,
        equity_every: 5,
        deflated_sharpe: Ok(Ratio::from_percent(40)),
        pbo: Ok(PboReport {
            pbo: Ratio::from_percent(25),
            n_splits: 16,
            logits: vec![Ratio(-120_000_000), Ratio(1)],
            probability_of_loss: Ratio(30_000_000),
            median_oos_sharpe: Ratio(-1),
            performance_degradation: Ratio::from_percent(80),
        }),
        unscorable: vec!["too\nshort".to_string()],
        lookahead: Some((
            "size 3".to_string(),
            lookahead(&config(10_000), |_: &[Tick]| buyer(3), &falling(12), 5),
        )),
    }
}

#[test]
fn a_whole_sweep_reads_back_from_its_file() {
    let report = scored();
    let t = Thresholds::usual();
    let text = render("fixed\tpoint", &report, t, &vec![Some(Ratio(5))]);
    let f = SweepFile::<Ratio>::parse(&text).expect("reads");
    assert_eq!(f.label, "fixed point");
    assert_eq!(f.equity_every, 5);
    assert_eq!(
        f.thresholds,
        (t.max_pbo, t.min_deflated_sharpe, t.min_degradation_slope)
    );
    assert_eq!(f.deflated_sharpe, Ok(Ratio::from_percent(40)));
    let p = f.pbo.expect("scored");
    assert_eq!((p.pbo, p.splits), (Ratio::from_percent(25), 16));
    assert_eq!(p.logits, vec![Ratio(-120_000_000), Ratio(1)]);
    assert_eq!(p.median_oos_sharpe, Ratio(-1));
    assert_eq!(f.refusals.len(), 1, "the deflated ratio is too low");
    assert_eq!(f.configs.len(), 1);
    assert_eq!(f.configs[0].label, "size 3");
    assert_eq!(f.configs[0].fills, 1);
    assert_eq!(f.configs[0].sharpe, Some(Ratio(5)));
    assert_eq!(
        f.configs[0].final_equity,
        Ratio(report.results[0].1.final_equity.0)
    );
    assert_eq!(f.unscorable, vec!["too short"]);
    assert_eq!(
        f.lookahead,
        Some(("size 3".to_string(), "clean over 1 signal(s)".to_string()))
    );
}

#[test]
fn a_line_that_cannot_be_read_is_named_by_its_number() {
    let parse = |text: &str| SweepFile::<Ratio>::parse(text).expect_err("refused");
    assert_eq!(parse(""), "empty");
    assert_eq!(
        parse("openquanter-sweep 2\n"),
        "not a sweep file this build reads: \"openquanter-sweep 2\""
    );
    let cases = [
        ("equity-every x", "line 2: equity-every is not a number"),
        ("thresholds 1 2", "line 2: min slope is not a number"),
        ("deflated-sharpe ?", "line 2: deflated sharpe is not a number"),
        ("pbo 1 x", "line 2: splits is not a number"),
        ("logits 1 ?", "line 2: logit is not a number"),
        ("config a\tb", "line 2: a config row has 8 fields, this has 2"),
        ("config a\tb\t1\t1\t1\t1\t1\t-", "line 2: fills is not a number"),
        ("other 1", "line 2: unknown line \"other\""),
    ];
    for (line, words) in cases {
        assert_eq!(parse(&format!("openquanter-sweep 1\n{line}\n")), words);
    }
    let bare = SweepFile::<Ratio>::parse("openquanter-sweep 1\n\n").expect("reads");
    assert_eq!(bare.deflated_sharpe, Err("not recorded".to_string()));
}

#[test]
fn each_refusal_carries_its_numbers() {
    let t: Thresholds<Ratio> = Thresholds::usual();
    let words: Vec<String> = [
        Refusal::Overfit {
            pbo: Ratio::from_percent(48),
            limit: t.max_pbo,
        },
        Refusal::NoInformation {
            slope: Ratio(0),
            limit: Ratio(0),
        },
        Refusal::Deflated {
            value: Ratio::from_percent(20),
            limit: t.min_deflated_sharpe,
        },
        Refusal::Unscored {
            statistic: "pbo",
            why: "too short".to_string(),
        },
    ]
    .iter()
    .map(Refusal::to_text)
    .collect();
    assert!(words[0].contains("0.480") && words[0].contains("0.350"));
    assert!(words[1].contains("slope 0.000, at or below 0.000"));
    assert!(words[2].contains("0.200, below the limit of 0.950"));
    assert!(words[3].starts_with("pbo could not be computed (too short);"));
}

#[test]
fn each_reason_a_comparison_is_unusable_has_its_words() {
    assert_eq!(
        Unusable::TooFewSamples { have: 9, need: 20 }.to_text(),
        "9 paired return samples cannot support a quantile needing 20"
    );
    assert_eq!(
        Unusable::DifferentRuns {
            enforced: 1,
            ignored: 2
        }
        .to_text(),
        "the arms saw different ticks (1 vs 2); they are not two arms of one experiment"
    );
    assert!(Unusable::NoEquityCurve.to_text().contains("equity_every"));
    assert!(Unusable::NoStartingBalance.to_text().contains("starting balance"));
}

#[test]
fn participation_in_fixed_point_is_exact() {
    let ticks: Vec<Tick> = (0..11)
        .map(|i| Tick::trades_only(Stamp::synthetic(i), 100, 100, 100).with_volume(i * 100))
        .collect();
    let fill = Fill {
        stamp: Stamp::synthetic(7),
        instrument: InstrumentId::new(1),
        order: OrderId(1),
        trade: TradeId(1),
        side: Side::Buy,
        offset: Offset::Open,
        price: PriceTicks(100),
        qty: QtyLots(50),
        liquidity: Liquidity::Taker,
    };
    match participation::<Ratio>(&vec![fill], &ticks, 5) {
        Participation::Measured {
            overall,
            peak,
            peak_window,
            window,
        } => {
            assert_eq!(overall, Ratio::from_percent(5));
            assert_eq!((peak_window, window), (1, 5));
            assert!(peak.exceeds(overall));
        }
        other => panic!("measurable: {other:?}"),
    }
    assert_eq!(default_threshold::<Ratio>(), Ratio::from_percent(1));
}

#[test]
fn a_figure_writes_itself_with_any_number_of_places() {
    let x = Ratio(-123_456_789);
    assert_eq!(x.to_plain(), "-1.23456789");
    assert_eq!(x.to_fixed(3), "-1.235");
    assert_eq!(x.to_fixed(0), "-1");
    assert_eq!(Ratio::read("-1.23456789"), Some(x));
    assert_eq!(Ratio::read("x"), None);
    for raw in [0, 1, -1, 99_999_999, 100_000_000, i64::MAX, i64::MIN + 1] {
        assert_eq!(Ratio::read(&Ratio(raw).to_plain()), Some(Ratio(raw)));
    }
}

#[test]
fn funding_that_falls_due_is_paid() {
    let rate = FundingRate::new(Nanos(2), Ratio::from_ppm(100), PriceTicks(1_000_000));
    let flat: Vec<Tick> = (0..4).map(|i| tick_at(i, 1_000_000, 1_000_000, 1_000_000)).collect();
    let funded = config(10_000).with_funding(FundingSchedule::new(vec![rate]));
    let r = run(&funded, &mut buyer(10), &flat);
    // 0.01% of 1000.
    assert_eq!(r.funding_paid, Cash(-10_000_000));
    assert_eq!(run(&config(10_000), &mut buyer(10), &flat).funding_paid, Cash(0));
}

/// Sells what it bought as soon as it is told of the fill, and counts what it
/// is told.
struct Flipper {
    told: Vec<&'static str>,
    asked: u64,
}

impl Strategy for Flipper {
    fn on_tick(&mut self, ctx: &Context, out: &mut Vec<Intent>) {
        self.told.push("tick");
        if ctx.position.is_zero() && ctx.working == 0 && self.asked < 6 {
            self.asked += 1;
            out.push(Intent::market(OrderId::new(self.asked), Side::Buy, QtyLots(1)));
        }
    }
    fn on_fill(&mut self, fill: &Fill, _ctx: &Context, out: &mut Vec<Intent>) {
        self.told.push("fill");
        if fill.side == Side::Buy {
            self.asked += 1;
            out.push(Intent::market(OrderId::new(self.asked), Side::Sell, QtyLots(1)).closing());
        }
    }
    fn on_ended(&mut self, _id: OrderId, _ending: Ending, _out: &mut Vec<Intent>) {
        self.told.push("ended");
    }
    fn on_placed(&mut self, _id: OrderId, _accepted: bool) {
        self.told.push("placed");
    }
    fn name(&self) -> &str {
        "flipper"
    }
}

fn flipper() -> Flipper {
    Flipper {
        told: Vec::new(),
        asked: 0,
    }
}

#[test]
fn a_strategy_is_told_its_fills_then_the_endings_then_the_tick() {
    let mut s = flipper();
    let ticks = falling(4);
    run(&config(10_000), &mut s, &ticks);
    assert_eq!(
        s.told,
        vec![
            "tick", "placed", "fill", "ended", "tick", "placed", "fill", "ended", "tick", "placed",
            "fill", "ended", "tick", "placed",
        ]
    );
}

#[test]
fn a_strategy_that_acts_on_its_fills_repeats_and_is_clean() {
    let ticks = falling(12);
    let a = run(&config(10_000), &mut flipper(), &ticks);
    let b = run(&config(10_000), &mut flipper(), &ticks);
    assert!(a.fills.len() > 3);
    assert_eq!(a, b);
    let report = lookahead(&config(10_000), |_: &[Tick]| flipper(), &ticks, 3);
    assert!(report.clean());
    assert_eq!(report.checked, 3);
    assert!(report.sampled());
}

#[test]
fn the_returns_of_the_scored_are_picked_in_order() {
    let ticks = falling(9);
    let cfg = config(10_000).sampling_equity_every(3);
    let results: Vec<_> = (1..4)
        .map(|q| (format!("q{q}"), run(&cfg, &mut buyer(q), &ticks)))
        .collect();
    let columns = scored_returns::<Ratio>(&results, &vec![true, false, true]);
    assert_eq!(columns.len(), 2);
    assert_eq!(columns[0], simple_returns::<Ratio>(&results[0].1.equity_curve));
    assert_eq!(columns[1], simple_returns::<Ratio>(&results[2].1.equity_curve));
    assert!(scored_returns::<Ratio>(&results, &vec![false, false, false]).is_empty());
}

#[test]
fn an_amount_in_a_line_is_the_figure_s_own() {
    let calm = DeviationReport::compare(&config(10_000), || buyer(1), &falling(3));
    let line = calm.summary_line::<Ratio>();
    let equity = Ratio(calm.enforced.final_equity.0).to_fixed(2);
    assert!(line.contains(&format!("(final equity {equity})")), "{line}");
}

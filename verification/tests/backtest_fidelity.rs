use openquanter::backtest::fidelity::{
    quantile, stress, tail_divergence, Unusable, Window,
};
use openquanter::backtest::figure::Figure;
use openquanter::backtest::run::{Liquidation, MarginUsage, RunResult};
use openquanter::types::{Cash, Nanos, PriceTicks, QtyLots};

/// A double as a figure.
#[derive(Clone, Copy, Debug, PartialEq)]
struct X(f64);

impl Figure for X {
    fn lemma_writes_back(self) {}

    fn ratio(num: i64, den: i64) -> Self {
        X(num as f64 / den as f64)
    }

    fn undefined() -> Self {
        X(f64::NAN)
    }

    fn minus(self, other: Self) -> Self {
        X(self.0 - other.0)
    }

    fn plus(self, other: Self) -> Self {
        X(self.0 + other.0)
    }

    fn over(self, n: usize) -> Self {
        X(self.0 / n as f64)
    }

    fn share_of(self, whole: Self) -> Self {
        X(self.0 / whole.0)
    }

    fn percent(self) -> Self {
        X(self.0 * 100.0)
    }

    fn is_finite(self) -> bool {
        self.0.is_finite()
    }

    fn exceeds(self, other: Self) -> bool {
        self.0 > other.0
    }

    fn within(self, other: Self) -> bool {
        self.0 <= other.0
    }

    fn equals(self, other: Self) -> bool {
        self.0 == other.0
    }

    fn precedes(self, other: Self) -> bool {
        self.0.total_cmp(&other.0).is_le()
    }

    fn samples(self) -> usize {
        (1.0 / self.0).ceil() as usize
    }

    fn place(self, n: usize) -> usize {
        (self.0.clamp(0.0, 1.0) * n as f64).ceil() as usize
    }

    fn to_fixed(self, places: u32) -> String {
        format!("{:.*}", places as usize, self.0)
    }

    fn to_plain(self) -> String {
        self.0.to_string()
    }

    fn read(text: &str) -> Option<Self> {
        text.parse().ok().map(X)
    }
}

fn result(curve: &[i64], liquidations: usize, ticks: usize) -> RunResult {
    let mut r = RunResult {
        strategy: "t".into(),
        fills: Vec::new(),
        liquidations: Vec::new(),
        ticks,
        final_equity: Cash(*curve.last().unwrap_or(&0)),
        realized: Cash(0),
        funding_paid: Cash(0),
        fees_paid: Cash(0),
        min_equity: Cash(curve.iter().copied().min().unwrap_or(0)),
        equity_curve: curve.iter().map(|&c| Cash(c)).collect(),
        max_adverse_ticks: 0,
        margin_usage: MarginUsage::NotTracked,
        tier: "L0",
        depth_applied: 0,
        depth_refused: 0,
        depth_unused: 0,
    };
    for _ in 0..liquidations {
        r.liquidations.push(Liquidation {
            at: Nanos(0),
            price: PriceTicks(0),
            qty: QtyLots(0),
            equity: Cash(0),
        });
    }
    r
}

/// The whole report rests on the arms being the same experiment. Two
/// runs over different data produce a perfectly plausible-looking
/// divergence that measures nothing at all, so this is refused
/// rather than reported.
#[test]
fn two_runs_over_different_ticks_are_not_a_comparison() {
    let a = result(&[100; 200], 0, 500);
    let b = result(&[100; 200], 0, 501);
    assert_eq!(
        tail_divergence(&a, &b, &[X(0.05)]),
        Err(Unusable::DifferentRuns {
            enforced: 500,
            ignored: 501
        })
    );
}

/// A quantile below `1/n` cannot land on an observation, so it would
/// silently return the minimum for every such q — reporting the 1st
/// and the 0.1th percentile as the same number and hiding that the
/// data could not tell them apart.
#[test]
fn a_quantile_finer_than_the_data_is_refused_rather_than_rounded() {
    let curve: Vec<i64> = (0..20).map(|i| 100 + i).collect();
    let a = result(&curve, 0, 10);
    let b = result(&curve, 0, 10);
    assert_eq!(
        tail_divergence(&a, &b, &[X(0.01)]),
        Err(Unusable::TooFewSamples {
            have: 19,
            need: 100
        })
    );
    // The same data supports a coarser quantile.
    assert!(tail_divergence(&a, &b, &[X(0.10)]).is_ok());
}

/// Identical arms are the honest answer that the overlay never bit
/// on this data, not evidence that margin does not matter.
#[test]
fn arms_that_never_diverge_report_no_divergence() {
    let curve: Vec<i64> = (0..50).map(|i| 1000 + i * 3).collect();
    let a = result(&curve, 0, 100);
    let b = result(&curve, 0, 100);
    let f = tail_divergence(&a, &b, &[X(0.05), X(0.25)]).expect("comparable");
    assert_eq!(f.diverged_at, None);
    assert!(!f.margin_free_traded_a_dead_account());
    assert_eq!(f.terminal_overstatement, Cash(0));
    for p in &f.tail {
        assert_eq!(p.overstatement(), X(0.0), "identical arms cannot differ");
    }
}

/// The point of the whole module: the arms agree, then the venue
/// closes the account, and from there the margin-free arm is
/// describing a position that could not have been held.
///
/// The fixture matters. Liquidation happens when maintenance margin
/// is breached, which is *above* zero equity — so the realistic
/// shape is an enforced arm that goes to zero while the margin-free
/// arm merely dips and recovers. That is precisely the case a
/// margin-free backtest reports as a profitable strategy.
#[test]
fn liquidation_is_where_the_arms_stop_being_the_same_account() {
    let mut enforced = Vec::new();
    let mut ignored = Vec::new();
    for i in 0..40i64 {
        // Both fall together for 25 samples.
        let fall = 1000 - i * 38;
        enforced.push(if i < 26 { fall.max(0) } else { 0 });
        // The margin-free arm bottoms out just above zero and then
        // recovers past where it started — the strategy "works", as
        // long as nobody closes the position at the bottom.
        ignored.push(if i < 26 {
            fall.max(20)
        } else {
            20 + (i - 25) * 130
        });
    }

    let a = result(&enforced, 1, 100);
    let b = result(&ignored, 0, 100);
    let f = tail_divergence(&a, &b, &[X(0.10)]).expect("comparable");

    assert!(
        f.margin_free_traded_a_dead_account(),
        "the enforced arm was liquidated; that is the fact the report exists to state"
    );
    assert!(
        f.terminal_overstatement.0 > 0,
        "the margin-free arm claims equity the real account never had, got {:?}",
        f.terminal_overstatement
    );
    // `returns` ends a series at zero equity, so the enforced arm's
    // stops where the account did while the margin-free arm's runs
    // on. That gap is the pairing boundary.
    assert!(
        f.paired_until < f.ignored.returns.len(),
        "pairing must end where the account did: paired_until={} ignored has {}",
        f.paired_until,
        f.ignored.returns.len()
    );
    assert!(
        f.diverged_at.is_some(),
        "arms that end at different equities must have diverged somewhere"
    );
}

/// The most damning case is the one the return series cannot show:
/// a margin-free arm whose equity goes *negative*. `returns` ends
/// the series there, so the tail statistics quietly stop before the
/// worst of it — and the report would understate the error if the
/// terminal number were derived from the same truncated series.
/// It is not; it comes from the runs' final equity.
#[test]
fn negative_equity_is_still_caught_even_though_returns_stops_at_it() {
    let enforced: Vec<i64> = (0..30)
        .map(|i| if i < 20 { 1000 - i * 50 } else { 0 })
        .collect();
    let ignored: Vec<i64> = (0..30).map(|i| 1000 - i * 60).collect(); // ends deeply negative

    let f = tail_divergence(&result(&enforced, 1, 50), &result(&ignored, 0, 50), &[X(0.25)])
        .expect("comparable");

    assert!(f.margin_free_traded_a_dead_account());
    assert!(
        f.terminal_overstatement.0 < 0,
        "here the margin-free arm ends *below* the closed account, and the report \
         must say so rather than assuming the error only ever runs one way: got {:?}",
        f.terminal_overstatement
    );
}

/// Nearest rank, not interpolation — the reported tail number has to
/// be one the account actually experienced.
#[test]
fn a_reported_quantile_is_an_observation_and_not_an_average_of_two() {
    let xs = vec![X(-0.5), X(-0.1), X(0.0), X(0.2), X(0.4)];
    for q in [0.05, 0.2, 0.4, 0.6, 0.99] {
        let got = quantile(&xs, X(q));
        assert!(
            xs.contains(&got),
            "q={q} produced {got:?}, which is not an observation"
        );
    }
    assert_eq!(
        quantile(&xs, X(0.2)),
        X(-0.5),
        "the 20th percentile of 5 is the 1st"
    );
    assert_eq!(quantile(&xs, X(1.0)), X(0.4));
}

/// The headline number a reader wants is the worst point, and it has
/// to come from the same set that was reported.
#[test]
fn the_worst_point_is_one_of_the_reported_points() {
    let enforced: Vec<i64> = (0..40).map(|i| 1000 - i * 5).collect();
    let ignored: Vec<i64> = (0..40).map(|i| 1000 + i * 5).collect();
    let f = tail_divergence(
        &result(&enforced, 0, 10),
        &result(&ignored, 0, 10),
        &[X(0.05), X(0.10), X(0.25)],
    )
    .expect("comparable");
    let worst = f.worst_overstatement().expect("quantiles were requested");
    assert!(f.tail.contains(&worst));
    assert!(
        worst.overstatement().0 > 0.0,
        "a falling arm against a rising one must overstate"
    );
}

/// Asking for nothing is not an error, but it must not pretend to
/// have found a worst case.
#[test]
fn no_quantiles_means_no_worst_case() {
    let curve: Vec<i64> = (0..50).map(|i| 1000 + i).collect();
    let f = tail_divergence(&result(&curve, 0, 10), &result(&curve, 0, 10), &[] as &[X])
        .expect("comparable");
    assert!(f.tail.is_empty());
    assert_eq!(f.worst_overstatement(), None);
}

fn window(label: &str, enforced: f64, ignored: f64, liq: bool) -> Window<X> {
    Window {
        label: label.into(),
        enforced: X(enforced),
        ignored: X(ignored),
        liquidated: liq,
    }
}

/// The methodological claim of the whole report, stated as a test:
/// margin error is not spread across windows, it is carried by a
/// few. If this ever came out near 0.1 the mean would be an
/// adequate summary and the tail report would not need to exist.
#[test]
fn the_error_is_concentrated_in_a_few_windows_not_spread_over_all() {
    // Twenty quiet windows where the overlay never bit, and two
    // where the account was closed. This is the realistic shape:
    // almost every drawdown retraces, and the one that does not is
    // the one that ends the account.
    let mut ws: Vec<Window<X>> = (0..20)
        .map(|i| window(&format!("calm-{i}"), 0.02, 0.02, false))
        .collect();
    ws.push(window("crash-a", -0.98, 0.35, true));
    ws.push(window("crash-b", -0.99, 0.20, true));

    let r = stress(&ws, &[X(0.05), X(0.25), X(0.50)]).expect("22 windows support a 5th percentile");

    assert_eq!(r.windows, 22);
    assert_eq!(r.liquidated, 2);
    assert_eq!(r.overstated_windows(), 2, "only the crashes differ");

    let share = r
        .worst_decile_share
        .expect("there is overstatement to apportion");
    assert!(
        share.0 > 0.9,
        "the worst decile must carry nearly all of the error, got {share:?}"
    );

    // And the number a naive report would print is an order of
    // magnitude smaller than what any single affected window
    // actually lost, which is exactly the failure mode: averaging
    // turns two ruined accounts into a modest-looking bias.
    let worst_window = ws
        .iter()
        .map(|w| w.overstatement().0)
        .fold(f64::MIN, f64::max);
    assert!(
        r.mean_overstatement.0 * 10.0 < worst_window,
        "the mean ({}) has to be far smaller than the worst window ({worst_window}) \
         or averaging would not be hiding anything",
        r.mean_overstatement.0
    );
}

/// The tail is where the two arms visibly part; the median is where
/// they do not. Reporting both is what lets a reader see that the
/// difference is a tail property rather than a level shift.
#[test]
fn the_median_agrees_where_the_tail_does_not() {
    let mut ws: Vec<Window<X>> = (0..18)
        .map(|i| window(&format!("calm-{i}"), 0.01, 0.01, false))
        .collect();
    ws.push(window("crash-a", -0.95, 0.40, true));
    ws.push(window("crash-b", -0.90, 0.30, true));

    let r = stress(&ws, &[X(0.05), X(0.50)]).expect("20 windows");
    let p5 = r.tail.iter().find(|p| p.q == X(0.05)).expect("requested");
    let p50 = r.tail.iter().find(|p| p.q == X(0.50)).expect("requested");

    assert_eq!(
        p50.overstatement(),
        X(0.0),
        "the middle of the distribution agrees"
    );
    assert!(
        p5.overstatement().0 > 0.5,
        "the 5th percentile must show most of the gap, got {}",
        p5.overstatement().0
    );

    // The sharpest way to put it: the crash windows are in the
    // enforced arm's *left* tail and in the margin-free arm's
    // *right* tail. They are the same two windows. A margin-free
    // backtest does not merely understate the risk of these
    // windows — it files them under success.
    assert!(
        p5.enforced.0 < -0.5,
        "the crashes are the enforced arm's worst outcomes, got {}",
        p5.enforced.0
    );
    assert!(
        p5.ignored.0 > 0.0,
        "and they are nowhere near the margin-free arm's worst, got {}",
        p5.ignored.0
    );
    let best_ignored = ws.iter().map(|w| w.ignored.0).fold(f64::MIN, f64::max);
    assert!(
        ws.iter()
            .any(|w| w.liquidated && (w.ignored.0 - best_ignored).abs() < 1e-12),
        "the margin-free arm's best window must be one that liquidated the real account"
    );
}

/// A study with no liquidations is a real answer — margin did not
/// matter for this strategy on this data — and must not be dressed
/// up as one.
#[test]
fn a_study_where_the_overlay_never_bit_reports_nothing_rather_than_something() {
    let ws: Vec<Window<X>> = (0..10)
        .map(|i| {
            window(
                &format!("w-{i}"),
                0.03 - f64::from(i) * 0.01,
                0.03 - f64::from(i) * 0.01,
                false,
            )
        })
        .collect();
    let r = stress(&ws, &[X(0.10), X(0.50)]).expect("10 windows support a 10th percentile");
    assert_eq!(r.liquidated, 0);
    assert_eq!(r.mean_overstatement, X(0.0));
    assert_eq!(
        r.worst_decile_share, None,
        "with no error there is nothing to apportion, and 0/0 must not be reported as a share"
    );
}

/// Fewer windows than the quantile can land on is refused for the
/// same reason as within a run: a 1st percentile of nine windows is
/// the minimum wearing a percentile's name.
#[test]
fn a_study_too_small_for_the_quantile_is_refused() {
    let ws: Vec<Window<X>> = (0..9)
        .map(|i| window(&format!("w-{i}"), 0.0, 0.0, false))
        .collect();
    assert_eq!(
        stress(&ws, &[X(0.05)]),
        Err(Unusable::TooFewSamples { have: 9, need: 20 })
    );
    assert!(stress(&ws, &[X(0.5)]).is_ok());
}

/// A window return needs a denominator, and the two runs have to be
/// the same experiment — the same two refusals as within a run.
#[test]
fn a_window_will_not_be_built_from_incomparable_runs() {
    let a = result(&[100, 90], 0, 50);
    let b = result(&[100, 130], 0, 51);
    assert!(matches!(
        Window::<X>::of("w", Cash(100), &a, &b),
        Err(Unusable::DifferentRuns { .. })
    ));

    let b = result(&[100, 130], 0, 50);
    assert_eq!(
        Window::<X>::of("w", Cash(0), &a, &b),
        Err(Unusable::NoStartingBalance)
    );

    let w = Window::<X>::of("w", Cash(100), &a, &b).expect("comparable");
    assert_eq!(w.enforced, X(-0.1));
    assert_eq!(w.ignored, X(0.3));
    assert!((w.overstatement().0 - 0.4).abs() < 1e-12);
}

/// The decile has to be at least one window, or a small study would
/// report a share of nothing.
#[test]
fn the_worst_decile_of_a_small_study_is_still_a_window() {
    let mut ws: Vec<Window<X>> = (0..4)
        .map(|i| window(&format!("w-{i}"), 0.01, 0.01, false))
        .collect();
    ws.push(window("bad", -0.5, 0.5, true));
    let r = stress(&ws, &[X(0.5)]).expect("5 windows");
    assert_eq!(
        r.worst_decile_share,
        Some(X(1.0)),
        "one window carries all of it"
    );
}

/// The point of `given_liquidation`: adding calm windows changes the
/// mean and the decile share, and must not change it. A statistic
/// that moves when you pad the study with irrelevant data cannot be
/// quoted on its own, and this one can.
#[test]
fn the_conditional_statistic_does_not_move_when_the_mix_does() {
    let crashes = vec![
        window("crash-a", -0.95, 0.40, true),
        window("crash-b", -0.90, 0.30, true),
    ];

    let mut lean = crashes.clone();
    lean.extend((0..8).map(|i| window(&format!("calm-{i}"), 0.01, 0.01, false)));

    let mut padded = crashes;
    padded.extend((0..98).map(|i| window(&format!("calm-{i}"), 0.01, 0.01, false)));

    let a = stress(&lean, &[X(0.5)]).expect("10 windows");
    let b = stress(&padded, &[X(0.5)]).expect("100 windows");

    assert_eq!(
        a.given_liquidation, b.given_liquidation,
        "the conditional statistic must survive padding the study"
    );
    assert!(
        b.mean_overstatement.0 * 5.0 < a.mean_overstatement.0,
        "whereas the mean collapses: {} vs {}",
        b.mean_overstatement.0,
        a.mean_overstatement.0
    );

    let (real, claimed) = a.given_liquidation.expect("two windows liquidated");
    assert!(
        real.0 < -0.9 && claimed.0 > 0.3,
        "got real {real:?}, claimed {claimed:?}"
    );
}

/// No liquidation means there is no conditional statistic, and
/// reporting a zero would read as "the margin-free run was right"
/// rather than "the question did not arise".
#[test]
fn no_liquidation_means_no_conditional_statistic() {
    let ws: Vec<Window<X>> = (0..10)
        .map(|i| window(&format!("w-{i}"), 0.01, 0.01, false))
        .collect();
    assert_eq!(stress(&ws, &[X(0.5)]).expect("10").given_liquidation, None);
}

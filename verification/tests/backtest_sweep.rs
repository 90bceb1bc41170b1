use openquanter::backtest::figure::Figure;
use openquanter::backtest::sweep::{
    rectangle, simple_returns, PboReport, Refusal, SweepReport, Thresholds,
};
use openquanter::types::Cash;

/// A double as a figure.
#[derive(Clone, Copy, Debug, PartialEq)]
struct X(f64);

impl Figure for X {
    fn lemma_writes_back(self) {}

    fn ratio(num: i64, den: i64) -> Self {
        X(num as f64 / den as f64)
    }

    fn undefined() -> Self {
        X(f64::NAN)
    }

    fn minus(self, other: Self) -> Self {
        X(self.0 - other.0)
    }

    fn plus(self, other: Self) -> Self {
        X(self.0 + other.0)
    }

    fn over(self, n: usize) -> Self {
        X(self.0 / n as f64)
    }

    fn share_of(self, whole: Self) -> Self {
        X(self.0 / whole.0)
    }

    fn percent(self) -> Self {
        X(self.0 * 100.0)
    }

    fn is_finite(self) -> bool {
        self.0.is_finite()
    }

    fn exceeds(self, other: Self) -> bool {
        self.0 > other.0
    }

    fn within(self, other: Self) -> bool {
        self.0 <= other.0
    }

    fn equals(self, other: Self) -> bool {
        self.0 == other.0
    }

    fn precedes(self, other: Self) -> bool {
        self.0.total_cmp(&other.0).is_le()
    }

    fn samples(self) -> usize {
        (1.0 / self.0).ceil() as usize
    }

    fn place(self, n: usize) -> usize {
        (self.0.clamp(0.0, 1.0) * n as f64).ceil() as usize
    }

    fn to_fixed(self, places: u32) -> String {
        format!("{:.*}", places as usize, self.0)
    }

    fn to_plain(self) -> String {
        self.0.to_string()
    }

    fn read(text: &str) -> Option<Self> {
        text.parse().ok().map(X)
    }
}

fn figures(xs: &[f64]) -> Vec<X> {
    xs.iter().copied().map(X).collect()
}

#[test]
fn returns_are_simple_and_come_from_consecutive_samples() {
    let curve = vec![Cash(1000), Cash(1100), Cash(990)];
    let r = simple_returns::<X>(&curve);
    assert_eq!(r.len(), 2, "n samples give n-1 returns");
    assert!((r[0].0 - 0.1).abs() < 1e-12, "{:?}", r[0]);
    assert!((r[1].0 + 0.1).abs() < 1e-12, "{:?}", r[1]);
}

#[test]
fn a_curve_reaching_zero_ends_the_series_there() {
    // An account at zero has been liquidated. A return computed
    // through that point describes a position nobody could have held,
    // and dividing by it is an infinity that poisons every statistic
    // downstream.
    let curve = vec![Cash(1000), Cash(0), Cash(500)];
    let r = simple_returns::<X>(&curve);
    assert_eq!(r.len(), 1, "stops at the zero: {r:?}");
    assert!((r[0].0 + 1.0).abs() < 1e-12, "and records the total loss");
}

#[test]
fn a_curve_of_one_sample_yields_no_returns_rather_than_a_zero() {
    // A spurious zero return would be a data point that says the
    // account did not move, which is not what one sample means.
    assert!(simple_returns::<X>(&[Cash(1000)]).is_empty());
    assert!(simple_returns::<X>(&[]).is_empty());
}

#[test]
fn pbo_refuses_a_sweep_too_short_to_split() {
    // Sixteen blocks need thirty-two periods. Reporting a number from
    // fewer would be reporting a split that did not happen.
    let columns = vec![vec![X(0.01); 10], vec![X(0.02); 10]];
    let err = rectangle(&columns).expect_err("too short");
    assert!(err.contains("10 sampled returns"), "{err}");
    assert!(err.contains("32 are needed"), "{err}");
}

#[test]
fn pbo_refuses_a_single_configuration() {
    // Overfitting is a statement about a choice among alternatives.
    // With one candidate there was no choice, so there is nothing to
    // measure and saying zero would be the wrong answer.
    let err = rectangle(&vec![vec![X(0.01); 100]]).expect_err("one config");
    assert!(err.contains("fewer than two"), "{err}");
}

#[test]
fn pbo_cuts_columns_to_the_shortest_rather_than_padding() {
    // Padding would invent returns, and inventing them in the input to
    // an overfitting measure is the least acceptable place for it.
    let a: Vec<f64> = (0..100).map(|i| 0.01 * f64::from(i % 7) - 0.02).collect();
    let b: Vec<f64> = (0..60).map(|i| 0.01 * f64::from(i % 5) - 0.01).collect();
    let got = rectangle(&vec![figures(&a), figures(&b)]);
    assert!(got.is_ok(), "60 is enough for 16 blocks: {got:?}");
    let cut = got.expect("cut");
    assert_eq!(cut[0], figures(&a[..60]));
    assert_eq!(cut[1], figures(&b));
}

/// A report with a given PBO and a slope that passes, so a test
/// about one threshold is not silently also about the other.
fn report(pbo: Result<f64, String>, dsr: Result<f64, String>) -> SweepReport<X> {
    with_slope(pbo, dsr, 1.0)
}

fn with_slope(pbo: Result<f64, String>, dsr: Result<f64, String>, slope: f64) -> SweepReport<X> {
    SweepReport {
        results: Vec::new(),
        equity_every: 1,
        deflated_sharpe: dsr.map(X),
        pbo: pbo.map(|p| PboReport {
            pbo: X(p),
            n_splits: 16,
            logits: vec![X(0.0); 16],
            probability_of_loss: X(0.0),
            median_oos_sharpe: X(0.0),
            performance_degradation: X(slope),
        }),
        unscorable: Vec::new(),
        lookahead: None,
    }
}

#[test]
fn a_flat_slope_is_refused_even_when_the_pbo_passes() {
    let r = with_slope(Ok(0.05), Ok(0.99), 0.0);
    let refusals = r.refusals(Thresholds::usual());
    assert!(
        refusals
            .iter()
            .any(|x| matches!(x, Refusal::NoInformation { .. })),
        "a zero slope was accepted: {refusals:?}"
    );
}

/// Failing both reports both.
///
/// Made two arms of one `match`, these would report only the PBO and
/// the slope would go unmentioned.
#[test]
fn a_sweep_failing_the_pbo_and_the_slope_is_refused_on_both() {
    let r = with_slope(Ok(0.9), Ok(0.99), -0.9);
    let refusals = r.refusals(Thresholds::usual());
    assert!(
        refusals
            .iter()
            .any(|x| matches!(x, Refusal::Overfit { .. }))
    );
    assert!(
        refusals
            .iter()
            .any(|x| matches!(x, Refusal::NoInformation { .. })),
        "only one of two failures was reported: {refusals:?}"
    );
}

/// And a positive slope does not add a refusal of its own.
#[test]
fn a_positive_slope_is_not_refused() {
    let r = with_slope(Ok(0.05), Ok(0.99), 0.4);
    assert!(r.refusals(Thresholds::usual()).is_empty());
}

#[test]
fn a_sweep_that_clears_both_thresholds_is_deployable() {
    let r = report(Ok(0.10), Ok(0.99));
    assert_eq!(r.refusals(Thresholds::usual()), Vec::new());
    assert!(r.deployable(Thresholds::usual()));
}

/// **The point of the mode.** Marking a number and leaving it there
/// is what every tool already does; the refusal is the part that
/// changes what happens next.
#[test]
fn an_overfit_sweep_is_refused_and_the_reason_carries_the_numbers() {
    let r = report(Ok(0.48), Ok(0.99));
    let refusals = r.refusals(Thresholds::usual());
    assert_eq!(refusals.len(), 1);
    assert!(matches!(refusals[0], Refusal::Overfit { .. }));
    assert!(!r.deployable(Thresholds::usual()));

    let text = refusals[0].to_text();
    assert!(text.contains("0.480") && text.contains("0.350"), "{text}");
    assert!(text.contains("own noise"), "{text}");
}

#[test]
fn an_unscored_sweep_is_refused_rather_than_passed() {
    let r = report(Err("too few configurations".into()), Ok(0.99));
    let refusals = r.refusals(Thresholds::usual());
    assert_eq!(refusals.len(), 1);
    assert!(matches!(refusals[0], Refusal::Unscored { .. }));
    assert!(!r.deployable(Thresholds::usual()));
    assert!(
        refusals[0]
            .to_text()
            .contains("not a sweep that scored well"),
        "{:?}",
        refusals[0]
    );
}

/// Both failures are reported. Fixing the first only to be told
/// about the second wastes the run it takes to find out, and a sweep
/// is not a cheap thing to repeat.
#[test]
fn a_sweep_that_fails_on_both_says_so_on_both() {
    let r = report(Ok(0.60), Ok(0.20));
    assert_eq!(r.refusals(Thresholds::usual()).len(), 2);
}

#[test]
fn a_caller_who_disagrees_changes_the_number_not_the_check() {
    let r = report(Ok(0.48), Ok(0.99));
    assert!(!r.deployable(Thresholds::usual()));
    assert!(r.deployable(Thresholds {
        max_pbo: X(0.50),
        ..Thresholds::usual()
    }));
}

/// Exactly at the limit passes. A boundary that refused its own
/// stated threshold would make the number in the documentation wrong
/// by one representable step.
#[test]
fn the_limit_itself_is_acceptable() {
    let t: Thresholds<X> = Thresholds::usual();
    let r = report(Ok(t.max_pbo.0), Ok(t.min_deflated_sharpe.0));
    assert!(r.deployable(t), "{:?}", r.refusals(t));
}

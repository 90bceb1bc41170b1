use openquanter::backtest::figure::Figure;
use openquanter::backtest::sweep::{SweepReport, Thresholds};
use openquanter::backtest::sweep_file::{render, SweepFile};

/// A double as a figure.
#[derive(Clone, Copy, Debug, PartialEq)]
struct X(f64);

impl Figure for X {
    fn lemma_writes_back(self) {}

    fn ratio(num: i64, den: i64) -> Self {
        X(num as f64 / den as f64)
    }

    fn undefined() -> Self {
        X(f64::NAN)
    }

    fn minus(self, other: Self) -> Self {
        X(self.0 - other.0)
    }

    fn plus(self, other: Self) -> Self {
        X(self.0 + other.0)
    }

    fn over(self, n: usize) -> Self {
        X(self.0 / n as f64)
    }

    fn share_of(self, whole: Self) -> Self {
        X(self.0 / whole.0)
    }

    fn percent(self) -> Self {
        X(self.0 * 100.0)
    }

    fn is_finite(self) -> bool {
        self.0.is_finite()
    }

    fn exceeds(self, other: Self) -> bool {
        self.0 > other.0
    }

    fn within(self, other: Self) -> bool {
        self.0 <= other.0
    }

    fn equals(self, other: Self) -> bool {
        self.0 == other.0
    }

    fn precedes(self, other: Self) -> bool {
        self.0.total_cmp(&other.0).is_le()
    }

    fn samples(self) -> usize {
        (1.0 / self.0).ceil() as usize
    }

    fn place(self, n: usize) -> usize {
        (self.0.clamp(0.0, 1.0) * n as f64).ceil() as usize
    }

    fn to_fixed(self, places: u32) -> String {
        format!("{:.*}", places as usize, self.0)
    }

    fn to_plain(self) -> String {
        self.0.to_string()
    }

    fn read(text: &str) -> Option<Self> {
        text.parse().ok().map(X)
    }
}

#[test]
fn a_rendered_sweep_reads_back_whole_including_what_could_not_be_computed() {
    let report = SweepReport {
        results: Vec::new(),
        equity_every: 50,
        deflated_sharpe: Ok(X(0.42)),
        pbo: Err("fewer than two configurations scored".into()),
        unscorable: vec!["fast=1\tslow=2".into()],
        lookahead: None,
    };
    let text = render("demo", &report, Thresholds::usual(), &Vec::new());
    let f = SweepFile::<X>::parse(&text).expect("reads");
    assert_eq!(f.label, "demo");
    assert_eq!(f.equity_every, 50);
    assert_eq!(f.deflated_sharpe, Ok(X(0.42)));
    assert_eq!(f.pbo, Err("fewer than two configurations scored".into()));
    assert_eq!(
        f.unscorable,
        vec!["fast=1 slow=2".to_string()],
        "a tab cannot break a line"
    );
    assert!(
        !f.refusals.is_empty(),
        "an unscored PBO and a low DSR are refusals: {text}"
    );
    assert!(SweepFile::<X>::parse("openquanter-run 1\n").is_err());
    assert!(SweepFile::<X>::parse("openquanter-sweep 1\nconfig a\tb\n").is_err());
}

#[test]
fn a_report_and_its_file_can_be_kept_aside() {
    let report = SweepReport {
        results: Vec::new(),
        equity_every: 50,
        deflated_sharpe: Ok(X(0.42)),
        pbo: Err("fewer than two configurations scored".into()),
        unscorable: vec!["slow".into()],
        lookahead: None,
    };
    let text = render("demo", &report.clone(), Thresholds::usual(), &Vec::new());
    assert_eq!(text, render("demo", &report, Thresholds::usual(), &Vec::new()));
    let f = SweepFile::<X>::parse(&text).expect("reads");
    assert_eq!(f.clone(), f);
}
